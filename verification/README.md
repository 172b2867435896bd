# final_project

Two small programs and the verified library they share.

* `src/` — the library, verified with Verus:
  * `text` — splitting a line at whitespace, and the syntax of unsigned
    integer and floating-point literals;
  * `pgm` — reading the lines of an ASCII PGM (`P2`) greymap image;
  * `threshold` — random sampling of pixels, the integer passes of iterative
    threshold selection, and binary segmentation;
  * `pbm` — rendering a binary image as a plain PBM (`P1`) file;
  * `game` — the rules that decide, frame by frame, what runs in the flying
    game (start on the first space press, game over at the first collision).
* `app/` — the programs: `main.rs` segments a PGM file (file I/O and the
  floating-point threshold arithmetic), and `flappy.rs` is the Bevy/Rapier
  game, which asks the library's `game` rules what to run.
* `tests/` — tests of the library on concrete values.
