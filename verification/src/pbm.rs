//! Rendering of a binary image in the plain PBM (`P1`) format.

use vstd::prelude::*;

use crate::text::{all_digits, digits_value, is_digit, line_views, unsigned_digits, unsigned_literal};

verus! {

/// The ASCII digit for a value below ten.
pub open spec fn digit_byte(d: nat) -> u8
    recommends
        d < 10,
{
    (48 + d) as u8
}

/// The decimal representation of `n`, without leading zeros.
pub open spec fn decimal(n: nat) -> Seq<u8>
    decreases n,
{
    if n < 10 {
        seq![digit_byte(n)]
    } else {
        decimal(n / 10).push(digit_byte(n % 10))
    }
}

/// The character that stands for one pixel: `0` for a zero value, `1` for any other.
pub open spec fn bit_char(p: u8) -> u8 {
    if p == 0 {
        48u8
    } else {
        49u8
    }
}

/// The text written for the pixel at 1-based position `k` of a row-major image
/// `width` pixels wide: its bit and a space, and a line break after the last
/// pixel of each row.
pub open spec fn pixel_cell(p: u8, k: nat, width: nat) -> Seq<u8> {
    seq![bit_char(p), 32u8] + if k % width == 0 {
        seq![10u8]
    } else {
        Seq::<u8>::empty()
    }
}

/// The raster part of a plain PBM file: the cells of all pixels in order.
pub open spec fn raster_text(pixels: Seq<u8>, width: nat) -> Seq<u8>
    decreases pixels.len(),
{
    if pixels.len() == 0 {
        Seq::<u8>::empty()
    } else {
        raster_text(pixels.drop_last(), width) + pixel_cell(pixels.last(), pixels.len(), width)
    }
}

/// Each comment line followed by a line break.
pub open spec fn comment_text(comments: Seq<Seq<u8>>) -> Seq<u8>
    decreases comments.len(),
{
    if comments.len() == 0 {
        Seq::<u8>::empty()
    } else {
        comment_text(comments.drop_last()) + comments.last().push(10u8)
    }
}

/// A whole plain PBM file: the magic line `P1`, the comment lines, the line
/// with the width and the height, and the raster.
pub open spec fn pbm_text(width: nat, height: nat, pixels: Seq<u8>, comments: Seq<Seq<u8>>) -> Seq<u8> {
    seq![80u8, 49u8, 10u8] + comment_text(comments) + decimal(width) + seq![32u8] + decimal(height)
        + seq![10u8] + raster_text(pixels, width)
}

/// The number of bytes that a list of lines takes with a line break after each.
pub open spec fn line_bytes(lines: Seq<Seq<u8>>) -> nat
    decreases lines.len(),
{
    if lines.len() == 0 {
        0
    } else {
        line_bytes(lines.drop_last()) + lines.last().len() + 1
    }
}

/// The decimal text of a number reads back as that number: it is a non-empty
/// string of digits, without a leading zero unless the number is zero, that
/// the unsigned integer parsers read as `n`.
pub proof fn lemma_decimal_reads_back(n: nat)
    ensures
        decimal(n).len() >= 1,
        all_digits(decimal(n)),
        digits_value(decimal(n)) == n,
        unsigned_literal(decimal(n)) == Some(n),
        n > 0 ==> decimal(n)[0] != 48u8,
    decreases n,
{
    let d = decimal(n);
    assert(d.last() == digit_byte(n % 10));
    assert((digit_byte(n % 10) - 48) as nat == n % 10);
    if n < 10 {
        assert(d.drop_last() =~= Seq::<u8>::empty());
        assert(digits_value(d.drop_last()) == 0);
    } else {
        lemma_decimal_reads_back(n / 10);
        assert(d.drop_last() =~= decimal(n / 10));
        assert(n == (n / 10) * 10 + n % 10);
        assert(d[0] == decimal(n / 10)[0]);
        assert forall|i: int| 0 <= i < d.len() implies is_digit(#[trigger] d[i]) by {
            if i < d.len() - 1 {
                assert(d[i] == decimal(n / 10)[i]);
            }
        }
    }
    assert(unsigned_digits(d) == d);
}

/// Comment `k` stands in the comment text after the bytes of the lines
/// before it, followed by a line break.
spec fn comment_line_at(comments: Seq<Seq<u8>>, k: int) -> bool {
    let o: int = line_bytes(comments.take(k)) as int;
    &&& o + comments[k].len() < line_bytes(comments)
    &&& comment_text(comments).subrange(o, o + comments[k].len()) == comments[k]
    &&& comment_text(comments)[o + comments[k].len()] == 10u8
}

/// The comment text holds each comment line in order, each followed by a line
/// break: comment `k` starts after the bytes of the lines before it.
proof fn lemma_comment_text_lines(comments: Seq<Seq<u8>>)
    ensures
        comment_text(comments).len() == line_bytes(comments),
        forall|k: int|
            #![trigger comments[k]]
            0 <= k < comments.len() ==> comment_line_at(comments, k),
    decreases comments.len(),
{
    if comments.len() > 0 {
        let init = comments.drop_last();
        lemma_comment_text_lines(init);
        let t = comment_text(comments);
        let ti = comment_text(init);
        assert(t == ti + comments.last().push(10u8));
        assert forall|k: int| #![trigger comments[k]] 0 <= k < comments.len() implies comment_line_at(comments, k) by {
            let o: int = line_bytes(comments.take(k)) as int;
            if k == comments.len() - 1 {
                assert(comments.take(k) =~= init);
                assert(t.subrange(o, o + comments[k].len()) =~= comments[k]);
            } else {
                assert(comments.take(k) =~= init.take(k));
                assert(init[k] == comments[k]);
                assert(t.subrange(o, o + comments[k].len()) =~= ti.subrange(
                    o,
                    o + comments[k].len(),
                ));
                assert(t[o + comments[k].len()] == ti[o + comments[k].len()]);
            }
        }
    }
}

/// The size line of a rendered file reads back as the image's size: after
/// the line `P1` and the comment lines come the decimal digits of the width
/// (no sign, no leading zero), a space, those of the height and a line break.
pub proof fn lemma_size_line_reads_back(width: nat, height: nat, pixels: Seq<u8>, comments: Seq<Seq<u8>>)
    ensures
        ({
            let t = pbm_text(width, height, pixels, comments);
            let p: int = 3 + line_bytes(comments) as int;
            let q: int = p + decimal(width).len() as int;
            let r: int = q + 1 + decimal(height).len() as int;
            &&& t.take(3) == seq![80u8, 49u8, 10u8]
            &&& r < t.len()
            &&& is_digit(t[p]) && (width > 0 ==> t[p] != 48u8)
            &&& unsigned_literal(t.subrange(p, q)) == Some(width)
            &&& t[q] == 32u8
            &&& is_digit(t[q + 1]) && (height > 0 ==> t[q + 1] != 48u8)
            &&& unsigned_literal(t.subrange(q + 1, r)) == Some(height)
            &&& t[r] == 10u8
        }),
{
    lemma_decimal_reads_back(width);
    lemma_decimal_reads_back(height);
    lemma_comment_text_lines(comments);
    let t = pbm_text(width, height, pixels, comments);
    let c = comment_text(comments);
    let dw = decimal(width);
    let dh = decimal(height);
    let p: int = 3 + line_bytes(comments) as int;
    let q: int = p + dw.len() as int;
    let r: int = q + 1 + dh.len() as int;
    assert(t.take(3) =~= seq![80u8, 49u8, 10u8]);
    assert(t.subrange(p, q) =~= dw);
    assert(t.subrange(q + 1, r) =~= dh);
    assert(t[p] == dw[0]);
    assert(t[q + 1] == dh[0]);
}

/// What follows the comment lines in a rendered file.
spec fn size_and_raster(width: nat, height: nat, pixels: Seq<u8>) -> Seq<u8> {
    decimal(width) + seq![32u8] + decimal(height) + seq![10u8] + raster_text(pixels, width)
}

/// A rendered file is the line `P1`, the comment text, and the rest.
proof fn lemma_pbm_text_parts(width: nat, height: nat, pixels: Seq<u8>, comments: Seq<Seq<u8>>)
    ensures
        pbm_text(width, height, pixels, comments) == seq![80u8, 49u8, 10u8] + comment_text(comments)
            + size_and_raster(width, height, pixels),
{
    assert(pbm_text(width, height, pixels, comments) =~= seq![80u8, 49u8, 10u8] + comment_text(
        comments,
    ) + size_and_raster(width, height, pixels));
}

/// The bytes of the middle part of a concatenation stand after the first part.
proof fn lemma_text_in_file(head: Seq<u8>, mid: Seq<u8>, tail: Seq<u8>)
    ensures
        forall|x: int| 0 <= x < mid.len() ==> #[trigger] (head + mid + tail)[head.len() + x] == mid[x],
{
}

/// Each comment line appears in a rendered file unchanged and on a line of
/// its own: after `P1` and the comment lines before it, followed by a line break.
pub proof fn lemma_comment_lines_kept(
    width: nat,
    height: nat,
    pixels: Seq<u8>,
    comments: Seq<Seq<u8>>,
    k: int,
)
    requires
        0 <= k < comments.len(),
    ensures
        ({
            let t = pbm_text(width, height, pixels, comments);
            let o: int = 3 + line_bytes(comments.take(k)) as int;
            &&& o + comments[k].len() < t.len()
            &&& t.subrange(o, o + comments[k].len()) == comments[k]
            &&& t[o + comments[k].len()] == 10u8
        }),
{
    lemma_comment_text_lines(comments);
    assert(comment_line_at(comments, k));
    let t = pbm_text(width, height, pixels, comments);
    let c = comment_text(comments);
    let head = seq![80u8, 49u8, 10u8];
    let tail = size_and_raster(width, height, pixels);
    lemma_pbm_text_parts(width, height, pixels, comments);
    lemma_text_in_file(head, c, tail);
    let o: int = line_bytes(comments.take(k)) as int;
    assert(c.subrange(o, o + comments[k].len()) == comments[k]);
    assert(t.subrange(3 + o, 3 + o + comments[k].len()) =~= c.subrange(o, o + comments[k].len()));
    assert(t[3 + o + comments[k].len()] == c[o + comments[k].len()]);
}

/// Appends the decimal representation of `n` to `out`.
pub fn push_decimal(out: &mut Vec<u8>, n: usize)
    ensures
        final(out)@ == old(out)@ + decimal(n as nat),
    decreases n,
{
    if n >= 10 {
        push_decimal(out, n / 10);
    }
    let d: usize = n % 10;
    out.push(48u8 + (d as u8));
    proof {
        assert(old(out)@ + decimal(n as nat) =~= out@);
    }
}

/// Appends all bytes of `bytes` to `out`.
fn push_bytes(out: &mut Vec<u8>, bytes: &Vec<u8>)
    ensures
        final(out)@ == old(out)@ + bytes@,
{
    let ghost start = out@;
    let mut i: usize = 0;
    while i < bytes.len()
        invariant
            i <= bytes.len(),
            out@ == start + bytes@.take(i as int),
        decreases bytes.len() - i,
    {
        out.push(bytes[i]);
        i = i + 1;
        proof {
            assert(start + bytes@.take(i as int) =~= out@);
        }
    }
    proof {
        assert(bytes@.take(i as int) =~= bytes@);
    }
}

/// The plain PBM file for a binary image of `width` by `height` pixels, with
/// the given comment lines. Each pixel is written as `0` when its value is zero
/// and as `1` otherwise, followed by a space, and a line ends after every
/// `width` pixels.
pub fn render_pbm(width: usize, height: usize, pixels: &Vec<u8>, comments: &Vec<Vec<u8>>) -> (text: Vec<u8>)
    requires
        pixels.len() > 0 ==> width > 0,
    ensures
        text@ == pbm_text(width as nat, height as nat, pixels@, line_views(comments@)),
{
    let mut out: Vec<u8> = Vec::new();
    out.push(80u8);
    out.push(49u8);
    out.push(10u8);
    let ghost header = out@;
    let mut c: usize = 0;
    while c < comments.len()
        invariant
            c <= comments.len(),
            out@ == header + comment_text(line_views(comments@).take(c as int)),
        decreases comments.len() - c,
    {
        push_bytes(&mut out, &comments[c]);
        out.push(10u8);
        c = c + 1;
        proof {
            let done = line_views(comments@).take(c as int);
            assert(done.drop_last() =~= line_views(comments@).take(c - 1));
            assert(out@ =~= header + comment_text(done));
        }
    }
    proof {
        assert(line_views(comments@).take(c as int) =~= line_views(comments@));
    }
    push_decimal(&mut out, width);
    out.push(32u8);
    push_decimal(&mut out, height);
    out.push(10u8);
    let ghost prefix = out@;
    let mut i: usize = 0;
    while i < pixels.len()
        invariant
            i <= pixels.len(),
            pixels.len() > 0 ==> width > 0,
            out@ == prefix + raster_text(pixels@.take(i as int), width as nat),
        decreases pixels.len() - i,
    {
        let bit: u8 = if pixels[i] == 0 { 48u8 } else { 49u8 };
        out.push(bit);
        out.push(32u8);
        if (i + 1) % width == 0 {
            out.push(10u8);
        }
        i = i + 1;
        proof {
            let done = pixels@.take(i as int);
            assert(done.drop_last() =~= pixels@.take(i - 1));
            assert(done.last() == pixels@[i - 1]);
            assert(out@ =~= prefix + raster_text(done, width as nat));
        }
    }
    proof {
        assert(pixels@.take(i as int) =~= pixels@);
        assert(out@ =~= pbm_text(width as nat, height as nat, pixels@, line_views(comments@)));
    }
    out
}

} // verus!
