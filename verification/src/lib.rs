//! Binary segmentation of ASCII greymap images and the rules of a
//! side-scrolling flying game.

pub mod pbm;
pub mod text;
pub mod pgm;
pub mod threshold;
pub mod game;
