//! A few named opaque colors, as packed `0xAARRGGBB` values for
//! `Color::new`.

use vstd::prelude::*;

verus! {

pub const WHITE: u32 = 0xffffffff;

pub const GRAY: u32 = 0xff7f7f7f;

pub const BLACK: u32 = 0xff000000;

pub const RED: u32 = 0xffff0000;

pub const LIME: u32 = 0xff00ff00;

pub const AQUA: u32 = 0xff00ffff;

} // verus!
