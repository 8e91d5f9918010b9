//! Pixel transforms on RGBA8 images, and what a host needs to hand an image
//! to a transform: the image with its dimensions, and the file name under
//! which a transform is found on each platform.
//!
//! A transform works in place on the image's byte buffer. It is told what to
//! do by a parameter record; where the host has none to give, the transform
//! leaves the buffer as it is.

use vstd::prelude::*;
use crate::layout::buffer_len;

pub mod layout;
pub mod sqrt;
pub mod sums;
pub mod blur_plugin;
pub mod mirror_plugin;

verus! {

/// An image: its dimensions in pixels and its bytes, row by row, four
/// channels (red, green, blue, alpha) per pixel.
pub struct Image {
    /// Width in pixels.
    pub width: u32,
    /// Height in pixels.
    pub height: u32,
    /// `width * height * 4` bytes.
    pub pixels: Vec<u8>,
}

impl Image {
    /// The buffer holds exactly the pixels that the dimensions announce.
    /// Every transform asks this of the image it is given.
    pub open spec fn well_formed(&self) -> bool {
        self.pixels@.len() == buffer_len(self.width as int, self.height as int)
    }

    /// Whether the buffer holds exactly the pixels that the dimensions
    /// announce.
    pub fn is_well_formed(&self) -> (ok: bool)
        ensures
            ok == self.well_formed(),
    {
        assert(self.width * self.height <= 0xffff_ffff * 0xffff_ffff) by (nonlinear_arith)
            requires
                0 <= self.width <= 0xffff_ffff,
                0 <= self.height <= 0xffff_ffff,
        ;
        let pixels: u64 = self.width as u64 * self.height as u64;
        self.pixels.len() as u128 == pixels as u128 * 4
    }
}

/// The platforms on which transforms can be loaded.
#[derive(Clone, Copy, Debug, PartialEq, Eq)]
pub enum Platform {
    Linux,
    MacOs,
    Windows,
}

/// The file name of the shared library that holds the transform `plugin`.
pub open spec fn plugin_filename(plugin: Seq<char>, platform: Platform) -> Seq<char> {
    match platform {
        Platform::Linux => "lib"@ + plugin + ".so"@,
        Platform::MacOs => "lib"@ + plugin + ".dylib"@,
        Platform::Windows => plugin + ".dll"@,
    }
}

/// Turns the name of a transform into the file name of its shared library,
/// with the prefix and the extension that `platform` uses.
pub fn plugin_name_to_filename(plugin: &str, platform: Platform) -> (filename: String)
    ensures
        filename@ == plugin_filename(plugin@, platform),
{
    match platform {
        Platform::Linux => String::from_str("lib").concat(plugin).concat(".so"),
        Platform::MacOs => String::from_str("lib").concat(plugin).concat(".dylib"),
        Platform::Windows => String::from_str(plugin).concat(".dll"),
    }
}

} // verus!
