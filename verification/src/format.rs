//! The on-disk formats the converter knows, and the readers and
//! writers for each.

use vstd::prelude::*;

pub use self::dxf::DxfReader;
pub use self::dxf::DxfWriter;
pub use self::nikon::NikonCoordReader;
pub use self::nikon::NikonCoordWriter;
pub use self::sdr::SdrReader;

pub mod dxf;
pub mod nikon;
pub mod sdr;

verus! {

/// A format points can be read from.
#[derive(Clone, Copy, PartialEq, Eq, Structural, Debug)]
pub enum InFormat {
    /// CAD drawing interchange format.
    Dxf,
    /// Delimited coordinate text format.
    NikonCoord,
    /// Fixed-width instrument export format.
    Sdr,
}

/// A format points can be written to.
#[derive(Clone, Copy, PartialEq, Eq, Structural, Debug)]
pub enum OutFormat {
    /// CAD drawing interchange format.
    Dxf,
    /// Delimited coordinate text format.
    NikonCoord,
}

impl OutFormat {
    /// The canonical file extension of the format.
    pub open spec fn extension_spec(self) -> Seq<char> {
        match self {
            OutFormat::Dxf => "dxf"@,
            OutFormat::NikonCoord => "txt"@,
        }
    }

    pub fn extension(&self) -> (r: String)
        ensures
            r@ == self.extension_spec(),
    {
        match self {
            OutFormat::Dxf => String::from_str("dxf"),
            OutFormat::NikonCoord => String::from_str("txt"),
        }
    }
}

} // verus!
