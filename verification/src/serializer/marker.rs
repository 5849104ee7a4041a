//! The delimiters of the container: a reserved tag byte followed by a zero
//! pad byte.

use vstd::prelude::*;
use vstd::std_specs::convert::FromSpecImpl;

verus! {

/// Tag of the marker that ends a stream.
pub const TAG_END: u8 = 243;

/// Tag of the marker that closes an author's record.
pub const TAG_AUTHOR_END: u8 = 244;

/// Tag of the marker that follows an author's identifier.
pub const TAG_AUTHOR: u8 = 245;

/// Tag of the marker that follows a count of eight bytes.
pub const TAG_FREQ_U64: u8 = 253;

/// Tag of the marker that follows a count of four bytes.
pub const TAG_FREQ_U32: u8 = 254;

/// Tag of the marker that follows a count of one byte.
pub const TAG_FREQ_U8: u8 = 255;

/// The byte that follows a tag to make a marker.
pub const PAD: u8 = 0;

/// What a tag byte announces. `Unknown` stands for every byte that is no tag.
#[derive(Clone, Copy, Debug, PartialEq, Eq, Structural)]
pub enum Marker {
    FreqU8,
    FreqU32,
    FreqU64,
    Author,
    AuthorEnd,
    End,
    Unknown,
}

/// The six reserved bytes: 243 to 245 and 253 to 255.
pub open spec fn is_reserved_tag(byte: u8) -> bool {
    243 <= byte <= 245 || 253 <= byte
}

impl Marker {
    /// The marker that `byte` is the tag of.
    pub open spec fn of_byte(byte: u8) -> Marker {
        if byte == TAG_FREQ_U8 {
            Marker::FreqU8
        } else if byte == TAG_FREQ_U32 {
            Marker::FreqU32
        } else if byte == TAG_FREQ_U64 {
            Marker::FreqU64
        } else if byte == TAG_AUTHOR {
            Marker::Author
        } else if byte == TAG_AUTHOR_END {
            Marker::AuthorEnd
        } else if byte == TAG_END {
            Marker::End
        } else {
            Marker::Unknown
        }
    }

    /// The number of bytes that hold the count in front of a frequency
    /// marker; no other marker has a count in front of it.
    pub open spec fn payload_width(self) -> Option<nat> {
        match self {
            Marker::FreqU8 => Some(1),
            Marker::FreqU32 => Some(4),
            Marker::FreqU64 => Some(8),
            _ => None,
        }
    }

    /// The marker named by the tag at the end of `bytes`, which is the byte
    /// before the last; `Unknown` where `bytes` is too short to hold a pair.
    pub open spec fn of_trailing_pair(bytes: Seq<u8>) -> Marker {
        if bytes.len() < 2 {
            Marker::Unknown
        } else {
            Marker::of_byte(bytes[bytes.len() - 2])
        }
    }

    /// Reads a tag byte.
    pub fn from_byte(byte: u8) -> (m: Marker)
        ensures
            m == Marker::of_byte(byte),
            m != Marker::Unknown <==> is_reserved_tag(byte),
    {
        match byte {
            255 => Marker::FreqU8,
            254 => Marker::FreqU32,
            253 => Marker::FreqU64,
            245 => Marker::Author,
            244 => Marker::AuthorEnd,
            243 => Marker::End,
            _ => Marker::Unknown,
        }
    }
}

impl FromSpecImpl<u8> for Marker {
    open spec fn obeys_from_spec() -> bool {
        true
    }

    open spec fn from_spec(byte: u8) -> Marker {
        Marker::of_byte(byte)
    }
}

impl From<u8> for Marker {
    fn from(byte: u8) -> (m: Marker) {
        Marker::from_byte(byte)
    }
}

impl<'a> FromSpecImpl<&'a [u8]> for Marker {
    open spec fn obeys_from_spec() -> bool {
        true
    }

    open spec fn from_spec(bytes: &'a [u8]) -> Marker {
        Marker::of_trailing_pair(bytes@)
    }
}

impl<'a> From<&'a [u8]> for Marker {
    fn from(bytes: &'a [u8]) -> (m: Marker) {
        if bytes.len() < 2 {
            Marker::Unknown
        } else {
            Marker::from_byte(bytes[bytes.len() - 2])
        }
    }
}

} // verus!
