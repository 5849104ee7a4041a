//! Telling the revisions of the container apart by the header.

use vstd::prelude::*;
use crate::serializer::integers::{be_value, lemma_be_value_bound, lemma_pow256_widths, read_be};

verus! {

/// The length of the magic tag.
pub const MAGIC_LEN: usize = 7;

/// The length of the header: magic tag, version, author count, word count.
pub const HEADER_LEN: usize = 27;

/// A buffer shorter than this is not looked at.
pub const MIN_LEN: usize = 10;

/// The version that this library writes and recognises.
pub const CURRENT_VERSION: u32 = 1;

/// The magic tag: the letters of "ragegun".
pub open spec fn magic() -> Seq<u8> {
    seq![114u8, 97u8, 103u8, 101u8, 103u8, 117u8, 110u8]
}

/// What a buffer holds, as far as its first bytes tell.
#[derive(Clone, Copy, Debug, PartialEq, Eq, Structural)]
pub enum RGFileFormat {
    /// The current revision, with the author count and the word count of its
    /// header.
    Nov2022A(u64, u64),
    /// No header that this library recognises: read as a stream of records.
    Unknown,
    /// Too short to be looked at.
    TooShort,
}

/// Whether `data` begins with the magic tag.
pub open spec fn has_magic(data: Seq<u8>) -> bool {
    data.len() >= MAGIC_LEN && data.subrange(0, MAGIC_LEN as int) == magic()
}

impl RGFileFormat {
    /// The format that the fields of a header announce.
    pub open spec fn of_header(has_magic: bool, version: u32, authors: u64, words: u64) -> Self {
        if has_magic && version == CURRENT_VERSION {
            RGFileFormat::Nov2022A(authors, words)
        } else {
            RGFileFormat::Unknown
        }
    }

    /// The format of a buffer. A buffer that begins with the magic tag but
    /// ends before its header does has no version to recognise.
    pub open spec fn of_buf(data: Seq<u8>) -> Self {
        if data.len() < MIN_LEN {
            RGFileFormat::TooShort
        } else if data.len() < HEADER_LEN {
            RGFileFormat::Unknown
        } else {
            RGFileFormat::of_header(
                has_magic(data),
                be_value(data.subrange(7, 11)) as u32,
                be_value(data.subrange(11, 19)) as u64,
                be_value(data.subrange(19, 27)) as u64,
            )
        }
    }

    /// Classifies a header by its fields.
    pub fn from_byte(has_magic: bool, version: u32, authors: u64, words: u64) -> (r: Self)
        ensures
            r == RGFileFormat::of_header(has_magic, version, authors, words),
    {
        if !has_magic {
            return RGFileFormat::Unknown;
        }
        match version {
            1 => RGFileFormat::Nov2022A(authors, words),
            _ => RGFileFormat::Unknown,
        }
    }

    /// Classifies a buffer without changing it.
    pub fn from_buf(data: &[u8]) -> (r: Self)
        ensures
            r == RGFileFormat::of_buf(data@),
    {
        if data.len() < MIN_LEN {
            return RGFileFormat::TooShort;
        }
        if data.len() < HEADER_LEN {
            return RGFileFormat::Unknown;
        }
        let has_magic = starts_with_magic(data);
        let version = read_be(&data[7..11]);
        let authors = read_be(&data[11..19]);
        let words = read_be(&data[19..27]);
        proof {
            lemma_be_value_bound(data@.subrange(7, 11));
            lemma_pow256_widths();
        }
        RGFileFormat::from_byte(has_magic, version as u32, authors, words)
    }
}

/// Whether the buffer begins with the magic tag.
pub fn starts_with_magic(data: &[u8]) -> (b: bool)
    ensures
        b == has_magic(data@),
{
    if data.len() < MAGIC_LEN {
        return false;
    }
    let b = data[0] == 114 && data[1] == 97 && data[2] == 103 && data[3] == 101 && data[4] == 103
        && data[5] == 117 && data[6] == 110;
    proof {
        let head = data@.subrange(0, MAGIC_LEN as int);
        if b {
            assert(head =~= magic());
        } else {
            assert(head[0] == data@[0] && head[1] == data@[1] && head[2] == data@[2] && head[3]
                == data@[3] && head[4] == data@[4] && head[5] == data@[5] && head[6] == data@[6]);
        }
    }
    b
}

} // verus!
