//! A read-oriented clone of the SQLite 3 on-disk database engine: the
//! file-format parser and B-tree navigator.  The crate loads an existing
//! database image, interprets its paged structure, and exposes primary-key
//! row lookups, equality index probes, and full-table scans over table and
//! index B-trees.
use vstd::prelude::*;

pub mod btree;
pub mod db;
pub mod datatypes;
pub mod floatbits;
pub mod pager;
pub mod parsing;

use crate::parsing::{
    be_i32, be_u16, be_u32, push_u16, push_u32, spec_be_i32, spec_be_u16,
    spec_be_u32, spec_u16b, spec_u32b,
};
use vstd::slice::slice_subrange;

verus! {

/// The error taxonomy of the whole crate.  Every function that decodes
/// external bytes returns one of these; parsing errors bubble up unchanged.
#[derive(Debug, Clone, Copy, PartialEq, Eq, Structural)]
pub enum Error {
    /// The underlying file read failed.
    Io,
    /// Magic mismatch in the 100-byte file header.
    InvalidHeader,
    /// The page-size field is not a power of two in [512, 32768] nor 1.
    InvalidPageSize,
    /// The fixed payload fractions are not 64/32/32.
    InvalidPayloadFractions,
    /// Unknown page-type byte, cell pointer out of range, header truncated.
    MalformedPage,
    /// A serial-type varint is negative or reserved.
    InvalidSerialType,
    /// A page number outside [1, num_pages].
    OutOfRange,
    /// A catalog object is missing by name.
    NotFound,
}

/// A file's write or read format version.
#[derive(Debug, Clone, Copy, PartialEq, Eq, Structural)]
pub enum FileVersion {
    Legacy,
    WAL,
}

/// The version a header byte denotes.
pub open spec fn spec_file_version_from(b: u8) -> Result<FileVersion, Error> {
    if b == 1 {
        Ok(FileVersion::Legacy)
    } else if b == 2 {
        Ok(FileVersion::WAL)
    } else {
        Err(Error::InvalidHeader)
    }
}

/// The header byte of a version.
pub open spec fn spec_file_version_code(v: FileVersion) -> u8 {
    match v {
        FileVersion::Legacy => 1,
        FileVersion::WAL => 2,
    }
}

impl FileVersion {
    /// The version a header byte denotes; any other byte is invalid.
    pub fn from_byte(b: u8) -> (r: Result<Self, Error>)
        ensures
            r == spec_file_version_from(b),
    {
        if b == 1 {
            Ok(Self::Legacy)
        } else if b == 2 {
            Ok(Self::WAL)
        } else {
            Err(Error::InvalidHeader)
        }
    }

    /// The header byte of this version.
    pub fn as_byte(&self) -> (r: u8)
        ensures
            r == spec_file_version_code(*self),
    {
        match self {
            Self::Legacy => 1,
            Self::WAL => 2,
        }
    }
}

/// The text encoding of every text cell in the file.
#[derive(Debug, Clone, Copy, PartialEq, Eq, Structural)]
pub enum TextEncoding {
    Utf8,
    Utf16le,
    Utf16be,
}

/// The encoding a header word denotes.
pub open spec fn spec_text_encoding_from(v: u32) -> Result<TextEncoding, Error> {
    if v == 1 {
        Ok(TextEncoding::Utf8)
    } else if v == 2 {
        Ok(TextEncoding::Utf16le)
    } else if v == 3 {
        Ok(TextEncoding::Utf16be)
    } else {
        Err(Error::InvalidHeader)
    }
}

/// The header word of an encoding.
pub open spec fn spec_text_encoding_code(v: TextEncoding) -> u32 {
    match v {
        TextEncoding::Utf8 => 1,
        TextEncoding::Utf16le => 2,
        TextEncoding::Utf16be => 3,
    }
}

impl TextEncoding {
    /// The encoding a header word denotes; any other word is invalid.
    pub fn from_word(v: u32) -> (r: Result<Self, Error>)
        ensures
            r == spec_text_encoding_from(v),
    {
        if v == 1 {
            Ok(Self::Utf8)
        } else if v == 2 {
            Ok(Self::Utf16le)
        } else if v == 3 {
            Ok(Self::Utf16be)
        } else {
            Err(Error::InvalidHeader)
        }
    }

    /// The header word of this encoding.
    pub fn as_word(&self) -> (r: u32)
        ensures
            r == spec_text_encoding_code(*self),
    {
        match self {
            Self::Utf8 => 1,
            Self::Utf16le => 2,
            Self::Utf16be => 3,
        }
    }
}

/// The 16 magic bytes that open every database file.
pub open spec fn spec_magic() -> Seq<u8> {
    seq![
        0x53u8,
        0x51,
        0x4c,
        0x69,
        0x74,
        0x65,
        0x20,
        0x66,
        0x6f,
        0x72,
        0x6d,
        0x61,
        0x74,
        0x20,
        0x33,
        0x00,
    ]
}

/// The decoded 100-byte database file header.
#[derive(Debug, Copy, Clone)]
pub struct DbOptions {
    pub page_size: usize,
    pub file_write_version: FileVersion,
    pub file_read_version: FileVersion,
    pub reserved_space: u8,
    pub max_payload: u8,
    pub min_payload: u8,
    pub leaf_payload: u8,
    pub change_counter: u32,
    pub num_pages: u32,
    pub first_freelist: u32,
    pub num_freelist: u32,
    pub schema_cookie: u32,
    pub schema_format: u32,
    pub cache_size: i32,
    pub largest_root_page: u32,
    pub encoding: TextEncoding,
    pub user_version: u32,
    pub incremental_vacuum: bool,
    pub app_id: u32,
    pub version_valid_for: u32,
    pub sqlite_version: u32,
}

/// Whether the page-size field holds a power of two in [512, 32768], or
/// the value 1 standing for 65536.
pub open spec fn spec_page_size_ok(raw: u16) -> bool {
    raw == 1 || raw == 512 || raw == 1024 || raw == 2048 || raw == 4096 || raw == 8192 || raw
        == 16384 || raw == 32768
}

/// The parse of the database file header from the file's bytes.  The
/// in-header page count is trusted only when it is non-zero and the
/// change counter matches the version-valid-for number; otherwise the
/// count is derived from the file size.
pub open spec fn spec_db_options(s: Seq<u8>) -> Result<DbOptions, Error> {
    if s.len() < 100 {
        Err(Error::InvalidHeader)
    } else if s.subrange(0, 16) != spec_magic() {
        Err(Error::InvalidHeader)
    } else {
        let psraw = spec_be_u16(s.subrange(16, 18));
        if !spec_page_size_ok(psraw) {
            Err(Error::InvalidPageSize)
        } else {
            let page_size: usize = if psraw == 1 {
                65536
            } else {
                psraw as usize
            };
            match spec_file_version_from(s[18]) {
                Err(e) => Err(e),
                Ok(file_write_version) => match spec_file_version_from(s[19]) {
                    Err(e) => Err(e),
                    Ok(file_read_version) => {
                        if s[21] != 64 || s[22] != 32 || s[23] != 32 {
                            Err(Error::InvalidPayloadFractions)
                        } else {
                            match spec_text_encoding_from(spec_be_u32(s.subrange(56, 60))) {
                                Err(e) => Err(e),
                                Ok(encoding) => {
                                    let change_counter = spec_be_u32(s.subrange(24, 28));
                                    let num_pages0 = spec_be_u32(s.subrange(28, 32));
                                    let version_valid_for = spec_be_u32(s.subrange(92, 96));
                                    Ok(
                                        DbOptions {
                                            page_size: page_size,
                                            file_write_version: file_write_version,
                                            file_read_version: file_read_version,
                                            reserved_space: s[20],
                                            max_payload: 64,
                                            min_payload: 32,
                                            leaf_payload: 32,
                                            change_counter: change_counter,
                                            num_pages: if num_pages0 != 0 && change_counter
                                                == version_valid_for {
                                                num_pages0
                                            } else {
                                                (s.len() / page_size as nat) as u32
                                            },
                                            first_freelist: spec_be_u32(s.subrange(32, 36)),
                                            num_freelist: spec_be_u32(s.subrange(36, 40)),
                                            schema_cookie: spec_be_u32(s.subrange(40, 44)),
                                            schema_format: spec_be_u32(s.subrange(44, 48)),
                                            cache_size: spec_be_i32(s.subrange(48, 52)),
                                            largest_root_page: spec_be_u32(s.subrange(52, 56)),
                                            encoding: encoding,
                                            user_version: spec_be_u32(s.subrange(60, 64)),
                                            incremental_vacuum: spec_be_u32(s.subrange(64, 68))
                                                != 0,
                                            app_id: spec_be_u32(s.subrange(68, 72)),
                                            version_valid_for: version_valid_for,
                                            sqlite_version: spec_be_u32(s.subrange(96, 100)),
                                        },
                                    )
                                },
                            }
                        }
                    },
                },
            }
        }
    }
}

impl DbOptions {
    /// Parses the 100-byte file header; `i` is the file's bytes, whose
    /// length reconciles the in-header page count.  Fails `InvalidHeader`
    /// on a magic mismatch, `InvalidPageSize` and
    /// `InvalidPayloadFractions` on those fields.
    pub fn deserialize(i: &[u8]) -> (r: Result<Self, Error>)
        ensures
            r == spec_db_options(i@),
    {
        if i.len() < 100 {
            return Err(Error::InvalidHeader);
        }
        let magic: [u8; 16] = [
            0x53u8,
            0x51,
            0x4c,
            0x69,
            0x74,
            0x65,
            0x20,
            0x66,
            0x6f,
            0x72,
            0x6d,
            0x61,
            0x74,
            0x20,
            0x33,
            0x00,
        ];
        let mut m: usize = 0;
        while m < 16
            invariant
                m <= 16,
                i@.len() >= 100,
                forall|j: int| 0 <= j < m ==> i@[j] == spec_magic()[j],
                magic@ == spec_magic(),
            decreases 16 - m,
        {
            if i[m] != magic[m] {
                proof {
                    assert(i@.subrange(0, 16)[m as int] != spec_magic()[m as int]);
                }
                return Err(Error::InvalidHeader);
            }
            m = m + 1;
        }
        proof {
            assert(i@.subrange(0, 16) =~= spec_magic());
        }

        let psraw = match be_u16(slice_subrange(i, 16, 18)) {
            Ok(v) => v,
            Err(_) => {
                proof {
                    assert(false);
                }
                return Err(Error::InvalidHeader);
            },
        };
        if !(psraw == 1 || psraw == 512 || psraw == 1024 || psraw == 2048 || psraw == 4096 || psraw
            == 8192 || psraw == 16384 || psraw == 32768) {
            return Err(Error::InvalidPageSize);
        }
        let page_size: usize = if psraw == 1 {
            65536
        } else {
            psraw as usize
        };
        let file_write_version = match FileVersion::from_byte(i[18]) {
            Ok(v) => v,
            Err(e) => {
                return Err(e);
            },
        };
        let file_read_version = match FileVersion::from_byte(i[19]) {
            Ok(v) => v,
            Err(e) => {
                return Err(e);
            },
        };
        let reserved_space = i[20];
        let max_payload = i[21];
        let min_payload = i[22];
        let leaf_payload = i[23];
        if max_payload != 64 || min_payload != 32 || leaf_payload != 32 {
            return Err(Error::InvalidPayloadFractions);
        }
        let change_counter = read_u32(i, 24);
        let num_pages0 = read_u32(i, 28);
        let first_freelist = read_u32(i, 32);
        let num_freelist = read_u32(i, 36);
        let schema_cookie = read_u32(i, 40);
        let schema_format = read_u32(i, 44);
        let cache_size = match be_i32(slice_subrange(i, 48, 52)) {
            Ok(v) => v,
            Err(_) => {
                proof {
                    assert(false);
                }
                return Err(Error::InvalidHeader);
            },
        };
        let largest_root_page = read_u32(i, 52);
        let encoding = match TextEncoding::from_word(read_u32(i, 56)) {
            Ok(v) => v,
            Err(e) => {
                return Err(e);
            },
        };
        let user_version = read_u32(i, 60);
        let incremental_vacuum = read_u32(i, 64) != 0;
        let app_id = read_u32(i, 68);
        let version_valid_for = read_u32(i, 92);
        let sqlite_version = read_u32(i, 96);

        let num_pages = if num_pages0 != 0 && change_counter == version_valid_for {
            num_pages0
        } else {
            (i.len() / page_size) as u32
        };

        Ok(
            Self {
                page_size,
                file_write_version,
                file_read_version,
                reserved_space,
                max_payload,
                min_payload,
                leaf_payload,
                change_counter,
                num_pages,
                first_freelist,
                num_freelist,
                schema_cookie,
                schema_format,
                cache_size,
                largest_root_page,
                encoding,
                user_version,
                incremental_vacuum,
                app_id,
                version_valid_for,
                sqlite_version,
            },
        )
    }

    /// The header of a fresh, empty database: 4096-byte pages, UTF-8
    /// text, the fixed payload fractions, and no pages yet.
    pub fn defaults() -> (r: Self)
        ensures
            r.page_size == 4096,
            r.file_write_version == FileVersion::Legacy,
            r.file_read_version == FileVersion::Legacy,
            r.reserved_space == 0,
            r.max_payload == 64,
            r.min_payload == 32,
            r.leaf_payload == 32,
            r.change_counter == 0,
            r.num_pages == 0,
            r.first_freelist == 0,
            r.num_freelist == 0,
            r.schema_cookie == 0,
            r.schema_format == 4,
            r.cache_size == 0,
            r.largest_root_page == 0,
            r.encoding == TextEncoding::Utf8,
            r.user_version == 0,
            r.incremental_vacuum == false,
            r.app_id == 0,
            r.version_valid_for == 0,
            r.sqlite_version == 3 * 1000000 + 35 * 1000 + 4,
    {
        Self {
            page_size: 4096,
            file_write_version: FileVersion::Legacy,
            file_read_version: FileVersion::Legacy,
            reserved_space: 0,
            max_payload: 64,
            min_payload: 32,
            leaf_payload: 32,
            change_counter: 0,
            num_pages: 0,
            first_freelist: 0,
            num_freelist: 0,
            schema_cookie: 0,
            schema_format: 4,
            cache_size: 0,
            largest_root_page: 0,
            encoding: TextEncoding::Utf8,
            user_version: 0,
            incremental_vacuum: false,
            app_id: 0,
            version_valid_for: 0,
            sqlite_version: 3 * 1000000 + 35 * 1000 + 4,
        }
    }
}

/// The serialization of the file header back to its 100 bytes.
pub open spec fn spec_db_options_ser(o: DbOptions) -> Seq<u8> {
    spec_magic() + spec_u16b(
        if o.page_size == 65536 {
            1
        } else {
            o.page_size as u16
        },
    ) + seq![
        spec_file_version_code(o.file_write_version),
        spec_file_version_code(o.file_read_version),
        o.reserved_space,
        o.max_payload,
        o.min_payload,
        o.leaf_payload,
    ] + spec_u32b(o.change_counter) + spec_u32b(o.num_pages) + spec_u32b(o.first_freelist)
        + spec_u32b(o.num_freelist) + spec_u32b(o.schema_cookie) + spec_u32b(o.schema_format)
        + spec_u32b(o.cache_size as u32) + spec_u32b(o.largest_root_page) + spec_u32b(
        spec_text_encoding_code(o.encoding),
    ) + spec_u32b(o.user_version) + spec_u32b(
        if o.incremental_vacuum {
            1
        } else {
            0
        },
    ) + spec_u32b(o.app_id) + Seq::new(20, |j: int| 0u8) + spec_u32b(o.version_valid_for)
        + spec_u32b(o.sqlite_version)
}

impl DbOptions {
    /// Serializes the header into its 100-byte on-disk form.
    pub fn serialize(&self) -> (r: Vec<u8>)
        ensures
            r@ == spec_db_options_ser(*self),
    {
        let mut out: Vec<u8> = Vec::new();
        out.push(0x53);
        out.push(0x51);
        out.push(0x4c);
        out.push(0x69);
        out.push(0x74);
        out.push(0x65);
        out.push(0x20);
        out.push(0x66);
        out.push(0x6f);
        out.push(0x72);
        out.push(0x6d);
        out.push(0x61);
        out.push(0x74);
        out.push(0x20);
        out.push(0x33);
        out.push(0x00);
        proof {
            assert(out@ =~= spec_magic());
        }
        let psraw: u16 = if self.page_size == 65536 {
            1
        } else {
            self.page_size as u16
        };
        push_u16(&mut out, psraw);
        out.push(self.file_write_version.as_byte());
        out.push(self.file_read_version.as_byte());
        out.push(self.reserved_space);
        out.push(self.max_payload);
        out.push(self.min_payload);
        out.push(self.leaf_payload);
        push_u32(&mut out, self.change_counter);
        push_u32(&mut out, self.num_pages);
        push_u32(&mut out, self.first_freelist);
        push_u32(&mut out, self.num_freelist);
        push_u32(&mut out, self.schema_cookie);
        push_u32(&mut out, self.schema_format);
        push_u32(&mut out, self.cache_size as u32);
        push_u32(&mut out, self.largest_root_page);
        push_u32(&mut out, self.encoding.as_word());
        push_u32(&mut out, self.user_version);
        push_u32(
            &mut out,
            if self.incremental_vacuum {
                1
            } else {
                0
            },
        );
        push_u32(&mut out, self.app_id);
        let mut z: usize = 0;
        let ghost before_zeros = out@;
        while z < 20
            invariant
                z <= 20,
                out@ == before_zeros + Seq::new(z as nat, |j: int| 0u8),
            decreases 20 - z,
        {
            proof {
                assert((before_zeros + Seq::new(z as nat, |j: int| 0u8)).push(0u8) =~= before_zeros
                    + Seq::new((z + 1) as nat, |j: int| 0u8));
            }
            out.push(0);
            z = z + 1;
        }
        push_u32(&mut out, self.version_valid_for);
        push_u32(&mut out, self.sqlite_version);
        proof {
            assert(out@ =~= spec_db_options_ser(*self));
        }
        out
    }
}

/// Reads the big-endian 32-bit field at byte `at` of the header.
fn read_u32(i: &[u8], at: usize) -> (r: u32)
    requires
        at + 4 <= i@.len(),
    ensures
        r == spec_be_u32(i@.subrange(at as int, at + 4)),
{
    let n = i.len();
    match be_u32(slice_subrange(i, at, at + 4)) {
        Ok(v) => v,
        Err(_) => {
            proof {
                assert(false);
            }
            0
        },
    }
}

} // verus!
