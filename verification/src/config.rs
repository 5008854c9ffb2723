//! The node's identity record and its fixed-width byte layout.
//!
//! A record is laid out as four magic bytes, a big-endian 16-bit version and
//! a name field of 64 bytes, 70 bytes in all.

use vstd::prelude::*;
use vstd::slice::slice_subrange;
use crate::endian::{
    be_bytes, be_value, get_u16, lemma_be_bytes_len, lemma_be_value_of_bytes,
    lemma_radix_pow_values, put_u16,
};
use vstd::string::StringSliceAdditionalSpecFns;

verus! {

/// Number of bytes in the name field.
pub const NAME_LEN: usize = 64;

/// Number of bytes of an encoded record.
pub const RECORD_LEN: usize = 70;

/// The only layout version that is understood.
pub const LATEST_VERSION: u16 = 1u16;

/// The four bytes that lead every encoded record.
pub open spec fn magic() -> Seq<u8> {
    seq![0xDEu8, 0xADu8, 0xBEu8, 0xEFu8]
}

/// The name field that `with_name` gives for the bytes of a name: the bytes
/// followed by zeros where they are fewer than 64, and all zeros otherwise.
pub open spec fn padded_name(bytes: Seq<u8>) -> Seq<u8> {
    Seq::new(
        NAME_LEN as nat,
        |i: int| if bytes.len() < NAME_LEN && i < bytes.len() { bytes[i] } else { 0u8 },
    )
}

/// The encoding of a record with the given version and name field.
pub open spec fn encoding(version: u16, name: Seq<u8>) -> Seq<u8> {
    magic() + be_bytes(version as nat, 2) + name
}

/// Why a byte string is not an encoded record.
#[derive(Clone, Copy, Debug, PartialEq, Eq, Structural)]
pub enum ConfigError {
    /// The input ends before the field that is being read.
    UnexpectedEof,
    /// The first four bytes are not the magic number.
    MagicMismatch,
    /// The version is not one that is understood.
    UnknownVersion,
}

/// What reading a record from `bytes` gives.
pub open spec fn decoding(bytes: Seq<u8>) -> Result<(u16, Seq<u8>), ConfigError> {
    if bytes.len() < 4 {
        Err(ConfigError::UnexpectedEof)
    } else if bytes.subrange(0, 4) != magic() {
        Err(ConfigError::MagicMismatch)
    } else if bytes.len() < 6 {
        Err(ConfigError::UnexpectedEof)
    } else if be_value(bytes.subrange(4, 6)) != 1 {
        Err(ConfigError::UnknownVersion)
    } else if bytes.len() < RECORD_LEN {
        Err(ConfigError::UnexpectedEof)
    } else {
        Ok((1u16, bytes.subrange(6, RECORD_LEN as int)))
    }
}

/// A node's identity record.
pub struct TerribleConfig {
    version: u16,
    name: [u8; 64],
}

impl TerribleConfig {
    /// The layout version of the record.
    pub closed spec fn spec_version(&self) -> u16 {
        self.version
    }

    /// The name field, always 64 bytes.
    pub closed spec fn spec_name(&self) -> Seq<u8> {
        self.name@
    }

    /// The name field has its fixed width.
    pub proof fn lemma_name_len(&self)
        ensures
            self.spec_name().len() == NAME_LEN,
    {
    }

    /// The layout version of the record.
    pub fn version(&self) -> (v: u16)
        ensures
            v == self.spec_version(),
    {
        self.version
    }

    /// A copy of the name field.
    pub fn name(&self) -> (n: [u8; 64])
        ensures
            n@ == self.spec_name(),
    {
        self.name
    }
}

/// A record of the latest version with an all-zero name.
pub fn new() -> (cfg: TerribleConfig)
    ensures
        cfg.spec_version() == LATEST_VERSION,
        cfg.spec_name() == padded_name(Seq::<u8>::empty()),
{
    let cfg = TerribleConfig { version: 1u16, name: [0u8; 64] };
    assert(cfg.name@ =~= padded_name(Seq::<u8>::empty()));
    cfg
}

/// A record of the latest version named `name`. A name of 64 bytes or more
/// does not fit the field and leaves it all zero.
pub fn with_name(name: &str) -> (cfg: TerribleConfig)
    ensures
        cfg.spec_version() == LATEST_VERSION,
        cfg.spec_name() == padded_name(name.spec_bytes()),
{
    let mut field: [u8; 64] = [0u8; 64];
    let bytes = name.as_bytes();
    let n: usize = bytes.len();
    if n < 64 {
        let mut i: usize = 0;
        while i < n
            invariant
                n == bytes@.len(),
                n < 64,
                i <= n,
                bytes@ == name.spec_bytes(),
                forall|j: int| 0 <= j < i ==> field@[j] == bytes@[j],
                forall|j: int| i <= j < 64 ==> field@[j] == 0u8,
            decreases n - i,
        {
            field[i] = bytes[i];
            i += 1;
        }
    }
    let cfg = TerribleConfig { version: 1u16, name: field };
    assert(cfg.name@ =~= padded_name(name.spec_bytes()));
    cfg
}

/// Reads the name field of a version 1 record: the first 64 bytes of `body`,
/// which is what follows the version in the input.
pub fn load_v1(body: &[u8]) -> (r: Result<TerribleConfig, ConfigError>)
    ensures
        body@.len() < NAME_LEN ==> r == Err::<TerribleConfig, ConfigError>(
            ConfigError::UnexpectedEof,
        ),
        body@.len() >= NAME_LEN ==> r is Ok && r->Ok_0.spec_version() == 1
            && r->Ok_0.spec_name() == body@.subrange(0, NAME_LEN as int),
{
    if body.len() < 64 {
        return Err(ConfigError::UnexpectedEof);
    }
    let mut field: [u8; 64] = [0u8; 64];
    let mut i: usize = 0;
    while i < 64
        invariant
            body@.len() >= 64,
            i <= 64,
            forall|j: int| 0 <= j < i ==> field@[j] == body@[j],
        decreases 64 - i,
    {
        field[i] = body[i];
        i += 1;
    }
    let cfg = TerribleConfig { version: 1u16, name: field };
    assert(cfg.name@ =~= body@.subrange(0, NAME_LEN as int));
    Ok(cfg)
}

/// Reads a record from the front of `source`. Bytes after the record are not
/// looked at.
pub fn load(source: &[u8]) -> (r: Result<TerribleConfig, ConfigError>)
    ensures
        match decoding(source@) {
            Ok((version, name)) => r is Ok && r->Ok_0.spec_version() == version
                && r->Ok_0.spec_name() == name,
            Err(e) => r == Err::<TerribleConfig, ConfigError>(e),
        },
{
    if source.len() < 4 {
        return Err(ConfigError::UnexpectedEof);
    }
    if source[0] != 0xDE || source[1] != 0xAD || source[2] != 0xBE || source[3] != 0xEF {
        assert(source@.subrange(0, 4)[0] == source@[0]);
        assert(source@.subrange(0, 4)[1] == source@[1]);
        assert(source@.subrange(0, 4)[2] == source@[2]);
        assert(source@.subrange(0, 4)[3] == source@[3]);
        return Err(ConfigError::MagicMismatch);
    }
    assert(source@.subrange(0, 4) =~= magic());
    if source.len() < 6 {
        return Err(ConfigError::UnexpectedEof);
    }
    let version: u16 = get_u16(source, 4);
    if version != 1 {
        return Err(ConfigError::UnknownVersion);
    }
    let body = slice_subrange(source, 6, source.len());
    let r = load_v1(body);
    assert(body@.len() >= NAME_LEN ==> body@.subrange(0, NAME_LEN as int) =~= source@.subrange(
        6,
        RECORD_LEN as int,
    ));
    r
}

/// The encoded record: the magic number, the latest version and the name.
pub fn save(cfg: &TerribleConfig) -> (bytes: Vec<u8>)
    ensures
        bytes@ == encoding(LATEST_VERSION, cfg.spec_name()),
        bytes@.len() == RECORD_LEN,
{
    let mut out: Vec<u8> = Vec::new();
    out.push(0xDE);
    out.push(0xAD);
    out.push(0xBE);
    out.push(0xEF);
    put_u16(&mut out, LATEST_VERSION);
    proof {
        lemma_be_bytes_len(LATEST_VERSION as nat, 2);
    }
    let mut i: usize = 0;
    while i < 64
        invariant
            i <= 64,
            out@.len() == 6 + i,
            out@.subrange(0, 6) == magic() + be_bytes(LATEST_VERSION as nat, 2),
            forall|j: int| 0 <= j < i ==> out@[6 + j] == cfg.name@[j],
        decreases 64 - i,
    {
        out.push(cfg.name[i]);
        i += 1;
    }
    assert(out@ =~= encoding(LATEST_VERSION, cfg.spec_name()));
    out
}

/// Saving a record of the latest version and loading the bytes again, with or
/// without bytes after them, gives the record back.
pub proof fn lemma_load_save(version: u16, name: Seq<u8>, rest: Seq<u8>)
    requires
        version == LATEST_VERSION,
        name.len() == NAME_LEN,
    ensures
        decoding(encoding(version, name) + rest) == Ok::<(u16, Seq<u8>), ConfigError>(
            (version, name),
        ),
{
    let bytes = encoding(version, name) + rest;
    assert(bytes.subrange(0, 4) =~= magic());
    lemma_be_bytes_len(version as nat, 2);
    lemma_radix_pow_values();
    lemma_be_value_of_bytes(version as nat, 2);
    assert(bytes.subrange(4, 6) =~= be_bytes(version as nat, 2));
    assert(bytes.subrange(6, RECORD_LEN as int) =~= name);
}

} // verus!
