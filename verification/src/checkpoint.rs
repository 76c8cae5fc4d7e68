//! The framing of a corpus checkpoint file: a magic tag, the MD5 digest of
//! the serialized payload, and the payload compressed with zstd.
use vstd::prelude::*;

use crate::state_tracker::str_eq;

verus! {

/// The tag a checkpoint file starts with.
pub const MAGIC: [u8; 11] = [
    0x53, 0x42, 0x46, 0x4c, 0x43, 0x4f, 0x52, 0x50, 0x55, 0x53, 0x00,
];

/// Length of the tag.
pub const MAGIC_LEN: usize = 11;

/// Length of an MD5 digest.
pub const DIGEST_LEN: usize = 16;

/// Length of the header: tag and digest.
pub const HEADER_LEN: usize = 27;

/// The version of the checkpoint format.
pub const FORMAT_VERSION: u32 = 1;

/// The zstd level payloads are compressed with.
pub const ZSTD_COMPRESSION_LEVEL: i32 = 3;

/// The MD5 digest of `data`, as computed by the `md5` crate.
pub uninterp spec fn md5_digest(data: Seq<u8>) -> Seq<u8>;

/// The zstd frame that the `zstd` crate makes of `data` at `level`.
pub uninterp spec fn zstd_compressed(data: Seq<u8>, level: i32) -> Seq<u8>;

/// What the `zstd` crate decompresses `data` to, `None` if it is not a
/// valid zstd stream.
pub uninterp spec fn zstd_decompressed(data: Seq<u8>) -> Option<Seq<u8>>;

/// `md5::compute`: the 16-byte MD5 digest of `data`. It depends on the
/// bytes alone.
#[verifier::external_body]
fn md5_of(data: &[u8]) -> (d: [u8; 16])
    ensures
        d@ == md5_digest(data@),
{
    md5::compute(data).0
}

/// `zstd::stream::encode_all`: a zstd frame of `data` at `level` (1 to 22,
/// the range its encoder takes), which decompresses back to `data` (zstd is
/// lossless). Reading from a byte slice and writing to a `Vec` cannot fail,
/// and zstd clamps the level into its bounds; what the contract leaves out
/// is zstd failing to allocate its working memory, which it reports as an
/// error where an allocation of Rust's own would abort.
#[verifier::external_body]
fn zstd_compress(data: &[u8], level: i32) -> (r: Option<Vec<u8>>)
    requires
        1 <= level <= 22,
    ensures
        r is Some,
        r matches Some(c) ==> c@ == zstd_compressed(data@, level) && zstd_decompressed(c@) == Some(
            data@,
        ),
{
    match zstd::stream::encode_all(data, level) {
        Ok(c) => Some(c),
        Err(_) => None,
    }
}

/// `zstd::stream::decode_all`: the decompressed bytes of `data`, `None` when
/// it is not a valid zstd stream.
#[verifier::external_body]
fn zstd_decompress(data: &[u8]) -> (r: Option<Vec<u8>>)
    ensures
        match zstd_decompressed(data@) {
            Some(d) => r matches Some(v) && v@ == d,
            None => r is None,
        },
{
    match zstd::stream::decode_all(data) {
        Ok(d) => Some(d),
        Err(_) => None,
    }
}

/// Why a checkpoint was refused.
#[derive(Clone, Copy, Debug, PartialEq, Eq, Structural)]
pub enum CheckpointError {
    /// The file does not start with the checkpoint header.
    NotCheckpoint,
    /// The payload is not a valid zstd stream.
    Corrupt,
    /// The payload does not match the digest in the header.
    ChecksumMismatch,
    /// The payload has bytes after the serialized session.
    TrailingData,
    /// The initial case of the session passed.
    InitialPassed,
    /// The main corpus of the session is empty.
    EmptyCorpus,
    /// The checkpoint has another format version.
    UnsupportedVersion { version: u32 },
    /// The checkpoint was made with another configuration.
    ConfigMismatch,
}

/// The bytes of a checkpoint file for `payload`.
pub open spec fn checkpoint_file(payload: Seq<u8>) -> Seq<u8> {
    MAGIC@ + md5_digest(payload) + zstd_compressed(payload, ZSTD_COMPRESSION_LEVEL)
}

/// What reading a checkpoint file yields: the decompressed payload, to be
/// checked against the digest in the header once it is deserialized.
pub open spec fn checkpoint_payload(file: Seq<u8>) -> Result<Seq<u8>, CheckpointError> {
    if file.len() < HEADER_LEN || file.take(MAGIC_LEN as int) != MAGIC@ {
        Err(CheckpointError::NotCheckpoint)
    } else {
        match zstd_decompressed(file.skip(HEADER_LEN as int)) {
            None => Err(CheckpointError::Corrupt),
            Some(payload) => Ok(payload),
        }
    }
}

/// The digest in the header of `file` is that of `payload`.
pub open spec fn digest_matches(file: Seq<u8>, payload: Seq<u8>) -> bool {
    md5_digest(payload) == file.subrange(MAGIC_LEN as int, HEADER_LEN as int)
}

/// The checkpoint file for a serialized payload: the header, then the
/// compressed payload. The file reads back as `payload` (see
/// `lemma_checkpoint_roundtrip`).
pub fn encode_checkpoint(payload: &[u8]) -> (file: Vec<u8>)
    ensures
        file@ == checkpoint_file(payload@),
        zstd_decompressed(zstd_compressed(payload@, ZSTD_COMPRESSION_LEVEL)) == Some(payload@),
        md5_digest(payload@).len() == DIGEST_LEN,
{
    let digest = md5_of(payload);
    let compressed = zstd_compress(payload, ZSTD_COMPRESSION_LEVEL).unwrap();
    let mut file: Vec<u8> = Vec::new();
    let magic = MAGIC;
    let mut i: usize = 0;
    while i < MAGIC_LEN
        invariant
            i <= MAGIC_LEN,
            magic@ == MAGIC@,
            magic@.len() == MAGIC_LEN,
            file@ == MAGIC@.take(i as int),
        decreases MAGIC_LEN - i,
    {
        file.push(magic[i]);
        proof {
            assert(MAGIC@.take(i + 1) =~= MAGIC@.take(i as int).push(MAGIC@[i as int]));
        }
        i += 1;
    }
    assert(MAGIC@.take(MAGIC_LEN as int) =~= MAGIC@);
    let mut i: usize = 0;
    while i < DIGEST_LEN
        invariant
            i <= DIGEST_LEN,
            digest@.len() == DIGEST_LEN,
            file@ == MAGIC@ + digest@.take(i as int),
        decreases DIGEST_LEN - i,
    {
        file.push(digest[i]);
        proof {
            assert(digest@.take(i + 1) =~= digest@.take(i as int).push(digest@[i as int]));
        }
        i += 1;
    }
    assert(digest@.take(DIGEST_LEN as int) =~= digest@);
    let mut compressed = compressed;
    file.append(&mut compressed);
    file
}

/// The serialized payload of a checkpoint file: its tag checked and its
/// payload decompressed. The digest is checked by `check_session_header`,
/// after the payload is deserialized.
pub fn decode_checkpoint(file: &[u8]) -> (r: Result<Vec<u8>, CheckpointError>)
    ensures
        match checkpoint_payload(file@) {
            Ok(p) => r matches Ok(v) && v@ == p,
            Err(e) => r == Err::<Vec<u8>, CheckpointError>(e),
        },
        r is Ok ==> file@.len() >= HEADER_LEN,
{
    if file.len() < HEADER_LEN {
        return Err(CheckpointError::NotCheckpoint);
    }
    let magic = MAGIC;
    let mut i: usize = 0;
    while i < MAGIC_LEN
        invariant
            i <= MAGIC_LEN,
            HEADER_LEN <= file@.len(),
            magic@ == MAGIC@,
            magic@.len() == MAGIC_LEN,
            forall|k: int| 0 <= k < i ==> #[trigger] file@[k] == MAGIC@[k],
        decreases MAGIC_LEN - i,
    {
        if file[i] != magic[i] {
            proof {
                assert(file@.take(MAGIC_LEN as int)[i as int] != MAGIC@[i as int]);
            }
            return Err(CheckpointError::NotCheckpoint);
        }
        i += 1;
    }
    assert(file@.take(MAGIC_LEN as int) =~= MAGIC@);
    let body = crate::reduce::copy_bytes(file);
    let mut rest = body;
    let tail = rest.split_off(HEADER_LEN);
    assert(tail@ =~= file@.skip(HEADER_LEN as int));
    match zstd_decompress(tail.as_slice()) {
        Some(p) => Ok(p),
        None => Err(CheckpointError::Corrupt),
    }
}

/// A checkpoint file reads back as the payload it was written from, and
/// the digest in its header is that payload's, given that the compression
/// it holds decompresses to the payload and the digest has its length
/// (which `encode_checkpoint` reports of every file it writes).
pub proof fn lemma_checkpoint_roundtrip(payload: Seq<u8>)
    requires
        zstd_decompressed(zstd_compressed(payload, ZSTD_COMPRESSION_LEVEL)) == Some(payload),
        md5_digest(payload).len() == DIGEST_LEN,
    ensures
        checkpoint_file(payload).len() >= HEADER_LEN,
        checkpoint_payload(checkpoint_file(payload)) == Ok::<Seq<u8>, CheckpointError>(payload),
        digest_matches(checkpoint_file(payload), payload),
{
    let file = checkpoint_file(payload);
    assert(file.take(MAGIC_LEN as int) =~= MAGIC@);
    assert(file.skip(HEADER_LEN as int) =~= zstd_compressed(payload, ZSTD_COMPRESSION_LEVEL));
    assert(file.subrange(MAGIC_LEN as int, HEADER_LEN as int) =~= md5_digest(payload));
}

/// The format version a checkpoint was read with must be this one.
pub fn check_version(version: u32) -> (r: Result<(), CheckpointError>)
    ensures
        r == (if version == FORMAT_VERSION {
            Ok(())
        } else {
            Err(CheckpointError::UnsupportedVersion { version })
        }),
{
    if version != FORMAT_VERSION {
        return Err(CheckpointError::UnsupportedVersion { version });
    }
    Ok(())
}

/// Whether the digest in the header of `file` is that of `payload`.
fn digest_matches_in(file: &[u8], payload: &[u8]) -> (b: bool)
    requires
        file@.len() >= HEADER_LEN,
    ensures
        b == digest_matches(file@, payload@),
{
    let digest = md5_of(payload);
    let mut k: usize = 0;
    while k < DIGEST_LEN
        invariant
            k <= DIGEST_LEN,
            HEADER_LEN <= file@.len(),
            digest@.len() == DIGEST_LEN,
            digest@ == md5_digest(payload@),
            forall|j: int| 0 <= j < k ==> #[trigger] digest@[j] == file@[MAGIC_LEN + j],
        decreases DIGEST_LEN - k,
    {
        if digest[k] != file[MAGIC_LEN + k] {
            proof {
                assert(digest@[k as int] != file@.subrange(MAGIC_LEN as int, HEADER_LEN as int)[k as int]);
            }
            return false;
        }
        k += 1;
    }
    assert(digest@ =~= file@.subrange(MAGIC_LEN as int, HEADER_LEN as int));
    true
}

/// The checks on a payload deserialized from `file`, before its session is
/// restored: no bytes may follow the serialized session, then the payload
/// must match the digest in the header, then the format version must be
/// this one.
pub fn check_session_header(file: &[u8], payload: &[u8], trailing_len: usize, version: u32) -> (r:
    Result<(), CheckpointError>)
    requires
        file@.len() >= HEADER_LEN,
    ensures
        r == (if trailing_len != 0 {
            Err(CheckpointError::TrailingData)
        } else if !digest_matches(file@, payload@) {
            Err(CheckpointError::ChecksumMismatch)
        } else if version != FORMAT_VERSION {
            Err(CheckpointError::UnsupportedVersion { version })
        } else {
            Ok(())
        }),
{
    if trailing_len != 0 {
        return Err(CheckpointError::TrailingData);
    }
    if !digest_matches_in(file, payload) {
        return Err(CheckpointError::ChecksumMismatch);
    }
    check_version(version)
}

/// The checks on a restored session: its initial case must have crashed,
/// then its main corpus must hold a case.
pub fn check_session(init_is_passed: bool, corpus_count: usize) -> (r: Result<(), CheckpointError>)
    ensures
        r == (if init_is_passed {
            Err(CheckpointError::InitialPassed)
        } else if corpus_count == 0 {
            Err(CheckpointError::EmptyCorpus)
        } else {
            Ok(())
        }),
{
    if init_is_passed {
        return Err(CheckpointError::InitialPassed);
    }
    if corpus_count == 0 {
        return Err(CheckpointError::EmptyCorpus);
    }
    Ok(())
}

/// The configuration a corpus was fuzzed with.
#[derive(Clone, Debug)]
pub struct CheckpointConfig {
    pub coverage: String,
    pub state: String,
    pub tracker_window_size: usize,
}

/// A checkpoint is resumed only with the configuration it was made with.
pub fn validate_config(saved: &CheckpointConfig, requested: &CheckpointConfig) -> (r: Result<
    (),
    CheckpointError,
>)
    ensures
        r == (if saved.coverage@ == requested.coverage@ && saved.state@ == requested.state@
            && saved.tracker_window_size == requested.tracker_window_size {
            Ok(())
        } else {
            Err(CheckpointError::ConfigMismatch)
        }),
{
    if str_eq(saved.coverage.as_str(), requested.coverage.as_str()) && str_eq(
        saved.state.as_str(),
        requested.state.as_str(),
    ) && saved.tracker_window_size == requested.tracker_window_size {
        Ok(())
    } else {
        Err(CheckpointError::ConfigMismatch)
    }
}

/// The lowercase hexadecimal digits of `bytes`, two per byte.
pub open spec fn hex_lower(bytes: Seq<u8>) -> Seq<u8>
    decreases bytes.len(),
{
    if bytes.len() == 0 {
        Seq::empty()
    } else {
        hex_lower(bytes.drop_last()) + seq![
            hex_digit(bytes.last() / 16),
            hex_digit(bytes.last() % 16),
        ]
    }
}

/// The ASCII lowercase hexadecimal digit of `n < 16`.
pub open spec fn hex_digit(n: u8) -> u8 {
    if n < 10 {
        (0x30 + n) as u8
    } else {
        (0x61 + n - 10) as u8
    }
}

fn hex_digit_of(n: u8) -> (c: u8)
    requires
        n < 16,
    ensures
        c == hex_digit(n),
{
    if n < 10 {
        0x30 + n
    } else {
        0x61 + n - 10
    }
}

/// The file stem a test case is stored under: the MD5 digest of its bytes
/// in lowercase hexadecimal, as ASCII.
pub fn testcase_file_stem(input: &[u8]) -> (name: Vec<u8>)
    ensures
        name@ == hex_lower(md5_digest(input@)),
{
    let digest = md5_of(input);
    let mut name: Vec<u8> = Vec::new();
    let mut i: usize = 0;
    while i < DIGEST_LEN
        invariant
            i <= DIGEST_LEN,
            digest@.len() == DIGEST_LEN,
            digest@ == md5_digest(input@),
            name@ == hex_lower(digest@.take(i as int)),
        decreases DIGEST_LEN - i,
    {
        let b = digest[i];
        name.push(hex_digit_of(b / 16));
        name.push(hex_digit_of(b % 16));
        proof {
            assert(digest@.take(i + 1).drop_last() =~= digest@.take(i as int));
            assert(name@ =~= hex_lower(digest@.take(i + 1)));
        }
        i += 1;
    }
    assert(digest@.take(DIGEST_LEN as int) =~= digest@);
    name
}

} // verus!
