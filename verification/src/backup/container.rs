//! The `.flatbak` container: a fixed header, a compressed manifest, a
//! compressed payload and an integrity trailer.
//!
//! ```text
//! offset  size  field
//! 0       8     magic "FLATBAK\x1a"
//! 8       2     container_version   u16 LE
//! 10      2     reserved            u16 LE (0)
//! 12      4     manifest_len        u32 LE  compressed manifest length
//! 16      8     payload_len         u64 LE  compressed payload length
//! 24      4     header_crc32        u32 LE  CRC-32 of bytes 0..24
//! 28      4     reserved            u32 LE (0)
//! 32      N     manifest            zstd(TOML)
//! 32+N    M     payload             zstd(tar)
//! end-40  32    payload_sha256      SHA-256 of the *compressed* payload bytes
//! end-8   8     trailer magic "FBKEND\r\n"
//! ```
//!
//! The manifest sits at a known offset ahead of the payload, so opening a
//! multi-gigabyte backup to list its applications reads a few kilobytes rather
//! than decompressing the whole file. The trailer carries the checksum because
//! it can only be known once the payload has been written; a reader verifies it
//! while streaming the payload during a restore.
//!
//! `container_version` covers this framing, while the manifest's own
//! `format_version` covers its contents. They are separate so the framing can
//! stay put while the manifest evolves, which is the likelier change.

use vstd::prelude::*;
use crate::error::{ArchiveError, ArchiveErrorView};
use crate::path::{append_bytes, copy_bytes};
use crate::text::same_bytes;

verus! {

/// `FLATBAK` and a control character that stops text tools.
pub const MAGIC: [u8; 8] = [70u8, 76u8, 65u8, 84u8, 66u8, 65u8, 75u8, 26u8];

/// `FBKEND` and a line end.
pub const TRAILER_MAGIC: [u8; 8] = [70u8, 66u8, 75u8, 69u8, 78u8, 68u8, 13u8, 10u8];

pub const CONTAINER_VERSION: u16 = 1;

/// Highest framing version this build understands.
pub const CONTAINER_VERSION_MAX: u16 = 1;

pub const HEADER_LEN: u64 = 32;

pub const TRAILER_LEN: u64 = 40;

// ------------------------------------------------------------- little endian

/// The `count` low bytes of `n`, the least significant one first.
pub open spec fn le_bytes(n: nat, count: nat) -> Seq<u8>
    decreases count,
{
    if count == 0 {
        Seq::empty()
    } else {
        seq![(n % 256) as u8] + le_bytes(n / 256, (count - 1) as nat)
    }
}

/// The number that `bytes` stand for, the least significant one first.
pub open spec fn le_value(bytes: Seq<u8>) -> nat
    decreases bytes.len(),
{
    if bytes.len() == 0 {
        0
    } else {
        (bytes[0] + 256 * le_value(bytes.skip(1))) as nat
    }
}

/// How many values `count` bytes can take.
pub open spec fn byte_range(count: nat) -> nat
    decreases count,
{
    if count == 0 {
        1
    } else {
        256 * byte_range((count - 1) as nat)
    }
}

/// What was written little-endian is read back, if it fits.
pub proof fn lemma_le_round_trip(n: nat, count: nat)
    requires
        n < byte_range(count),
    ensures
        le_bytes(n, count).len() == count,
        le_value(le_bytes(n, count)) == n,
    decreases count,
{
    if count > 0 {
        lemma_le_round_trip(n / 256, (count - 1) as nat);
        assert(le_bytes(n, count).skip(1) =~= le_bytes(n / 256, (count - 1) as nat));
    }
}

proof fn lemma_le_value_bound(bytes: Seq<u8>)
    ensures
        le_value(bytes) < byte_range(bytes.len()),
    decreases bytes.len(),
{
    if bytes.len() > 0 {
        lemma_le_value_bound(bytes.skip(1));
    }
}

proof fn lemma_byte_ranges()
    ensures
        byte_range(2) == 0x1_0000,
        byte_range(4) == 0x1_0000_0000,
        byte_range(8) == 0x1_0000_0000_0000_0000,
{
    reveal_with_fuel(byte_range, 9);
}

/// Puts the `count` low bytes of `n` behind `out`.
fn push_le(out: &mut Vec<u8>, n: u64, count: usize)
    ensures
        final(out)@ == old(out)@ + le_bytes(n as nat, count as nat),
    decreases count,
{
    if count == 0 {
        assert(out@ + le_bytes(n as nat, 0) =~= out@);
        return;
    }
    let ghost start = out@;
    out.push((n % 256) as u8);
    push_le(out, n / 256, count - 1);
    proof {
        assert(out@ =~= start + le_bytes(n as nat, count as nat));
    }
}

/// The number in `bytes` from `from` up to `to`.
fn read_le(bytes: &[u8], from: usize, to: usize) -> (n: u64)
    requires
        from <= to <= bytes.len(),
        to - from <= 8,
    ensures
        n == le_value(bytes@.subrange(from as int, to as int)),
    decreases to - from,
{
    let ghost field = bytes@.subrange(from as int, to as int);
    proof {
        lemma_le_value_bound(field);
        lemma_byte_range_grows(field.len(), 8);
        lemma_byte_ranges();
    }
    if from == to {
        return 0;
    }
    let rest: u64 = read_le(bytes, from + 1, to);
    proof {
        assert(field.skip(1) =~= bytes@.subrange(from + 1, to as int));
    }
    bytes[from] as u64 + 256 * rest
}

proof fn lemma_byte_range_grows(n: nat, m: nat)
    requires
        n <= m,
    ensures
        1 <= byte_range(n) <= byte_range(m),
    decreases m,
{
    if n < m {
        lemma_byte_range_grows(n, (m - 1) as nat);
    } else if n > 0 {
        lemma_byte_range_grows((n - 1) as nat, (n - 1) as nat);
    }
}

/// `v` as an array.
fn header_array(v: &Vec<u8>) -> (out: [u8; 32])
    requires
        v@.len() == 32,
    ensures
        out@ == v@,
{
    let mut out: [u8; 32] = [0u8; 32];
    let mut i: usize = 0;
    while i < 32
        invariant
            i <= 32,
            v@.len() == 32,
            forall|k: int| 0 <= k < i ==> out@[k] == v@[k],
        decreases 32 - i,
    {
        out[i] = v[i];
        i = i + 1;
    }
    assert(out@ =~= v@);
    out
}

/// `v` as an array.
fn trailer_array(v: &Vec<u8>) -> (out: [u8; 40])
    requires
        v@.len() == 40,
    ensures
        out@ == v@,
{
    let mut out: [u8; 40] = [0u8; 40];
    let mut i: usize = 0;
    while i < 40
        invariant
            i <= 40,
            v@.len() == 40,
            forall|k: int| 0 <= k < i ==> out@[k] == v@[k],
        decreases 40 - i,
    {
        out[i] = v[i];
        i = i + 1;
    }
    assert(out@ =~= v@);
    out
}

// ------------------------------------------------------------- trusted items

/// What `crc32fast::hash` makes of `bytes`.
pub uninterp spec fn crc32(bytes: Seq<u8>) -> u32;

/// `crc32fast::hash`: the CRC-32 of `bytes`.
#[verifier::external_body]
fn checksum(bytes: &[u8]) -> (crc: u32)
    ensures
        crc == crc32(bytes@),
{
    crc32fast::hash(bytes)
}

/// The state of a SHA-256 computation.
#[verifier::external_type_specification]
#[verifier::external_body]
pub struct ExSha256(sha2::Sha256);

/// What a hasher was fed so far.
pub uninterp spec fn absorbed(hasher: sha2::Sha256) -> Seq<u8>;

/// The SHA-256 digest of `bytes`.
pub uninterp spec fn sha256(bytes: Seq<u8>) -> [u8; 32];

/// `sha2::Sha256::new`: a hasher that was fed nothing.
#[verifier::external_body]
fn hasher_new() -> (hasher: sha2::Sha256)
    ensures
        absorbed(hasher) == Seq::<u8>::empty(),
{
    sha2::Digest::new()
}

/// `sha2::Sha256::update`: feeds `data` to the hasher.
#[verifier::external_body]
fn hasher_update(hasher: &mut sha2::Sha256, data: &[u8])
    ensures
        absorbed(*final(hasher)) == absorbed(*old(hasher)) + data@,
{
    sha2::Digest::update(hasher, data)
}

/// `sha2::Sha256::finalize`: the digest of what the hasher was fed.
#[verifier::external_body]
fn hasher_finalize(hasher: sha2::Sha256) -> (digest: [u8; 32])
    ensures
        digest == sha256(absorbed(hasher)),
{
    sha2::Digest::finalize(hasher).into()
}

// ------------------------------------------------------------------- header

/// Fixed-size header at the start of every archive.
#[derive(Debug, Clone, Copy, PartialEq, Eq, Structural)]
pub struct Header {
    pub container_version: u16,
    pub manifest_len: u32,
    pub payload_len: u64,
}

/// The part of a header that its checksum covers.
pub open spec fn header_body(header: Header) -> Seq<u8> {
    MAGIC@ + le_bytes(header.container_version as nat, 2) + le_bytes(0, 2) + le_bytes(
        header.manifest_len as nat,
        4,
    ) + le_bytes(header.payload_len as nat, 8)
}

/// How a header is written.
pub open spec fn header_bytes(header: Header) -> Seq<u8> {
    let body = header_body(header);
    body + le_bytes(crc32(body) as nat, 4) + le_bytes(0, 4)
}

/// What the first bytes of a file say, or what is wrong with them.
pub open spec fn header_of(bytes: Seq<u8>) -> Result<Header, ArchiveErrorView> {
    let version = le_value(bytes.subrange(8, 10));
    if bytes.subrange(0, 8) != MAGIC@ {
        Err(ArchiveErrorView::Corrupt("bad file signature"@))
    } else if crc32(bytes.subrange(0, 24)) != le_value(bytes.subrange(24, 28)) {
        Err(ArchiveErrorView::Corrupt("the file header failed its checksum"@))
    } else if version > CONTAINER_VERSION_MAX {
        Err(
            ArchiveErrorView::UnsupportedVersion {
                found: version as u32,
                supported: CONTAINER_VERSION_MAX as u32,
            },
        )
    } else {
        Ok(
            Header {
                container_version: version as u16,
                manifest_len: le_value(bytes.subrange(12, 16)) as u32,
                payload_len: le_value(bytes.subrange(16, 24)) as u64,
            },
        )
    }
}

/// The file length that `header` implies.
pub open spec fn file_len(header: Header) -> int {
    HEADER_LEN + header.manifest_len + header.payload_len + TRAILER_LEN
}

impl Header {
    pub fn new(manifest_len: u32, payload_len: u64) -> (header: Self)
        ensures
            header == (Header { container_version: CONTAINER_VERSION, manifest_len, payload_len }),
    {
        Header { container_version: CONTAINER_VERSION, manifest_len, payload_len }
    }

    pub fn encode(&self) -> (bytes: [u8; 32])
        ensures
            bytes@ == header_bytes(*self),
    {
        let mut bytes: Vec<u8> = Vec::new();
        append_bytes(&mut bytes, &MAGIC);
        push_le(&mut bytes, self.container_version as u64, 2);
        push_le(&mut bytes, 0, 2);
        push_le(&mut bytes, self.manifest_len as u64, 4);
        push_le(&mut bytes, self.payload_len, 8);
        assert(bytes@ =~= header_body(*self));
        let crc: u32 = checksum(&bytes);
        push_le(&mut bytes, crc as u64, 4);
        push_le(&mut bytes, 0, 4);
        proof {
            lemma_header_len(*self);
        }
        header_array(&bytes)
    }

    /// Reads a header. A wrong signature is reported as damage; the caller, which
    /// knows the path, can say that the file is no backup at all.
    pub fn decode(bytes: &[u8; 32]) -> (out: Result<Self, ArchiveError>)
        ensures
            out matches Ok(header) ==> header_of(bytes@) == Ok::<Header, ArchiveErrorView>(header),
            out matches Err(error) ==> header_of(bytes@) == Err::<Header, ArchiveErrorView>(
                error@,
            ),
    {
        if !has_signature(bytes) {
            return Err(ArchiveError::Corrupt("bad file signature".to_owned()));
        }
        proof {
            lemma_byte_ranges();
            lemma_le_value_bound(bytes@.subrange(8, 10));
            lemma_le_value_bound(bytes@.subrange(12, 16));
            lemma_le_value_bound(bytes@.subrange(16, 24));
        }
        let stored_crc: u64 = read_le(bytes, 24, 28);
        let body = copy_bytes(bytes, 0, 24);
        if checksum(&body) as u64 != stored_crc {
            return Err(ArchiveError::Corrupt("the file header failed its checksum".to_owned()));
        }
        let container_version: u16 = read_le(bytes, 8, 10) as u16;
        if container_version > CONTAINER_VERSION_MAX {
            return Err(
                ArchiveError::UnsupportedVersion {
                    found: container_version as u32,
                    supported: CONTAINER_VERSION_MAX as u32,
                },
            );
        }
        Ok(
            Header {
                container_version,
                manifest_len: read_le(bytes, 12, 16) as u32,
                payload_len: read_le(bytes, 16, 24),
            },
        )
    }

    /// Byte offset of the payload within the file.
    pub fn payload_offset(&self) -> (offset: u64)
        ensures
            offset == HEADER_LEN + self.manifest_len,
    {
        HEADER_LEN + self.manifest_len as u64
    }

    /// The exact file length this header implies.
    pub fn expected_file_len(&self) -> (len: u64)
        requires
            file_len(*self) <= u64::MAX,
        ensures
            len == file_len(*self),
    {
        HEADER_LEN + self.manifest_len as u64 + self.payload_len + TRAILER_LEN
    }
}

/// True if `bytes` start as every archive does.
pub fn has_signature(bytes: &[u8; 32]) -> (yes: bool)
    ensures
        yes == (bytes@.subrange(0, 8) == MAGIC@),
{
    same_bytes(&copy_bytes(bytes, 0, 8), &MAGIC)
}

/// Every header takes the same room.
pub proof fn lemma_header_len(header: Header)
    ensures
        header_body(header).len() == 24,
        header_bytes(header).len() == HEADER_LEN,
{
    lemma_byte_ranges();
    lemma_le_round_trip(header.container_version as nat, 2);
    lemma_le_round_trip(0, 2);
    lemma_le_round_trip(header.manifest_len as nat, 4);
    lemma_le_round_trip(header.payload_len as nat, 8);
    lemma_le_round_trip(crc32(header_body(header)) as nat, 4);
    lemma_le_round_trip(0, 4);
}

/// Each field of a written header holds what it should.
proof fn lemma_header_fields(header: Header)
    ensures
        ({
            let bytes = header_bytes(header);
            let body = header_body(header);
            &&& bytes.subrange(0, 8) == MAGIC@
            &&& bytes.subrange(0, 24) == body
            &&& le_value(bytes.subrange(8, 10)) == header.container_version
            &&& le_value(bytes.subrange(12, 16)) == header.manifest_len
            &&& le_value(bytes.subrange(16, 24)) == header.payload_len
            &&& le_value(bytes.subrange(24, 28)) == crc32(body)
        }),
{
    let bytes = header_bytes(header);
    let body = header_body(header);
    lemma_byte_ranges();
    lemma_le_round_trip(header.container_version as nat, 2);
    lemma_le_round_trip(0, 2);
    lemma_le_round_trip(header.manifest_len as nat, 4);
    lemma_le_round_trip(header.payload_len as nat, 8);
    lemma_le_round_trip(crc32(body) as nat, 4);
    lemma_le_round_trip(0, 4);
    assert(bytes.subrange(0, 8) =~= MAGIC@);
    assert(bytes.subrange(0, 24) =~= body);
    assert(bytes.subrange(8, 10) =~= le_bytes(header.container_version as nat, 2));
    assert(bytes.subrange(12, 16) =~= le_bytes(header.manifest_len as nat, 4));
    assert(bytes.subrange(16, 24) =~= le_bytes(header.payload_len as nat, 8));
    assert(bytes.subrange(24, 28) =~= le_bytes(crc32(body) as nat, 4));
}

/// A header is read back as it was written, unless its version is too new.
pub proof fn lemma_header_round_trips(header: Header)
    requires
        header.container_version <= CONTAINER_VERSION_MAX,
    ensures
        header_of(header_bytes(header)) == Ok::<Header, ArchiveErrorView>(header),
{
    lemma_header_fields(header);
}

/// A header with a version this build does not know is refused as such.
pub proof fn lemma_newer_framing_is_refused(header: Header)
    requires
        header.container_version > CONTAINER_VERSION_MAX,
    ensures
        header_of(header_bytes(header)) == Err::<Header, ArchiveErrorView>(
            ArchiveErrorView::UnsupportedVersion {
                found: header.container_version as u32,
                supported: CONTAINER_VERSION_MAX as u32,
            },
        ),
{
    lemma_header_fields(header);
}

// ------------------------------------------------------------------ trailer

/// Integrity trailer at the end of every archive.
#[derive(Debug, Clone, Copy, PartialEq, Eq)]
pub struct Trailer {
    pub payload_sha256: [u8; 32],
}

impl View for Trailer {
    type V = Seq<u8>;

    open spec fn view(&self) -> Seq<u8> {
        self.payload_sha256@
    }
}

/// How a trailer with this digest is written.
pub open spec fn trailer_bytes(digest: Seq<u8>) -> Seq<u8> {
    digest + TRAILER_MAGIC@
}

/// The digest in the last bytes of a file, if they are a trailer.
pub open spec fn trailer_of(bytes: Seq<u8>) -> Result<Seq<u8>, ArchiveErrorView> {
    if bytes.subrange(32, 40) != TRAILER_MAGIC@ {
        Err(ArchiveErrorView::Truncated)
    } else {
        Ok(bytes.subrange(0, 32))
    }
}

impl Trailer {
    pub fn encode(&self) -> (bytes: [u8; 40])
        ensures
            bytes@ == trailer_bytes(self@),
    {
        let mut bytes: Vec<u8> = Vec::new();
        append_bytes(&mut bytes, &self.payload_sha256);
        append_bytes(&mut bytes, &TRAILER_MAGIC);
        assert(bytes@ =~= trailer_bytes(self@));
        trailer_array(&bytes)
    }

    pub fn decode(bytes: &[u8; 40]) -> (out: Result<Self, ArchiveError>)
        ensures
            out matches Ok(trailer) ==> trailer_of(bytes@) == Ok::<Seq<u8>, ArchiveErrorView>(
                trailer@,
            ),
            out matches Err(error) ==> trailer_of(bytes@) == Err::<Seq<u8>, ArchiveErrorView>(
                error@,
            ),
    {
        if !same_bytes(&copy_bytes(bytes, 32, 40), &TRAILER_MAGIC) {
            return Err(ArchiveError::Truncated);
        }
        let digest = copy_bytes(bytes, 0, 32);
        Ok(Trailer { payload_sha256: header_array(&digest) })
    }
}

/// A trailer is read back as it was written.
pub proof fn lemma_trailer_round_trips(digest: Seq<u8>)
    requires
        digest.len() == 32,
    ensures
        trailer_bytes(digest).len() == TRAILER_LEN,
        trailer_of(trailer_bytes(digest)) == Ok::<Seq<u8>, ArchiveErrorView>(digest),
{
    let bytes = trailer_bytes(digest);
    assert(bytes.subrange(32, 40) =~= TRAILER_MAGIC@);
    assert(bytes.subrange(0, 32) =~= digest);
}

// ------------------------------------------------------------ reading errors

/// What a failure to read the header means: the file ended (`at_end`), or the
/// system reported `message`.
pub fn header_read_error(at_end: bool, message: String) -> (error: ArchiveError)
    ensures
        error@ == if at_end {
            ArchiveErrorView::Truncated
        } else {
            ArchiveErrorView::Corrupt(message@)
        },
{
    if at_end {
        ArchiveError::Truncated
    } else {
        ArchiveError::Corrupt(message)
    }
}

/// Where the trailer of a file of `file_len` bytes starts.
pub fn trailer_offset(file_len: u64) -> (out: Result<u64, ArchiveError>)
    ensures
        out is Err <==> file_len < HEADER_LEN + TRAILER_LEN,
        out matches Ok(offset) ==> offset == file_len - TRAILER_LEN,
        out matches Err(error) ==> error@ == ArchiveErrorView::Truncated,
{
    if file_len < HEADER_LEN + TRAILER_LEN {
        return Err(ArchiveError::Truncated);
    }
    Ok(file_len - TRAILER_LEN)
}

// ------------------------------------------------------------------ hashing

/// Counts and hashes everything that is written to `inner`.
///
/// Wrapped *around* the compressor so the hash covers the compressed payload
/// exactly as it lands on disk, which is what a reader can cheaply verify.
pub struct HashingWriter<W> {
    inner: W,
    hasher: sha2::Sha256,
    written: u64,
}

impl<W> HashingWriter<W> {
    /// What was written so far.
    pub closed spec fn content(&self) -> Seq<u8> {
        absorbed(self.hasher)
    }

    /// What is being written to.
    pub closed spec fn sink(&self) -> W {
        self.inner
    }

    /// The count is that of the bytes written.
    pub closed spec fn wf(&self) -> bool {
        self.written == absorbed(self.hasher).len()
    }

    pub fn new(inner: W) -> (writer: Self)
        ensures
            writer.wf(),
            writer.sink() == inner,
            writer.content() == Seq::<u8>::empty(),
    {
        HashingWriter { inner, hasher: hasher_new(), written: 0 }
    }

    /// What is being written to, for writing. Whatever is written has to be
    /// recorded as well.
    pub fn inner_mut(&mut self) -> (inner: &mut W)
        requires
            old(self).wf(),
        ensures
            *inner == old(self).sink(),
            final(self).sink() == *final(inner),
            final(self).wf(),
            final(self).content() == old(self).content(),
    {
        &mut self.inner
    }

    /// Notes that `data` was written to the inner writer.
    pub fn record(&mut self, data: &[u8])
        requires
            old(self).wf(),
            old(self).content().len() + data@.len() <= u64::MAX,
        ensures
            final(self).wf(),
            final(self).sink() == old(self).sink(),
            final(self).content() == old(self).content() + data@,
    {
        hasher_update(&mut self.hasher, data);
        self.written = self.written + data.len() as u64;
    }

    /// Returns the byte count and digest, plus the wrapped writer.
    pub fn finish(self) -> (out: (W, u64, [u8; 32]))
        requires
            self.wf(),
        ensures
            out.0 == self.sink(),
            out.1 == self.content().len(),
            out.2 == sha256(self.content()),
    {
        let digest = hasher_finalize(self.hasher);
        (self.inner, self.written, digest)
    }
}

/// Hashes everything that is read from `inner` and stops after `limit` bytes, so
/// the payload can be verified while it is being extracted.
pub struct HashingLimitReader<R> {
    inner: R,
    hasher: sha2::Sha256,
    remaining: u64,
}

impl<R> HashingLimitReader<R> {
    /// What was read so far.
    pub closed spec fn content(&self) -> Seq<u8> {
        absorbed(self.hasher)
    }

    /// What is being read from.
    pub closed spec fn source(&self) -> R {
        self.inner
    }

    /// How many bytes are left to read.
    pub closed spec fn left(&self) -> u64 {
        self.remaining
    }

    pub fn new(inner: R, limit: u64) -> (reader: Self)
        ensures
            reader.source() == inner,
            reader.content() == Seq::<u8>::empty(),
            reader.left() == limit,
    {
        HashingLimitReader { inner, hasher: hasher_new(), remaining: limit }
    }

    pub fn remaining(&self) -> (n: u64)
        ensures
            n == self.left(),
    {
        self.remaining
    }

    /// How many bytes may be read into a buffer of `len` bytes.
    pub fn allowance(&self, len: usize) -> (n: usize)
        ensures
            n == if len <= self.left() {
                len as int
            } else {
                self.left() as int
            },
    {
        if len as u64 <= self.remaining {
            len
        } else {
            self.remaining as usize
        }
    }

    /// What is being read from, for reading. Whatever is read has to be absorbed as
    /// well.
    pub fn inner_mut(&mut self) -> (inner: &mut R)
        ensures
            *inner == old(self).source(),
            final(self).source() == *final(inner),
            final(self).content() == old(self).content(),
            final(self).left() == old(self).left(),
    {
        &mut self.inner
    }

    /// Notes that `data` was read from the inner reader.
    pub fn absorb(&mut self, data: &[u8])
        requires
            data@.len() <= old(self).left(),
        ensures
            final(self).source() == old(self).source(),
            final(self).content() == old(self).content() + data@,
            final(self).left() == old(self).left() - data@.len(),
    {
        hasher_update(&mut self.hasher, data);
        self.remaining = self.remaining - data.len() as u64;
    }

    pub fn finish(self) -> (digest: [u8; 32])
        ensures
            digest == sha256(self.content()),
    {
        hasher_finalize(self.hasher)
    }
}

// --------------------------------------------------------------------- laws

/// Each byte of a number that is written little-endian is one of its digits, the
/// least of them first.
pub proof fn lemma_little_end_first(n: nat, count: nat)
    ensures
        count > 0 ==> le_bytes(n, count)[0] == n % 256,
        count > 1 ==> le_bytes(n, count)[1] == n / 256 % 256,
        le_bytes(n, count).len() == count,
        count > 0 ==> le_bytes(n, count).skip(1) == le_bytes(n / 256, (count - 1) as nat),
    decreases count,
{
    if count > 0 {
        lemma_little_end_first(n / 256, (count - 1) as nat);
        assert(le_bytes(n, count).skip(1) =~= le_bytes(n / 256, (count - 1) as nat));
    }
}

/// Where everything stands in a header: the signature `FLATBAK` and a substitute
/// character, the version, two bytes that are not used, the sizes of the manifest and
/// of the payload, the checksum of all that, and four more bytes that are not used.
pub proof fn lemma_header_layout(header: Header)
    ensures
        ({
            let bytes = header_bytes(header);
            &&& bytes.len() == 32
            &&& bytes.subrange(0, 8) == seq![70u8, 76u8, 65u8, 84u8, 66u8, 65u8, 75u8, 26u8]
            &&& bytes.subrange(8, 10) == le_bytes(header.container_version as nat, 2)
            &&& bytes.subrange(10, 12) == seq![0u8, 0u8]
            &&& bytes.subrange(12, 16) == le_bytes(header.manifest_len as nat, 4)
            &&& bytes.subrange(16, 24) == le_bytes(header.payload_len as nat, 8)
            &&& bytes.subrange(24, 28) == le_bytes(crc32(bytes.subrange(0, 24)) as nat, 4)
            &&& bytes.subrange(28, 32) == seq![0u8, 0u8, 0u8, 0u8]
        }),
{
    let bytes = header_bytes(header);
    let body = header_body(header);
    lemma_header_len(header);
    lemma_little_end_first(header.container_version as nat, 2);
    lemma_little_end_first(header.manifest_len as nat, 4);
    lemma_little_end_first(header.payload_len as nat, 8);
    lemma_little_end_first(crc32(body) as nat, 4);
    reveal_with_fuel(le_bytes, 5);
    assert(le_bytes(0, 2) =~= seq![0u8, 0u8]);
    assert(le_bytes(0, 4) =~= seq![0u8, 0u8, 0u8, 0u8]);
    assert(bytes.subrange(0, 24) =~= body);
    assert(bytes.subrange(0, 8) =~= seq![70u8, 76u8, 65u8, 84u8, 66u8, 65u8, 75u8, 26u8]);
    assert(bytes.subrange(8, 10) =~= le_bytes(header.container_version as nat, 2));
    assert(bytes.subrange(10, 12) =~= seq![0u8, 0u8]);
    assert(bytes.subrange(12, 16) =~= le_bytes(header.manifest_len as nat, 4));
    assert(bytes.subrange(16, 24) =~= le_bytes(header.payload_len as nat, 8));
    assert(bytes.subrange(24, 28) =~= le_bytes(crc32(body) as nat, 4));
    assert(bytes.subrange(28, 32) =~= seq![0u8, 0u8, 0u8, 0u8]);
}

/// A header is taken only with the right signature, a matching checksum and a version
/// that is known, and each of these is asked for.
pub proof fn lemma_damaged_headers_are_refused(bytes: Seq<u8>)
    requires
        bytes.len() == 32,
    ensures
        header_of(bytes) is Ok <==> {
            &&& bytes.subrange(0, 8) == seq![70u8, 76u8, 65u8, 84u8, 66u8, 65u8, 75u8, 26u8]
            &&& crc32(bytes.subrange(0, 24)) == le_value(bytes.subrange(24, 28))
            &&& le_value(bytes.subrange(8, 10)) <= 1
        },
{
    assert(MAGIC@ =~= seq![70u8, 76u8, 65u8, 84u8, 66u8, 65u8, 75u8, 26u8]);
}

/// An archive ends in the checksum of its payload and the mark `FBKEND` with a line
/// end; without the mark it was cut off.
pub proof fn lemma_archives_end_in_their_mark(digest: Seq<u8>, tail: Seq<u8>)
    requires
        digest.len() == 32,
        tail.len() == 40,
    ensures
        trailer_bytes(digest) == digest + seq![
            70u8,
            66u8,
            75u8,
            69u8,
            78u8,
            68u8,
            13u8,
            10u8,
        ],
        trailer_of(tail) is Ok <==> tail.subrange(32, 40) == seq![
            70u8,
            66u8,
            75u8,
            69u8,
            78u8,
            68u8,
            13u8,
            10u8,
        ],
        trailer_of(tail) matches Ok(found) ==> found == tail.subrange(0, 32),
        trailer_of(tail) is Err ==> trailer_of(tail)->Err_0 == ArchiveErrorView::Truncated,
{
    assert(TRAILER_MAGIC@ =~= seq![70u8, 66u8, 75u8, 69u8, 78u8, 68u8, 13u8, 10u8]);
}

} // verus!
