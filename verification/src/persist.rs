//! The snapshot of an index as it is kept on disk, and the frame around its bytes.
//!
//! A cache file is a 16-byte header followed by a body:
//! the magic `KENIDX01`, the format version as a little-endian `u32`, the CRC-32 of
//! the body as a little-endian `u32`, then the body, the serialized snapshot.
//! Serializing a snapshot into a body, and reading one back, is left to the caller.
use vstd::prelude::*;
use vstd::bytes::{spec_u32_from_le_bytes, spec_u32_to_le_bytes, u32_from_le_bytes, u32_to_le_bytes};
use crate::symbols::{Symbol, SymbolView, symbol_views};

verus! {

/// The first eight bytes of every cache file: `KENIDX01`.
pub const MAGIC: [u8; 8] = [0x4B, 0x45, 0x4E, 0x49, 0x44, 0x58, 0x30, 0x31];

/// The format version that this library writes and reads.
pub const CURRENT_VERSION: u32 = 1;

/// Length of the header before the body.
pub const HEADER_LEN: usize = 16;

/// One file of a snapshot: its path, its modification time in milliseconds since the
/// Unix epoch, and its symbols.
#[derive(Clone, Debug, PartialEq, Eq)]
pub struct PersistedFile {
    pub path: String,
    pub mtime_ms: u64,
    pub symbols: Vec<Symbol>,
}

/// A snapshot of an index: format version, project root (empty for none), and files.
#[derive(Clone, Debug, PartialEq, Eq)]
pub struct PersistedIndex {
    pub version: u32,
    pub root: String,
    pub files: Vec<PersistedFile>,
}

/// A file of a snapshot, or of an index, as a mathematical value.
pub struct FileView {
    pub path: Seq<char>,
    pub mtime_ms: u64,
    pub symbols: Seq<SymbolView>,
}

/// A snapshot as a mathematical value.
pub struct PersistedIndexView {
    pub version: u32,
    pub root: Seq<char>,
    pub files: Seq<FileView>,
}

impl View for PersistedFile {
    type V = FileView;

    open spec fn view(&self) -> FileView {
        FileView { path: self.path@, mtime_ms: self.mtime_ms, symbols: symbol_views(self.symbols@) }
    }
}

/// The views of a sequence of files.
pub open spec fn file_views(s: Seq<PersistedFile>) -> Seq<FileView> {
    s.map_values(|f: PersistedFile| f@)
}

impl View for PersistedIndex {
    type V = PersistedIndexView;

    open spec fn view(&self) -> PersistedIndexView {
        PersistedIndexView { version: self.version, root: self.root@, files: file_views(self.files@) }
    }
}

/// The magic as a byte sequence.
pub open spec fn magic_bytes() -> Seq<u8> {
    seq![0x4Bu8, 0x45u8, 0x4Eu8, 0x49u8, 0x44u8, 0x58u8, 0x30u8, 0x31u8]
}

/// CRC-32 (IEEE) of `bytes`, as `crc32fast::hash` computes it.
pub uninterp spec fn crc32_of(bytes: Seq<u8>) -> u32;

/// Calls `crc32fast::hash`.
#[verifier::external_body]
pub(crate) fn crc32(bytes: &[u8]) -> (r: u32)
    ensures
        r == crc32_of(bytes@),
{
    crc32fast::hash(bytes)
}

/// The cache file that holds `body`.
pub open spec fn frame_spec(body: Seq<u8>) -> Seq<u8> {
    magic_bytes() + spec_u32_to_le_bytes(CURRENT_VERSION) + spec_u32_to_le_bytes(crc32_of(body))
        + body
}

/// The body that the cache file `bytes` holds: `None` where it is shorter than the
/// header, its magic differs, its version is not `CURRENT_VERSION`, or the CRC in its
/// header is not the CRC of its body.
pub open spec fn unframe_spec(bytes: Seq<u8>) -> Option<Seq<u8>> {
    if bytes.len() < HEADER_LEN || bytes.subrange(0, 8) != magic_bytes() {
        None
    } else if spec_u32_from_le_bytes(bytes.subrange(8, 12)) != CURRENT_VERSION {
        None
    } else if crc32_of(bytes.subrange(16, bytes.len() as int)) != spec_u32_from_le_bytes(
        bytes.subrange(12, 16),
    ) {
        None
    } else {
        Some(bytes.subrange(16, bytes.len() as int))
    }
}

fn push_all(buf: &mut Vec<u8>, bytes: &[u8])
    ensures
        final(buf)@ == old(buf)@ + bytes@,
{
    let mut i: usize = 0;
    while i < bytes.len()
        invariant
            i <= bytes@.len(),
            buf@ =~= old(buf)@ + bytes@.take(i as int),
        decreases bytes.len() - i,
    {
        buf.push(bytes[i]);
        proof {
            assert(bytes@.take(i + 1) =~= bytes@.take(i as int).push(bytes@[i as int]));
        }
        i = i + 1;
    }
    proof {
        assert(bytes@.take(i as int) =~= bytes@);
    }
}

/// The cache file that holds `body`: header, then body.
pub fn encode_frame(body: &[u8]) -> (r: Vec<u8>)
    ensures
        r@ == frame_spec(body@),
{
    let crc: u32 = crc32(body);
    let mut buf: Vec<u8> = Vec::new();
    push_all(&mut buf, MAGIC.as_slice());
    let version = u32_to_le_bytes(CURRENT_VERSION);
    push_all(&mut buf, version.as_slice());
    let sum = u32_to_le_bytes(crc);
    push_all(&mut buf, sum.as_slice());
    push_all(&mut buf, body);
    proof {
        assert(MAGIC@ =~= magic_bytes());
    }
    buf
}

/// Whether the first eight bytes of `bytes` are the magic.
fn has_magic(bytes: &[u8]) -> (r: bool)
    requires
        bytes@.len() >= 8,
    ensures
        r == (bytes@.subrange(0, 8) == magic_bytes()),
{
    let mut i: usize = 0;
    while i < 8
        invariant
            i <= 8,
            bytes@.len() >= 8,
            forall|k: int| 0 <= k < i ==> bytes@[k] == #[trigger] magic_bytes()[k],
        decreases 8 - i,
    {
        if bytes[i] != MAGIC[i] {
            proof {
                assert(MAGIC@ =~= magic_bytes());
                assert(bytes@.subrange(0, 8)[i as int] != magic_bytes()[i as int]);
            }
            return false;
        }
        proof {
            assert(MAGIC@ =~= magic_bytes());
        }
        i = i + 1;
    }
    proof {
        assert(bytes@.subrange(0, 8) =~= magic_bytes());
    }
    true
}

/// The body that the cache file `bytes` holds, where its header checks out.
pub fn decode_frame(bytes: &[u8]) -> (r: Option<&[u8]>)
    ensures
        r matches Some(body) ==> unframe_spec(bytes@) == Some(body@),
        r is None ==> unframe_spec(bytes@) is None,
{
    if bytes.len() < HEADER_LEN || !has_magic(bytes) {
        return None;
    }
    let version: u32 = u32_from_le_bytes(&bytes[8..12]);
    if version != CURRENT_VERSION {
        return None;
    }
    let stored: u32 = u32_from_le_bytes(&bytes[12..16]);
    let body = &bytes[16..bytes.len()];
    if crc32(body) != stored {
        return None;
    }
    Some(body)
}

/// Reading a written cache file gives back the body that was written.
pub proof fn law_frame_round_trip(body: Seq<u8>)
    ensures
        unframe_spec(frame_spec(body)) == Some(body),
{
    vstd::bytes::lemma_auto_spec_u32_to_from_le_bytes();
    let f = frame_spec(body);
    let v = spec_u32_to_le_bytes(CURRENT_VERSION);
    let c = spec_u32_to_le_bytes(crc32_of(body));
    assert(f.subrange(0, 8) =~= magic_bytes());
    assert(f.subrange(8, 12) =~= v);
    assert(f.subrange(12, 16) =~= c);
    assert(f.subrange(16, f.len() as int) =~= body);
}

/// A cache file shorter than the header, with another magic, with a version other than
/// `CURRENT_VERSION`, or whose body does not have the CRC its header records, yields
/// no body.
pub proof fn law_damaged_frame_rejected(bytes: Seq<u8>)
    requires
        bytes.len() < HEADER_LEN || bytes.subrange(0, 8) != magic_bytes() || spec_u32_from_le_bytes(
            bytes.subrange(8, 12),
        ) != CURRENT_VERSION || crc32_of(bytes.subrange(16, bytes.len() as int))
            != spec_u32_from_le_bytes(bytes.subrange(12, 16)),
    ensures
        unframe_spec(bytes) is None,
{
}

} // verus!
