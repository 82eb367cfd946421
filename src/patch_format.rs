//! The patch manifest, its operations and the container that frames it.
use vstd::prelude::*;

verus! {

/// Size of the header that opens every patch container.
pub const MAGIC_LEN: usize = 8;

/// Version of the manifest layout that this library writes and reads.
pub const FORMAT_VERSION: u32 = 1;

/// The header `PATCHV01`, byte by byte.
pub open spec fn magic_bytes() -> Seq<u8> {
    seq![0x50u8, 0x41, 0x54, 0x43, 0x48, 0x56, 0x30, 0x31]
}

/// One piece of a rebuilt file.
#[derive(Debug, Clone)]
pub enum DiffChunk {
    /// `length` bytes of the old file from `offset` on.
    Copy { offset: u64, length: u64 },
    /// Literal bytes.
    Insert { data: Vec<u8> },
}

#[derive(Debug, Clone)]
pub enum PatchOp {
    CreateDir { path: String },
    AddFile { path: String, data: Vec<u8>, blake3_hash: [u8; 32] },
    ModifyFile { path: String, diff_chunks: Vec<DiffChunk>, new_blake3_hash: [u8; 32] },
    DeleteFile { path: String },
    DeleteDir { path: String },
}

#[derive(Debug, Clone)]
pub struct PatchManifest {
    pub version: u32,
    pub operations: Vec<PatchOp>,
}

#[derive(Debug, Clone, Copy, PartialEq, Eq, Structural)]
pub struct ApplySummary {
    pub dirs_created: usize,
    pub files_added: usize,
    pub files_modified: usize,
    pub files_deleted: usize,
    pub dirs_deleted: usize,
}

/// What can go wrong while reading or applying a patch.
#[derive(Debug, Clone, PartialEq, Eq, Structural)]
pub enum PatchError {
    /// The container does not start with the magic header.
    BadMagic,
    /// The manifest carries another version than `FORMAT_VERSION`.
    UnsupportedVersion { found: u32 },
    /// The compressed payload or the manifest in it is malformed.
    DeserializationFailed,
    /// A rebuilt or written file does not hash to what the operation names.
    HashMismatch,
    /// A `Copy` chunk reaches past the end of the old file.
    CopyOutOfRange,
    /// A rebuilt file would not fit in memory.
    OutputTooLarge,
    /// A path breaks the wire convention.
    InvalidPath,
    /// The compressor refused the manifest.
    CompressionFailed,
}

impl PatchOp {
    /// The relative path that the operation targets.
    pub open spec fn spec_path(&self) -> Seq<char> {
        match self {
            PatchOp::CreateDir { path } => path@,
            PatchOp::AddFile { path, .. } => path@,
            PatchOp::ModifyFile { path, .. } => path@,
            PatchOp::DeleteFile { path } => path@,
            PatchOp::DeleteDir { path } => path@,
        }
    }

    /// Position of the operation's kind in the manifest order.
    pub open spec fn phase(&self) -> int {
        match self {
            PatchOp::CreateDir { .. } => 0,
            PatchOp::AddFile { .. } => 1,
            PatchOp::ModifyFile { .. } => 2,
            PatchOp::DeleteFile { .. } => 3,
            PatchOp::DeleteDir { .. } => 4,
        }
    }

    pub fn path(&self) -> (r: &String)
        ensures
            r@ == self.spec_path(),
    {
        match self {
            PatchOp::CreateDir { path } => path,
            PatchOp::AddFile { path, .. } => path,
            PatchOp::ModifyFile { path, .. } => path,
            PatchOp::DeleteFile { path } => path,
            PatchOp::DeleteDir { path } => path,
        }
    }
}

/// The container: the magic header, then the compressed manifest.
pub fn frame_patch(compressed: &[u8]) -> (r: Vec<u8>)
    requires
        compressed@.len() + MAGIC_LEN <= usize::MAX,
    ensures
        r@ == magic_bytes() + compressed@,
{
    let mut out: Vec<u8> = vec![0x50u8, 0x41, 0x54, 0x43, 0x48, 0x56, 0x30, 0x31];
    out.extend_from_slice(compressed);
    proof {
        assert(out@ =~= magic_bytes() + compressed@);
    }
    out
}

/// The compressed payload of a container, or `BadMagic` where the header is missing.
pub fn patch_payload(raw: &[u8]) -> (r: Result<&[u8], PatchError>)
    ensures
        raw@.len() >= MAGIC_LEN && raw@.subrange(0, MAGIC_LEN as int) == magic_bytes() ==> (r matches Ok(p)
            && p@ == raw@.subrange(MAGIC_LEN as int, raw@.len() as int)),
        !(raw@.len() >= MAGIC_LEN && raw@.subrange(0, MAGIC_LEN as int) == magic_bytes()) ==> r
            == Err::<&[u8], PatchError>(PatchError::BadMagic),
{
    if raw.len() < MAGIC_LEN {
        return Err(PatchError::BadMagic);
    }
    let magic: Vec<u8> = vec![0x50u8, 0x41, 0x54, 0x43, 0x48, 0x56, 0x30, 0x31];
    let mut i: usize = 0;
    while i < MAGIC_LEN
        invariant
            i <= MAGIC_LEN,
            raw@.len() >= MAGIC_LEN,
            magic@ == magic_bytes(),
            forall|j: int| 0 <= j < i ==> raw@[j] == magic_bytes()[j],
        decreases MAGIC_LEN - i,
    {
        if raw[i] != magic[i] {
            proof {
                assert(raw@.subrange(0, MAGIC_LEN as int)[i as int] != magic_bytes()[i as int]);
            }
            return Err(PatchError::BadMagic);
        }
        i = i + 1;
    }
    proof {
        assert(raw@.subrange(0, MAGIC_LEN as int) =~= magic_bytes());
    }
    let (_, payload) = raw.split_at(MAGIC_LEN);
    Ok(payload)
}

/// The zstd frame that compressing `data` at level 3 produces.
pub uninterp spec fn zstd_level3_of(data: Seq<u8>) -> Seq<u8>;

/// Relies on `zstd::bulk::compress` at level 3: one zstd frame, which depends on the input
/// bytes alone. It compresses into a buffer of `compress_bound` capacity, so it does not run
/// out of room; its error, should one come, becomes `CompressionFailed`.
#[verifier::external_body]
fn zstd_compress(data: &[u8]) -> (r: Result<Vec<u8>, PatchError>)
    ensures
        r is Ok,
        r matches Ok(v) ==> v@ == zstd_level3_of(data@),
{
    match zstd::bulk::compress(data, 3) {
        Ok(v) => Ok(v),
        Err(_) => Err(PatchError::CompressionFailed),
    }
}

/// The container for an encoded manifest: the magic header, then the manifest compressed
/// at level 3.
pub fn seal_patch(encoded: &[u8]) -> (r: Result<Vec<u8>, PatchError>)
    ensures
        r matches Ok(v) ==> v@ == magic_bytes() + zstd_level3_of(encoded@),
        r matches Err(e) ==> e == PatchError::CompressionFailed,
        zstd_level3_of(encoded@).len() + MAGIC_LEN <= usize::MAX <==> r is Ok,
{
    let compressed = match zstd_compress(encoded) {
        Ok(v) => v,
        Err(e) => {
            return Err(e);
        },
    };
    if compressed.len() > usize::MAX - MAGIC_LEN {
        return Err(PatchError::CompressionFailed);
    }
    Ok(frame_patch(compressed.as_slice()))
}

} // verus!
