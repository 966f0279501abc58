//! The vocabulary that the two peers share: what a filesystem object is, how
//! a link is materialized, and the metadata that travels with a file.

use vstd::prelude::*;

use crate::text;

verus! {

/// What kind of filesystem object an entry is.
#[derive(Debug, Clone, Copy, PartialEq, Eq, Structural)]
pub enum FileKind {
    /// A regular file.
    File,
    /// A directory.
    Dir,
    /// A symbolic link or shortcut.
    Symlink,
    /// A named pipe.
    Fifo,
    /// A Unix socket.
    Socket,
    /// A block device.
    BlockDevice,
    /// A character device.
    CharDevice,
}

/// How a link entry is materialized.
#[derive(Debug, Clone, Copy, PartialEq, Eq, Structural)]
pub enum LinkKind {
    /// A POSIX symbolic link.
    Symlink,
    /// A Windows shell shortcut.
    Lnk,
}

/// The operating-system family of one side.
#[derive(Debug, Clone, Copy, PartialEq, Eq, Structural)]
pub enum TargetOs {
    /// Any POSIX system.
    Unix,
    /// Windows.
    Windows,
}

impl TargetOs {
    /// The family that an operating system's name belongs to.
    pub open spec fn named(name: Seq<char>) -> TargetOs {
        if text::lowered(name) == "windows"@ {
            TargetOs::Windows
        } else {
            TargetOs::Unix
        }
    }

    /// The family that an operating system's name belongs to; the comparison
    /// ignores ASCII case.
    pub fn from_os_name(name: &str) -> (r: TargetOs)
        ensures
            r == TargetOs::named(name@),
    {
        proof {
            reveal_strlit("windows");
            assert(text::lowered("windows"@) =~= "windows"@);
        }
        if text::same_ignoring_case(name, "windows") {
            TargetOs::Windows
        } else {
            TargetOs::Unix
        }
    }
}

/// Extended attributes: name and value pairs.
pub type Xattrs = Option<Vec<(String, Vec<u8>)>>;

/// The model of extended attributes.
pub open spec fn xattrs_view(x: Xattrs) -> Option<Seq<(Seq<char>, Seq<u8>)>> {
    match x {
        Some(v) => Some(v@.map_values(|p: (String, Vec<u8>)| (p.0@, p.1@))),
        None => None,
    }
}

/// The model of an optional content hash.
pub open spec fn hash_view(h: Option<[u8; 32]>) -> Option<Seq<u8>> {
    match h {
        Some(a) => Some(a@),
        None => None,
    }
}

/// A copy of a byte vector.
pub fn copy_bytes(v: &Vec<u8>) -> (out: Vec<u8>)
    ensures
        out@ == v@,
{
    let mut out: Vec<u8> = Vec::new();
    let mut i: usize = 0;
    while i < v.len()
        invariant
            i <= v.len(),
            out@ == v@.take(i as int),
        decreases v.len() - i,
    {
        out.push(v[i]);
        i += 1;
    }
    assert(v@.take(i as int) =~= v@);
    out
}

/// A copy of extended attributes.
pub fn copy_xattrs(x: &Xattrs) -> (out: Xattrs)
    ensures
        xattrs_view(out) == xattrs_view(*x),
{
    match x {
        None => None,
        Some(v) => {
            let ghost f = |p: (String, Vec<u8>)| (p.0@, p.1@);
            let mut out: Vec<(String, Vec<u8>)> = Vec::new();
            let mut i: usize = 0;
            while i < v.len()
                invariant
                    i <= v.len(),
                    f == (|p: (String, Vec<u8>)| (p.0@, p.1@)),
                    out.len() == i,
                    forall|j: int| 0 <= j < i ==> f(out@[j]) == f(v@[j]),
                decreases v.len() - i,
            {
                let name = text::copy_str(v[i].0.as_str());
                let value = copy_bytes(&v[i].1);
                out.push((name, value));
                i += 1;
            }
            assert(out@.map_values(f) =~= v@.map_values(f));
            Some(out)
        },
    }
}

/// A copy of an optional text.
pub fn copy_opt(o: &Option<String>) -> (out: Option<String>)
    ensures
        text::opt_view(out) == text::opt_view(*o),
{
    match o {
        Some(s) => Some(text::copy_str(s.as_str())),
        None => None,
    }
}

/// Whether two content hashes are equal.
pub fn same_hash(a: &[u8; 32], b: &[u8; 32]) -> (r: bool)
    ensures
        r == (a@ == b@),
{
    let mut i: usize = 0;
    while i < 32
        invariant
            i <= 32,
            forall|j: int| 0 <= j < i ==> a@[j] == b@[j],
        decreases 32 - i,
    {
        if a[i] != b[i] {
            return false;
        }
        i += 1;
    }
    assert(a@ =~= b@);
    true
}

/// The metadata of one file as it travels between the peers.
#[derive(Debug, Clone)]
pub struct FileMeta {
    /// Slash-separated path relative to the sync root.
    pub path: String,
    /// Content size in bytes.
    pub size: u64,
    /// Modification time, wrapped into an unsigned number.
    pub mtime: u64,
    /// Nanosecond remainder of the modification time.
    pub mtime_nsec: u32,
    /// Permission bits.
    pub mode: u32,
    /// Content hash, when it was computed.
    pub hash: Option<[u8; 32]>,
    /// The kind of object.
    pub kind: FileKind,
    /// Link target of a link.
    pub link_target: Option<String>,
    /// Inode number, where there is one.
    pub inode: Option<u64>,
    /// Device number of a device.
    pub rdev: Option<u64>,
    /// Owner.
    pub uid: Option<u32>,
    /// Group.
    pub gid: Option<u32>,
    /// Access time, wrapped into an unsigned number.
    pub atime: u64,
    /// Nanosecond remainder of the access time.
    pub atime_nsec: u32,
    /// Extended attributes.
    pub xattrs: Xattrs,
}

/// The model of [`FileMeta`].
pub struct MetaV {
    pub path: Seq<char>,
    pub size: u64,
    pub mtime: u64,
    pub mtime_nsec: u32,
    pub mode: u32,
    pub hash: Option<Seq<u8>>,
    pub kind: FileKind,
    pub link_target: Option<Seq<char>>,
    pub inode: Option<u64>,
    pub rdev: Option<u64>,
    pub uid: Option<u32>,
    pub gid: Option<u32>,
    pub atime: u64,
    pub atime_nsec: u32,
    pub xattrs: Option<Seq<(Seq<char>, Seq<u8>)>>,
}

impl View for FileMeta {
    type V = MetaV;

    open spec fn view(&self) -> MetaV {
        MetaV {
            path: self.path@,
            size: self.size,
            mtime: self.mtime,
            mtime_nsec: self.mtime_nsec,
            mode: self.mode,
            hash: hash_view(self.hash),
            kind: self.kind,
            link_target: text::opt_view(self.link_target),
            inode: self.inode,
            rdev: self.rdev,
            uid: self.uid,
            gid: self.gid,
            atime: self.atime,
            atime_nsec: self.atime_nsec,
            xattrs: xattrs_view(self.xattrs),
        }
    }
}

/// A file that was skipped instead of applied, and why.
#[derive(Debug, Clone)]
pub struct SkippedFile {
    /// Slash-separated path relative to the sync root.
    pub path: String,
    /// Why it was skipped.
    pub reason: String,
}

impl View for SkippedFile {
    type V = (Seq<char>, Seq<char>);

    open spec fn view(&self) -> (Seq<char>, Seq<char>) {
        (self.path@, self.reason@)
    }
}

impl SkippedFile {
    /// A skip record.
    pub fn new(path: String, reason: String) -> (r: SkippedFile)
        ensures
            r@ == (path@, reason@),
    {
        SkippedFile { path, reason }
    }
}

/// A link for the receiver to create.
#[derive(Debug, Clone)]
pub struct LinkSpec {
    /// Where the link goes.
    pub path: String,
    /// What it points at.
    pub target: String,
    /// How it is materialized.
    pub kind: LinkKind,
}

impl View for LinkSpec {
    type V = (Seq<char>, Seq<char>, LinkKind);

    open spec fn view(&self) -> (Seq<char>, Seq<char>, LinkKind) {
        (self.path@, self.target@, self.kind)
    }
}

/// A hard link for the receiver to create.
#[derive(Debug, Clone)]
pub struct HardlinkSpec {
    /// Where the link goes.
    pub path: String,
    /// The path whose content it shares.
    pub target: String,
}

impl View for HardlinkSpec {
    type V = (Seq<char>, Seq<char>);

    open spec fn view(&self) -> (Seq<char>, Seq<char>) {
        (self.path@, self.target@)
    }
}

/// A special file for the receiver to create.
#[derive(Debug, Clone)]
pub struct SpecialSpec {
    /// Where it goes.
    pub path: String,
    /// Which kind of special file.
    pub kind: FileKind,
    /// Device number of a device.
    pub rdev: Option<u64>,
}

impl View for SpecialSpec {
    type V = (Seq<char>, FileKind, Option<u64>);

    open spec fn view(&self) -> (Seq<char>, FileKind, Option<u64>) {
        (self.path@, self.kind, self.rdev)
    }
}

/// One instruction of a delta.
#[derive(Debug, Clone)]
pub enum DeltaOp {
    /// Bytes that travel with the delta.
    Literal(Vec<u8>),
    /// A range of the basis file.
    Copy {
        /// Where the range starts.
        offset: u64,
        /// How long it is.
        len: u64,
    },
}

/// How a file is rebuilt from a basis file.
#[derive(Debug, Clone)]
pub struct Delta {
    /// Size of the rebuilt file.
    pub source_size: u64,
    /// Size of the basis file, `0` without one.
    pub basis_size: u64,
    /// The instructions, in order.
    pub ops: Vec<DeltaOp>,
    /// Digest of the rebuilt file, when it was computed.
    pub checksum: Option<[u8; 32]>,
}

impl Delta {
    /// Whether this is a delta without a basis that carries exactly `data`.
    pub open spec fn carries(self, data: Seq<u8>) -> bool {
        &&& self.basis_size == 0
        &&& self.ops@.len() == 1
        &&& self.ops@[0] matches DeltaOp::Literal(d) && d@ == data
    }

    /// The content of a delta that is one literal without a basis.
    pub fn whole_literal(&self) -> (r: Option<&Vec<u8>>)
        ensures
            match r {
                Some(data) => self.carries(data@),
                None => forall|data: Seq<u8>| !self.carries(data),
            },
    {
        if self.basis_size != 0 || self.ops.len() != 1 {
            return None;
        }
        match &self.ops[0] {
            DeltaOp::Literal(data) => Some(data),
            DeltaOp::Copy { .. } => None,
        }
    }
}

/// The digest of one chunk of a file.
#[derive(Debug, Clone, Copy)]
pub struct ChunkSignature {
    /// Where the chunk starts.
    pub offset: u64,
    /// How long it is.
    pub len: u32,
    /// A rolling checksum, for fixed-size blocks.
    pub weak: Option<u32>,
    /// The chunk's digest.
    pub strong_hash: [u8; 32],
}

/// The digests of the chunks of a basis file.
#[derive(Debug, Clone)]
pub struct Signature {
    /// Size of the file.
    pub file_size: u64,
    /// Its chunks, in order.
    pub chunks: Vec<ChunkSignature>,
}

/// The signature of one requested file.
#[derive(Debug, Clone)]
pub struct SignatureEntry {
    /// Slash-separated path relative to the sync root.
    pub file_path: String,
    /// The signature.
    pub signature: Signature,
}

/// One file of a batch.
#[derive(Debug, Clone)]
pub struct BatchFile {
    /// The file's number in the run.
    pub file_id: u64,
    /// Slash-separated path relative to the sync root.
    pub file_path: String,
    /// Its content.
    pub delta: Delta,
}

/// What a client asks for when it pulls.
#[derive(Debug, Clone)]
pub struct PullRequest {
    /// The paths to send.
    pub paths: Vec<String>,
    /// Exclude patterns.
    pub excludes: Vec<String>,
    /// Include patterns.
    pub includes: Vec<String>,
    /// Compare content hashes.
    pub checksum: bool,
    /// Remove what the source does not have.
    pub delete: bool,
    /// Bound of the removals.
    pub delete_scope: Vec<String>,
    /// Skip files whose destination is newer.
    pub update_only: bool,
    /// Skip files that exist.
    pub ignore_existing: bool,
    /// Never create files.
    pub existing: bool,
    /// Transfer everything.
    pub ignore_times: bool,
    /// Keep the session open and send again after changes.
    pub watch: bool,
    /// Quiet time before sending again, in milliseconds.
    pub watch_delay_ms: u32,
    /// Compress data frames.
    pub compress: bool,
    /// Bandwidth cap in bytes per second.
    pub bwlimit: Option<u64>,
    /// The client's operating system.
    pub client_os: TargetOs,
    /// Recreate the source directory's own name.
    pub include_root: bool,
}

/// What travels between the peers.
#[derive(Debug, Clone)]
pub enum Frame {
    /// The client's opening.
    Hello { fingerprint: String },
    /// The server's answer to the opening.
    HelloAck { fingerprint: String, accepted: bool },
    /// The peer failed.
    Error { message: String },
    /// The sender's file list.
    IndexRequest { file_list: Vec<FileMeta>, path: String, verify: bool },
    /// The receiver's file list.
    IndexResponse { file_list: Vec<FileMeta> },
    /// A client wants files.
    PullRequest { request: PullRequest },
    /// A client wants a listing.
    ListRequest { path: String, excludes: Vec<String>, includes: Vec<String> },
    /// The listing.
    ListResponse { file_list: Vec<FileMeta> },
    /// The sender wants signatures.
    SignatureRequest { paths: Vec<String> },
    /// The signatures.
    SignatureResponse { signatures: Vec<SignatureEntry> },
    /// One file as a delta.
    DeltaRecipe {
        file_id: u64,
        file_path: String,
        delta: Delta,
        source_signature: Option<Signature>,
        basis_path: Option<String>,
    },
    /// Many small files.
    Batch { recipes: Vec<BatchFile> },
    /// A streamed file begins.
    FileStart { file_id: u64, file_path: String, size: u64 },
    /// A piece of a streamed file.
    FileChunk { file_id: u64, data: Vec<u8> },
    /// A streamed file ends.
    FileEnd { file_id: u64 },
    /// Directories to create.
    MakeDir { paths: Vec<String> },
    /// Links and special files to create.
    CreateLinks {
        links: Vec<LinkSpec>,
        hardlinks: Vec<HardlinkSpec>,
        specials: Vec<SpecialSpec>,
    },
    /// Files whose attributes alone are re-applied.
    SetMeta { paths: Vec<String> },
    /// Paths to remove.
    DeleteRequest { paths: Vec<String> },
    /// The sender is done.
    Done { files: u64, bytes: u64 },
    /// The receiver is done.
    Ack { files: u64, bytes: u64, skipped: Vec<SkippedFile>, hashes: Vec<(String, [u8; 32])> },
}

/// Why a session ends early.
#[derive(Debug, Clone)]
pub enum SessionError {
    /// The server runs another build.
    HandshakeRejected {
        /// The server's build.
        peer_build: String,
    },
    /// A frame came that has no place here.
    Unexpected {
        /// What was expected instead, as the beginning of a sentence that shows
        /// the frame.
        expected: String,
        /// The frame.
        frame: Frame,
    },
    /// Anything else, in words.
    Other(String),
}

/// The model of [`SessionError`].
pub enum ErrorV {
    HandshakeRejected(Seq<char>),
    Unexpected(Seq<char>, Frame),
    Other(Seq<char>),
}

impl View for SessionError {
    type V = ErrorV;

    open spec fn view(&self) -> ErrorV {
        match self {
            SessionError::HandshakeRejected { peer_build } => ErrorV::HandshakeRejected(
                peer_build@,
            ),
            SessionError::Unexpected { expected, frame } => ErrorV::Unexpected(expected@, *frame),
            SessionError::Other(m) => ErrorV::Other(m@),
        }
    }
}

/// The refusal of a frame.
pub fn unexpected(expected: &str, frame: Frame) -> (r: SessionError)
    ensures
        r@ == ErrorV::Unexpected(expected@, frame),
{
    SessionError::Unexpected { expected: text::copy_str(expected), frame }
}

/// An error in two parts of text.
pub fn error_of(head: &str, tail: &str) -> (r: SessionError)
    ensures
        r@ == ErrorV::Other(head@ + tail@),
{
    let mut m = text::copy_str(head);
    text::push_text(&mut m, tail);
    SessionError::Other(m)
}

/// An error in one part of text.
pub fn plain_error(m: &str) -> (r: SessionError)
    ensures
        r@ == ErrorV::Other(m@),
{
    SessionError::Other(text::copy_str(m))
}

/// The file that the first `n` instructions build from a basis.
pub open spec fn built(ops: Seq<DeltaOp>, basis: Seq<u8>, n: int) -> Seq<u8>
    decreases n,
{
    if n <= 0 {
        Seq::empty()
    } else {
        built(ops, basis, n - 1) + match ops[n - 1] {
            DeltaOp::Literal(data) => data@,
            DeltaOp::Copy { offset, len } => basis.subrange(
                offset as int,
                offset as int + len as int,
            ),
        }
    }
}

/// A delta that carries some content builds exactly that content, whatever the
/// basis holds, and so carries no other.
pub proof fn law_carried_content_is_built(
    delta: Delta,
    data: Seq<u8>,
    other: Seq<u8>,
    basis: Seq<u8>,
)
    requires
        delta.carries(data),
    ensures
        built(delta.ops@, basis, delta.ops@.len() as int) == data,
        delta.basis_size == 0,
        delta.carries(other) ==> other == data,
{
    reveal_with_fuel(built, 2);
    assert(Seq::<u8>::empty() + data =~= data);
}

/// The name of an operating system tells its family in whatever case it is
/// written, and every other name stands for the one family.
pub proof fn law_systems_are_named_in_any_case(a: Seq<char>, b: Seq<char>)
    ensures
        text::lowered(a) == text::lowered(b) ==> TargetOs::named(a) == TargetOs::named(b),
        TargetOs::named("windows"@) == TargetOs::Windows,
        TargetOs::named("Windows"@) == TargetOs::Windows,
        a.len() != 7 ==> TargetOs::named(a) == TargetOs::Unix,
{
    reveal_strlit("windows");
    reveal_strlit("Windows");
    assert(text::lowered("windows"@) =~= "windows"@);
    assert(text::lowered("Windows"@) =~= "windows"@);
    assert(text::lowered(a).len() == a.len());
}

/// A delta builds its file instruction after instruction: a literal adds its
/// bytes, and a copy the bytes of the basis in its range.
pub proof fn law_instructions_build_in_order(
    ops: Seq<DeltaOp>,
    op: DeltaOp,
    basis: Seq<u8>,
    i: int,
)
    ensures
        ({
            let before = built(ops, basis, ops.len() as int);
            let now = built(ops.push(op), basis, ops.len() as int + 1);
            &&& now.take(before.len() as int) == before
            &&& op matches DeltaOp::Literal(data) ==> now.skip(before.len() as int) == data@
            &&& op matches DeltaOp::Copy { offset, len } ==> offset + len <= basis.len()
                ==> now.len() == before.len() + len && (0 <= i < len ==> now[before.len() + i]
                == basis[offset + i])
        }),
{
    let n = ops.len() as int;
    lemma_built_prefix(ops, op, basis, n);
    let before = built(ops, basis, n);
    let now = built(ops.push(op), basis, n + 1);
    assert(built(ops.push(op), basis, n) == before);
    assert(now.take(before.len() as int) =~= before);
    match op {
        DeltaOp::Literal(data) => {
            assert(now.skip(before.len() as int) =~= data@);
        },
        DeltaOp::Copy { .. } => {},
    }
}

proof fn lemma_built_prefix(ops: Seq<DeltaOp>, op: DeltaOp, basis: Seq<u8>, n: int)
    requires
        n <= ops.len(),
    ensures
        built(ops.push(op), basis, n) == built(ops, basis, n),
    decreases n,
{
    if n > 0 {
        lemma_built_prefix(ops, op, basis, n - 1);
    }
}

/// The model of a file's metadata shows each of its fields as it is.
pub proof fn law_models_show_the_metadata(m: FileMeta)
    ensures
        m@.path == m.path@,
        m@.size == m.size,
        m@.mode == m.mode,
        m@.mtime == m.mtime && m@.mtime_nsec == m.mtime_nsec,
        m@.atime == m.atime && m@.atime_nsec == m.atime_nsec,
        m@.kind == m.kind,
        m@.inode == m.inode && m@.rdev == m.rdev && m@.uid == m.uid && m@.gid == m.gid,
        m.hash matches Some(h) ==> m@.hash == Some(h@),
        m.hash is None ==> m@.hash is None,
        m.link_target matches Some(t) ==> m@.link_target == Some(t@),
        m.link_target is None ==> m@.link_target is None,
{
}

/// The models of what is announced show where it goes and what it is.
pub proof fn law_models_show_what_is_announced(
    l: LinkSpec,
    h: HardlinkSpec,
    s: SpecialSpec,
    k: SkippedFile,
)
    ensures
        l@ == (l.path@, l.target@, l.kind),
        h@ == (h.path@, h.target@),
        s@ == (s.path@, s.kind, s.rdev),
        k@ == (k.path@, k.reason@),
{
}

} // verus!
