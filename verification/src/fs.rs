//! The drive's state: the table that gives every path reached through the
//! drive a stable inode number, the table of open file handles, and the
//! answers the drive gives to each filesystem request.

use std::collections::HashMap;
use std::collections::HashSet;
use std::collections::hash_map::DefaultHasher;
use std::hash::Hasher;
use vstd::prelude::*;
use vstd::std_specs::hash::DefaultHasherAdditionalSpecFns;
use vstd::utf8::encode_utf8;

use crate::pathname::{
    has_root, law_normalized_tells_paths_apart, normalize_path, normalized, parent_path, path_components,
    spec_parent,
};
use crate::paths::{join_path, joined};
use crate::stripper::{is_supported, spec_is_supported};

verus! {

broadcast use vstd::std_specs::hash::group_hash_axioms;

/// The inode number of the drive's root directory.
pub const ROOT_INO: u64 = 1;

/// The hash under which a path is filed in the path index.
pub open spec fn path_hash(p: Seq<char>) -> u64 {
    DefaultHasher::spec_finish(seq![encode_utf8(p)])
}

/// The inode that the table `paths` gives to `p`: the most recently
/// numbered one among those whose path is `p` (entry `i` of the table is
/// inode `i + 2`), or `None` if `p` is not in the table.
pub open spec fn latest_ino(paths: Seq<Seq<char>>, p: Seq<char>) -> Option<u64>
    decreases paths.len(),
{
    if paths.len() == 0 {
        None
    } else if paths.last() == p {
        Some((paths.len() + 1) as u64)
    } else {
        latest_ino(paths.drop_last(), p)
    }
}

/// What `latest_ino` is, index by index.
pub proof fn lemma_latest_ino(paths: Seq<Seq<char>>, p: Seq<char>)
    requires
        paths.len() + 2 <= u64::MAX,
    ensures
        match latest_ino(paths, p) {
            Some(ino) => {
                &&& 2 <= ino < paths.len() + 2
                &&& paths[ino - 2] == p
                &&& forall|j: int| ino - 2 < j < paths.len() ==> paths[j] != p
            },
            None => forall|j: int| 0 <= j < paths.len() ==> paths[j] != p,
        },
    decreases paths.len(),
{
    if paths.len() > 0 && paths.last() != p {
        lemma_latest_ino(paths.drop_last(), p);
        assert forall|j: int| 0 <= j < paths.len() - 1 implies paths.drop_last()[j] == paths[j] by {}
    }
}

/// Giving a new path the next inode changes no other path's inode.
pub proof fn lemma_latest_ino_push(paths: Seq<Seq<char>>, q: Seq<char>, p: Seq<char>)
    ensures
        latest_ino(paths.push(q), p) == if p == q {
            Some((paths.len() + 2) as u64)
        } else {
            latest_ino(paths, p)
        },
{
    assert(paths.push(q).drop_last() =~= paths);
}

/// The plain spellings of the paths in `table`.
pub open spec fn keys_of(table: Seq<Seq<char>>) -> Seq<Seq<char>> {
    table.map_values(|p: Seq<char>| normalized(p))
}

/// The inode table after path `p` is given an inode: unchanged if the same
/// path already has one, else with `p` appended.
pub open spec fn with_path(table: Seq<Seq<char>>, p: Seq<char>) -> Seq<Seq<char>> {
    if latest_ino(keys_of(table), normalized(p)) is Some {
        table
    } else {
        table.push(p)
    }
}

/// Giving a path an inode changes no inode that the table already gives.
pub proof fn lemma_with_path_keeps_known(table: Seq<Seq<char>>, p: Seq<char>, k: Seq<char>)
    requires
        latest_ino(keys_of(table), k) is Some,
    ensures
        latest_ino(keys_of(with_path(table, p)), k) == latest_ino(keys_of(table), k),
        keys_of(with_path(table, p)) == if latest_ino(keys_of(table), normalized(p)) is Some {
            keys_of(table)
        } else {
            keys_of(table).push(normalized(p))
        },
{
    if latest_ino(keys_of(table), normalized(p)) is None {
        assert(keys_of(table.push(p)) =~= keys_of(table).push(normalized(p)));
        lemma_latest_ino_push(keys_of(table), normalized(p), k);
    }
}

/// The inode table after each of `ps`, in turn, is given an inode.
pub open spec fn with_paths(table: Seq<Seq<char>>, ps: Seq<Seq<char>>) -> Seq<Seq<char>>
    decreases ps.len(),
{
    if ps.len() == 0 {
        table
    } else {
        with_path(with_paths(table, ps.drop_last()), ps.last())
    }
}

/// A directory entry as a listing reports it: inode, kind and name.
pub open spec fn entry_view(e: DirEntry) -> (u64, FileKind, Seq<char>) {
    (e.ino, e.kind, e.name@)
}

/// A child that a directory read returned: name and kind.
pub open spec fn child_view(c: (String, FileKind)) -> (Seq<char>, FileKind) {
    (c.0@, c.1)
}

/// Whether a child of directory `dir` is listed: it is not the same path as
/// the drive's own mountpoint `mount`.
pub open spec fn listed_in(dir: Seq<char>, mount: Seq<char>) -> spec_fn((Seq<char>, FileKind)) -> bool {
    |c: (Seq<char>, FileKind)| normalized(joined(dir, c.0)) != normalized(mount)
}

/// The path of a child of directory `dir`.
pub open spec fn path_in(dir: Seq<char>) -> spec_fn((Seq<char>, FileKind)) -> Seq<char> {
    |c: (Seq<char>, FileKind)| joined(dir, c.0)
}

/// Which entries of a directory listing a reader at `offset` gets, as
/// (first index, number of entries), for a listing of `len` entries.
pub open spec fn page_bounds(len: int, offset: i64) -> (int, int) {
    if offset < 0 || offset >= len {
        (len, 0)
    } else {
        (offset as int, len - offset)
    }
}

/// Hashes a path for the path index.
fn hash_path(p: &str) -> (h: u64)
    ensures
        h == path_hash(p@),
{
    let mut hasher = DefaultHasher::new();
    hasher.write(p.as_bytes());
    proof {
        assert(hasher@ =~= seq![encode_utf8(p@)]);
    }
    hasher.finish()
}

/// What a file is, as a directory listing reports it.
#[derive(Clone, Copy, PartialEq, Eq, Structural, Debug)]
pub enum FileKind {
    Directory,
    Symlink,
    RegularFile,
}

/// An entry of a directory listing.
pub struct DirEntry {
    pub ino: u64,
    pub kind: FileKind,
    pub name: String,
}

/// A point in time: `secs` seconds and `nanos` nanoseconds after the Unix
/// epoch, or before it if `before_epoch` is set.
#[derive(Clone, Copy, PartialEq, Eq, Structural, Debug)]
pub struct Timestamp {
    pub before_epoch: bool,
    pub secs: u64,
    pub nanos: u32,
}

/// The Unix epoch.
pub open spec fn epoch() -> Timestamp {
    Timestamp { before_epoch: false, secs: 0, nanos: 0 }
}

/// What a `stat` of a file reports, as far as the drive uses it.
#[derive(Clone, Copy, Debug)]
pub struct FileMeta {
    pub is_dir: bool,
    pub is_symlink: bool,
    pub len: u64,
    pub blocks: u64,
    pub accessed: Option<Timestamp>,
    pub modified: Option<Timestamp>,
    /// Seconds of the last status change, from the epoch.
    pub ctime: i64,
    pub mode: u32,
    pub nlink: u64,
    pub uid: u32,
    pub gid: u32,
    pub rdev: u64,
}

/// The attributes that the drive reports for a file.
#[derive(Clone, Copy, Debug)]
pub struct Attr {
    pub ino: u64,
    pub size: u64,
    pub blocks: u64,
    pub atime: Timestamp,
    pub mtime: Timestamp,
    pub ctime: Timestamp,
    pub crtime: Timestamp,
    pub kind: FileKind,
    pub perm: u16,
    pub nlink: u32,
    pub uid: u32,
    pub gid: u32,
    pub rdev: u32,
    pub blksize: u32,
    pub flags: u32,
}

/// Why a request fails.
#[derive(Clone, Copy, PartialEq, Eq, Structural, Debug)]
pub enum Errno {
    /// No such file or directory.
    NotFound,
    /// An input/output error.
    Io,
    /// Permission denied.
    Access,
    /// The file is a directory.
    IsDir,
}

/// What opening a file comes to: the handle it gets, the path behind it,
/// and whether its metadata is to be stripped.
/// Only `MetaFS::begin_open` makes one, and `register_open` or
/// `abandon_open` uses it up.
pub struct OpenPlan {
    fh: u64,
    path: String,
    strip: bool,
}

impl OpenPlan {
    /// The handle the file gets.
    pub closed spec fn plan_fh(&self) -> u64 {
        self.fh
    }

    /// The path behind the file.
    pub closed spec fn plan_path(&self) -> Seq<char> {
        self.path@
    }

    /// Whether the file's metadata is to be stripped.
    pub closed spec fn plan_strip(&self) -> bool {
        self.strip
    }

    /// The handle the file gets.
    pub fn fh(&self) -> (r: u64)
        ensures
            r == self.plan_fh(),
    {
        self.fh
    }

    /// The path behind the file.
    pub fn path(&self) -> (r: &String)
        ensures
            r@ == self.plan_path(),
    {
        &self.path
    }

    /// Whether the file's metadata is to be stripped.
    pub fn strip(&self) -> (r: bool)
        ensures
            r == self.plan_strip(),
    {
        self.strip
    }
}

/// What the file system reports back from a step of an open.
pub enum OpenEvent<F> {
    /// Stripping the file gave these bytes.
    Stripped(Vec<u8>),
    /// Stripping the file failed.
    StripFailed,
    /// The file opened for reading as it is.
    Opened(F),
    /// Opening the file failed; `not_found` tells whether it was missing.
    OpenFailed { not_found: bool },
}

/// What an open does next.
pub enum OpenAction {
    /// Strip the file's metadata, then report how that went.
    Strip(OpenPlan),
    /// Open the file for reading as it is, then report how that went.
    OpenPlain(OpenPlan),
    /// The file is open under this handle.
    Opened(u64),
    /// The open failed with this error.
    Failed(Errno),
}

/// The attributes of the file with inode `ino` whose `stat` is `meta`.
pub open spec fn spec_make_attr(ino: u64, meta: FileMeta) -> Attr {
    Attr {
        ino,
        size: meta.len,
        blocks: meta.blocks,
        atime: match meta.accessed {
            Some(t) => t,
            None => epoch(),
        },
        mtime: match meta.modified {
            Some(t) => t,
            None => epoch(),
        },
        ctime: if meta.ctime >= 0 {
            Timestamp { before_epoch: false, secs: meta.ctime as u64, nanos: 0 }
        } else {
            epoch()
        },
        crtime: epoch(),
        kind: if meta.is_dir {
            FileKind::Directory
        } else if meta.is_symlink {
            FileKind::Symlink
        } else {
            FileKind::RegularFile
        },
        perm: (meta.mode & 0o777u32) as u16,
        nlink: meta.nlink as u32,
        uid: meta.uid,
        gid: meta.gid,
        rdev: meta.rdev as u32,
        blksize: 4096,
        flags: 0,
    }
}

/// The attributes of the file with inode `ino` whose `stat` is `meta`.
pub fn make_attr(ino: u64, meta: &FileMeta) -> (a: Attr)
    ensures
        a == spec_make_attr(ino, *meta),
{
    let kind = if meta.is_dir {
        FileKind::Directory
    } else if meta.is_symlink {
        FileKind::Symlink
    } else {
        FileKind::RegularFile
    };
    let the_epoch = Timestamp { before_epoch: false, secs: 0, nanos: 0 };
    let atime = match meta.accessed {
        Some(t) => t,
        None => the_epoch,
    };
    let mtime = match meta.modified {
        Some(t) => t,
        None => the_epoch,
    };
    let ctime = if meta.ctime >= 0 {
        Timestamp { before_epoch: false, secs: meta.ctime as u64, nanos: 0 }
    } else {
        the_epoch
    };
    Attr {
        ino,
        size: meta.len,
        blocks: meta.blocks,
        atime,
        mtime,
        ctime,
        crtime: the_epoch,
        kind,
        perm: (meta.mode & 0o777u32) as u16,
        nlink: meta.nlink as u32,
        uid: meta.uid,
        gid: meta.gid,
        rdev: meta.rdev as u32,
        blksize: 4096,
        flags: 0,
    }
}

/// Which bytes of a buffer of `len` bytes a read of `size` bytes at
/// `offset` is served: the range [start, end).
pub open spec fn spec_read_range(len: int, offset: i64, size: u32) -> (int, int) {
    if 0 <= offset < len {
        (offset as int, if offset + size < len { offset + size } else { len })
    } else {
        (len, len)
    }
}

/// Which bytes of a buffer of `len` bytes a read of `size` bytes at
/// `offset` is served, as [start, end): up to `size` bytes from `offset`,
/// and none past the end.
pub fn read_range(len: usize, offset: i64, size: u32) -> (r: (usize, usize))
    ensures
        r.0 as int == spec_read_range(len as int, offset, size).0,
        r.1 as int == spec_read_range(len as int, offset, size).1,
{
    if offset < 0 || (offset as u64) >= (len as u64) {
        return (len, len);
    }
    let start = offset as usize;
    let remaining = len - start;
    if (size as u64) < (remaining as u64) {
        (start, start + (size as usize))
    } else {
        (start, len)
    }
}

/// The part of a directory listing that a reader at `offset` gets: each
/// entry with the offset at which reading resumes after it (its index plus
/// one).
pub fn dir_page(listing: &Vec<DirEntry>, offset: i64) -> (r: Vec<(DirEntry, i64)>)
    requires
        listing@.len() < i64::MAX,
    ensures
        ({
            let (start, count) = page_bounds(listing@.len() as int, offset);
            &&& r@.len() == count
            &&& forall|k: int|
                0 <= k < count ==> {
                    &&& entry_view(#[trigger] r@[k].0) == entry_view(listing@[start + k])
                    &&& r@[k].1 == start + k + 1
                }
        }),
{
    let len = listing.len();
    let mut out: Vec<(DirEntry, i64)> = Vec::new();
    if offset < 0 || (offset as u64) >= (len as u64) {
        return out;
    }
    let start = offset as usize;
    let mut i = start;
    while i < len
        invariant
            len == listing@.len(),
            len < i64::MAX,
            start == offset,
            start <= i <= len,
            out@.len() == i - start,
            forall|k: int|
                0 <= k < i - start ==> {
                    &&& entry_view(#[trigger] out@[k].0) == entry_view(listing@[start + k])
                    &&& out@[k].1 == start + k + 1
                },
        decreases len - i,
    {
        let e = &listing[i];
        let copy = DirEntry { ino: e.ino, kind: e.kind, name: e.name.clone() };
        out.push((copy, (i + 1) as i64));
        i = i + 1;
    }
    out
}

/// Law: the attributes report the file's own status. The size, block
/// count, owner and group are the file's; its access and modification
/// times are the ones its status gives (the epoch only where it gives
/// none); a non-negative status-change time is kept to the second; a
/// directory is reported as a directory and a link as a link; the
/// permissions are the low nine bits of its mode; the link count and
/// device number keep their low 32 bits; and the creation time is the
/// epoch, the block size 4096 and the flags none.
pub proof fn law_attr_reports_the_file_status(ino: u64, meta: FileMeta)
    ensures
        ({
            let a = spec_make_attr(ino, meta);
            let zero = Timestamp { before_epoch: false, secs: 0, nanos: 0 };
            &&& a.ino == ino
            &&& a.size == meta.len
            &&& a.blocks == meta.blocks
            &&& a.uid == meta.uid
            &&& a.gid == meta.gid
            &&& (meta.accessed matches Some(t) ==> a.atime == t)
            &&& (meta.modified matches Some(t) ==> a.mtime == t)
            &&& (meta.accessed is None ==> a.atime == zero)
            &&& (meta.modified is None ==> a.mtime == zero)
            &&& (meta.ctime >= 0 ==> !a.ctime.before_epoch && a.ctime.secs == meta.ctime && a.ctime.nanos == 0)
            &&& (meta.ctime < 0 ==> a.ctime == zero)
            &&& ((a.kind == FileKind::Directory) <==> meta.is_dir)
            &&& ((a.kind == FileKind::Symlink) <==> (!meta.is_dir && meta.is_symlink))
            &&& a.perm == meta.mode % 512
            &&& a.nlink == meta.nlink % 0x1_0000_0000
            &&& a.rdev == meta.rdev % 0x1_0000_0000
            &&& a.crtime == zero
            &&& a.blksize == 4096
            &&& a.flags == 0
        }),
{
    let m = meta.mode;
    let n = meta.nlink;
    let d = meta.rdev;
    assert(((m & 0o777u32) as u16) as u32 == m % 512) by (bit_vector);
    assert((n as u32) as u64 == n % 0x1_0000_0000) by (bit_vector);
    assert((d as u32) as u64 == d % 0x1_0000_0000) by (bit_vector);
}

/// Why opening a file failed, when its own open failed: if stripping was
/// tried, an input/output error; otherwise not found, if the file is gone,
/// else permission denied.
pub fn open_failure(strip_attempted: bool, not_found: bool) -> (e: Errno)
    ensures
        e == if strip_attempted {
            Errno::Io
        } else if not_found {
            Errno::NotFound
        } else {
            Errno::Access
        },
{
    if strip_attempted {
        Errno::Io
    } else if not_found {
        Errno::NotFound
    } else {
        Errno::Access
    }
}

/// A file that the drive holds open: the stripped bytes that reads are
/// served from, or the file on disk, read as it is.
pub enum OpenFile<F> {
    Buffer(Vec<u8>),
    Passthrough(F),
}

/// The drive's state, generic over the handle type `F` of a file that is
/// read through unchanged.
pub struct MetaFS<F> {
    /// The configured folders: display name and source path.
    entries: Vec<(String, String)>,
    tmp_dir: String,
    mountpoint: String,
    /// The inode table: entry `i` is the path of inode `i + 2`.
    paths: Vec<String>,
    /// The plain spelling of each path in the table.
    keys: Vec<String>,
    /// The plain spelling of the mountpoint.
    mount_key: String,
    /// The path index: for each path hash, the inodes whose path has it, in
    /// increasing order.
    index: HashMap<u64, Vec<u64>>,
    open_files: HashMap<u64, OpenFile<F>>,
    /// The handles handed out to opens that are not filed yet.
    pending: HashSet<u64>,
    next_ino: u64,
    next_fh: u64,
    mounted_at: Timestamp,
}

impl<F> MetaFS<F> {
    /// The configured folders, as (display name, source path).
    pub closed spec fn entries_view(&self) -> Seq<(Seq<char>, Seq<char>)> {
        self.entries@.map_values(|e: (String, String)| (e.0@, e.1@))
    }

    /// The inode table: entry `i` is the path of inode `i + 2`.
    pub closed spec fn inodes(&self) -> Seq<Seq<char>> {
        self.paths@.map_values(|s: String| s@)
    }

    /// The open file handles.
    pub closed spec fn open_view(&self) -> Map<u64, OpenFile<F>> {
        self.open_files@
    }

    /// The handle that the next open will be given.
    pub closed spec fn next_handle(&self) -> u64 {
        self.next_fh
    }

    /// The handles handed out to opens that are not filed yet.
    pub closed spec fn pending_view(&self) -> Set<u64> {
        self.pending@
    }

    /// Whether handle `fh` is used up: it was handed out, and is neither
    /// open nor waiting to be filed. Nothing opens it again.
    pub open spec fn is_retired(&self, fh: u64) -> bool {
        &&& fh < self.next_handle()
        &&& !self.open_view().contains_key(fh)
        &&& !self.pending_view().contains(fh)
    }

    /// Whether state `later` can follow `self` by any sequence of the
    /// drive's operations: the settings stay, the inode table only grows and
    /// every path that had an inode keeps it, handles only move forward, and
    /// a used-up handle stays used up.
    pub open spec fn leads_to(&self, later: &Self) -> bool {
        &&& later.entries_view() == self.entries_view()
        &&& later.tmp_dir_view() == self.tmp_dir_view()
        &&& later.mountpoint_view() == self.mountpoint_view()
        &&& later.mounted_at_view() == self.mounted_at_view()
        &&& self.inodes().len() <= later.inodes().len()
        &&& later.inodes().subrange(0, self.inodes().len() as int) == self.inodes()
        &&& forall|k: Seq<char>|
            #![trigger self.ino_of_key(k)]
            self.ino_of_key(k) is Some ==> later.ino_of_key(k) == self.ino_of_key(k)
        &&& self.next_handle() <= later.next_handle()
        &&& forall|h: u64| #![trigger self.is_retired(h)] self.is_retired(h) ==> later.is_retired(h)
    }

    /// Whether `other` has the same inode table and settings as `self`.
    pub open spec fn same_tables_and_settings(&self, other: &Self) -> bool {
        &&& other.inodes() == self.inodes()
        &&& other.entries_view() == self.entries_view()
        &&& other.tmp_dir_view() == self.tmp_dir_view()
        &&& other.mountpoint_view() == self.mountpoint_view()
        &&& other.mounted_at_view() == self.mounted_at_view()
    }

    pub closed spec fn tmp_dir_view(&self) -> Seq<char> {
        self.tmp_dir@
    }

    pub closed spec fn mountpoint_view(&self) -> Seq<char> {
        self.mountpoint@
    }

    /// When the drive started.
    pub closed spec fn mounted_at_view(&self) -> Timestamp {
        self.mounted_at
    }

    /// The path behind inode `ino`, if it has one.
    pub open spec fn path_of_ino(&self, ino: u64) -> Option<Seq<char>> {
        if 2 <= ino < self.inodes().len() + 2 {
            Some(self.inodes()[ino - 2])
        } else {
            None
        }
    }

    /// The plain spellings of the paths in the inode table.
    pub open spec fn key_table(&self) -> Seq<Seq<char>> {
        keys_of(self.inodes())
    }

    /// The inode that the table gives to the path spelled plainly as `key`.
    pub open spec fn ino_of_key(&self, key: Seq<char>) -> Option<u64> {
        latest_ino(self.key_table(), key)
    }

    /// The inode that the table gives to path `p`: that of the last path in
    /// the table that is the same path as `p`, component by component.
    pub open spec fn ino_of_path(&self, p: Seq<char>) -> Option<u64> {
        self.ino_of_key(normalized(p))
    }

    /// Whether `ino` is the root directory of one of the configured folders.
    pub open spec fn spec_is_entry_root(&self, ino: u64) -> bool {
        2 <= ino < self.entries_view().len() + 2
    }

    /// The invariant of the inode table and its path index.
    closed spec fn table_wf(&self) -> bool {
        &&& self.next_ino == self.paths@.len() + 2
        &&& self.keys@.len() == self.paths@.len()
        &&& forall|i: int|
            0 <= i < self.paths@.len() ==> #[trigger] self.keys@[i]@ == normalized(self.paths@[i]@)
        &&& forall|i: int|
            #![trigger self.keys@[i]]
            0 <= i < self.keys@.len() ==> {
                &&& self.index@.contains_key(path_hash(self.keys@[i]@))
                &&& self.index@[path_hash(self.keys@[i]@)]@.contains((i + 2) as u64)
            }
        &&& forall|h: u64, k: int|
            #![trigger self.index@[h]@[k]]
            self.index@.contains_key(h) && 0 <= k < self.index@[h]@.len() ==> {
                &&& 2 <= self.index@[h]@[k] < self.next_ino
                &&& path_hash(self.keys@[self.index@[h]@[k] - 2]@) == h
            }
        &&& forall|h: u64, k1: int, k2: int|
            #![trigger self.index@[h]@[k1], self.index@[h]@[k2]]
            self.index@.contains_key(h) && 0 <= k1 < k2 < self.index@[h]@.len()
                ==> self.index@[h]@[k1] < self.index@[h]@[k2]
    }

    /// The state's invariant: the table is indexed, the folders' roots are
    /// the first inodes, and every open handle is below the next one.
    pub closed spec fn wf(&self) -> bool {
        &&& self.table_wf()
        &&& self.mount_key@ == normalized(self.mountpoint@)
        &&& self.entries@.len() <= self.paths@.len()
        &&& forall|i: int| 0 <= i < self.entries@.len() ==> #[trigger] self.paths@[i]@ == self.entries@[i].1@
        &&& forall|fh: u64| #[trigger] self.open_files@.contains_key(fh) ==> fh < self.next_fh
        &&& forall|fh: u64| #[trigger] self.pending@.contains(fh) ==> fh < self.next_fh && !self.open_files@.contains_key(fh)
        &&& self.next_fh >= 1
    }

    /// Gives `p`, whose plain spelling is `key`, the next inode number.
    fn push_inode(&mut self, p: String, key: String) -> (ino: u64)
        requires
            old(self).table_wf(),
            old(self).paths@.len() + 3 <= u64::MAX,
            key@ == normalized(p@),
        ensures
            final(self).table_wf(),
            final(self).paths@ == old(self).paths@.push(p),
            final(self).keys@ == old(self).keys@.push(key),
            ino == old(self).next_ino,
            final(self).entries == old(self).entries,
            final(self).open_files == old(self).open_files,
            final(self).pending == old(self).pending,
            final(self).next_fh == old(self).next_fh,
            final(self).tmp_dir == old(self).tmp_dir,
            final(self).mountpoint == old(self).mountpoint,
            final(self).mount_key == old(self).mount_key,
            final(self).mounted_at == old(self).mounted_at,
    {
        let h = hash_path(key.as_str());
        let ino = self.next_ino;
        self.next_ino = ino + 1;
        self.paths.push(p);
        self.keys.push(key);
        let mut bucket = match self.index.remove(&h) {
            Some(b) => b,
            None => Vec::new(),
        };
        let ghost old_bucket = bucket@;
        bucket.push(ino);
        self.index.insert(h, bucket);
        proof {
            let oi = old(self).index@;
            let ni = self.index@;
            assert forall|i: int| 0 <= i < self.paths@.len() implies #[trigger] self.keys@[i]@ == normalized(self.paths@[i]@) by {
                if i < old(self).paths@.len() {
                    assert(old(self).keys@[i] == self.keys@[i]);
                    assert(old(self).paths@[i] == self.paths@[i]);
                }
            }
            assert forall|i: int| #![trigger self.keys@[i]] 0 <= i < self.keys@.len() implies {
                &&& ni.contains_key(path_hash(self.keys@[i]@))
                &&& ni[path_hash(self.keys@[i]@)]@.contains((i + 2) as u64)
            } by {
                if i < old(self).keys@.len() {
                    assert(old(self).keys@[i] == self.keys@[i]);
                    let hh = path_hash(self.keys@[i]@);
                    assert(oi[hh]@.contains((i + 2) as u64));
                    if hh == h {
                        let kk = choose|kk: int| 0 <= kk < oi[hh]@.len() && oi[hh]@[kk] == (i + 2) as u64;
                        assert(ni[hh]@[kk] == (i + 2) as u64);
                    }
                } else {
                    assert(self.keys@[i] == key);
                    assert(ni[h]@[ni[h]@.len() - 1] == ino);
                }
            }
            assert forall|hh: u64, k: int|
                #![trigger ni[hh]@[k]]
                ni.contains_key(hh) && 0 <= k < ni[hh]@.len() implies {
                    &&& 2 <= ni[hh]@[k] < self.next_ino
                    &&& path_hash(self.keys@[ni[hh]@[k] - 2]@) == hh
                } by {
                if hh == h && k == ni[hh]@.len() - 1 {
                    assert(self.keys@[ino - 2] == key);
                } else {
                    assert(oi.contains_key(hh));
                    assert(ni[hh]@[k] == oi[hh]@[k]);
                    assert(oi[hh]@[k] < old(self).next_ino);
                    assert(self.keys@[oi[hh]@[k] - 2] == old(self).keys@[oi[hh]@[k] - 2]);
                }
            }
            assert forall|hh: u64, k1: int, k2: int|
                #![trigger ni[hh]@[k1], ni[hh]@[k2]]
                ni.contains_key(hh) && 0 <= k1 < k2 < ni[hh]@.len() implies ni[hh]@[k1] < ni[hh]@[k2] by {
                assert(oi.contains_key(hh));
                assert(ni[hh]@[k1] == oi[hh]@[k1]);
                assert(oi[hh]@[k1] < old(self).next_ino);
                if !(hh == h && k2 == ni[hh]@.len() - 1) {
                    assert(ni[hh]@[k2] == oi[hh]@[k2]);
                }
            }
        }
        ino
    }

    /// Looks the plain spelling `path`, whose hash is `h`, up in the inode
    /// table.
    fn lookup_hashed(&self, path: &String, h: u64) -> (r: Option<u64>)
        requires
            self.table_wf(),
            h == path_hash(path@),
        ensures
            r == self.ino_of_key(path@),
    {
        proof {
            lemma_latest_ino(self.key_table(), path@);
        }
        match self.index.get(&h) {
            None => {
                assert forall|j: int| 0 <= j < self.key_table().len() implies self.key_table()[j] != path@ by {
                    assert(self.keys@[j]@ == self.key_table()[j]);
                }
                None
            },
            Some(bucket) => {
                let n = self.keys.len();
                let mut k = bucket.len();
                while k > 0
                    invariant
                        n == self.keys@.len(),
                        self.table_wf(),
                        h == path_hash(path@),
                        self.index@.contains_key(h),
                        *bucket == self.index@[h],
                        k <= bucket@.len(),
                        forall|k2: int| k <= k2 < bucket@.len() ==> self.key_table()[bucket@[k2] - 2] != path@,
                    decreases k,
                {
                    k = k - 1;
                    let ino = bucket[k];
                    assert(2 <= self.index@[h]@[k as int] < self.next_ino);
                    let idx = (ino - 2) as usize;
                    assert(idx as int == ino - 2);
                    if self.keys[idx] == *path {
                        proof {
                            lemma_latest_ino(self.key_table(), path@);
                            assert(self.keys@[idx as int]@ == path@);
                            assert(self.key_table()[ino - 2] == path@);
                            match latest_ino(self.key_table(), path@) {
                                None => {},
                                Some(li) => {
                                    if li != ino {
                                        assert(self.keys@[li - 2]@ == path@);
                                        assert(self.index@[path_hash(self.keys@[li - 2]@)]@.contains(li));
                                        let kk = choose|kk: int| 0 <= kk < bucket@.len() && bucket@[kk] == li;
                                        assert(self.index@[h]@[kk] == li);
                                        if kk < k {
                                            assert(self.index@[h]@[kk] < self.index@[h]@[k as int]);
                                        }
                                    }
                                },
                            }
                        }
                        return Some(ino);
                    }
                }
                proof {
                    lemma_latest_ino(self.key_table(), path@);
                    if let Some(li) = latest_ino(self.key_table(), path@) {
                        assert(self.keys@[li - 2]@ == path@);
                        assert(self.index@[path_hash(self.keys@[li - 2]@)]@.contains(li));
                        let kk = choose|kk: int| 0 <= kk < bucket@.len() && bucket@[kk] == li;
                        assert(self.index@[h]@[kk] == li);
                    }
                }
                None
            },
        }
    }
    /// Whether `other` has the same folders, handles and settings as `self`.
    pub open spec fn same_settings_and_handles(&self, other: &Self) -> bool {
        &&& other.entries_view() == self.entries_view()
        &&& other.open_view() == self.open_view()
        &&& other.pending_view() == self.pending_view()
        &&& other.next_handle() == self.next_handle()
        &&& other.tmp_dir_view() == self.tmp_dir_view()
        &&& other.mountpoint_view() == self.mountpoint_view()
        &&& other.mounted_at_view() == self.mounted_at_view()
    }

    /// A drive over the folders `entries` (display name, source path),
    /// started at `mounted_at`. Folder `i` gets inode `i + 2`; no file is
    /// open yet.
    pub fn new(entries: Vec<(String, String)>, tmp_dir: String, mountpoint: String, mounted_at: Timestamp) -> (fs: Self)
        requires
            entries@.len() + 3 <= u64::MAX,
        ensures
            fs.wf(),
            fs.entries_view() == entries@.map_values(|e: (String, String)| (e.0@, e.1@)),
            fs.inodes() == entries@.map_values(|e: (String, String)| e.1@),
            fs.open_view() == Map::<u64, OpenFile<F>>::empty(),
            fs.pending_view() == Set::<u64>::empty(),
            fs.next_handle() == 1,
            fs.tmp_dir_view() == tmp_dir@,
            fs.mountpoint_view() == mountpoint@,
            fs.mounted_at_view() == mounted_at,
    {
        let n = entries.len();
        let mount_key = normalize_path(mountpoint.as_str());
        let mut fs = MetaFS {
            entries: Vec::new(),
            tmp_dir,
            mountpoint,
            paths: Vec::new(),
            keys: Vec::new(),
            mount_key,
            index: HashMap::new(),
            open_files: HashMap::new(),
            pending: HashSet::new(),
            next_ino: 2,
            next_fh: 1,
            mounted_at,
        };
        let mut i: usize = 0;
        while i < n
            invariant
                n == entries@.len(),
                n + 3 <= u64::MAX,
                i <= n,
                fs.table_wf(),
                fs.paths@.len() == i,
                forall|j: int| 0 <= j < i ==> #[trigger] fs.paths@[j]@ == entries@[j].1@,
                fs.open_files@ == Map::<u64, OpenFile<F>>::empty(),
                fs.pending@ == Set::<u64>::empty(),
                fs.next_fh == 1,
                fs.tmp_dir@ == tmp_dir@,
                fs.mountpoint@ == mountpoint@,
                fs.mount_key@ == normalized(mountpoint@),
                fs.mounted_at == mounted_at,
            decreases n - i,
        {
            let source = entries[i].1.clone();
            let key = normalize_path(source.as_str());
            fs.push_inode(source, key);
            i = i + 1;
        }
        fs.entries = entries;
        proof {
            assert(fs.inodes() =~= entries@.map_values(|e: (String, String)| e.1@));
            assert(fs.entries_view() =~= entries@.map_values(|e: (String, String)| (e.0@, e.1@)));
        }
        fs
    }

    /// The directory where files are copied to be stripped.
    pub fn tmp_dir(&self) -> (r: &String)
        ensures
            r@ == self.tmp_dir_view(),
    {
        &self.tmp_dir
    }

    /// The handle that the next open will be given.
    pub fn next_fh(&self) -> (r: u64)
        ensures
            r == self.next_handle(),
    {
        self.next_fh
    }

    /// The inode number that the next new path will get.
    pub fn next_ino(&self) -> (r: u64)
        requires
            self.wf(),
        ensures
            r == self.inodes().len() + 2,
    {
        self.next_ino
    }

    /// Whether `ino` is the root directory of one of the configured folders.
    pub fn is_entry_root(&self, ino: u64) -> (r: bool)
        requires
            self.wf(),
        ensures
            r == self.spec_is_entry_root(ino),
    {
        ino >= 2 && ino - 2 < self.entries.len() as u64
    }

    /// The path behind inode `ino`.
    pub fn path_of(&self, ino: u64) -> (r: Option<String>)
        requires
            self.wf(),
        ensures
            match r {
                Some(p) => self.path_of_ino(ino) == Some(p@),
                None => self.path_of_ino(ino) is None,
            },
    {
        let n = self.paths.len();
        if ino >= 2 && ino < self.next_ino {
            assert(ino - 2 < n);
            let idx = (ino - 2) as usize;
            assert(idx as int == ino - 2);
            let p = self.paths[idx].clone();
            assert(self.inodes()[idx as int] == self.paths@[idx as int]@);
            Some(p)
        } else {
            None
        }
    }

    /// Gives `path` an inode: the one it already has, or else the next
    /// number.
    pub fn find_or_alloc_ino(&mut self, path: &str) -> (ino: u64)
        requires
            old(self).wf(),
            old(self).ino_of_path(path@) is Some || old(self).inodes().len() + 3 <= u64::MAX,
        ensures
            old(self).leads_to(&*final(self)),
            final(self).wf(),
            old(self).same_settings_and_handles(&*final(self)),
            final(self).inodes() == with_path(old(self).inodes(), path@),
            final(self).ino_of_path(path@) == Some(ino),
            match old(self).ino_of_path(path@) {
                Some(known) => ino == known && final(self).inodes() == old(self).inodes(),
                None => {
                    &&& ino == old(self).inodes().len() + 2
                    &&& final(self).inodes() == old(self).inodes().push(path@)
                },
            },
    {
        let key = normalize_path(path);
        let h = hash_path(key.as_str());
        if let Some(known) = self.lookup_hashed(&key, h) {
            proof {
                old(self).lemma_leads_to_with_path(&*self, path@);
            }
            return known;
        }
        let ino = self.push_inode(path.to_owned(), key);
        proof {
            assert(keys_of(self.inodes()) =~= keys_of(old(self).inodes()).push(normalized(path@)));
            lemma_latest_ino_push(old(self).key_table(), normalized(path@), normalized(path@));
            assert(self.inodes() =~= old(self).inodes().push(path@));
            assert forall|i: int| 0 <= i < self.entries@.len() implies #[trigger] self.paths@[i]@ == self.entries@[i].1@ by {
                assert(self.paths@[i] == old(self).paths@[i]);
            }
            old(self).lemma_leads_to_with_path(&*self, path@);
        }
        ino
    }

    /// The inode that the table gives to `path`, if any; nothing is added.
    pub fn ino_of(&self, path: &str) -> (r: Option<u64>)
        requires
            self.wf(),
        ensures
            r == self.ino_of_path(path@),
    {
        let key = normalize_path(path);
        let h = hash_path(key.as_str());
        self.lookup_hashed(&key, h)
    }

    /// The root directory of the folder named `name`, as its inode and
    /// source path; the first folder of that name if there are several.
    pub fn lookup_root(&self, name: &String) -> (r: Option<(u64, String)>)
        requires
            self.wf(),
        ensures
            match r {
                Some((ino, source)) => {
                    &&& 2 <= ino < self.entries_view().len() + 2
                    &&& self.entries_view()[ino - 2] == (name@, source@)
                    &&& forall|j: int| 0 <= j < ino - 2 ==> self.entries_view()[j].0 != name@
                },
                None => forall|j: int| 0 <= j < self.entries_view().len() ==> self.entries_view()[j].0 != name@,
            },
    {
        let n = self.entries.len();
        let mut i: usize = 0;
        while i < n
            invariant
                self.wf(),
                n == self.entries@.len(),
                i <= n,
                forall|j: int| 0 <= j < i ==> self.entries_view()[j].0 != name@,
            decreases n - i,
        {
            if self.entries[i].0 == *name {
                let source = self.entries[i].1.clone();
                return Some(((i as u64) + 2, source));
            }
            i = i + 1;
        }
        None
    }

    /// The path that `name` names inside directory `parent`, if `parent` is
    /// a known inode.
    pub fn child_path(&self, parent: u64, name: &str) -> (r: Option<String>)
        requires
            self.wf(),
        ensures
            match r {
                Some(p) => exists|pp: Seq<char>| self.path_of_ino(parent) == Some(pp) && p@ == joined(pp, name@),
                None => self.path_of_ino(parent) is None,
            },
    {
        match self.path_of(parent) {
            Some(pp) => Some(join_path(pp.as_str(), name)),
            None => None,
        }
    }

    /// Hands out the next file handle.
    fn alloc_fh(&mut self) -> (fh: u64)
        requires
            old(self).wf(),
            old(self).next_handle() < u64::MAX,
        ensures
            fh == old(self).next_handle(),
            final(self).next_handle() == fh + 1,
            final(self).open_files == old(self).open_files,
            final(self).pending == old(self).pending,
            final(self).paths == old(self).paths,
            final(self).keys == old(self).keys,
            final(self).index == old(self).index,
            final(self).next_ino == old(self).next_ino,
            final(self).entries == old(self).entries,
            final(self).tmp_dir == old(self).tmp_dir,
            final(self).mountpoint == old(self).mountpoint,
            final(self).mount_key == old(self).mount_key,
            final(self).mounted_at == old(self).mounted_at,
    {
        let fh = self.next_fh;
        self.next_fh = fh + 1;
        fh
    }

    /// Files `file` under the handle of `plan`, if that handle is waiting to
    /// be filed; returns whether it was.
    pub fn register_open(&mut self, plan: OpenPlan, file: OpenFile<F>) -> (filed: bool)
        requires
            old(self).wf(),
        ensures
            old(self).leads_to(&*final(self)),
            final(self).wf(),
            filed == old(self).pending_view().contains(plan.plan_fh()),
            filed ==> final(self).open_view() == old(self).open_view().insert(plan.plan_fh(), file),
            filed ==> final(self).pending_view() == old(self).pending_view().remove(plan.plan_fh()),
            !filed ==> final(self).open_view() == old(self).open_view(),
            !filed ==> final(self).pending_view() == old(self).pending_view(),
            final(self).next_handle() == old(self).next_handle(),
            old(self).same_tables_and_settings(&*final(self)),
            forall|h: u64| old(self).is_retired(h) ==> #[trigger] final(self).is_retired(h),
    {
        let fh = plan.fh;
        if self.pending.remove(&fh) {
            self.open_files.insert(fh, file);
            proof {
                old(self).lemma_leads_to_same_table(&*self);
            }
            true
        } else {
            proof {
                old(self).lemma_leads_to_same_table(&*self);
            }
            false
        }
    }

    /// Gives up an open that failed: its handle is used up.
    pub fn abandon_open(&mut self, plan: OpenPlan)
        requires
            old(self).wf(),
        ensures
            old(self).leads_to(&*final(self)),
            final(self).wf(),
            final(self).open_view() == old(self).open_view(),
            final(self).pending_view() == old(self).pending_view().remove(plan.plan_fh()),
            final(self).next_handle() == old(self).next_handle(),
            old(self).same_tables_and_settings(&*final(self)),
            plan.plan_fh() < old(self).next_handle() && !old(self).open_view().contains_key(plan.plan_fh())
                ==> final(self).is_retired(plan.plan_fh()),
            forall|h: u64| old(self).is_retired(h) ==> #[trigger] final(self).is_retired(h),
    {
        let fh = plan.fh;
        self.pending.remove(&fh);
        proof {
            old(self).lemma_leads_to_same_table(&*self);
        }
    }

    /// The file open under handle `fh`.
    pub fn open_file(&self, fh: u64) -> (r: Option<&OpenFile<F>>)
        requires
            self.wf(),
        ensures
            match r {
                Some(f) => self.open_view().contains_key(fh) && *f == self.open_view()[fh],
                None => !self.open_view().contains_key(fh),
            },
    {
        self.open_files.get(&fh)
    }

    /// Closes handle `fh`.
    pub fn release(&mut self, fh: u64)
        requires
            old(self).wf(),
        ensures
            old(self).leads_to(&*final(self)),
            final(self).wf(),
            final(self).open_view() == old(self).open_view().remove(fh),
            final(self).pending_view() == old(self).pending_view(),
            final(self).next_handle() == old(self).next_handle(),
            old(self).same_tables_and_settings(&*final(self)),
            fh < old(self).next_handle() && !old(self).pending_view().contains(fh) ==> final(self).is_retired(fh),
            forall|h: u64| old(self).is_retired(h) ==> #[trigger] final(self).is_retired(h),
    {
        self.open_files.remove(&fh);
        proof {
            old(self).lemma_leads_to_same_table(&*self);
        }
    }

    /// The inode that a listing of directory `ino` gives for `..`: the
    /// drive's root for the root of a folder, else the inode of the parent
    /// path (matched component by component) if it has one, else the
    /// drive's root.
    pub open spec fn parent_ino_of(&self, ino: u64) -> u64 {
        if self.spec_is_entry_root(ino) {
            ROOT_INO
        } else {
            match self.path_of_ino(ino) {
                Some(p) => match spec_parent(p) {
                    Some(q) => match self.ino_of_key(q) {
                        Some(i) => i,
                        None => ROOT_INO,
                    },
                    None => ROOT_INO,
                },
                None => ROOT_INO,
            }
        }
    }

    /// The inode that a listing of directory `ino` gives for `..`.
    pub fn parent_ino(&self, ino: u64) -> (r: u64)
        requires
            self.wf(),
        ensures
            r == self.parent_ino_of(ino),
    {
        if self.is_entry_root(ino) {
            return ROOT_INO;
        }
        match self.path_of(ino) {
            Some(p) => match parent_path(p.as_str()) {
                Some(q) => {
                    let h = hash_path(q.as_str());
                    match self.lookup_hashed(&q, h) {
                        Some(i) => i,
                        None => ROOT_INO,
                    }
                },
                None => ROOT_INO,
            },
            None => ROOT_INO,
        }
    }

    /// The listing of the drive's root: `.` and `..`, both the root itself,
    /// then each folder's root under the folder's name.
    pub fn root_listing(&self) -> (r: Vec<DirEntry>)
        requires
            self.wf(),
        ensures
            r@.len() == self.entries_view().len() + 2,
            entry_view(r@[0]) == (ROOT_INO, FileKind::Directory, seq!['.']),
            entry_view(r@[1]) == (ROOT_INO, FileKind::Directory, seq!['.', '.']),
            forall|j: int|
                2 <= j < r@.len() ==> #[trigger] entry_view(r@[j]) == (
                    j as u64,
                    FileKind::Directory,
                    self.entries_view()[j - 2].0,
                ),
    {
        let mut out: Vec<DirEntry> = Vec::new();
        let dot = ".";
        let dotdot = "..";
        proof {
            reveal_strlit(".");
            reveal_strlit("..");
        }
        out.push(DirEntry { ino: ROOT_INO, kind: FileKind::Directory, name: dot.to_owned() });
        out.push(DirEntry { ino: ROOT_INO, kind: FileKind::Directory, name: dotdot.to_owned() });
        let n = self.entries.len();
        let mut i: usize = 0;
        while i < n
            invariant
                self.wf(),
                n == self.entries_view().len(),
                i <= n,
                out@.len() == i + 2,
                entry_view(out@[0]) == (ROOT_INO, FileKind::Directory, seq!['.']),
                entry_view(out@[1]) == (ROOT_INO, FileKind::Directory, seq!['.', '.']),
                forall|j: int|
                    0 <= j < i ==> #[trigger] entry_view(out@[j + 2]) == (
                        (j + 2) as u64,
                        FileKind::Directory,
                        self.entries_view()[j].0,
                    ),
            decreases n - i,
        {
            let name = self.entries[i].0.clone();
            out.push(DirEntry { ino: (i as u64) + 2, kind: FileKind::Directory, name });
            i = i + 1;
        }
        proof {
            assert forall|j: int| 2 <= j < out@.len() implies #[trigger] entry_view(out@[j]) == (
                j as u64,
                FileKind::Directory,
                self.entries_view()[j - 2].0,
            ) by {
                let k = j - 2;
                assert(entry_view(out@[k + 2]) == ((k + 2) as u64, FileKind::Directory, self.entries_view()[k].0));
            }
        }
        out
    }

    /// The listing of directory `ino`, given the children that reading its
    /// path returned, as (name, kind): `.` for the directory itself, `..`
    /// for its parent, then each child except the drive's own mountpoint,
    /// under the inode that it gets here.
    pub fn dir_listing(&mut self, ino: u64, children: &Vec<(String, FileKind)>) -> (r: Vec<DirEntry>)
        requires
            old(self).wf(),
            old(self).path_of_ino(ino) is Some,
            old(self).inodes().len() + children@.len() + 3 <= u64::MAX,
        ensures
            old(self).leads_to(&*final(self)),
            final(self).wf(),
            old(self).same_settings_and_handles(&*final(self)),
            ({
                let dir = old(self).path_of_ino(ino)->0;
                let shown = children@.map_values(|c: (String, FileKind)| child_view(c)).filter(
                    listed_in(dir, old(self).mountpoint_view()),
                );
                &&& final(self).inodes() == with_paths(old(self).inodes(), shown.map_values(path_in(dir)))
                &&& r@.len() == shown.len() + 2
                &&& entry_view(r@[0]) == (ino, FileKind::Directory, seq!['.'])
                &&& entry_view(r@[1]) == (old(self).parent_ino_of(ino), FileKind::Directory, seq!['.', '.'])
                &&& forall|j: int|
                    2 <= j < r@.len() ==> {
                        &&& final(self).ino_of_path(joined(dir, shown[j - 2].0)) is Some
                        &&& #[trigger] entry_view(r@[j]) == (
                            final(self).ino_of_path(joined(dir, shown[j - 2].0))->0,
                            shown[j - 2].1,
                            shown[j - 2].0,
                        )
                    }
                &&& forall|i: int|
                    0 <= i < children@.len() && normalized(joined(dir, (#[trigger] children@[i]).0@)) != normalized(
                        old(self).mountpoint_view(),
                    ) ==> exists|j: int|
                        2 <= j < r@.len() && (#[trigger] entry_view(r@[j])).2 == children@[i].0@ && entry_view(
                            r@[j],
                        ).1 == children@[i].1
                &&& forall|j: int|
                    2 <= j < r@.len() ==> normalized(joined(dir, (#[trigger] entry_view(r@[j])).2)) != normalized(
                        old(self).mountpoint_view(),
                    )
            }),
    {
        let ghost old_inodes = self.inodes();
        let ghost entries0 = self.entries_view();
        let ghost open0 = self.open_view();
        let ghost fh0 = self.next_handle();
        let ghost tmp0 = self.tmp_dir_view();
        let ghost mount = self.mountpoint_view();
        let ghost mat0 = self.mounted_at_view();
        let ghost pend0 = self.pending_view();
        let ghost cv = children@.map_values(|c: (String, FileKind)| child_view(c));
        let path = self.path_of(ino).unwrap();
        let ghost dir = path@;
        let parent = self.parent_ino(ino);
        let mut out: Vec<DirEntry> = Vec::new();
        let dot = ".";
        let dotdot = "..";
        proof {
            reveal_strlit(".");
            reveal_strlit("..");
        }
        out.push(DirEntry { ino, kind: FileKind::Directory, name: dot.to_owned() });
        out.push(DirEntry { ino: parent, kind: FileKind::Directory, name: dotdot.to_owned() });
        let n = children.len();
        let mut i: usize = 0;
        proof {
            assert(cv.take(0) =~= Seq::<(Seq<char>, FileKind)>::empty());
            reveal(Seq::filter);
            assert(cv.take(0).filter(listed_in(dir, mount)).map_values(path_in(dir)) =~= Seq::<Seq<char>>::empty());
        }
        while i < n
            invariant
                self.wf(),
                n == children@.len(),
                cv == children@.map_values(|c: (String, FileKind)| child_view(c)),
                dir == path@,
                i <= n,
                old_inodes.len() + n + 3 <= u64::MAX,
                self.inodes().len() <= old_inodes.len() + i,
                self.entries_view() == entries0,
                self.open_view() == open0,
                self.next_handle() == fh0,
                self.tmp_dir_view() == tmp0,
                self.mountpoint_view() == mount,
                self.mounted_at_view() == mat0,
                self.pending_view() == pend0,
                self.inodes() == with_paths(old_inodes, cv.take(i as int).filter(listed_in(dir, mount)).map_values(path_in(dir))),
                out@.len() == cv.take(i as int).filter(listed_in(dir, mount)).len() + 2,
                entry_view(out@[0]) == (ino, FileKind::Directory, seq!['.']),
                entry_view(out@[1]) == (parent, FileKind::Directory, seq!['.', '.']),
                forall|k: int|
                    0 <= k < cv.take(i as int).filter(listed_in(dir, mount)).len() ==> {
                        let c = #[trigger] cv.take(i as int).filter(listed_in(dir, mount))[k];
                        &&& self.ino_of_path(joined(dir, c.0)) is Some
                        &&& entry_view(out@[k + 2]) == (self.ino_of_path(joined(dir, c.0))->0, c.1, c.0)
                    },
            decreases n - i,
        {
            let ghost before = self.inodes();
            let ghost shown = cv.take(i as int).filter(listed_in(dir, mount));
            let ghost c = cv[i as int];
            proof {
                assert(cv.take(i as int + 1) =~= cv.take(i as int).push(c));
                cv.take(i as int).lemma_filter_push(c, listed_in(dir, mount));
                assert(c == child_view(children@[i as int]));
            }
            let cname = children[i].0.as_str();
            assert(cname@ == children@[i as int].0@);
            assert(c.0 == children@[i as int].0@);
            let child = join_path(path.as_str(), cname);
            assert(child@ == joined(dir, c.0));
            let ghost out0 = out@;
            let child_key = normalize_path(child.as_str());
            if !(child_key == self.mount_key) {
                let cino = self.find_or_alloc_ino(child.as_str());
                let name = children[i].0.clone();
                out.push(DirEntry { ino: cino, kind: children[i].1, name });
                proof {
                    let shown2 = shown.push(c);
                    let ps = shown.map_values(path_in(dir));
                    assert(shown2.map_values(path_in(dir)) =~= ps.push(joined(dir, c.0)));
                    assert(ps.push(joined(dir, c.0)).drop_last() =~= ps);
                    assert(with_paths(old_inodes, ps.push(joined(dir, c.0))) == with_path(with_paths(old_inodes, ps), joined(dir, c.0)));
                    assert forall|k: int| 0 <= k < shown2.len() implies {
                        let cc = #[trigger] shown2[k];
                        &&& self.ino_of_path(joined(dir, cc.0)) is Some
                        &&& entry_view(out@[k + 2]) == (self.ino_of_path(joined(dir, cc.0))->0, cc.1, cc.0)
                    } by {
                        if k < shown.len() {
                            let cc = shown[k];
                            assert(shown2[k] == cc);
                            assert(out@[k + 2] == out0[k + 2]);
                            lemma_with_path_keeps_known(before, child@, normalized(joined(dir, cc.0)));
                        } else {
                            assert(shown2[k] == c);
                            assert(out@[k + 2] == out@[out@.len() - 1]);
                        }
                    }
                }
            } else {
                proof {
                    assert(!listed_in(dir, mount)(c));
                }
            }
            i = i + 1;
        }
        proof {
            assert(cv.take(n as int) =~= cv);
            let shown = cv.filter(listed_in(dir, mount));
            assert forall|j: int| 2 <= j < out@.len() implies {
                &&& self.ino_of_path(joined(dir, shown[j - 2].0)) is Some
                &&& #[trigger] entry_view(out@[j]) == (
                    self.ino_of_path(joined(dir, shown[j - 2].0))->0,
                    shown[j - 2].1,
                    shown[j - 2].0,
                )
            } by {
                let k = j - 2;
                let c = shown[k];
                assert(cv.take(n as int).filter(listed_in(dir, mount))[k] == c);
            }
            assert forall|i: int|
                0 <= i < children@.len() && normalized(joined(dir, (#[trigger] children@[i]).0@)) != normalized(mount)
                implies exists|j: int|
                2 <= j < out@.len() && (#[trigger] entry_view(out@[j])).2 == children@[i].0@ && entry_view(out@[j]).1
                    == children@[i].1 by {
                assert(cv[i] == child_view(children@[i]));
                law_listing_hides_only_the_mountpoint(cv, dir, mount, i);
                let k = choose|k: int| 0 <= k < shown.len() && shown[k] == cv[i];
                assert(entry_view(out@[k + 2]).2 == shown[k].0);
            }
            assert forall|j: int| 2 <= j < out@.len() implies normalized(
                joined(dir, (#[trigger] entry_view(out@[j])).2),
            ) != normalized(mount) by {
                cv.lemma_filter_pred(listed_in(dir, mount), j - 2);
            }
            old(self).lemma_leads_to_with_paths(&*self, shown.map_values(path_in(dir)));
        }
        out
    }
    /// The attributes of the drive's root directory: a read-only directory
    /// owned by `uid` and `gid`, stamped with the time the drive started.
    pub fn root_attr(&self, uid: u32, gid: u32) -> (a: Attr)
        ensures
            a.ino == ROOT_INO,
            a.size == 0,
            a.blocks == 0,
            a.atime == self.mounted_at_view(),
            a.mtime == self.mounted_at_view(),
            a.ctime == self.mounted_at_view(),
            a.crtime == epoch(),
            a.kind == FileKind::Directory,
            a.perm == 0o555,
            a.nlink == 2,
            a.uid == uid,
            a.gid == gid,
            a.rdev == 0,
            a.blksize == 4096,
            a.flags == 0,
    {
        Attr {
            ino: ROOT_INO,
            size: 0,
            blocks: 0,
            atime: self.mounted_at,
            mtime: self.mounted_at,
            ctime: self.mounted_at,
            crtime: Timestamp { before_epoch: false, secs: 0, nanos: 0 },
            kind: FileKind::Directory,
            perm: 0o555,
            nlink: 2,
            uid,
            gid,
            rdev: 0,
            blksize: 4096,
            flags: 0,
        }
    }

    /// Starts opening inode `ino`: directories of the drive's own are
    /// refused, an unknown inode is not found; otherwise the file gets the
    /// next handle, and is to be stripped if its format is supported.
    pub fn begin_open(&mut self, ino: u64) -> (r: Result<OpenPlan, Errno>)
        requires
            old(self).wf(),
            old(self).next_handle() < u64::MAX,
        ensures
            old(self).leads_to(&*final(self)),
            final(self).wf(),
            old(self).same_tables_and_settings(&*final(self)),
            final(self).open_view() == old(self).open_view(),
            forall|h: u64| old(self).is_retired(h) ==> #[trigger] final(self).is_retired(h),
            ino == ROOT_INO || old(self).spec_is_entry_root(ino) ==> {
                &&& r == Err::<OpenPlan, Errno>(Errno::IsDir)
                &&& final(self).next_handle() == old(self).next_handle()
                &&& final(self).pending_view() == old(self).pending_view()
            },
            !(ino == ROOT_INO || old(self).spec_is_entry_root(ino)) && old(self).path_of_ino(ino) is None ==> {
                &&& r == Err::<OpenPlan, Errno>(Errno::NotFound)
                &&& final(self).next_handle() == old(self).next_handle()
                &&& final(self).pending_view() == old(self).pending_view()
            },
            !(ino == ROOT_INO || old(self).spec_is_entry_root(ino)) && old(self).path_of_ino(ino) is Some ==> {
                &&& r is Ok
                &&& r->Ok_0.plan_fh() == old(self).next_handle()
                &&& !old(self).open_view().contains_key(r->Ok_0.plan_fh())
                &&& final(self).next_handle() == old(self).next_handle() + 1
                &&& final(self).pending_view() == old(self).pending_view().insert(r->Ok_0.plan_fh())
                &&& old(self).path_of_ino(ino) == Some(r->Ok_0.plan_path())
                &&& r->Ok_0.plan_strip() == spec_is_supported(r->Ok_0.plan_path())
            },
    {
        proof {
            old(self).law_leads_to_itself();
        }
        if ino == ROOT_INO || self.is_entry_root(ino) {
            return Err(Errno::IsDir);
        }
        let path = match self.path_of(ino) {
            Some(p) => p,
            None => {
                return Err(Errno::NotFound);
            },
        };
        let fh = self.alloc_fh();
        self.pending.insert(fh);
        let strip = is_supported(path.as_str());
        proof {
            old(self).lemma_leads_to_same_table(&*self);
        }
        Ok(OpenPlan { fh, path, strip })
    }

    /// Whether `later` is what filing `file` under the handle of `plan`
    /// leaves, with `r` the answer: if the handle is waiting to be filed,
    /// the file is open under it; otherwise nothing changes and the open
    /// fails with an input/output error.
    pub open spec fn files_under_plan(&self, later: &Self, plan: OpenPlan, file: OpenFile<F>, r: OpenAction) -> bool {
        if self.pending_view().contains(plan.plan_fh()) {
            &&& r == OpenAction::Opened(plan.plan_fh())
            &&& later.open_view() == self.open_view().insert(plan.plan_fh(), file)
            &&& later.pending_view() == self.pending_view().remove(plan.plan_fh())
        } else {
            &&& r == OpenAction::Failed(Errno::Io)
            &&& later.open_view() == self.open_view()
            &&& later.pending_view() == self.pending_view()
        }
    }

    /// Files `file` under the handle of `plan` and says what follows.
    fn file_under_plan(&mut self, plan: OpenPlan, file: OpenFile<F>) -> (r: OpenAction)
        requires
            old(self).wf(),
        ensures
            old(self).leads_to(&*final(self)),
            final(self).wf(),
            old(self).same_tables_and_settings(&*final(self)),
            final(self).next_handle() == old(self).next_handle(),
            old(self).files_under_plan(&*final(self), plan, file, r),
    {
        let fh = plan.fh;
        if self.register_open(plan, file) {
            OpenAction::Opened(fh)
        } else {
            OpenAction::Failed(Errno::Io)
        }
    }

    /// Starts opening inode `ino`. Directories of the drive's own are
    /// refused and an unknown inode is not found; otherwise the file gets
    /// the next handle, and the first step is to strip it if its format is
    /// supported, else to open it as it is.
    pub fn open_start(&mut self, ino: u64) -> (r: OpenAction)
        requires
            old(self).wf(),
            old(self).next_handle() < u64::MAX,
        ensures
            old(self).leads_to(&*final(self)),
            final(self).wf(),
            old(self).same_tables_and_settings(&*final(self)),
            final(self).open_view() == old(self).open_view(),
            ino == ROOT_INO || old(self).spec_is_entry_root(ino) ==> {
                &&& r == OpenAction::Failed(Errno::IsDir)
                &&& final(self).next_handle() == old(self).next_handle()
                &&& final(self).pending_view() == old(self).pending_view()
            },
            !(ino == ROOT_INO || old(self).spec_is_entry_root(ino)) && old(self).path_of_ino(ino) is None ==> {
                &&& r == OpenAction::Failed(Errno::NotFound)
                &&& final(self).next_handle() == old(self).next_handle()
                &&& final(self).pending_view() == old(self).pending_view()
            },
            !(ino == ROOT_INO || old(self).spec_is_entry_root(ino)) && old(self).path_of_ino(ino) is Some ==> {
                let path = old(self).path_of_ino(ino)->0;
                let fh = old(self).next_handle();
                &&& final(self).next_handle() == fh + 1
                &&& final(self).pending_view() == old(self).pending_view().insert(fh)
                &&& match r {
                    OpenAction::Strip(plan) => {
                        &&& spec_is_supported(path)
                        &&& plan.plan_fh() == fh
                        &&& plan.plan_path() == path
                        &&& plan.plan_strip()
                    },
                    OpenAction::OpenPlain(plan) => {
                        &&& !spec_is_supported(path)
                        &&& plan.plan_fh() == fh
                        &&& plan.plan_path() == path
                        &&& !plan.plan_strip()
                    },
                    _ => false,
                }
            },
    {
        match self.begin_open(ino) {
            Ok(plan) => {
                if plan.strip {
                    OpenAction::Strip(plan)
                } else {
                    OpenAction::OpenPlain(plan)
                }
            },
            Err(e) => OpenAction::Failed(e),
        }
    }

    /// Takes an open of `plan` one step on, given what the last step
    /// reported: a failed strip falls back to opening the file as it is;
    /// stripped bytes, or the file opened as it is, are filed under the
    /// plan's handle; a failed open gives the handle up and fails, with an
    /// input/output error if stripping was tried, else not found or
    /// permission denied.
    pub fn open_advance(&mut self, plan: OpenPlan, event: OpenEvent<F>) -> (r: OpenAction)
        requires
            old(self).wf(),
        ensures
            old(self).leads_to(&*final(self)),
            final(self).wf(),
            old(self).same_tables_and_settings(&*final(self)),
            final(self).next_handle() == old(self).next_handle(),
            match event {
                OpenEvent::StripFailed => {
                    &&& r == OpenAction::OpenPlain(plan)
                    &&& final(self).open_view() == old(self).open_view()
                    &&& final(self).pending_view() == old(self).pending_view()
                },
                OpenEvent::OpenFailed { not_found } => {
                    &&& r == OpenAction::Failed(
                        if plan.plan_strip() {
                            Errno::Io
                        } else if not_found {
                            Errno::NotFound
                        } else {
                            Errno::Access
                        },
                    )
                    &&& final(self).open_view() == old(self).open_view()
                    &&& final(self).pending_view() == old(self).pending_view().remove(plan.plan_fh())
                },
                OpenEvent::Stripped(bytes) => old(self).files_under_plan(&*final(self), plan, OpenFile::Buffer(bytes), r),
                OpenEvent::Opened(file) => old(self).files_under_plan(&*final(self), plan, OpenFile::Passthrough(file), r),
            },
    {
        match event {
            OpenEvent::StripFailed => {
                proof {
                    old(self).law_leads_to_itself();
                }
                OpenAction::OpenPlain(plan)
            },
            OpenEvent::OpenFailed { not_found } => {
                let e = open_failure(plan.strip, not_found);
                self.abandon_open(plan);
                OpenAction::Failed(e)
            },
            OpenEvent::Stripped(bytes) => self.file_under_plan(plan, OpenFile::Buffer(bytes)),
            OpenEvent::Opened(file) => self.file_under_plan(plan, OpenFile::Passthrough(file)),
        }
    }

    /// Answers a lookup of path `child` once the file system has said
    /// whether it exists: an existing child gets its inode (the one it has,
    /// or else the next number); a missing one is not found, and the inode
    /// table stays as it was.
    pub fn lookup_child(&mut self, child: &str, exists: bool) -> (r: Result<u64, Errno>)
        requires
            old(self).wf(),
            exists ==> old(self).ino_of_path(child@) is Some || old(self).inodes().len() + 3 <= u64::MAX,
        ensures
            old(self).leads_to(&*final(self)),
            final(self).wf(),
            old(self).same_settings_and_handles(&*final(self)),
            exists ==> {
                &&& final(self).inodes() == with_path(old(self).inodes(), child@)
                &&& final(self).ino_of_path(child@) is Some
                &&& r == Ok::<u64, Errno>(final(self).ino_of_path(child@)->0)
            },
            !exists ==> {
                &&& final(self).inodes() == old(self).inodes()
                &&& r == Err::<u64, Errno>(Errno::NotFound)
            },
    {
        if exists {
            Ok(self.find_or_alloc_ino(child))
        } else {
            proof {
                old(self).law_leads_to_itself();
            }
            Err(Errno::NotFound)
        }
    }
}

/// Law: a listing leaves out the drive's own mountpoint and nothing else:
/// a child of the directory that is not the mountpoint (component by
/// component) is shown, whatever its kind, and one that is the mountpoint
/// is not.
pub proof fn law_listing_hides_only_the_mountpoint(
    children: Seq<(Seq<char>, FileKind)>,
    dir: Seq<char>,
    mount: Seq<char>,
    i: int,
)
    requires
        0 <= i < children.len(),
    ensures
        normalized(joined(dir, children[i].0)) != normalized(mount) ==> children.filter(
            listed_in(dir, mount),
        ).contains(children[i]),
        normalized(joined(dir, children[i].0)) == normalized(mount) ==> !children.filter(
            listed_in(dir, mount),
        ).contains(children[i]),
{
    let shown = children.filter(listed_in(dir, mount));
    if normalized(joined(dir, children[i].0)) != normalized(mount) {
        children.lemma_filter_contains(listed_in(dir, mount), i);
    } else if shown.contains(children[i]) {
        let k = choose|k: int| 0 <= k < shown.len() && shown[k] == children[i];
        children.lemma_filter_pred(listed_in(dir, mount), k);
    }
}

/// Law: two paths that the table gives the same inode are the same path:
/// the same root and the same components.
pub proof fn law_inodes_tell_paths_apart(table: Seq<Seq<char>>, p: Seq<char>, q: Seq<char>)
    requires
        table.len() + 2 <= u64::MAX,
        latest_ino(keys_of(table), normalized(p)) is Some,
        latest_ino(keys_of(table), normalized(p)) == latest_ino(keys_of(table), normalized(q)),
    ensures
        normalized(p) == normalized(q),
        has_root(p) == has_root(q),
        path_components(p) == path_components(q),
{
    lemma_latest_ino(keys_of(table), normalized(p));
    lemma_latest_ino(keys_of(table), normalized(q));
    law_normalized_tells_paths_apart(p, q);
}

/// Law: giving a path an inode a second time changes nothing: the table and
/// the inode stay as the first time left them.
pub proof fn law_giving_inode_is_idempotent(table: Seq<Seq<char>>, p: Seq<char>)
    ensures
        with_path(with_path(table, p), p) == with_path(table, p),
        latest_ino(keys_of(with_path(table, p)), normalized(p)) is Some,
{
    if latest_ino(keys_of(table), normalized(p)) is None {
        assert(keys_of(table.push(p)) =~= keys_of(table).push(normalized(p)));
        lemma_latest_ino_push(keys_of(table), normalized(p), normalized(p));
    }
}

/// Law: giving a path an inode keeps every inode already given: the old
/// table is a prefix of the new one, and every path that had an inode keeps
/// it.
pub proof fn law_giving_inode_keeps_others(table: Seq<Seq<char>>, p: Seq<char>, q: Seq<char>)
    ensures
        with_path(table, p).subrange(0, table.len() as int) == table,
        latest_ino(keys_of(table), normalized(q)) is Some ==> latest_ino(
            keys_of(with_path(table, p)),
            normalized(q),
        ) == latest_ino(keys_of(table), normalized(q)),
{
    if latest_ino(keys_of(table), normalized(q)) is Some {
        lemma_with_path_keeps_known(table, p, normalized(q));
    }
    assert(with_path(table, p).subrange(0, table.len() as int) =~= table);
}

/// Law: giving several paths inodes in turn keeps every inode already
/// given: the old table is a prefix of the new one, and a path (spelled
/// plainly as `k`) that had an inode keeps it.
pub proof fn law_listing_keeps_inodes(table: Seq<Seq<char>>, ps: Seq<Seq<char>>, k: Seq<char>)
    ensures
        table.len() <= with_paths(table, ps).len() <= table.len() + ps.len(),
        with_paths(table, ps).subrange(0, table.len() as int) == table,
        latest_ino(keys_of(table), k) is Some ==> latest_ino(keys_of(with_paths(table, ps)), k) == latest_ino(
            keys_of(table),
            k,
        ),
    decreases ps.len(),
{
    if ps.len() > 0 {
        law_listing_keeps_inodes(table, ps.drop_last(), k);
        let t = with_paths(table, ps.drop_last());
        assert(with_path(t, ps.last()).subrange(0, table.len() as int) =~= t.subrange(0, table.len() as int));
        if latest_ino(keys_of(table), k) is Some {
            lemma_with_path_keeps_known(t, ps.last(), k);
        }
    }
}

/// Law: listing and lookup agree. Once a path has an inode (as a listing
/// gives its children), any paths given inodes afterwards leave it that
/// inode, and looking the path up again gives that same inode and adds
/// nothing to the table.
pub proof fn law_listing_and_lookup_agree(table: Seq<Seq<char>>, ps: Seq<Seq<char>>, child: Seq<char>, ino: u64)
    requires
        latest_ino(keys_of(table), normalized(child)) == Some(ino),
    ensures
        latest_ino(keys_of(with_paths(table, ps)), normalized(child)) == Some(ino),
        with_path(with_paths(table, ps), child) == with_paths(table, ps),
{
    law_listing_keeps_inodes(table, ps, normalized(child));
}

/// Law: reading a window of the listing resumes where the last entry read
/// left off: the reader that asks again at an entry's offset gets the
/// entries after it.
pub proof fn law_page_resumes(len: int, offset: i64, k: int)
    requires
        0 <= len < i64::MAX,
        0 <= k < page_bounds(len, offset).1,
    ensures
        ({
            let resume = page_bounds(len, offset).0 + k + 1;
            &&& page_bounds(len, resume as i64).0 == if resume < len { resume } else { len }
            &&& page_bounds(len, resume as i64).1 == len - resume
        }),
{
}

/// Law: a read from a buffer serves at most the bytes asked for, and none
/// past the buffer's end.
pub proof fn law_read_stays_in_buffer(len: int, offset: i64, size: u32)
    requires
        len >= 0,
    ensures
        0 <= spec_read_range(len, offset, size).0 <= spec_read_range(len, offset, size).1 <= len,
        spec_read_range(len, offset, size).1 - spec_read_range(len, offset, size).0 <= size,
{
}

impl<F> MetaFS<F> {
    /// Law: each folder's root is the inode numbered two past its place
    /// among the folders, and leads to its source path.
    pub proof fn law_folder_roots(&self, i: int)
        requires
            self.wf(),
            0 <= i < self.entries_view().len(),
        ensures
            self.spec_is_entry_root((i + 2) as u64),
            self.path_of_ino((i + 2) as u64) == Some(self.entries_view()[i].1),
    {
        assert(self.paths@[i]@ == self.entries@[i].1@);
    }

    /// Law: every open handle is below the next one to be handed out, so a
    /// newly handed-out handle is never one that is open.
    pub proof fn law_open_handles_are_older(&self, fh: u64)
        requires
            self.wf(),
            self.open_view().contains_key(fh),
        ensures
            fh < self.next_handle(),
    {
    }

    /// A step that keeps the inode table and settings, moves handles only
    /// forward and keeps used-up handles used up, leads on.
    proof fn lemma_leads_to_same_table(&self, later: &Self)
        requires
            self.same_tables_and_settings(later),
            self.next_handle() <= later.next_handle(),
            forall|h: u64| self.is_retired(h) ==> #[trigger] later.is_retired(h),
        ensures
            self.leads_to(later),
    {
        assert(later.inodes().subrange(0, self.inodes().len() as int) =~= self.inodes());
    }

    /// A step that gives paths `ps` inodes in turn and keeps handles and
    /// settings leads on.
    proof fn lemma_leads_to_with_paths(&self, later: &Self, ps: Seq<Seq<char>>)
        requires
            later.inodes() == with_paths(self.inodes(), ps),
            self.same_settings_and_handles(later),
        ensures
            self.leads_to(later),
    {
        law_listing_keeps_inodes(self.inodes(), ps, Seq::<char>::empty());
        assert forall|k: Seq<char>| #![trigger self.ino_of_key(k)] self.ino_of_key(k) is Some implies later.ino_of_key(k)
            == self.ino_of_key(k) by {
            law_listing_keeps_inodes(self.inodes(), ps, k);
        }
    }

    /// A step that gives path `p` an inode and keeps handles and settings
    /// leads on.
    proof fn lemma_leads_to_with_path(&self, later: &Self, p: Seq<char>)
        requires
            later.inodes() == with_path(self.inodes(), p),
            self.same_settings_and_handles(later),
        ensures
            self.leads_to(later),
    {
        let ps = seq![p];
        assert(ps.drop_last() =~= Seq::<Seq<char>>::empty());
        assert(with_paths(self.inodes(), ps) == with_path(with_paths(self.inodes(), Seq::<Seq<char>>::empty()), p));
        self.lemma_leads_to_with_paths(later, ps);
    }

    /// Law: a state leads to itself.
    pub proof fn law_leads_to_itself(&self)
        ensures
            self.leads_to(self),
    {
        assert(self.inodes().subrange(0, self.inodes().len() as int) =~= self.inodes());
    }

    /// Law: leading to is transitive, so what every operation keeps is kept
    /// across any sequence of operations.
    pub proof fn law_leads_to_chains(&self, mid: &Self, last: &Self)
        requires
            self.leads_to(mid),
            mid.leads_to(last),
        ensures
            self.leads_to(last),
    {
        let n = self.inodes().len() as int;
        assert(last.inodes().subrange(0, n) =~= last.inodes().subrange(0, mid.inodes().len() as int).subrange(0, n));
        assert forall|k: Seq<char>| #![trigger self.ino_of_key(k)] self.ino_of_key(k) is Some implies last.ino_of_key(k)
            == self.ino_of_key(k) by {
            assert(mid.ino_of_key(k) == self.ino_of_key(k));
        }
        assert forall|h: u64| #![trigger self.is_retired(h)] self.is_retired(h) implies last.is_retired(h) by {
            assert(mid.is_retired(h));
        }
    }

    /// Law: listing and lookup agree across any later calls. Once a path has
    /// an inode in one state, every state that follows gives the path that
    /// same inode, and a lookup there (which gives a known path its inode)
    /// adds nothing to the table.
    pub proof fn law_inode_survives_later_calls(&self, later: &Self, p: Seq<char>, ino: u64)
        requires
            self.ino_of_path(p) == Some(ino),
            self.leads_to(later),
        ensures
            later.ino_of_path(p) == Some(ino),
            with_path(later.inodes(), p) == later.inodes(),
    {
        assert(self.ino_of_key(normalized(p)) is Some);
    }

    /// Law: a released handle reads as not open in every state that
    /// follows, whatever calls come between.
    pub proof fn law_released_handle_stays_closed(&self, later: &Self, fh: u64)
        requires
            self.is_retired(fh),
            self.leads_to(later),
        ensures
            !later.open_view().contains_key(fh),
    {
        assert(later.is_retired(fh));
    }

    /// Law: a used-up handle reads as not open; so does one never handed
    /// out.
    pub proof fn law_retired_handle_is_not_open(&self, fh: u64)
        requires
            self.wf(),
            self.is_retired(fh) || fh >= self.next_handle(),
        ensures
            !self.open_view().contains_key(fh),
    {
    }

    /// Law: the inode that the table gives a path leads back to the same
    /// path, component by component.
    pub proof fn law_ino_of_path_reads_back(&self, p: Seq<char>)
        requires
            self.wf(),
        ensures
            self.ino_of_path(p) matches Some(ino) ==> (self.path_of_ino(ino) matches Some(q) && normalized(q)
                == normalized(p)),
    {
        lemma_latest_ino(self.key_table(), normalized(p));
    }

    /// Law: paths that are the same, component by component, get the same
    /// inode.
    pub proof fn law_same_path_same_inode(&self, p: Seq<char>, q: Seq<char>)
        requires
            normalized(p) == normalized(q),
        ensures
            self.ino_of_path(p) == self.ino_of_path(q),
    {
    }
}

} // verus!
