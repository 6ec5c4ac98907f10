//! Files as the file system hands them out: regular files and directories
//! over on-disk inodes, open-file handles with a seek position, and the
//! operations on a directory's entries.
use vstd::prelude::*;
use crate::constants::{DIR_ENTRY_SIZE, INODE_SIZE, LIST_SIZE};
use crate::directory::{dir_bytes, encode_entries};
use crate::disk_inode::Inode;
use crate::layout::{Chunk, blocks_touched, chunk_at, plan_fits};

verus! {

/// A file: a regular file, a directory, or nothing.
pub enum File {
    DataFile(Inode),
    Directory(DirectoryContent),
    EmptyFile,
}

/// A directory: its inode and, once read from disk, its entries as
/// (name, file) pairs.
pub struct DirectoryContent {
    pub entries: Option<Vec<(Vec<u8>, File)>>,
    pub inode: Inode,
}

/// Where a seek counts from.
pub enum Whence {
    SeekSet,
    SeekCur,
    SeekEnd,
}

/// An open file and its position.
pub struct FileHandle {
    file: File,
    seek: usize,
}

/// Some entry of `s` is named `name`.
pub open spec fn has_name<T>(s: Seq<(Vec<u8>, T)>, name: Seq<u8>) -> bool {
    exists|k: int| 0 <= k < s.len() && (#[trigger] s[k]).0@ == name
}

/// No two entries of `s` have the same name.
pub open spec fn unique_names<T>(s: Seq<(Vec<u8>, T)>) -> bool {
    forall|i: int, j: int| 0 <= i < j < s.len() ==> (#[trigger] s[i]).0@ != (#[trigger] s[j]).0@
}

/// The position of the entry of `s` named `name`.
pub open spec fn name_index<T>(s: Seq<(Vec<u8>, T)>, name: Seq<u8>) -> int {
    choose|k: int| 0 <= k < s.len() && (#[trigger] s[k]).0@ == name
}

/// `s` with `file` stored under `name`: it replaces the entry of that name,
/// or comes last when there is none.
pub open spec fn put_entry<T>(s: Seq<(Vec<u8>, T)>, name: Vec<u8>, file: T) -> Seq<(Vec<u8>, T)> {
    if has_name(s, name@) {
        s.update(name_index(s, name@), (name, file))
    } else {
        s.push((name, file))
    }
}

/// `s` with the entry named `name`, if any, taken out.
pub open spec fn drop_entry<T>(s: Seq<(Vec<u8>, T)>, name: Seq<u8>) -> Seq<(Vec<u8>, T)> {
    if has_name(s, name) {
        s.remove(name_index(s, name))
    } else {
        s
    }
}

/// `s` with every entry of `items` stored, in order.
pub open spec fn put_all<T>(s: Seq<(Vec<u8>, T)>, items: Seq<(Vec<u8>, T)>) -> Seq<(Vec<u8>, T)>
    decreases items.len(),
{
    if items.len() == 0 {
        s
    } else {
        let rest = put_all(s, items.drop_last());
        put_entry(rest, items.last().0, items.last().1)
    }
}

/// The inode number of a regular file or a directory.
pub open spec fn inum_of(f: File) -> u64 {
    match f {
        File::DataFile(inode) => inode.spec_inum() as u64,
        File::Directory(dc) => dc.inode.spec_inum() as u64,
        File::EmptyFile => 0,
    }
}

/// Whether `a` and `b` hold the same bytes.
pub fn name_eq(a: &[u8], b: &[u8]) -> (r: bool)
    ensures
        r == (a@ == b@),
{
    if a.len() != b.len() {
        return false;
    }
    let mut k: usize = 0;
    while k < a.len()
        invariant
            a@.len() == b@.len(),
            k <= a@.len(),
            forall|j: int| 0 <= j < k ==> a@[j] == b@[j],
        decreases a@.len() - k,
    {
        if a[k] != b[k] {
            return false;
        }
        k = k + 1;
    }
    assert(a@ =~= b@);
    true
}

/// The position of the first entry of `entries` named `name`.
fn find_name(entries: &Vec<(Vec<u8>, File)>, name: &[u8]) -> (r: Option<usize>)
    ensures
        match r {
            Some(k) => k < entries@.len() && entries@[k as int].0@ == name@,
            None => !has_name(entries@, name@),
        },
{
    let mut k: usize = 0;
    while k < entries.len()
        invariant
            k <= entries@.len(),
            forall|j: int| 0 <= j < k ==> (#[trigger] entries@[j]).0@ != name@,
        decreases entries@.len() - k,
    {
        if name_eq(entries[k].0.as_slice(), name) {
            return Some(k);
        }
        k = k + 1;
    }
    None
}

proof fn lemma_name_index<T>(s: Seq<(Vec<u8>, T)>, name: Seq<u8>, k: int)
    requires
        unique_names(s),
        0 <= k < s.len(),
        s[k].0@ == name,
    ensures
        has_name(s, name),
        name_index(s, name) == k,
{
    assert(has_name(s, name));
    let c = name_index(s, name);
    if c != k {
        if c < k {
            assert(s[c].0@ != s[k].0@);
        } else {
            assert(s[k].0@ != s[c].0@);
        }
    }
}

/// Stores `file` under `name` in `v`, replacing the entry of that name.
fn put_into(v: &mut Vec<(Vec<u8>, File)>, name: Vec<u8>, file: File)
    requires
        unique_names(old(v)@),
    ensures
        final(v)@ == put_entry(old(v)@, name, file),
        unique_names(final(v)@),
{
    let ghost nm = name;
    let ghost f = file;
    match find_name(v, name.as_slice()) {
        Some(k) => {
            proof {
                lemma_name_index(v@, nm@, k as int);
            }
            v[k] = (name, file);
            assert(v@ == old(v)@.update(k as int, (nm, f)));
        },
        None => {
            v.push((name, file));
        },
    }
}

impl File {
    /// The inode of a directory.
    pub fn get_dir_inode(&self) -> (inode: Inode)
        requires
            self is Directory,
        ensures
            inode == self->Directory_0.inode,
    {
        match self {
            File::Directory(dir_content) => dir_content.inode,
            _ => {
                proof {
                    assert(false);
                }
                Inode::new(0, 0)
            },
        }
    }

    /// The inode of a regular file.
    pub fn get_inode(&self) -> (inode: Inode)
        requires
            self is DataFile,
        ensures
            inode == self->DataFile_0,
    {
        match self {
            File::DataFile(inode) => *inode,
            _ => {
                proof {
                    assert(false);
                }
                Inode::new(0, 0)
            },
        }
    }
}

impl Inode {
    /// The file that inode `inum` describes, from its record at
    /// `blk_offset` of `block`: a directory whose entries are not yet read,
    /// whatever type the record gives.
    pub fn read_file_from_inum(inum: usize, block: &[u8], blk_offset: usize) -> (f: File)
        requires
            blk_offset + INODE_SIZE <= block.len(),
        ensures
            f == File::Directory(
                DirectoryContent { entries: None, inode: Inode::decoded(inum, block@, blk_offset as int) },
            ),
    {
        let mut inode = Inode::new(0, inum);
        inode.read_inode(block, blk_offset);
        File::Directory(DirectoryContent { entries: None, inode: inode })
    }
}

/// The entries in memory, or none.
pub open spec fn in_memory<T>(entries: Option<Seq<(Vec<u8>, T)>>) -> Seq<(Vec<u8>, T)> {
    match entries {
        Some(e) => e,
        None => Seq::empty(),
    }
}

/// The entries that a directory works on: those in memory, or, when none
/// have been read yet, the entries read from disk, `read`, stored in order.
pub open spec fn current_entries<T>(entries: Option<Seq<(Vec<u8>, T)>>, read: Seq<(Vec<u8>, T)>) -> Seq<(Vec<u8>, T)> {
    match entries {
        Some(e) => e,
        None => put_all(Seq::empty(), read),
    }
}

/// The entries in memory, if any, have distinct names.
pub open spec fn keyed<T>(entries: Option<Seq<(Vec<u8>, T)>>) -> bool {
    entries matches Some(e) ==> unique_names(e)
}

/// The position of the last item of `items` named `name`; -1 when there is
/// none.
pub open spec fn last_named<T>(items: Seq<(Vec<u8>, T)>, name: Seq<u8>) -> int
    decreases items.len(),
{
    if items.len() == 0 {
        -1
    } else if items.last().0@ == name {
        items.len() - 1
    } else {
        last_named(items.drop_last(), name)
    }
}

/// The operations on a directory's entries. A directory reads its entries
/// from disk before it first looks them up or changes them, and gives back
/// the directory data to write to disk after a change.
pub trait DirectoryHandle: Sized {
    /// This is a directory.
    spec fn is_directory(&self) -> bool;

    /// The entries of a directory, once read from disk; none before, and
    /// none for anything but a directory.
    spec fn entries(&self) -> Option<Seq<(Vec<u8>, Self)>>;

    /// The inode number that a directory record stores for this file.
    spec fn record_inum(&self) -> u64;

    /// This file can be stored in a directory record.
    spec fn storable(&self) -> bool;

    /// Whether this is a directory.
    fn is_dir(&self) -> (b: bool)
        ensures
            b == self.is_directory(),
    ;

    /// Stores `file` under `name`, replacing the entry of that name, and
    /// returns the directory data to write back. The entries are first read
    /// from `read`, the entries on disk, where none are in memory.
    fn insert(&mut self, name: Vec<u8>, file: Self, read: Vec<(Vec<u8>, Self)>) -> (data: Vec<u8>)
        requires
            old(self).is_directory(),
            keyed(old(self).entries()),
            file.storable(),
            ({
                let cur = current_entries(old(self).entries(), read@);
                &&& forall|i: int| 0 <= i < cur.len() ==> (#[trigger] cur[i]).1.storable()
                &&& DIR_ENTRY_SIZE * (cur.len() + 1) <= usize::MAX
            }),
        ensures
            ({
                let after = put_entry(current_entries(old(self).entries(), read@), name, file);
                &&& final(self).is_directory()
                &&& final(self).entries() == Some(after)
                &&& unique_names(after)
                &&& data@ == dir_bytes(after.map_values(|e: (Vec<u8>, Self)| (e.0@, e.1.record_inum())))
            }),
    ;

    /// Takes out the entry named `name`, if any, and returns the directory
    /// data to write back. The entries are first read from `read`, the
    /// entries on disk, where none are in memory.
    fn remove(&mut self, name: &[u8], read: Vec<(Vec<u8>, Self)>) -> (data: Vec<u8>)
        requires
            old(self).is_directory(),
            keyed(old(self).entries()),
            ({
                let cur = current_entries(old(self).entries(), read@);
                &&& forall|i: int| 0 <= i < cur.len() ==> (#[trigger] cur[i]).1.storable()
                &&& DIR_ENTRY_SIZE * cur.len() <= usize::MAX
            }),
        ensures
            ({
                let after = drop_entry(current_entries(old(self).entries(), read@), name@);
                &&& final(self).is_directory()
                &&& final(self).entries() == Some(after)
                &&& unique_names(after)
                &&& data@ == dir_bytes(after.map_values(|e: (Vec<u8>, Self)| (e.0@, e.1.record_inum())))
            }),
    ;

    /// The file named `name`, among the entries in memory or, where none
    /// are, among the entries on disk, `read`.
    fn get<'a>(&'a self, name: &[u8], read: &'a Vec<(Vec<u8>, Self)>) -> (f: Option<&'a Self>)
        requires
            self.is_directory(),
            keyed(self.entries()),
            has_name(current_entries(self.entries(), read@), name@),
        ensures
            ({
                let cur = current_entries(self.entries(), read@);
                f == Some(&cur[name_index(cur, name@)].1)
            }),
    ;

    /// Adds the entries read from disk, as (name, file) pairs, to the
    /// entries in memory.
    fn read_dir(&mut self, read: Vec<(Vec<u8>, Self)>)
        requires
            old(self).is_directory(),
            keyed(old(self).entries()),
        ensures
            final(self).is_directory(),
            final(self).entries() == Some(put_all(in_memory(old(self).entries()), read@)),
            unique_names(put_all(in_memory(old(self).entries()), read@)),
    ;

    /// The directory data to write to disk for the entries in memory.
    fn write_dir(&self) -> (data: Vec<u8>)
        requires
            self.is_directory(),
            ({
                let cur = in_memory(self.entries());
                &&& forall|i: int| 0 <= i < cur.len() ==> (#[trigger] cur[i]).1.storable()
                &&& DIR_ENTRY_SIZE * cur.len() <= usize::MAX
            }),
        ensures
            data@ == dir_bytes(
                in_memory(self.entries()).map_values(|e: (Vec<u8>, Self)| (e.0@, e.1.record_inum())),
            ),
    ;
}

/// The (name, inode number) records stored on disk for `entries`.
pub open spec fn entry_records(entries: Seq<(Vec<u8>, File)>) -> Seq<(Seq<u8>, u64)> {
    entries.map_values(|e: (Vec<u8>, File)| (e.0@, inum_of(e.1)))
}

/// Every entry names a regular file or a directory, and a record for each
/// fits in memory.
pub open spec fn writable(entries: Seq<(Vec<u8>, File)>) -> bool {
    &&& forall|i: int| 0 <= i < entries.len() ==> !((#[trigger] entries[i]).1 is EmptyFile)
    &&& DIR_ENTRY_SIZE * entries.len() <= usize::MAX
}

proof fn lemma_put_entry_writable(s: Seq<(Vec<u8>, File)>, name: Vec<u8>, file: File)
    requires
        writable(s),
        !(file is EmptyFile),
        DIR_ENTRY_SIZE * (s.len() + 1) <= usize::MAX,
    ensures
        writable(put_entry(s, name, file)),
{
    let p = put_entry(s, name, file);
    assert forall|i: int| 0 <= i < p.len() implies !((#[trigger] p[i]).1 is EmptyFile) by {
        if i < s.len() && !(has_name(s, name@) && i == name_index(s, name@)) {
            assert(p[i] == s[i]);
        }
    }
}

proof fn lemma_drop_entry_writable(s: Seq<(Vec<u8>, File)>, name: Seq<u8>)
    requires
        writable(s),
    ensures
        writable(drop_entry(s, name)),
{
    let p = drop_entry(s, name);
    if has_name(s, name) {
        let k = name_index(s, name);
        assert forall|i: int| 0 <= i < p.len() implies !((#[trigger] p[i]).1 is EmptyFile) by {
            if i < k {
                assert(p[i] == s[i]);
            } else {
                assert(p[i] == s[i + 1]);
            }
        }
    }
}

proof fn lemma_put_all_lookup<T>(s: Seq<(Vec<u8>, T)>, items: Seq<(Vec<u8>, T)>, name: Seq<u8>)
    requires
        unique_names(s),
    ensures
        unique_names(put_all(s, items)),
        -1 <= last_named(items, name) < items.len(),
        last_named(items, name) >= 0 ==> has_name(put_all(s, items), name)
            && put_all(s, items)[name_index(put_all(s, items), name)].1 == items[last_named(items, name)].1,
        last_named(items, name) < 0 ==> has_name(put_all(s, items), name) == has_name(s, name),
    decreases items.len(),
{
    if items.len() > 0 {
        let d = items.drop_last();
        let last = items.last();
        lemma_put_all_lookup(s, d, name);
        let rest = put_all(s, d);
        if last.0@ == name {
            assert(name.push(0u8).len() == name.len() + 1);
            assert(name.push(0u8) != last.0@);
            lemma_directory_entries(rest, last.0, last.1, name.push(0u8));
        } else {
            lemma_directory_entries(rest, last.0, last.1, name);
            if last_named(d, name) >= 0 {
                assert(items[last_named(d, name)] == d[last_named(d, name)]);
            }
        }
    }
}

/// The position of the last item of `items` named `name`.
fn find_last_name(items: &Vec<(Vec<u8>, File)>, name: &[u8]) -> (r: Option<usize>)
    ensures
        match r {
            Some(k) => k == last_named(items@, name@),
            None => last_named(items@, name@) == -1,
        },
{
    let mut k: usize = items.len();
    proof {
        assert(items@.subrange(0, k as int) =~= items@);
    }
    while k > 0
        invariant
            k <= items@.len(),
            last_named(items@, name@) == last_named(items@.subrange(0, k as int), name@),
        decreases k,
    {
        proof {
            assert(items@.subrange(0, k as int).drop_last() =~= items@.subrange(0, k - 1));
        }
        if name_eq(items[k - 1].0.as_slice(), name) {
            return Some(k - 1);
        }
        k = k - 1;
    }
    None
}

impl DirectoryHandle for File {
    open spec fn is_directory(&self) -> bool {
        *self is Directory
    }

    open spec fn entries(&self) -> Option<Seq<(Vec<u8>, File)>> {
        match *self {
            File::Directory(dc) => match dc.entries {
                Some(v) => Some(v@),
                None => None,
            },
            _ => None,
        }
    }

    open spec fn record_inum(&self) -> u64 {
        inum_of(*self)
    }

    open spec fn storable(&self) -> bool {
        !(*self is EmptyFile)
    }

    fn is_dir(&self) -> (b: bool) {
        match self {
            File::Directory(_) => true,
            _ => false,
        }
    }

    fn insert(&mut self, name: Vec<u8>, file: File, read: Vec<(Vec<u8>, File)>) -> (data: Vec<u8>)
        ensures
            final(self)->Directory_0.inode == old(self)->Directory_0.inode,
    {
        let loaded = match self {
            File::Directory(dc) => dc.entries.is_some(),
            _ => false,
        };
        if !loaded {
            self.read_dir(read);
        }
        let ghost cur = in_memory(self.entries());
        let ghost nm = name;
        let ghost f = file;
        proof {
            lemma_put_entry_writable(cur, nm, f);
        }
        match self {
            File::Directory(dc) => match &mut dc.entries {
                Some(v) => put_into(v, name, file),
                None => {},
            },
            _ => {},
        }
        self.write_dir()
    }

    fn remove(&mut self, name: &[u8], read: Vec<(Vec<u8>, File)>) -> (data: Vec<u8>)
        ensures
            final(self)->Directory_0.inode == old(self)->Directory_0.inode,
    {
        let loaded = match self {
            File::Directory(dc) => dc.entries.is_some(),
            _ => false,
        };
        if !loaded {
            self.read_dir(read);
        }
        let ghost cur = in_memory(self.entries());
        proof {
            lemma_drop_entry_writable(cur, name@);
        }
        match self {
            File::Directory(dc) => match &mut dc.entries {
                Some(v) => {
                    let ghost before = v@;
                    match find_name(v, name) {
                        Some(k) => {
                            proof {
                                lemma_name_index(before, name@, k as int);
                            }
                            let _gone = v.remove(k);
                            assert forall|i: int, j: int| 0 <= i < j < v@.len() implies (
                            #[trigger] v@[i]).0@ != (#[trigger] v@[j]).0@ by {
                                let oi = if i < k { i } else { i + 1 };
                                let oj = if j < k { j } else { j + 1 };
                                assert(v@[i] == before[oi]);
                                assert(v@[j] == before[oj]);
                            }
                        },
                        None => {},
                    }
                },
                None => {},
            },
            _ => {},
        }
        self.write_dir()
    }

    fn get<'a>(&'a self, name: &[u8], read: &'a Vec<(Vec<u8>, File)>) -> (f: Option<&'a File>) {
        match self {
            File::Directory(dc) => match &dc.entries {
                Some(v) => match find_name(v, name) {
                    Some(k) => {
                        proof {
                            lemma_name_index(v@, name@, k as int);
                        }
                        Some(&v[k].1)
                    },
                    None => None,
                },
                None => match find_last_name(read, name) {
                    Some(k) => {
                        proof {
                            lemma_put_all_lookup(Seq::<(Vec<u8>, File)>::empty(), read@, name@);
                        }
                        Some(&read[k].1)
                    },
                    None => {
                        proof {
                            lemma_put_all_lookup(Seq::<(Vec<u8>, File)>::empty(), read@, name@);
                        }
                        None
                    },
                },
            },
            _ => None,
        }
    }

    fn read_dir(&mut self, read: Vec<(Vec<u8>, File)>)
        ensures
            final(self)->Directory_0.inode == old(self)->Directory_0.inode,
    {
        let mut read = read;
        match self {
            File::Directory(dc) => {
                let mut v = match dc.entries.take() {
                    Some(v) => v,
                    None => Vec::new(),
                };
                let ghost start = v@;
                let ghost items = read@;
                let mut i: usize = 0;
                let n = read.len();
                while i < n
                    invariant
                        n == items.len(),
                        i <= n,
                        read@ == items.subrange(i as int, n as int),
                        v@ == put_all(start, items.subrange(0, i as int)),
                        unique_names(v@),
                    decreases n - i,
                {
                    let (name, file) = read.remove(0);
                    proof {
                        assert(items.subrange(0, i + 1).drop_last() =~= items.subrange(0, i as int));
                        assert(items[i as int] == (name, file));
                    }
                    put_into(&mut v, name, file);
                    i = i + 1;
                    assert(read@ =~= items.subrange(i as int, n as int));
                }
                assert(items.subrange(0, n as int) =~= items);
                dc.entries = Some(v);
            },
            _ => {},
        }
    }

    fn write_dir(&self) -> (data: Vec<u8>) {
        let ghost es = in_memory(self.entries());
        let mut records: Vec<(Vec<u8>, u64)> = Vec::new();
        match self {
            File::Directory(dc) => match &dc.entries {
                Some(v) => {
                    let mut i: usize = 0;
                    while i < v.len()
                        invariant
                            es == v@,
                            i <= v@.len(),
                            forall|j: int| 0 <= j < es.len() ==> !((#[trigger] es[j]).1 is EmptyFile),
                            records@.len() == i,
                            forall|j: int|
                                0 <= j < i ==> (#[trigger] records@[j]).0@ == es[j].0@ && records@[j].1
                                    == inum_of(es[j].1),
                        decreases v@.len() - i,
                    {
                        let name = vstd::slice::slice_to_vec(v[i].0.as_slice());
                        let inum = match &v[i].1 {
                            File::DataFile(inode) => inode.number(),
                            File::Directory(dirc) => dirc.inode.number(),
                            File::EmptyFile => {
                                proof {
                                    assert(false);
                                }
                                0
                            },
                        };
                        records.push((name, inum as u64));
                        i = i + 1;
                    }
                },
                None => {},
            },
            _ => {},
        }
        assert(records@.map_values(|e: (Vec<u8>, u64)| (e.0@, e.1)) =~= entry_records(es));
        encode_entries(&records)
    }
}

impl FileHandle {
    /// The open file.
    pub closed spec fn spec_file(&self) -> File {
        self.file
    }

    /// The position of the next read or write.
    pub closed spec fn spec_seek(&self) -> usize {
        self.seek
    }

    /// A handle on `file`, positioned at its start.
    pub fn new(file: File) -> (h: FileHandle)
        ensures
            h.spec_file() == file,
            h.spec_seek() == 0,
    {
        FileHandle { file: file, seek: 0 }
    }

    /// Reads `len` bytes of a regular file at the handle's position: returns
    /// the pieces, one per block of `blk_size` bytes, to fetch from the
    /// file's pages, and moves the position past them.
    pub fn read(&mut self, len: usize, blk_size: usize) -> (plan: Vec<Chunk>)
        requires
            old(self).spec_file() is DataFile,
            plan_fits(old(self).spec_seek() as int, len as int, blk_size as int),
            blocks_touched(old(self).spec_seek() as int, len as int, blk_size as int) > 0 ==> (
            old(self).spec_seek() as int / (blk_size as int) + blocks_touched(
                old(self).spec_seek() as int,
                len as int,
                blk_size as int,
            ) - 1) * blk_size < old(self).spec_file()->DataFile_0.spec_size(),
        ensures
            plan@.len() == blocks_touched(old(self).spec_seek() as int, len as int, blk_size as int),
            forall|i: int|
                0 <= i < plan@.len() ==> #[trigger] plan@[i] == chunk_at(
                    old(self).spec_seek() as int,
                    len as int,
                    blk_size as int,
                    i,
                ),
            final(self).spec_seek() == old(self).spec_seek() + len,
            final(self).spec_file() == old(self).spec_file(),
    {
        let offset = self.seek;
        let inode = self.file.get_inode();
        let plan = inode.read(offset, len, blk_size);
        self.seek = offset + len;
        plan
    }

    /// Writes `len` bytes to a regular file at the handle's position:
    /// returns the pieces, one per block of `blk_size` bytes, to store in the
    /// file's pages, grows the file to cover them, and moves the position
    /// past them.
    pub fn write(&mut self, len: usize, blk_size: usize) -> (plan: Vec<Chunk>)
        requires
            old(self).spec_file() is DataFile,
            plan_fits(old(self).spec_seek() as int, len as int, blk_size as int),
            blocks_touched(old(self).spec_seek() as int, len as int, blk_size as int) > 0 ==> old(
                self,
            ).spec_seek() as int / (blk_size as int) + blocks_touched(
                old(self).spec_seek() as int,
                len as int,
                blk_size as int,
            ) <= LIST_SIZE + 1,
        ensures
            plan@.len() == blocks_touched(old(self).spec_seek() as int, len as int, blk_size as int),
            forall|i: int|
                0 <= i < plan@.len() ==> #[trigger] plan@[i] == chunk_at(
                    old(self).spec_seek() as int,
                    len as int,
                    blk_size as int,
                    i,
                ),
            final(self).spec_seek() == old(self).spec_seek() + len,
            final(self).spec_file() is DataFile,
            ({
                let before = old(self).spec_file()->DataFile_0;
                let after = final(self).spec_file()->DataFile_0;
                &&& after.spec_size() == if before.spec_size() < old(self).spec_seek() + len {
                    (old(self).spec_seek() + len) as usize
                } else {
                    before.spec_size()
                }
                &&& after.spec_inum() == before.spec_inum()
                &&& after.spec_dirtype() == before.spec_dirtype()
                &&& after.single_block() == before.single_block()
                &&& after.double_block() == before.double_block()
            }),
    {
        let offset = self.seek;
        let mut inode = self.file.get_inode();
        let plan = inode.write(offset, len, blk_size);
        self.file = File::DataFile(inode);
        self.seek = offset + len;
        plan
    }

}

/// Law of `DirectoryHandle::insert`, `get` and `remove` on a directory:
/// after `file` is stored under `name`, the name is listed, looking it up
/// gives `file`, names stay distinct, and every other name is listed (and
/// looks up) exactly as before; after `name` is removed it is no longer
/// listed and every other name is listed as before.
pub proof fn lemma_directory_entries<T>(s: Seq<(Vec<u8>, T)>, name: Vec<u8>, file: T, other: Seq<u8>)
    requires
        unique_names(s),
        other != name@,
    ensures
        unique_names(put_entry(s, name, file)),
        has_name(put_entry(s, name, file), name@),
        put_entry(s, name, file)[name_index(put_entry(s, name, file), name@)].1 == file,
        has_name(put_entry(s, name, file), other) == has_name(s, other),
        has_name(s, other) ==> put_entry(s, name, file)[name_index(put_entry(s, name, file), other)]
            == s[name_index(s, other)],
        unique_names(drop_entry(s, name@)),
        !has_name(drop_entry(s, name@), name@),
        has_name(drop_entry(s, name@), other) == has_name(s, other),
{
    let p = put_entry(s, name, file);
    if has_name(s, name@) {
        let k = name_index(s, name@);
        assert(p == s.update(k, (name, file)));
        assert forall|i: int, j: int| 0 <= i < j < p.len() implies (#[trigger] p[i]).0@ != (
        #[trigger] p[j]).0@ by {
            if i == k {
                assert(s[j].0@ != s[k].0@);
            } else if j == k {
                assert(s[i].0@ != s[k].0@);
            } else {
                assert(s[i].0@ != s[j].0@);
            }
        }
        lemma_name_index(p, name@, k);
        if has_name(s, other) {
            let m = name_index(s, other);
            assert(m != k);
            lemma_name_index(p, other, m);
        }
        if has_name(p, other) {
            let m = choose|m: int| 0 <= m < p.len() && (#[trigger] p[m]).0@ == other;
            assert(m != k);
            assert(s[m].0@ == other);
        }
    } else {
        assert(p == s.push((name, file)));
        assert forall|i: int, j: int| 0 <= i < j < p.len() implies (#[trigger] p[i]).0@ != (
        #[trigger] p[j]).0@ by {
            if j == s.len() {
                assert(s[i].0@ != name@);
            } else {
                assert(s[i].0@ != s[j].0@);
            }
        }
        lemma_name_index(p, name@, s.len() as int);
        if has_name(s, other) {
            let m = name_index(s, other);
            assert(p[m] == s[m]);
            lemma_name_index(p, other, m);
        }
        if has_name(p, other) {
            let m = choose|m: int| 0 <= m < p.len() && (#[trigger] p[m]).0@ == other;
            assert(m != s.len());
            assert(s[m].0@ == other);
        }
    }
    let d = drop_entry(s, name@);
    if has_name(s, name@) {
        let k = name_index(s, name@);
        assert(d == s.remove(k));
        assert forall|i: int, j: int| 0 <= i < j < d.len() implies (#[trigger] d[i]).0@ != (
        #[trigger] d[j]).0@ by {
            let oi = if i < k { i } else { i + 1 };
            let oj = if j < k { j } else { j + 1 };
            assert(d[i] == s[oi]);
            assert(d[j] == s[oj]);
        }
        if has_name(d, name@) {
            let m = choose|m: int| 0 <= m < d.len() && (#[trigger] d[m]).0@ == name@;
            let om = if m < k { m } else { m + 1 };
            assert(d[m] == s[om]);
            assert(s[om].0@ != s[k].0@);
        }
        if has_name(s, other) {
            let m = name_index(s, other);
            assert(m != k);
            let dm = if m < k { m } else { m - 1 };
            assert(d[dm] == s[m]);
        }
        if has_name(d, other) {
            let m = choose|m: int| 0 <= m < d.len() && (#[trigger] d[m]).0@ == other;
            let om = if m < k { m } else { m + 1 };
            assert(d[m] == s[om]);
        }
    }
}


/// Law of reading a directory: the entries read from disk all carry the
/// name of the first record; merging them into the entries in memory
/// (`DirectoryHandle::read_dir`) lists that name with the last file read,
/// keeps names distinct, and lists every other name, with its file, as
/// before.
pub proof fn lemma_read_dir_merge<T>(s: Seq<(Vec<u8>, T)>, items: Seq<(Vec<u8>, T)>, name: Seq<u8>, other: Seq<u8>)
    requires
        unique_names(s),
        items.len() > 0,
        forall|i: int| 0 <= i < items.len() ==> (#[trigger] items[i]).0@ == name,
        other != name,
    ensures
        unique_names(put_all(s, items)),
        has_name(put_all(s, items), name),
        put_all(s, items)[name_index(put_all(s, items), name)].1 == items.last().1,
        has_name(put_all(s, items), other) == has_name(s, other),
        has_name(s, other) ==> put_all(s, items)[name_index(put_all(s, items), other)] == s[name_index(s, other)],
    decreases items.len(),
{
    let last = items.last();
    let rest = put_all(s, items.drop_last());
    assert(last.0@ == name);
    if items.len() == 1 {
        assert(items.drop_last().len() == 0);
        assert(rest == s);
        lemma_directory_entries(s, last.0, last.1, other);
    } else {
        assert forall|i: int| 0 <= i < items.drop_last().len() implies (#[trigger] items.drop_last()[i]).0@ == name by {
            assert(items.drop_last()[i] == items[i]);
        }
        lemma_read_dir_merge(s, items.drop_last(), name, other);
        lemma_directory_entries(rest, last.0, last.1, other);
    }
}

} // verus!
