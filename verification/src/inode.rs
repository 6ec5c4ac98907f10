//! An in-memory inode whose data lives in fixed-size pages, reached
//! through a singly-indirect list of pages and a doubly-indirect list of
//! page lists. Pages and page lists are allocated on first write.
use vstd::prelude::*;
use crate::layout::{ceil_div, spec_ceil_div};

verus! {

/// Bytes in one page of an inode.
pub const PAGE_SIZE: usize = 4096;

/// Entries in one page list.
pub const LIST_SIZE: usize = 256;

/// Pages an inode can reach: the singly-indirect list, then every list
/// of the doubly-indirect list.
pub const MAX_PAGES: usize = 65792;

/// The outside type `time::Timespec` (seconds and nanoseconds), carried
/// through unopened as the inode's timestamps.
#[verifier::external_type_specification]
#[verifier::external_body]
pub struct ExTimespec(time::Timespec);

/// Calls `time::get_time`, the wall-clock time of the moment of the call.
/// Nothing is promised of the value: it depends on the clock.
#[verifier::external_body]
fn current_time() -> (t: time::Timespec) {
    time::get_time()
}

/// A list of `LIST_SIZE` empty entries.
pub fn create_tlist<T>() -> (list: Vec<Option<T>>)
    ensures
        list@.len() == LIST_SIZE,
        forall|i: int| 0 <= i < LIST_SIZE ==> (#[trigger] list@[i]) is None,
{
    let mut list: Vec<Option<T>> = Vec::new();
    while list.len() < LIST_SIZE
        invariant
            list@.len() <= LIST_SIZE,
            forall|i: int| 0 <= i < list@.len() ==> (#[trigger] list@[i]) is None,
        decreases LIST_SIZE - list@.len(),
    {
        list.push(None);
    }
    list
}

/// The contents of an optional page.
pub open spec fn page_view(p: Option<Vec<u8>>) -> Option<Seq<u8>> {
    match p {
        Some(v) => Some(v@),
        None => None,
    }
}

/// An absent page or a page of `PAGE_SIZE` bytes.
pub open spec fn page_ok(p: Option<Vec<u8>>) -> bool {
    p matches Some(v) ==> v@.len() == PAGE_SIZE
}

/// A page list of `LIST_SIZE` entries, each absent or a full page.
pub open spec fn list_ok(l: Vec<Option<Vec<u8>>>) -> bool {
    &&& l@.len() == LIST_SIZE
    &&& forall|j: int| 0 <= j < LIST_SIZE ==> page_ok(#[trigger] l@[j])
}

/// A page of zero bytes.
pub open spec fn zero_page() -> Seq<u8> {
    Seq::new(PAGE_SIZE as nat, |k: int| 0u8)
}

/// The contents of a page, with an absent page read as zeros.
pub open spec fn page_or_zero(p: Option<Seq<u8>>) -> Seq<u8> {
    match p {
        Some(s) => s,
        None => zero_page(),
    }
}

/// The page that holds byte `pos`.
pub open spec fn page_of(pos: int) -> int {
    pos / PAGE_SIZE as int
}

/// The pages that a transfer of `len` bytes at `offset` acts on: it starts
/// at `page_of(offset)` and covers this many pages.
pub open spec fn pages_touched(offset: int, len: int) -> int {
    spec_ceil_div(offset % PAGE_SIZE as int + len, PAGE_SIZE as int)
}

/// Page `p` is one of the pages that a transfer of `len` bytes at `offset`
/// acts on.
pub open spec fn touches(offset: int, len: int, p: int) -> bool {
    page_of(offset) <= p < page_of(offset) + pages_touched(offset, len)
}

/// Page `p` after `data` is written at byte `offset`, given its contents
/// before (absent pages start as zeros).
pub open spec fn written_page(before: Option<Seq<u8>>, p: int, offset: int, data: Seq<u8>) -> Seq<u8> {
    Seq::new(
        PAGE_SIZE as nat,
        |k: int|
            {
                let pos = p * PAGE_SIZE as int + k;
                if offset <= pos < offset + data.len() {
                    data[pos - offset]
                } else {
                    page_or_zero(before)[k]
                }
            },
    )
}

/// `page` with bytes `[at, at + n)` replaced by `src[from..from + n]`.
pub open spec fn patch(page: Seq<u8>, at: int, src: Seq<u8>, from: int, n: int) -> Seq<u8> {
    Seq::new(
        page.len(),
        |k: int|
            if at <= k < at + n {
                src[from + k - at]
            } else {
                page[k]
            },
    )
}

/// Copies `src[from..from + n]` into `page` at `at`.
fn copy_into(page: &mut Vec<u8>, at: usize, src: &[u8], from: usize, n: usize)
    requires
        at + n <= old(page)@.len(),
        from + n <= src@.len(),
    ensures
        final(page)@ == patch(old(page)@, at as int, src@, from as int, n as int),
{
    let mut t: usize = 0;
    while t < n
        invariant
            t <= n,
            at + n <= page.len(),
            from + n <= src.len(),
            page@.len() == old(page)@.len(),
            forall|k: int|
                0 <= k < page@.len() ==> #[trigger] page@[k] == if at <= k < at + t {
                    src@[from + k - at]
                } else {
                    old(page)@[k]
                },
        decreases n - t,
    {
        page[at + t] = src[from + t];
        t = t + 1;
    }
    assert(page@ =~= patch(old(page)@, at as int, src@, from as int, n as int));
}

/// Copies `page[at..at + n]` into `dst` at `to`.
fn copy_from(dst: &mut [u8], to: usize, page: &Vec<u8>, at: usize, n: usize)
    requires
        at + n <= page@.len(),
        to + n <= old(dst)@.len(),
    ensures
        final(dst)@ == patch(old(dst)@, to as int, page@, at as int, n as int),
{
    let mut t: usize = 0;
    while t < n
        invariant
            t <= n,
            at + n <= page.len(),
            to + n <= dst.len(),
            dst@.len() == old(dst)@.len(),
            forall|k: int|
                0 <= k < dst@.len() ==> #[trigger] dst@[k] == if to <= k < to + t {
                    page@[at + k - to]
                } else {
                    old(dst)@[k]
                },
        decreases n - t,
    {
        dst[to + t] = page[at + t];
        t = t + 1;
    }
    assert(dst@ =~= patch(old(dst)@, to as int, page@, at as int, n as int));
}

/// An in-memory inode.
pub struct Inode {
    single: Vec<Option<Vec<u8>>>,
    double: Vec<Option<Vec<Option<Vec<u8>>>>>,
    size: usize,
    mod_time: time::Timespec,
    access_time: time::Timespec,
    create_time: time::Timespec,
}

impl Inode {
    /// The page lists have their fixed lengths and every page is full-sized.
    pub closed spec fn wf(&self) -> bool {
        &&& self.single@.len() == LIST_SIZE
        &&& self.double@.len() == LIST_SIZE
        &&& forall|i: int| 0 <= i < LIST_SIZE ==> page_ok(#[trigger] self.single@[i])
        &&& forall|s: int|
            0 <= s < LIST_SIZE ==> (#[trigger] self.double@[s] matches Some(l) ==> list_ok(l))
    }

    /// The contents of page `num`, if it has been allocated.
    pub closed spec fn page(&self, num: int) -> Option<Seq<u8>> {
        if 0 <= num < LIST_SIZE {
            page_view(self.single@[num])
        } else if LIST_SIZE <= num < MAX_PAGES {
            let d = num - LIST_SIZE;
            match self.double@[d / LIST_SIZE as int] {
                Some(l) => page_view(l@[d % LIST_SIZE as int]),
                None => None,
            }
        } else {
            None
        }
    }

    /// The file size in bytes.
    pub closed spec fn spec_size(&self) -> nat {
        self.size as nat
    }

    /// The creation time.
    pub closed spec fn created(&self) -> time::Timespec {
        self.create_time
    }

    /// The time of the last access.
    pub closed spec fn accessed(&self) -> time::Timespec {
        self.access_time
    }

    /// The time of the last modification.
    pub closed spec fn modified(&self) -> time::Timespec {
        self.mod_time
    }

    /// Byte `pos` of the file, reading an absent page as zeros.
    pub open spec fn byte(&self, pos: int) -> u8 {
        page_or_zero(self.page(page_of(pos)))[pos % PAGE_SIZE as int]
    }

    /// Page `p` after `data` is written at `offset`.
    pub open spec fn page_after_write(&self, offset: int, data: Seq<u8>, p: int) -> Option<Seq<u8>> {
        if touches(offset, data.len() as int, p) {
            Some(written_page(self.page(p), p, offset, data))
        } else {
            self.page(p)
        }
    }

    /// Every page that a transfer of `len` bytes at `offset` acts on is allocated.
    pub open spec fn readable(&self, offset: int, len: int) -> bool {
        forall|p: int| touches(offset, len, p) ==> (#[trigger] self.page(p)) is Some
    }

    /// A write of `len` bytes at `offset` fits the inode: its arithmetic
    /// stays within `usize` and every page it acts on (none for an empty
    /// write at a page boundary) exists.
    pub open spec fn write_fits(offset: int, len: int) -> bool {
        &&& offset % PAGE_SIZE as int + len + PAGE_SIZE <= usize::MAX
        &&& offset + len <= usize::MAX
        &&& pages_touched(offset, len) > 0 ==> page_of(offset) + pages_touched(offset, len) <= MAX_PAGES
    }


    /// An empty inode, created now.
    pub fn new() -> (inode: Inode)
        ensures
            inode.wf(),
            inode.spec_size() == 0,
            forall|p: int| (#[trigger] inode.page(p)) is None,
            inode.created() == inode.accessed(),
            inode.created() == inode.modified(),
    {
        let time_now = current_time();
        let single = create_tlist();
        let double = create_tlist();
        let inode = Inode {
            single,
            double,
            size: 0,
            mod_time: time_now,
            access_time: time_now,
            create_time: time_now,
        };
        assert forall|p: int| (#[trigger] inode.page(p)) is None by {
            if LIST_SIZE <= p < MAX_PAGES {
                let d = p - LIST_SIZE;
                assert(0 <= (d / (LIST_SIZE as int)) < LIST_SIZE);
            }
        }
        inode
    }

    /// Writes `src[from..from + n]` into page `num` at `at`, allocating the
    /// page (and its page list) first if absent.
    fn write_into_page(&mut self, num: usize, at: usize, src: &[u8], from: usize, n: usize)
        requires
            old(self).wf(),
            num < MAX_PAGES,
            at + n <= PAGE_SIZE,
            from + n <= src@.len(),
        ensures
            final(self).wf(),
            final(self).page(num as int) == Some(
                patch(page_or_zero(old(self).page(num as int)), at as int, src@, from as int, n as int),
            ),
            forall|q: int| q != num ==> #[trigger] final(self).page(q) == old(self).page(q),
            final(self).size == old(self).size,
            final(self).create_time == old(self).create_time,
            final(self).mod_time == old(self).mod_time,
            final(self).access_time == old(self).access_time,
    {
        if num < LIST_SIZE {
            let mut page = match self.single[num].take() {
                Some(p) => p,
                None => vec![0u8; PAGE_SIZE],
            };
            assert(page@ =~= page_or_zero(old(self).page(num as int)));
            copy_into(&mut page, at, src, from, n);
            self.single[num] = Some(page);
            assert forall|q: int| q != num implies #[trigger] self.page(q) == old(self).page(q) by {
                if 0 <= q < LIST_SIZE {
                    assert(self.single@[q] == old(self).single@[q]);
                }
            }
        } else {
            let d = num - LIST_SIZE;
            let slot = d / LIST_SIZE;
            let off = d % LIST_SIZE;
            let mut list = match self.double[slot].take() {
                Some(l) => l,
                None => create_tlist(),
            };
            let ghost list0 = list;
            let mut page = match list[off].take() {
                Some(p) => p,
                None => vec![0u8; PAGE_SIZE],
            };
            assert(page@ =~= page_or_zero(old(self).page(num as int)));
            copy_into(&mut page, at, src, from, n);
            list[off] = Some(page);
            self.double[slot] = Some(list);
            assert forall|q: int| q != num implies #[trigger] self.page(q) == old(self).page(q) by {
                if LIST_SIZE <= q < MAX_PAGES {
                    let dq = q - LIST_SIZE;
                    if dq / LIST_SIZE as int == slot as int {
                        assert(dq % LIST_SIZE as int != off as int);
                        assert(list@[dq % LIST_SIZE as int] == list0@[dq % LIST_SIZE as int]);
                    }
                }
            }
        }
    }

    /// Writes `data` at byte `offset`, allocating the pages it reaches, and
    /// returns the number of bytes written. The size grows to cover the
    /// write; the access and modification times become the current time.
    pub fn write(&mut self, offset: usize, data: &[u8]) -> (written: usize)
        requires
            old(self).wf(),
            Self::write_fits(offset as int, data@.len() as int),
        ensures
            final(self).wf(),
            written == data@.len(),
            forall|p: int|
                #[trigger] final(self).page(p) == old(self).page_after_write(offset as int, data@, p),
            final(self).spec_size() == if old(self).spec_size() < offset + data@.len() {
                (offset + data@.len()) as nat
            } else {
                old(self).spec_size()
            },
            final(self).created() == old(self).created(),
            final(self).accessed() == final(self).modified(),
    {
        let ghost len = data@.len() as int;
        let ghost bo0 = offset as int % PAGE_SIZE as int;
        let mut written: usize = 0;
        let mut block_offset = offset % PAGE_SIZE;
        let start = offset / PAGE_SIZE;
        let blocks_to_act_on = ceil_div(block_offset + data.len(), PAGE_SIZE);
        let mut i: usize = 0;
        while i < blocks_to_act_on
            invariant
                self.wf(),
                old(self).wf(),
                Self::write_fits(offset as int, len),
                len == data@.len(),
                bo0 == offset as int % PAGE_SIZE as int,
                start == page_of(offset as int),
                blocks_to_act_on == pages_touched(offset as int, len),
                blocks_to_act_on * PAGE_SIZE >= bo0 + len,
                bo0 + len > 0 ==> (blocks_to_act_on - 1) * PAGE_SIZE < bo0 + len,
                i <= blocks_to_act_on,
                block_offset == if i <= 1 { bo0 } else { 0 },
                i < blocks_to_act_on ==> written == if i == 0 { 0 } else { i * PAGE_SIZE - bo0 },
                i == blocks_to_act_on ==> written == len,
                self.size == old(self).size,
                self.create_time == old(self).create_time,
                forall|p: int|
                    #[trigger] self.page(p) == if start <= p < start + i {
                        Some(written_page(old(self).page(p), p, offset as int, data@))
                    } else {
                        old(self).page(p)
                    },
            decreases blocks_to_act_on - i,
        {
            if block_offset != 0 && i > 0 {
                block_offset = 0
            };
            let num_bytes = if i == blocks_to_act_on - 1 {
                data.len() - written
            } else {
                PAGE_SIZE - block_offset
            };
            let ghost before = *self;
            let ghost num = start + i;
            self.write_into_page(start + i, block_offset, data, written, num_bytes);
            proof {
                let np = patch(
                    page_or_zero(before.page(num as int)),
                    block_offset as int,
                    data@,
                    written as int,
                    num_bytes as int,
                );
                let wp = written_page(old(self).page(num as int), num as int, offset as int, data@);
                assert(before.page(num as int) == old(self).page(num as int));
                assert forall|k: int| 0 <= k < PAGE_SIZE implies np[k] == wp[k] by {
                    let pos = num * PAGE_SIZE as int + k;
                    assert(offset as int == start * PAGE_SIZE as int + bo0);
                }
                assert(np =~= wp);
            }
            written = written + num_bytes;
            i = i + 1;
        }
        let ghost filled = *self;
        let last_byte = offset + written;
        if self.size < last_byte {
            self.size = last_byte;
        }
        let time_now = current_time();
        self.mod_time = time_now;
        self.access_time = time_now;
        assert forall|p: int|
            #[trigger] self.page(p) == old(self).page_after_write(offset as int, data@, p) by {
            assert(self.page(p) == filled.page(p));
        }
        written
    }

    /// Reads `data.len()` bytes at byte `offset` into `data` and returns the
    /// number of bytes read. Every page the read reaches must be allocated.
    pub fn read(&self, offset: usize, data: &mut [u8]) -> (read: usize)
        requires
            self.wf(),
            offset as int % PAGE_SIZE as int + old(data)@.len() + PAGE_SIZE <= usize::MAX,
            self.readable(offset as int, old(data)@.len() as int),
        ensures
            read == old(data)@.len(),
            final(data)@.len() == old(data)@.len(),
            forall|j: int| 0 <= j < final(data)@.len() ==> #[trigger] final(data)@[j] == self.byte(offset + j),
    {
        let ghost len = data@.len() as int;
        let ghost bo0 = offset as int % PAGE_SIZE as int;
        let mut read: usize = 0;
        let mut block_offset = offset % PAGE_SIZE;
        let start = offset / PAGE_SIZE;
        let blocks_to_act_on = ceil_div(block_offset + data.len(), PAGE_SIZE);
        let mut i: usize = 0;
        while i < blocks_to_act_on
            invariant
                self.wf(),
                self.readable(offset as int, len),
                len == data@.len(),
                bo0 == offset as int % PAGE_SIZE as int,
                start == page_of(offset as int),
                blocks_to_act_on == pages_touched(offset as int, len),
                blocks_to_act_on * PAGE_SIZE >= bo0 + len,
                bo0 + len > 0 ==> (blocks_to_act_on - 1) * PAGE_SIZE < bo0 + len,
                i <= blocks_to_act_on,
                block_offset == if i <= 1 { bo0 } else { 0 },
                i < blocks_to_act_on ==> read == if i == 0 { 0 } else { i * PAGE_SIZE - bo0 },
                i == blocks_to_act_on ==> read == len,
                forall|j: int| 0 <= j < read ==> #[trigger] data@[j] == self.byte(offset + j),
            decreases blocks_to_act_on - i,
        {
            if block_offset != 0 && i > 0 {
                block_offset = 0
            };
            let num_bytes = if i == blocks_to_act_on - 1 {
                data.len() - read
            } else {
                PAGE_SIZE - block_offset
            };
            let num = start + i;
            assert(touches(offset as int, len, num as int));
            let page = self.get_page(num);
            let ghost before = data@;
            copy_from(data, read, page, block_offset, num_bytes);
            assert forall|j: int| 0 <= j < read + num_bytes implies #[trigger] data@[j] == self.byte(
                offset + j,
            ) by {
                if j >= read {
                    assert(offset as int == start * PAGE_SIZE as int + bo0);
                    assert(offset + j == num * PAGE_SIZE as int + block_offset + (j - read));
                } else {
                    assert(data@[j] == before[j]);
                }
            }
            read = read + num_bytes;
            i = i + 1;
        }
        read
    }

    /// The allocated page `num`.
    fn get_page(&self, num: usize) -> (page: &Vec<u8>)
        requires
            self.wf(),
            self.page(num as int) is Some,
        ensures
            Some(page@) == self.page(num as int),
            page@.len() == PAGE_SIZE,
    {
        if num < LIST_SIZE {
            self.single[num].as_ref().unwrap()
        } else {
            let d = num - LIST_SIZE;
            let slot = d / LIST_SIZE;
            let off = d % LIST_SIZE;
            let list = self.double[slot].as_ref().unwrap();
            assert(list_ok(*list));
            list[off].as_ref().unwrap()
        }
    }

    /// The file size in bytes.
    pub fn size(&self) -> (s: usize)
        ensures
            s == self.spec_size(),
    {
        self.size
    }

    /// The creation, access and modification times.
    pub fn stat(&self) -> (t: (time::Timespec, time::Timespec, time::Timespec))
        ensures
            t == (self.created(), self.accessed(), self.modified()),
    {
        (self.create_time, self.access_time, self.mod_time)
    }
}

/// Law of `Inode::write` and `Inode::read`: after `data` is written at
/// `offset`, every page of that range is allocated (so a read of the range is
/// allowed), reading the range gives back `data`, every byte outside the
/// range reads as it did before the write, and no allocated page goes away.
pub proof fn lemma_read_after_write(before: &Inode, after: &Inode, offset: int, data: Seq<u8>)
    requires
        before.wf(),
        offset >= 0,
        forall|p: int| #[trigger] after.page(p) == before.page_after_write(offset, data, p),
    ensures
        after.readable(offset, data.len() as int),
        forall|j: int| 0 <= j < data.len() ==> #[trigger] after.byte(offset + j) == data[j],
        forall|pos: int|
            0 <= pos && !(offset <= pos < offset + data.len()) ==> #[trigger] after.byte(pos)
                == before.byte(pos),
        forall|p: int| (#[trigger] before.page(p)) is Some ==> after.page(p) is Some,
{
    let len = data.len() as int;
    let ps = PAGE_SIZE as int;
    assert forall|p: int| touches(offset, len, p) implies (#[trigger] after.page(p)) is Some by {
        assert(after.page(p) == before.page_after_write(offset, data, p));
    }
    assert forall|j: int| 0 <= j < data.len() implies #[trigger] after.byte(offset + j) == data[j] by {
        let pos = offset + j;
        let p = page_of(pos);
        assert(p * ps + pos % ps == pos);
        assert(offset == page_of(offset) * ps + offset % ps);
        assert(spec_ceil_div(offset % ps + len, ps) * ps >= offset % ps + len) by (nonlinear_arith)
            requires
                ps > 0,
                offset % ps + len >= 0,
        ;
        assert(touches(offset, len, p));
        assert(after.page(p) == before.page_after_write(offset, data, p));
    }
    assert forall|pos: int|
        0 <= pos && !(offset <= pos < offset + data.len()) implies #[trigger] after.byte(pos)
            == before.byte(pos) by {
        let p = page_of(pos);
        assert(p * ps + pos % ps == pos);
        assert(after.page(p) == before.page_after_write(offset, data, p));
    }
    assert forall|p: int| (#[trigger] before.page(p)) is Some implies after.page(p) is Some by {
        assert(after.page(p) == before.page_after_write(offset, data, p));
    }
}


/// Byte `pos` of a file that was empty and then took the writes `writes`
/// (byte offset and data, in order): that of the last write covering it,
/// zero where none does.
pub open spec fn last_written(writes: Seq<(int, Seq<u8>)>, pos: int) -> u8
    decreases writes.len(),
{
    if writes.len() == 0 {
        0u8
    } else {
        let (offset, data) = writes.last();
        if offset <= pos < offset + data.len() {
            data[pos - offset]
        } else {
            last_written(writes.drop_last(), pos)
        }
    }
}

/// Law of `Inode::new`, `Inode::write` and `Inode::read` over a run of
/// writes: `states[0]` is a new inode and `states[k]` the inode after the
/// `k`-th write of `writes`. At the end every byte reads as the last write
/// that covered it put it, zero where no write did, and every range that a
/// write covered can be read.
pub proof fn lemma_read_after_writes(states: Seq<Inode>, writes: Seq<(int, Seq<u8>)>)
    requires
        states.len() == writes.len() + 1,
        forall|p: int| (#[trigger] states[0].page(p)) is None,
        forall|k: int| 0 <= k < states.len() ==> (#[trigger] states[k]).wf(),
        forall|k: int| 0 <= k < writes.len() ==> (#[trigger] writes[k]).0 >= 0,
        forall|k: int, p: int|
            1 <= k < states.len() ==> #[trigger] states[k].page(p) == states[k - 1].page_after_write(
                writes[k - 1].0,
                writes[k - 1].1,
                p,
            ),
    ensures
        forall|pos: int| pos >= 0 ==> #[trigger] states.last().byte(pos) == last_written(writes, pos),
        forall|k: int|
            0 <= k < writes.len() ==> states.last().readable(#[trigger] writes[k].0, writes[k].1.len() as int),
    decreases writes.len(),
{
    let n = writes.len() as int;
    if n == 0 {
        assert forall|pos: int| pos >= 0 implies #[trigger] states.last().byte(pos) == last_written(writes, pos) by {
            assert(states.last() == states[0]);
            assert(states[0].page(page_of(pos)) is None);
        }
    } else {
        let ps = states.drop_last();
        let pw = writes.drop_last();
        assert forall|k: int| 0 <= k < ps.len() implies (#[trigger] ps[k]).wf() by {
            assert(ps[k] == states[k]);
        }
        assert forall|k: int| 0 <= k < pw.len() implies (#[trigger] pw[k]).0 >= 0 by {
            assert(pw[k] == writes[k]);
        }
        assert forall|k: int, p: int|
            1 <= k < ps.len() implies #[trigger] ps[k].page(p) == ps[k - 1].page_after_write(
            pw[k - 1].0,
            pw[k - 1].1,
            p,
        ) by {
            assert(ps[k] == states[k]);
            assert(ps[k - 1] == states[k - 1]);
            assert(pw[k - 1] == writes[k - 1]);
        }
        assert(forall|p: int| (#[trigger] ps[0].page(p)) is None) by {
            assert(ps[0] == states[0]);
        }
        lemma_read_after_writes(ps, pw);
        let before = states[n - 1];
        let after = states[n];
        assert(ps.last() == before);
        assert(states.last() == after);
        let (offset, data) = writes.last();
        assert(writes[n - 1] == (offset, data));
        assert forall|p: int| #[trigger] after.page(p) == before.page_after_write(offset, data, p) by {
            assert(states[n].page(p) == states[n - 1].page_after_write(writes[n - 1].0, writes[n - 1].1, p));
        }
        lemma_read_after_write(&before, &after, offset, data);
        assert forall|pos: int| pos >= 0 implies #[trigger] states.last().byte(pos) == last_written(writes, pos) by {
            if offset <= pos < offset + data.len() {
                assert(after.byte(offset + (pos - offset)) == data[pos - offset]);
            } else {
                assert(ps.last().byte(pos) == last_written(pw, pos));
            }
        }
        assert forall|k: int| 0 <= k < writes.len() implies states.last().readable(
            #[trigger] writes[k].0,
            writes[k].1.len() as int,
        ) by {
            if k < n - 1 {
                assert(pw[k] == writes[k]);
                assert(before.readable(pw[k].0, pw[k].1.len() as int));
                assert forall|p: int| touches(writes[k].0, writes[k].1.len() as int, p) implies (
                #[trigger] after.page(p)) is Some by {
                    assert(before.page(p) is Some);
                }
            }
        }
    }
}

} // verus!
