//! Directories on disk: a directory's data is a run of 128-byte records,
//! each an 8-byte little-endian inode number followed by the name in 120
//! bytes, padded with zero bytes (longer names are cut to 120 bytes).
//! Writing a directory reserves one record per entry but stores every entry
//! into the first record, so the last entry written is the one kept; reading
//! takes the name of the first record and the inode number at the last
//! whole-record boundary, once per record and once more.
use vstd::prelude::*;
use vstd::bytes::*;
use crate::constants::{DIR_ENTRY_SIZE, NAME_SIZE};
use crate::disk_inode::{read_word, word_at};

verus! {

/// The 120 name bytes stored for `name`: the name, cut to 120 bytes, then
/// zero bytes.
pub open spec fn padded_name(name: Seq<u8>) -> Seq<u8> {
    Seq::new(NAME_SIZE as nat, |i: int| if i < name.len() { name[i] } else { 0u8 })
}

/// The 128 bytes of the entry for `name` and inode number `inum`.
pub open spec fn entry_bytes(name: Seq<u8>, inum: u64) -> Seq<u8> {
    spec_u64_to_le_bytes(inum) + padded_name(name)
}

/// The bytes that writing a directory with the entries `entries` (in this
/// order) produces: 128 bytes per entry, the first record holding the last
/// entry, the rest zero.
pub open spec fn dir_bytes(entries: Seq<(Seq<u8>, u64)>) -> Seq<u8> {
    if entries.len() == 0 {
        Seq::empty()
    } else {
        entry_bytes(entries.last().0, entries.last().1) + Seq::new(
            (DIR_ENTRY_SIZE * (entries.len() - 1)) as nat,
            |i: int| 0u8,
        )
    }
}

/// The number of leading zero bytes of `s`.
pub open spec fn leading_zeros(s: Seq<u8>) -> int
    decreases s.len(),
{
    if s.len() > 0 && s[0] == 0 {
        1 + leading_zeros(s.drop_first())
    } else {
        0
    }
}

/// The number of trailing zero bytes of `s`.
pub open spec fn trailing_zeros(s: Seq<u8>) -> int
    decreases s.len(),
{
    if s.len() > 0 && s.last() == 0 {
        1 + trailing_zeros(s.drop_last())
    } else {
        0
    }
}

/// `s` without its leading and trailing zero bytes.
pub open spec fn trim_zeros(s: Seq<u8>) -> Seq<u8> {
    let front = leading_zeros(s);
    if front == s.len() {
        Seq::empty()
    } else {
        s.subrange(front, s.len() - trailing_zeros(s))
    }
}

/// The entry that reading the directory data `data` of `size` bytes finds:
/// the name of the first record, trimmed of zero bytes, and the inode
/// number at the start of the last whole record boundary, `128 * (size /
/// 128)`.
pub open spec fn dir_record(data: Seq<u8>, size: int) -> (Seq<u8>, u64) {
    (trim_zeros(data.subrange(8, DIR_ENTRY_SIZE as int)), word_at(data, DIR_ENTRY_SIZE * (size / DIR_ENTRY_SIZE as int)))
}

/// Directory data of `size` bytes can be read: it holds a first record,
/// an inode number at its last record boundary, and a name of valid UTF-8.
pub open spec fn dir_readable(data: Seq<u8>, size: int) -> bool {
    &&& size <= data.len()
    &&& size >= DIR_ENTRY_SIZE
    &&& size % (DIR_ENTRY_SIZE as int) >= 8
    &&& vstd::utf8::valid_utf8(data.subrange(8, DIR_ENTRY_SIZE as int))
}

proof fn lemma_leading_zeros_prefix(s: Seq<u8>, k: int)
    requires
        0 <= k <= s.len(),
        forall|i: int| 0 <= i < k ==> s[i] == 0,
        k < s.len() ==> s[k] != 0,
    ensures
        leading_zeros(s) == k,
    decreases s.len(),
{
    if k > 0 {
        lemma_leading_zeros_prefix(s.drop_first(), k - 1);
    }
}

proof fn lemma_trailing_zeros_suffix(s: Seq<u8>, k: int)
    requires
        0 <= k <= s.len(),
        forall|i: int| s.len() - k <= i < s.len() ==> s[i] == 0,
        k < s.len() ==> s[s.len() - k - 1] != 0,
    ensures
        trailing_zeros(s) == k,
    decreases s.len(),
{
    if k > 0 {
        assert forall|i: int| s.drop_last().len() - (k - 1) <= i < s.drop_last().len() implies s.drop_last()[i] == 0 by {
            assert(s.drop_last()[i] == s[i]);
        }
        lemma_trailing_zeros_suffix(s.drop_last(), k - 1);
    }
}

/// Law of the entry format: a name of at most 120 bytes with no zero byte
/// reads back from its stored form unchanged.
pub proof fn lemma_name_round_trip(name: Seq<u8>)
    requires
        name.len() <= NAME_SIZE,
        forall|i: int| 0 <= i < name.len() ==> name[i] != 0,
    ensures
        trim_zeros(padded_name(name)) == name,
{
    let p = padded_name(name);
    if name.len() == 0 {
        lemma_leading_zeros_prefix(p, p.len() as int);
    } else {
        lemma_leading_zeros_prefix(p, 0);
        lemma_trailing_zeros_suffix(p, NAME_SIZE - name.len());
        assert(p.subrange(0, name.len() as int) =~= name);
    }
}

/// Copies `src[from..to]` into a new vector.
fn copy_range(src: &[u8], from: usize, to: usize) -> (out: Vec<u8>)
    requires
        from <= to <= src@.len(),
    ensures
        out@ == src@.subrange(from as int, to as int),
{
    let mut out: Vec<u8> = Vec::new();
    let mut k = from;
    while k < to
        invariant
            from <= k <= to,
            to <= src@.len(),
            out@ == src@.subrange(from as int, k as int),
        decreases to - k,
    {
        out.push(src[k]);
        k = k + 1;
    }
    out
}

/// `s` without its leading and trailing zero bytes.
pub fn trim_zero_bytes(s: &[u8]) -> (t: Vec<u8>)
    ensures
        t@ == trim_zeros(s@),
{
    let mut front: usize = 0;
    while front < s.len() && s[front] == 0
        invariant
            front <= s@.len(),
            forall|i: int| 0 <= i < front ==> s@[i] == 0,
        decreases s@.len() - front,
    {
        front = front + 1;
    }
    proof {
        lemma_leading_zeros_prefix(s@, front as int);
    }
    if front == s.len() {
        return Vec::new();
    }
    let mut back: usize = s.len();
    while back > front && s[back - 1] == 0
        invariant
            front < s@.len(),
            s@[front as int] != 0,
            front <= back <= s@.len(),
            forall|i: int| back <= i < s@.len() ==> s@[i] == 0,
        decreases back,
    {
        back = back - 1;
    }
    proof {
        lemma_trailing_zeros_suffix(s@, s@.len() - back);
    }
    copy_range(s, front, back)
}

/// Reads the directory data `data`, of which the first `size` bytes are in
/// use: one (name, inode number) pair per whole 128-byte record and one
/// more, each the entry that `dir_record` gives.
pub fn decode_entries(data: &[u8], size: usize) -> (entries: Vec<(Vec<u8>, u64)>)
    requires
        dir_readable(data@, size as int),
    ensures
        entries@.len() == size / DIR_ENTRY_SIZE + 1,
        forall|i: int|
            0 <= i < entries@.len() ==> (#[trigger] entries@[i]).0@ == dir_record(data@, size as int).0
                && entries@[i].1 == dir_record(data@, size as int).1,
{
    let iters = size / DIR_ENTRY_SIZE;
    let mut entries: Vec<(Vec<u8>, u64)> = Vec::new();
    let mut i: usize = 0;
    while i <= iters
        invariant
            iters == size / DIR_ENTRY_SIZE,
            dir_readable(data@, size as int),
            i <= iters + 1,
            entries@.len() == i,
            forall|j: int|
                0 <= j < i ==> (#[trigger] entries@[j]).0@ == dir_record(data@, size as int).0
                    && entries@[j].1 == dir_record(data@, size as int).1,
        decreases iters + 1 - i,
    {
        let start = DIR_ENTRY_SIZE * iters;
        let inum = read_word(data, start);
        let name = trim_zero_bytes(vstd::slice::slice_subrange(data, 8, DIR_ENTRY_SIZE));
        entries.push((name, inum));
        i = i + 1;
    }
    entries
}

/// `data` with its first record holding the entry for `name` and `inum`.
fn put_record(data: &mut Vec<u8>, name: &[u8], inum: u64)
    requires
        old(data)@.len() >= DIR_ENTRY_SIZE,
    ensures
        final(data)@ == entry_bytes(name@, inum) + old(data)@.subrange(DIR_ENTRY_SIZE as int, old(data)@.len() as int),
{
    let le = u64_to_le_bytes(inum);
    proof {
        lemma_auto_spec_u64_to_from_le_bytes();
    }
    let ghost target = entry_bytes(name@, inum) + old(data)@.subrange(DIR_ENTRY_SIZE as int, old(data)@.len() as int);
    let mut k: usize = 0;
    while k < DIR_ENTRY_SIZE
        invariant
            k <= DIR_ENTRY_SIZE,
            le@ == spec_u64_to_le_bytes(inum),
            le@.len() == 8,
            data@.len() == old(data)@.len(),
            old(data)@.len() >= DIR_ENTRY_SIZE,
            target == entry_bytes(name@, inum) + old(data)@.subrange(DIR_ENTRY_SIZE as int, old(data)@.len() as int),
            forall|j: int| 0 <= j < data@.len() ==> #[trigger] data@[j] == if j < k { target[j] } else { old(data)@[j] },
        decreases DIR_ENTRY_SIZE - k,
    {
        let b: u8 = if k < 8 {
            le[k]
        } else if k - 8 < name.len() {
            name[k - 8]
        } else {
            0
        };
        proof {
            assert(b == target[k as int]);
        }
        data.set(k, b);
        k = k + 1;
    }
    assert(data@ =~= target);
}

/// Writes directory entries, given as (name, inode number) pairs in
/// order: 128 bytes are reserved per entry and each entry in turn is stored
/// into the first record.
pub fn encode_entries(entries: &Vec<(Vec<u8>, u64)>) -> (data: Vec<u8>)
    requires
        DIR_ENTRY_SIZE * entries@.len() <= usize::MAX,
    ensures
        data@ == dir_bytes(entries@.map_values(|e: (Vec<u8>, u64)| (e.0@, e.1))),
{
    let ghost views = entries@.map_values(|e: (Vec<u8>, u64)| (e.0@, e.1));
    let n = entries.len();
    let mut data: Vec<u8> = vec![0u8; DIR_ENTRY_SIZE * n];
    if n == 0 {
        return data;
    }
    let ghost rest = Seq::new((DIR_ENTRY_SIZE * (n - 1)) as nat, |i: int| 0u8);
    proof {
        assert(data@.subrange(DIR_ENTRY_SIZE as int, data@.len() as int) =~= rest);
    }
    let mut i: usize = 0;
    while i < n
        invariant
            n == entries@.len(),
            n > 0,
            i <= n,
            views == entries@.map_values(|e: (Vec<u8>, u64)| (e.0@, e.1)),
            data@.len() == DIR_ENTRY_SIZE * n,
            data@.subrange(DIR_ENTRY_SIZE as int, data@.len() as int) == rest,
            rest == Seq::new((DIR_ENTRY_SIZE * (n - 1)) as nat, |i: int| 0u8),
            i > 0 ==> data@ == entry_bytes(views[i - 1].0, views[i - 1].1) + rest,
        decreases n - i,
    {
        put_record(&mut data, entries[i].0.as_slice(), entries[i].1);
        proof {
            lemma_auto_spec_u64_to_from_le_bytes();
            assert(views[i as int] == (entries@[i as int].0@, entries@[i as int].1));
            assert(data@.subrange(DIR_ENTRY_SIZE as int, data@.len() as int) =~= rest);
        }
        i = i + 1;
    }
    data
}

/// Law of writing and reading a directory: the first record of the data
/// written for entries whose names have at most 120 bytes and no zero byte
/// holds the last entry, name and inode number; every other byte of the
/// data is zero.
pub proof fn lemma_written_record(entries: Seq<(Seq<u8>, u64)>)
    requires
        entries.len() > 0,
        entries.last().0.len() <= NAME_SIZE,
        forall|j: int| 0 <= j < entries.last().0.len() ==> entries.last().0[j] != 0,
    ensures
        dir_bytes(entries).len() == DIR_ENTRY_SIZE * entries.len(),
        trim_zeros(dir_bytes(entries).subrange(8, DIR_ENTRY_SIZE as int)) == entries.last().0,
        word_at(dir_bytes(entries), 0) == entries.last().1,
        forall|j: int| DIR_ENTRY_SIZE <= j < dir_bytes(entries).len() ==> dir_bytes(entries)[j] == 0,
{
    lemma_auto_spec_u64_to_from_le_bytes();
    let d = dir_bytes(entries);
    let last = entries.last();
    assert(d.subrange(8, DIR_ENTRY_SIZE as int) =~= padded_name(last.0));
    assert(d.subrange(0, 8) =~= spec_u64_to_le_bytes(last.1));
    lemma_name_round_trip(last.0);
}

} // verus!
