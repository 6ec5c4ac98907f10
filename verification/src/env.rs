//! I/O buffers: the bytes exchanged with a block device, with the helpers
//! that fill them and read C strings from them.
use vstd::prelude::*;
use crate::layout::spec_ceil_div;

verus! {

/// The index of the first zero byte of `s` at or after `from`, or the
/// length of `s` when there is none.
pub open spec fn nul_index(s: Seq<u8>, from: int) -> int
    decreases s.len() - from,
{
    if from >= s.len() || from < 0 {
        s.len() as int
    } else if s[from] == 0 {
        from
    } else {
        nul_index(s, from + 1)
    }
}

/// The C string at the start of `s`: its bytes before the first zero byte.
pub open spec fn c_string(s: Seq<u8>) -> Seq<u8> {
    s.subrange(0, nul_index(s, 0))
}

/// `s` holds a zero byte.
pub open spec fn has_nul(s: Seq<u8>) -> bool {
    exists|i: int| 0 <= i < s.len() && s[i] == 0
}


proof fn lemma_nul_index_at(s: Seq<u8>, from: int, n: int)
    requires
        0 <= from <= n <= s.len(),
        forall|i: int| from <= i < n ==> s[i] != 0,
        n == s.len() || s[n] == 0,
    ensures
        nul_index(s, from) == n,
    decreases n - from,
{
    if from < n {
        lemma_nul_index_at(s, from + 1, n);
    }
}

proof fn lemma_ceil_step(k: int, len: int, size: int)
    requires
        len > 0,
        k >= 0,
        k * len < size,
    ensures
        k * len + len <= spec_ceil_div(size, len) * len,
{
    let c = size + len - 1;
    let q = c / len;
    let r = c % len;
    vstd::arithmetic::div_mod::lemma_fundamental_div_mod(c, len);
    assert(c == len * q + r && 0 <= r < len);
    assert(k * len + len <= c);
    assert(k + 1 <= q) by (nonlinear_arith)
        requires
            len > 0,
            k * len + len <= len * q + r,
            0 <= r < len,
    ;
    assert(k * len + len <= q * len) by (nonlinear_arith)
        requires
            len > 0,
            k + 1 <= q,
    ;
}

/// The number of bytes `fill_fixed` reports for `size` bytes of a pattern of
/// `len` bytes: whole copies of the pattern, the last one counted in full.
pub open spec fn fixed_total(size: int, len: int) -> int {
    if size == 0 {
        0
    } else {
        spec_ceil_div(size, len) * len
    }
}

/// The bytes of `buf` after `snprintf(buf, size, "%s", text)`: as many bytes
/// of `text` as fit before the bound, `size - 1` at most, then a zero byte;
/// nothing is written when `size` is zero.
pub open spec fn printed(buf: Seq<u8>, size: int, text: Seq<u8>) -> Seq<u8> {
    if size <= 0 {
        buf
    } else {
        let n = if text.len() < size - 1 {
            text.len() as int
        } else {
            size - 1
        };
        Seq::new(
            buf.len(),
            |i: int|
                if i < n {
                    text[i]
                } else if i == n {
                    0u8
                } else {
                    buf[i]
                },
        )
    }
}

/// A buffer of bytes exchanged with a block device.
pub struct Buf {
    data: Vec<u8>,
}

impl View for Buf {
    type V = Seq<u8>;

    /// The bytes of the buffer.
    closed spec fn view(&self) -> Seq<u8> {
        self.data@
    }
}

impl Buf {
    /// The buffer holding `data`.
    pub fn from_raw(data: Vec<u8>) -> (b: Buf)
        ensures
            b@ == data@,
    {
        Buf { data: data }
    }

    /// The bytes of the buffer.
    pub fn to_raw(&self) -> (bytes: &[u8])
        ensures
            bytes@ == self@,
    {
        self.data.as_slice()
    }

    /// Prints `text` into the buffer as a C string bounded by `size` bytes,
    /// as `snprintf` does with the format `%s`.
    pub fn fill(&mut self, size: usize, text: &[u8])
        requires
            size <= old(self)@.len(),
            forall|i: int| 0 <= i < text@.len() ==> text@[i] != 0,
        ensures
            final(self)@ == printed(old(self)@, size as int, text@),
    {
        if size == 0 {
            return;
        }
        let n: usize = if text.len() < size - 1 {
            text.len()
        } else {
            size - 1
        };
        let mut k: usize = 0;
        while k < n
            invariant
                k <= n,
                n < size <= old(self)@.len(),
                n <= text@.len(),
                self@.len() == old(self)@.len(),
                forall|j: int| 0 <= j < self@.len() ==> #[trigger] self@[j] == if j < k {
                    text@[j]
                } else {
                    old(self)@[j]
                },
            decreases n - k,
        {
            self.data.set(k, text[k]);
            k = k + 1;
        }
        self.data.set(n, 0);
        assert(self@ =~= printed(old(self)@, size as int, text@));
    }

    /// Fills the first `size` bytes with copies of `pattern`, the last copy
    /// cut short, puts a zero byte right after them where the buffer has room
    /// for it, and returns the bytes of the copies counted whole.
    pub fn fill_fixed(&mut self, size: usize, pattern: &[u8]) -> (total: usize)
        requires
            size > 0 ==> pattern@.len() > 0,
            size <= old(self)@.len(),
            forall|i: int| 0 <= i < pattern@.len() ==> pattern@[i] != 0,
            fixed_total(size as int, pattern@.len() as int) <= i32::MAX,
        ensures
            total == fixed_total(size as int, pattern@.len() as int),
            final(self)@.len() == old(self)@.len(),
            forall|j: int| 0 <= j < size ==> #[trigger] final(self)@[j] == pattern@[j % pattern@.len() as int],
            0 < size < old(self)@.len() ==> final(self)@[size as int] == 0,
            forall|j: int| size < j < old(self)@.len() ==> #[trigger] final(self)@[j] == old(self)@[j],
    {
        let len = pattern.len();
        let mut left_to_write: usize = size;
        let mut write_start: usize = 0;
        let mut n_to_write: usize = len;
        let mut tot_write: usize = 0;
        let ghost mut k: int = 0;
        let ghost mut nul_at: int = 0;
        while left_to_write > 0
            invariant
                len == pattern@.len(),
                size > 0 ==> len > 0,
                size <= old(self)@.len(),
                self@.len() == old(self)@.len(),
                forall|i: int| 0 <= i < len ==> pattern@[i] != 0,
                fixed_total(size as int, len as int) <= i32::MAX,
                k >= 0,
                write_start == k * len,
                tot_write == k * len,
                left_to_write > 0 ==> write_start + left_to_write == size,
                left_to_write > 0 ==> n_to_write == len,
                left_to_write > 0 ==> nul_at == write_start,
                left_to_write == 0 ==> nul_at == size,
                left_to_write == 0 ==> tot_write == fixed_total(size as int, len as int),
                left_to_write > 0 ==> write_start < size,
                0 <= nul_at <= size,
                k > 0 && nul_at < self@.len() ==> self@[nul_at] == 0,
                forall|j: int| 0 <= j < nul_at ==> #[trigger] self@[j] == pattern@[j % len as int],
                forall|j: int| nul_at < j < self@.len() ==> #[trigger] self@[j] == old(self)@[j],
                k == 0 ==> self@ == old(self)@,
                size > 0 && left_to_write == 0 ==> k > 0,
            decreases left_to_write,
        {
            proof {
                assert(k * len + len == (k + 1) * len) by (nonlinear_arith);
                lemma_ceil_step(k, len as int, size as int);
            }
            if write_start + n_to_write > size {
                n_to_write = left_to_write;
            }
            let mut t: usize = 0;
            let ghost before = self@;
            while t < n_to_write
                invariant
                    t <= n_to_write,
                    n_to_write <= len,
                    len == pattern@.len(),
                    write_start + n_to_write <= size,
                    size <= old(self)@.len(),
                    self@.len() == before.len(),
                    before.len() == old(self)@.len(),
                    forall|j: int| #![trigger self@[j]]
                        0 <= j < self@.len() ==> self@[j] == if write_start <= j < write_start + t {
                            pattern@[j - write_start]
                        } else {
                            before[j]
                        },
                decreases n_to_write - t,
            {
                self.data.set(write_start + t, pattern[t]);
                t = t + 1;
            }
            if write_start + n_to_write < self.data.len() {
                self.data.set(write_start + n_to_write, 0);
            }
            proof {
                assert forall|j: int| 0 <= j < write_start + n_to_write implies #[trigger] self@[j]
                    == pattern@[j % len as int] by {
                    if j >= write_start {
                        assert((k * len + (j - write_start)) % (len as int) == j - write_start)
                            by (nonlinear_arith)
                            requires
                                len > 0,
                                0 <= j - write_start < len,
                                k >= 0,
                        ;
                    }
                }
                nul_at = write_start + n_to_write;
                k = k + 1;
            }
            let write_size = len;
            tot_write = tot_write + write_size;
            write_start = write_start + write_size;
            if write_size >= left_to_write {
                left_to_write = 0;
                proof {
                    assert(spec_ceil_div(size as int, len as int) == k) by (nonlinear_arith)
                        requires
                            len > 0,
                            (k - 1) * len < size,
                            size <= k * len,
                    ;
                }
            } else {
                left_to_write = left_to_write - write_size;
            }
        }
        tot_write
    }

    /// The C string at the start of the buffer: its bytes before the first
    /// zero byte, which must exist and be preceded by valid UTF-8.
    pub fn read(&self) -> (s: Vec<u8>)
        requires
            has_nul(self@),
            vstd::utf8::valid_utf8(c_string(self@)),
        ensures
            s@ == c_string(self@),
    {
        let mut n: usize = 0;
        while n < self.data.len() && self.data[n] != 0
            invariant
                n <= self@.len(),
                forall|i: int| 0 <= i < n ==> self@[i] != 0,
            decreases self@.len() - n,
        {
            n = n + 1;
        }
        proof {
            lemma_nul_index_at(self@, 0, n as int);
        }
        let mut s: Vec<u8> = Vec::new();
        let mut k: usize = 0;
        while k < n
            invariant
                k <= n,
                n <= self@.len(),
                s@ == self@.subrange(0, k as int),
            decreases n - k,
        {
            s.push(self.data[k]);
            k = k + 1;
        }
        s
    }
}


/// Law of `Buf::fill_fixed`'s count: for a pattern of `len > 0` bytes, the
/// count is a whole number of copies of the pattern, the fewest that cover
/// `size` bytes: a multiple of `len`, at least `size`, and less than
/// `size + len`; zero for nothing to write.
pub proof fn lemma_fixed_total_whole_copies(size: int, len: int)
    requires
        size >= 0,
        len > 0,
    ensures
        fixed_total(size, len) % len == 0,
        size <= fixed_total(size, len) < size + len,
        size == 0 ==> fixed_total(size, len) == 0,
        fixed_total(size, len) >= len ==> fixed_total(size, len) - len < size,
{
    if size > 0 {
        let c = size + len - 1;
        let q = c / len;
        let r = c % len;
        vstd::arithmetic::div_mod::lemma_fundamental_div_mod(c, len);
        assert(c == len * q + r && 0 <= r < len);
        assert(q * len == len * q) by (nonlinear_arith);
        vstd::arithmetic::div_mod::lemma_mod_multiples_basic(q, len);
    } else {
        vstd::arithmetic::div_mod::lemma_mod_multiples_basic(0, len);
        assert(0 * len == 0);
    }
}


/// Law of `Buf::fill`: printing `text` (no zero byte in it) into a buffer
/// with the bound `size > 0` leaves a C string that reads back as the
/// longest start of `text` that leaves room for the terminating zero within
/// the first `size` bytes, and leaves the buffer's length and every byte from
/// `size` on as they were.
pub proof fn lemma_printed_reads_back(buf: Seq<u8>, size: int, text: Seq<u8>)
    requires
        0 < size <= buf.len(),
        forall|i: int| 0 <= i < text.len() ==> text[i] != 0,
    ensures
        printed(buf, size, text).len() == buf.len(),
        nul_index(printed(buf, size, text), 0) < size,
        c_string(printed(buf, size, text)) == text.subrange(
            0,
            if text.len() < size - 1 {
                text.len() as int
            } else {
                size - 1
            },
        ),
        forall|j: int| size <= j < buf.len() ==> #[trigger] printed(buf, size, text)[j] == buf[j],
{
    let p = printed(buf, size, text);
    let n = if text.len() < size - 1 {
        text.len() as int
    } else {
        size - 1
    };
    assert forall|i: int| 0 <= i < n implies p[i] != 0 by {
        assert(p[i] == text[i]);
    }
    assert(p[n] == 0);
    lemma_nul_index_at(p, 0, n);
    assert(c_string(p) =~= text.subrange(0, n));
}

} // verus!
