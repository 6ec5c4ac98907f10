//! The sequential-write benchmark: the settings it reads from its TOML
//! configuration, the arguments it hands to `dd`, the number of bytes it
//! writes, and the throughput it reads out of the report that `dd` prints.
use vstd::prelude::*;
use vstd::string::StrSliceExecFns;
use vstd::string::StringExecFns;
use vstd::string::StringSliceAdditionalSpecFns;
use crate::utils::strip;
use crate::utils::unit_power;

verus! {

/// The pieces of `s` between occurrences of `sep`, in order; empty pieces
/// included, so there is always at least one.
pub open spec fn split(s: Seq<char>, sep: char) -> Seq<Seq<char>>
    decreases s.len(),
{
    if s.len() == 0 {
        seq![Seq::<char>::empty()]
    } else {
        let p = split(s.drop_last(), sep);
        if s.last() == sep {
            p.push(Seq::<char>::empty())
        } else {
            p.update(p.len() - 1, p.last().push(s.last()))
        }
    }
}

proof fn lemma_split_nonempty(s: Seq<char>, sep: char)
    ensures
        split(s, sep).len() >= 1,
    decreases s.len(),
{
    if s.len() > 0 {
        lemma_split_nonempty(s.drop_last(), sep);
    }
}

/// The number of occurrences of `c` in `s`.
pub open spec fn count_char(s: Seq<char>, c: char) -> int
    decreases s.len(),
{
    if s.len() == 0 {
        0
    } else {
        count_char(s.drop_last(), c) + if s.last() == c {
            1int
        } else {
            0int
        }
    }
}

proof fn lemma_count_concat(a: Seq<char>, b: Seq<char>, c: char)
    ensures
        count_char(a + b, c) == count_char(a, c) + count_char(b, c),
    decreases b.len(),
{
    if b.len() == 0 {
        assert(a + b =~= a);
    } else {
        lemma_count_concat(a, b.drop_last(), c);
        assert((a + b).drop_last() =~= a + b.drop_last());
    }
}

proof fn lemma_count_none(s: Seq<char>, c: char)
    requires
        forall|j: int| 0 <= j < s.len() ==> s[j] != c,
    ensures
        count_char(s, c) == 0,
    decreases s.len(),
{
    if s.len() > 0 {
        lemma_count_none(s.drop_last(), c);
    }
}

proof fn lemma_count_zero(s: Seq<char>, c: char, j: int)
    requires
        count_char(s, c) == 0,
        0 <= j < s.len(),
    ensures
        s[j] != c,
    decreases s.len(),
{
    lemma_count_nonneg(s.drop_last(), c);
    if j < s.len() - 1 {
        lemma_count_zero(s.drop_last(), c, j);
    }
}

proof fn lemma_count_nonneg(s: Seq<char>, c: char)
    ensures
        count_char(s, c) >= 0,
    decreases s.len(),
{
    if s.len() > 0 {
        lemma_count_nonneg(s.drop_last(), c);
    }
}

/// Piece `i` of `s` split at `sep` stands in `s` between a part ending in
/// `sep` (none for the first piece) and a part starting with `sep` (none for
/// the last piece), and holds no `sep` itself; `i` separators come before
/// it, and `s` holds one separator fewer than it has pieces. The two parts
/// are returned.
proof fn lemma_split_piece(s: Seq<char>, sep: char, i: int) -> (ab: (Seq<char>, Seq<char>))
    requires
        0 <= i < split(s, sep).len(),
    ensures
        s == ab.0 + split(s, sep)[i] + ab.1,
        i > 0 ==> ab.0.len() > 0 && ab.0.last() == sep,
        i == 0 ==> ab.0.len() == 0,
        i < split(s, sep).len() - 1 ==> ab.1.len() > 0 && ab.1[0] == sep,
        i == split(s, sep).len() - 1 ==> ab.1.len() == 0,
        forall|j: int| 0 <= j < split(s, sep)[i].len() ==> split(s, sep)[i][j] != sep,
        count_char(ab.0, sep) == i,
        count_char(s, sep) == split(s, sep).len() - 1,
    decreases s.len(),
{
    lemma_split_nonempty(s, sep);
    if s.len() == 0 {
        assert(split(s, sep)[i] =~= Seq::<char>::empty());
        assert(s =~= Seq::<char>::empty() + split(s, sep)[i] + Seq::<char>::empty());
        (Seq::<char>::empty(), Seq::<char>::empty())
    } else {
        let t = s.drop_last();
        let c = s.last();
        let p = split(t, sep);
        lemma_split_nonempty(t, sep);
        assert(s =~= t.push(c));
        if c == sep {
            if i < p.len() {
                let (a, b) = lemma_split_piece(t, sep, i);
                assert(split(s, sep)[i] == p[i]);
                assert(s =~= a + split(s, sep)[i] + b.push(c));
                (a, b.push(c))
            } else {
                let _ = lemma_split_piece(t, sep, 0);
                assert(split(s, sep)[i] =~= Seq::<char>::empty());
                assert(s =~= s + split(s, sep)[i] + Seq::<char>::empty());
                (s, Seq::<char>::empty())
            }
        } else {
            let (a, b) = lemma_split_piece(t, sep, i);
            if i < p.len() - 1 {
                let _ = lemma_split_piece(t, sep, 0);
                assert(split(s, sep)[i] == p[i]);
                assert(s =~= a + split(s, sep)[i] + b.push(c));
                (a, b.push(c))
            } else {
                assert(split(s, sep)[i] == p[i].push(c));
                assert(s =~= a + split(s, sep)[i] + Seq::<char>::empty());
                (a, Seq::<char>::empty())
            }
        }
    }
}

/// The pieces of `s` between occurrences of `sep`.
pub fn split_chars(s: &Vec<char>, sep: char) -> (pieces: Vec<Vec<char>>)
    ensures
        pieces@.len() == split(s@, sep).len(),
        forall|i: int| 0 <= i < pieces@.len() ==> (#[trigger] pieces@[i])@ == split(s@, sep)[i],
{
    let mut pieces: Vec<Vec<char>> = Vec::new();
    pieces.push(Vec::new());
    let mut k: usize = 0;
    proof {
        assert(s@.subrange(0, 0) =~= Seq::<char>::empty());
    }
    while k < s.len()
        invariant
            k <= s@.len(),
            pieces@.len() >= 1,
            pieces@.len() == split(s@.subrange(0, k as int), sep).len(),
            forall|i: int|
                0 <= i < pieces@.len() ==> (#[trigger] pieces@[i])@ == split(
                    s@.subrange(0, k as int),
                    sep,
                )[i],
        decreases s@.len() - k,
    {
        let c = s[k];
        let ghost prefix = s@.subrange(0, k as int);
        let ghost next = s@.subrange(0, k + 1);
        proof {
            assert(next.drop_last() =~= prefix);
            assert(next.last() == c);
        }
        if c == sep {
            pieces.push(Vec::new());
        } else {
            let last = pieces.len() - 1;
            pieces[last].push(c);
        }
        k = k + 1;
    }
    proof {
        assert(s@.subrange(0, s@.len() as int) =~= s@);
    }
    pieces
}

/// The throughput figure of a `dd` report: on its third line, the last
/// comma-separated part, and of that the second space-separated word
/// (the part starts with a space). None when the report has fewer than three
/// lines or that part fewer than two words.
pub open spec fn dd_figure(report: Seq<char>) -> Option<Seq<char>> {
    let lines = split(report, '\n');
    if lines.len() < 3 {
        None
    } else {
        let parts = split(lines[2], ',');
        let words = split(parts.last(), ' ');
        if words.len() < 2 {
            None
        } else {
            Some(words[1])
        }
    }
}

/// The throughput figure of the report that `dd` printed, `report`.
pub fn dd_throughput(report: &Vec<char>) -> (figure: Option<Vec<char>>)
    ensures
        match (figure, dd_figure(report@)) {
            (Some(f), Some(g)) => f@ == g,
            (None, None) => true,
            _ => false,
        },
{
    let lines = split_chars(report, '\n');
    if lines.len() < 3 {
        return None;
    }
    let parts = split_chars(&lines[2], ',');
    proof {
        lemma_split_nonempty(lines@[2]@, ',');
    }
    let words = split_chars(&parts[parts.len() - 1], ' ');
    if words.len() < 2 {
        return None;
    }
    let mut figure: Vec<char> = Vec::new();
    let w = &words[1];
    let mut k: usize = 0;
    while k < w.len()
        invariant
            k <= w@.len(),
            figure@ == w@.subrange(0, k as int),
        decreases w@.len() - k,
    {
        figure.push(w[k]);
        k = k + 1;
    }
    proof {
        assert(w@.subrange(0, w@.len() as int) =~= w@);
    }
    Some(figure)
}


/// What the `toml` crate gives for the entry `key` of the table `table` in
/// the configuration text `text`, written back out as TOML (a string keeps
/// its quotes); none where the text does not parse, the entry is missing or
/// it cannot be written back.
pub uninterp spec fn toml_entry(text: Seq<char>, table: Seq<char>, key: Seq<char>) -> Option<Seq<char>>;

/// The number of bytes of `b` that can open a level of nesting in TOML:
/// `[` (arrays and table headers), `{` (inline tables) and `.` (dotted keys
/// and headers).
pub open spec fn nesting_marks(b: Seq<u8>) -> int
    decreases b.len(),
{
    if b.len() == 0 {
        0
    } else {
        nesting_marks(b.drop_last()) + if b.last() == 91u8 || b.last() == 123u8 || b.last() == 46u8 {
            1int
        } else {
            0int
        }
    }
}

/// The most nesting marks that a configuration text may hold. Every level
/// below the top that the TOML parser recurses into, and every level below
/// the top of the value it builds, is opened by a mark of its own, so this
/// bounds the depth of its recursion.
pub const MAX_NESTING_MARKS: usize = 128;

/// The nesting marks of `text`, as `nesting_marks` counts them.
pub fn count_nesting_marks(text: &str) -> (n: usize)
    ensures
        n == nesting_marks(text.spec_bytes()),
{
    let bytes = text.as_bytes();
    let mut n: usize = 0;
    let mut k: usize = 0;
    while k < bytes.len()
        invariant
            k <= bytes@.len(),
            bytes@ == text.spec_bytes(),
            n == nesting_marks(bytes@.subrange(0, k as int)),
            n <= k,
        decreases bytes@.len() - k,
    {
        let b = bytes[k];
        proof {
            assert(bytes@.subrange(0, k + 1).drop_last() =~= bytes@.subrange(0, k as int));
        }
        if b == 91u8 || b == 123u8 || b == 46u8 {
            n = n + 1;
        }
        k = k + 1;
    }
    proof {
        assert(bytes@.subrange(0, bytes@.len() as int) =~= bytes@);
    }
    n
}

/// Parses `text` with `toml::Value`'s `FromStr`, looks up `table` and then
/// `key` with `Value::get`, and writes the entry back with `toml::to_string`,
/// the text that `Value`'s `Display` prints. Trusted: the result is the one
/// that `toml_entry` names for the three arguments. The parser recurses once
/// per level of nesting, with no limit of its own; the `requires` bounds the
/// levels by bounding the marks that open them.
#[verifier::external_body]
pub(crate) fn toml_lookup(text: &str, table: &str, key: &str) -> (entry: Option<String>)
    requires
        nesting_marks(text.spec_bytes()) <= MAX_NESTING_MARKS,
    ensures
        match entry {
            Some(s) => toml_entry(text@, table@, key@) == Some(s@),
            None => toml_entry(text@, table@, key@) is None,
        },
{
    let value = text.parse::<toml::Value>().ok()?;
    let found = value.get(table)?.get(key)?;
    toml::to_string(found).ok()
}

/// Whether the surrounding quotes of `s` can be stripped: two characters at
/// least, the last one a single byte.
pub open spec fn strippable(s: Seq<char>) -> bool {
    s.len() >= 2 && (s.last() as u32) < 128
}

/// `s` without its first and last characters.
pub open spec fn stripped(s: Seq<char>) -> Seq<char> {
    s.subrange(1, s.len() - 1)
}

/// The arguments of `dd` for the sequential-write benchmark, made from the
/// configuration entries `ssd_path`, `bs`, `count` and `oflag` as written
/// in TOML: the quotes of the three strings are stripped, the count is
/// taken as it stands. None where a string cannot be stripped.
pub open spec fn dd_argument_list(
    ssd_path: Seq<char>,
    bs: Seq<char>,
    count: Seq<char>,
    oflag: Seq<char>,
) -> Option<Seq<Seq<char>>> {
    if strippable(ssd_path) && strippable(bs) && strippable(oflag) {
        Some(
            seq![
                "if=/dev/zero"@,
                "of="@ + stripped(ssd_path) + "/testfile"@,
                "bs="@ + stripped(bs),
                "count="@ + count,
                "oflag="@ + stripped(oflag),
            ],
        )
    } else {
        None
    }
}

/// Whether the strings `args` are the sequence `expected`, or both are
/// absent.
pub open spec fn same_arguments(args: Option<Vec<String>>, expected: Option<Seq<Seq<char>>>) -> bool {
    match (args, expected) {
        (Some(a), Some(e)) => a@.map_values(|s: String| s@) == e,
        (None, None) => true,
        _ => false,
    }
}

fn strip_checked(s: String) -> (t: Option<String>)
    ensures
        match t {
            Some(v) => strippable(s@) && v@ == stripped(s@),
            None => !strippable(s@),
        },
{
    let n = s.as_str().unicode_len();
    if n < 2 {
        return None;
    }
    let last = s.as_str().get_char(n - 1);
    if (last as u32) >= 128 {
        return None;
    }
    Some(strip(s))
}

/// The arguments of `dd` made from the configuration entries, as
/// `dd_argument_list` gives them.
pub fn dd_command_arguments(ssd_path: String, bs: String, count: String, oflag: String) -> (args: Option<Vec<String>>)
    ensures
        same_arguments(args, dd_argument_list(ssd_path@, bs@, count@, oflag@)),
{
    let ghost (p0, b0, c0, o0) = (ssd_path@, bs@, count@, oflag@);
    let path = match strip_checked(ssd_path) {
        Some(v) => v,
        None => return None,
    };
    let block = match strip_checked(bs) {
        Some(v) => v,
        None => return None,
    };
    let flag = match strip_checked(oflag) {
        Some(v) => v,
        None => return None,
    };
    let mut of_arg = String::from_str("of=");
    of_arg.append(path.as_str());
    of_arg.append("/testfile");
    let mut bs_arg = String::from_str("bs=");
    bs_arg.append(block.as_str());
    let mut count_arg = String::from_str("count=");
    count_arg.append(count.as_str());
    let mut oflag_arg = String::from_str("oflag=");
    oflag_arg.append(flag.as_str());
    let mut args: Vec<String> = Vec::new();
    args.push(String::from_str("if=/dev/zero"));
    args.push(of_arg);
    args.push(bs_arg);
    args.push(count_arg);
    args.push(oflag_arg);
    proof {
        let e = dd_argument_list(p0, b0, c0, o0).unwrap();
        assert(args@.map_values(|s: String| s@) =~= e);
    }
    Some(args)
}

/// The arguments of `dd` for the sequential-write benchmark, read from the
/// configuration text `config`: `SSD_PATH` of the table `common`, and `BS`,
/// `COUNT` and `oflag` of the table `sequential_write`. None where the text
/// holds more than `MAX_NESTING_MARKS` nesting marks, an entry is missing or
/// a string entry cannot be stripped of its quotes.
pub fn dd_arguments(config: &str) -> (args: Option<Vec<String>>)
    ensures
        nesting_marks(config.spec_bytes()) > MAX_NESTING_MARKS ==> args is None,
        nesting_marks(config.spec_bytes()) <= MAX_NESTING_MARKS ==> match (
            toml_entry(config@, "common"@, "SSD_PATH"@),
            toml_entry(config@, "sequential_write"@, "BS"@),
            toml_entry(config@, "sequential_write"@, "COUNT"@),
            toml_entry(config@, "sequential_write"@, "oflag"@),
        ) {
            (Some(p), Some(b), Some(c), Some(o)) => same_arguments(args, dd_argument_list(p, b, c, o)),
            _ => args is None,
        },
{
    if count_nesting_marks(config) > MAX_NESTING_MARKS {
        return None;
    }
    let ssd_path = match toml_lookup(config, "common", "SSD_PATH") {
        Some(v) => v,
        None => return None,
    };
    let bs = match toml_lookup(config, "sequential_write", "BS") {
        Some(v) => v,
        None => return None,
    };
    let count = match toml_lookup(config, "sequential_write", "COUNT") {
        Some(v) => v,
        None => return None,
    };
    let oflag = match toml_lookup(config, "sequential_write", "oflag") {
        Some(v) => v,
        None => return None,
    };
    dd_command_arguments(ssd_path, bs, count, oflag)
}


/// Whether `c` is a decimal digit.
pub open spec fn is_digit(c: char) -> bool {
    '0' <= c && c <= '9'
}

/// Whether every character of `d` is a decimal digit.
pub open spec fn all_digits(d: Seq<char>) -> bool {
    forall|i: int| 0 <= i < d.len() ==> is_digit(#[trigger] d[i])
}

/// The number that the decimal digits `d` write.
pub open spec fn digits_value(d: Seq<char>) -> int
    decreases d.len(),
{
    if d.len() == 0 {
        0
    } else {
        digits_value(d.drop_last()) * 10 + (d.last() as int - '0' as int)
    }
}

/// `s` without a leading `+`.
pub open spec fn unsigned_digits(s: Seq<char>) -> Seq<char> {
    if s.len() > 0 && s[0] == '+' {
        s.subrange(1, s.len() as int)
    } else {
        s
    }
}

/// The value that parsing `s` as a `u64` gives: an optional `+`, then one
/// decimal digit at least; none for any other text or a value past
/// `u64::MAX`.
pub open spec fn parsed_u64(s: Seq<char>) -> Option<int> {
    let d = unsigned_digits(s);
    if d.len() > 0 && all_digits(d) && digits_value(d) <= u64::MAX {
        Some(digits_value(d))
    } else {
        None
    }
}

proof fn lemma_digits_prefix(d: Seq<char>, k: int)
    requires
        all_digits(d),
        0 <= k <= d.len(),
    ensures
        0 <= digits_value(d.subrange(0, k)) <= digits_value(d),
    decreases d.len(),
{
    if k == d.len() {
        assert(d.subrange(0, k) =~= d);
        if d.len() > 0 {
            lemma_digits_prefix(d.drop_last(), k - 1);
            assert(d.drop_last().subrange(0, k - 1) =~= d.drop_last());
            assert(is_digit(d[d.len() - 1]));
        }
    } else {
        lemma_digits_prefix(d.drop_last(), k);
        assert(d.drop_last().subrange(0, k) =~= d.subrange(0, k));
        lemma_digits_prefix(d.drop_last(), d.len() - 1);
        assert(d.drop_last().subrange(0, d.len() - 1) =~= d.drop_last());
        assert(is_digit(d[d.len() - 1]));
    }
}

/// `s` read as a `u64`, as `parsed_u64` says.
pub fn parse_u64(s: &Vec<char>) -> (v: Option<u64>)
    ensures
        match v {
            Some(n) => parsed_u64(s@) == Some(n as int),
            None => parsed_u64(s@) is None,
        },
{
    let mut start: usize = 0;
    if s.len() > 0 && s[0] == '+' {
        start = 1;
    }
    let ghost d = unsigned_digits(s@);
    proof {
        assert(d =~= s@.subrange(start as int, s@.len() as int));
    }
    if start >= s.len() {
        return None;
    }
    let mut acc: u64 = 0;
    let mut k: usize = start;
    proof {
        assert(d.subrange(0, 0) =~= Seq::<char>::empty());
    }
    while k < s.len()
        invariant
            start <= k <= s@.len(),
            start <= 1,
            d == unsigned_digits(s@),
            d =~= s@.subrange(start as int, s@.len() as int),
            all_digits(d.subrange(0, k - start)),
            acc == digits_value(d.subrange(0, k - start)),
        decreases s@.len() - k,
    {
        let c = s[k];
        let ghost i: int = k - start;
        proof {
            assert(d[i] == c);
        }
        if !(c >= '0' && c <= '9') {
            proof {
                assert(!is_digit(d[i]));
            }
            return None;
        }
        let digit: u64 = (c as u32 - '0' as u32) as u64;
        proof {
            assert(d.subrange(0, i + 1).drop_last() =~= d.subrange(0, i));
            assert(d.subrange(0, i + 1).last() == c);
            assert(all_digits(d.subrange(0, i + 1)));
        }
        let m = match acc.checked_mul(10) {
            Some(m) => m,
            None => {
                proof {
                    if all_digits(d) {
                        lemma_digits_prefix(d, i + 1);
                        lemma_digits_prefix(d.subrange(0, i + 1), i);
                        assert(d.subrange(0, i + 1).subrange(0, i) =~= d.subrange(0, i));
                    }
                }
                return None;
            },
        };
        acc = match m.checked_add(digit) {
            Some(a) => a,
            None => {
                proof {
                    assert(digits_value(d.subrange(0, i + 1)) == acc * 10 + digit);
                    if all_digits(d) {
                        lemma_digits_prefix(d, i + 1);
                    }
                }
                return None;
            },
        };
        k = k + 1;
    }
    proof {
        assert(d.subrange(0, d.len() as int) =~= d);
    }
    Some(acc)
}


/// Whether `c` is an ASCII letter.
pub open spec fn ascii_letter(c: char) -> bool {
    ('a' <= c && c <= 'z') || ('A' <= c && c <= 'Z')
}

/// Whether every character of `s` is ASCII.
pub open spec fn all_ascii(s: Seq<char>) -> bool {
    forall|i: int| 0 <= i < s.len() ==> (#[trigger] s[i] as u32) < 128
}

/// The letters of `s`, in order: the unit of a block size such as `4KB`.
pub open spec fn letters(s: Seq<char>) -> Seq<char>
    decreases s.len(),
{
    if s.len() == 0 {
        s
    } else if ascii_letter(s.last()) {
        letters(s.drop_last()).push(s.last())
    } else {
        letters(s.drop_last())
    }
}

/// The characters of `s` that are not letters, in order: the number of a
/// block size such as `4KB`.
pub open spec fn non_letters(s: Seq<char>) -> Seq<char>
    decreases s.len(),
{
    if s.len() == 0 {
        s
    } else if ascii_letter(s.last()) {
        non_letters(s.drop_last())
    } else {
        non_letters(s.drop_last()).push(s.last())
    }
}

/// `1024` to the power `p`.
pub open spec fn kib_power(p: int) -> int
    decreases p,
{
    if p <= 0 {
        1
    } else {
        1024 * kib_power(p - 1)
    }
}

/// The number of bytes that `count` blocks of the size `bs` (a number and a
/// unit among `KB`, `MB`, `G`, such as `4KB`) make. None where `bs` holds a
/// character that is not ASCII, its number does not parse, its unit is not
/// one of those three (bytes `B` included), or a product passes
/// `u64::MAX`.
pub open spec fn write_size_of(bs: Seq<char>, count: int) -> Option<int> {
    match (parsed_u64(non_letters(bs)), unit_power(letters(bs))) {
        (Some(n), Some(p)) => if all_ascii(bs) && p > 0 && n * count <= u64::MAX && n * count
            * kib_power(p) <= u64::MAX {
            Some(n * count * kib_power(p))
        } else {
            None
        },
        _ => None,
    }
}

/// The power of 1024 that the unit `u` stands for, as `unit_power` says.
fn unit_power_chars(u: &Vec<char>) -> (p: Option<u64>)
    ensures
        match p {
            Some(v) => unit_power(u@) == Some(v as int),
            None => unit_power(u@) is None,
        },
{
    proof {
        reveal_strlit("B");
        reveal_strlit("KB");
        reveal_strlit("MB");
        reveal_strlit("G");
    }
    if u.len() == 1 && u[0] == 'B' {
        assert(u@ =~= "B"@);
        Some(0)
    } else if u.len() == 2 && u[0] == 'K' && u[1] == 'B' {
        assert(u@ =~= "KB"@);
        Some(1)
    } else if u.len() == 2 && u[0] == 'M' && u[1] == 'B' {
        assert(u@ =~= "MB"@);
        Some(2)
    } else if u.len() == 1 && u[0] == 'G' {
        assert(u@ =~= "G"@);
        Some(3)
    } else {
        assert(u@ != "B"@ && u@ != "KB"@ && u@ != "MB"@ && u@ != "G"@) by {
            if u@ == "B"@ || u@ == "G"@ {
                assert(u@[0] == "B"@[0] || u@[0] == "G"@[0]);
            }
            if u@ == "KB"@ || u@ == "MB"@ {
                assert(u@[0] == "KB"@[0] || u@[0] == "MB"@[0]);
                assert(u@[1] == "KB"@[1]);
            }
        }
        None
    }
}

/// The number of bytes that `count` blocks of the size `bs` make, as
/// `write_size_of` says.
pub fn write_size(bs: &str, count: u64) -> (n: Option<u64>)
    ensures
        match n {
            Some(v) => write_size_of(bs@, count as int) == Some(v as int),
            None => write_size_of(bs@, count as int) is None,
        },
{
    let len = bs.unicode_len();
    let mut num: Vec<char> = Vec::new();
    let mut unit: Vec<char> = Vec::new();
    let mut k: usize = 0;
    proof {
        assert(bs@.subrange(0, 0) =~= Seq::<char>::empty());
    }
    while k < len
        invariant
            len == bs@.len(),
            k <= len,
            num@ == non_letters(bs@.subrange(0, k as int)),
            unit@ == letters(bs@.subrange(0, k as int)),
            all_ascii(bs@.subrange(0, k as int)),
        decreases len - k,
    {
        let c = bs.get_char(k);
        let ghost next = bs@.subrange(0, k + 1);
        proof {
            assert(next.drop_last() =~= bs@.subrange(0, k as int));
            assert(next.last() == c);
        }
        if (c as u32) >= 128 {
            proof {
                assert(!((bs@[k as int] as u32) < 128));
            }
            return None;
        }
        if (c >= 'a' && c <= 'z') || (c >= 'A' && c <= 'Z') {
            unit.push(c);
        } else {
            num.push(c);
        }
        k = k + 1;
        proof {
            assert forall|i: int| 0 <= i < next.len() implies (#[trigger] next[i] as u32) < 128 by {
                if i < k - 1 {
                    assert(next[i] == bs@.subrange(0, k - 1)[i]);
                }
            }
        }
    }
    proof {
        assert(bs@.subrange(0, len as int) =~= bs@);
    }
    let n = match parse_u64(&num) {
        Some(v) => v,
        None => return None,
    };
    let p = match unit_power_chars(&unit) {
        Some(v) => v,
        None => return None,
    };
    if p == 0 {
        return None;
    }
    let product = match n.checked_mul(count) {
        Some(v) => v,
        None => return None,
    };
    let scale: u64 = if p == 1 {
        1024
    } else if p == 2 {
        1048576
    } else {
        1073741824
    };
    proof {
        reveal_with_fuel(kib_power, 4);
        assert(scale == kib_power(p as int));
        assert(n * count * kib_power(p as int) == product * scale);
    }
    product.checked_mul(scale)
}

/// The characters of `s`.
fn chars_of(s: &str) -> (v: Vec<char>)
    ensures
        v@ == s@,
{
    let len = s.unicode_len();
    let mut v: Vec<char> = Vec::new();
    let mut k: usize = 0;
    while k < len
        invariant
            len == s@.len(),
            k <= len,
            v@ == s@.subrange(0, k as int),
        decreases len - k,
    {
        v.push(s.get_char(k));
        k = k + 1;
    }
    proof {
        assert(s@.subrange(0, len as int) =~= s@);
    }
    v
}

/// The number of bytes that the benchmark writes, from the configuration
/// entries `bs` and `count` as written in TOML: `bs` stripped of its quotes,
/// `count` read as a `u64`. None where `bs` cannot be stripped or `count`
/// does not parse.
pub open spec fn entries_write_size(bs: Seq<char>, count: Seq<char>) -> Option<int> {
    if strippable(bs) {
        match parsed_u64(count) {
            Some(c) => write_size_of(stripped(bs), c),
            None => None,
        }
    } else {
        None
    }
}

/// The number of bytes that the benchmark writes, from the configuration
/// entries `bs` and `count`, as `entries_write_size` says.
pub fn write_size_from_entries(bs: String, count: String) -> (n: Option<u64>)
    ensures
        match n {
            Some(v) => entries_write_size(bs@, count@) == Some(v as int),
            None => entries_write_size(bs@, count@) is None,
        },
{
    let block = match strip_checked(bs) {
        Some(v) => v,
        None => return None,
    };
    let digits = chars_of(count.as_str());
    let c = match parse_u64(&digits) {
        Some(v) => v,
        None => return None,
    };
    write_size(block.as_str(), c)
}

/// The number of bytes that the sequential-write benchmark writes, read from
/// the configuration text `config`: `BS` and `COUNT` of the table
/// `sequential_write`. None where the text holds more than
/// `MAX_NESTING_MARKS` nesting marks, an entry is missing or
/// `entries_write_size` gives none.
pub fn config_write_size(config: &str) -> (n: Option<u64>)
    ensures
        nesting_marks(config.spec_bytes()) > MAX_NESTING_MARKS ==> n is None,
        nesting_marks(config.spec_bytes()) <= MAX_NESTING_MARKS ==> match (
            toml_entry(config@, "sequential_write"@, "BS"@),
            toml_entry(config@, "sequential_write"@, "COUNT"@),
        ) {
            (Some(b), Some(c)) => match n {
                Some(v) => entries_write_size(b, c) == Some(v as int),
                None => entries_write_size(b, c) is None,
            },
            _ => n is None,
        },
{
    if count_nesting_marks(config) > MAX_NESTING_MARKS {
        return None;
    }
    let bs = match toml_lookup(config, "sequential_write", "BS") {
        Some(v) => v,
        None => return None,
    };
    let count = match toml_lookup(config, "sequential_write", "COUNT") {
        Some(v) => v,
        None => return None,
    };
    write_size_from_entries(bs, count)
}


/// Where the sequential write through the block-device framework stands:
/// the request whose outcome it waits for.
#[derive(PartialEq, Eq, Structural, Debug, Clone, Copy)]
pub enum SeqWritePhase {
    Begin,
    AwaitDevice,
    AwaitOpen,
    AwaitChannel,
    AwaitWrite,
    AwaitRelease,
    Done,
}

/// What the framework reported for the last request.
#[derive(PartialEq, Eq, Structural, Debug, Clone, Copy)]
pub enum SeqWriteEvent {
    /// The framework has started.
    Start,
    /// The device lookup ended; whether the device was found.
    DeviceLookedUp(bool),
    /// Opening the device for writing ended; whether it succeeded.
    Opened(bool),
    /// Getting an I/O channel ended; whether it succeeded.
    ChannelGot(bool),
    /// The write ended; whether it succeeded.
    WriteDone(bool),
    /// The channel was put back and the device closed.
    Released,
}

/// What the benchmark asks of the framework next.
#[derive(PartialEq, Eq, Structural, Debug, Clone, Copy)]
pub enum SeqWriteAction {
    /// Look up the device `Nvme0n1`.
    LookUpDevice,
    /// Open the device for writing.
    OpenForWriting,
    /// Get an I/O channel on the open device.
    GetIoChannel,
    /// Fill a buffer of this many random bytes and write it at offset 0,
    /// timing the write.
    WriteBuffer(u64),
    /// Put the I/O channel back and close the device.
    Release,
    /// Report success (`true`) or failure and stop the framework.
    Finish(bool),
    /// Give up: the device does not exist.
    Abort,
    /// Nothing: the event does not belong to this phase.
    Nothing,
}

/// The next phase and action of the sequential write, from the phase it is
/// in, the event that came, and the number of bytes to write. The device is
/// looked up, opened for writing, given an I/O channel, written to once at
/// offset 0, released, and the run reported. A missing device aborts the
/// run; a failed channel ends it as a failure without a write or a release;
/// a failed open or write is passed over.
pub open spec fn seq_write_next(phase: SeqWritePhase, event: SeqWriteEvent, write_size: u64) -> (
    SeqWritePhase,
    SeqWriteAction,
) {
    match (phase, event) {
        (SeqWritePhase::Begin, SeqWriteEvent::Start) => (SeqWritePhase::AwaitDevice, SeqWriteAction::LookUpDevice),
        (SeqWritePhase::AwaitDevice, SeqWriteEvent::DeviceLookedUp(found)) => if found {
            (SeqWritePhase::AwaitOpen, SeqWriteAction::OpenForWriting)
        } else {
            (SeqWritePhase::Done, SeqWriteAction::Abort)
        },
        (SeqWritePhase::AwaitOpen, SeqWriteEvent::Opened(_)) => (
            SeqWritePhase::AwaitChannel,
            SeqWriteAction::GetIoChannel,
        ),
        (SeqWritePhase::AwaitChannel, SeqWriteEvent::ChannelGot(ok)) => if ok {
            (SeqWritePhase::AwaitWrite, SeqWriteAction::WriteBuffer(write_size))
        } else {
            (SeqWritePhase::Done, SeqWriteAction::Finish(false))
        },
        (SeqWritePhase::AwaitWrite, SeqWriteEvent::WriteDone(_)) => (
            SeqWritePhase::AwaitRelease,
            SeqWriteAction::Release,
        ),
        (SeqWritePhase::AwaitRelease, SeqWriteEvent::Released) => (
            SeqWritePhase::Done,
            SeqWriteAction::Finish(true),
        ),
        _ => (phase, SeqWriteAction::Nothing),
    }
}

/// One step of the sequential write, as `seq_write_next` says.
pub fn seq_write_step(phase: SeqWritePhase, event: SeqWriteEvent, write_size: u64) -> (next: (
    SeqWritePhase,
    SeqWriteAction,
))
    ensures
        next == seq_write_next(phase, event, write_size),
{
    match (phase, event) {
        (SeqWritePhase::Begin, SeqWriteEvent::Start) => (SeqWritePhase::AwaitDevice, SeqWriteAction::LookUpDevice),
        (SeqWritePhase::AwaitDevice, SeqWriteEvent::DeviceLookedUp(found)) => if found {
            (SeqWritePhase::AwaitOpen, SeqWriteAction::OpenForWriting)
        } else {
            (SeqWritePhase::Done, SeqWriteAction::Abort)
        },
        (SeqWritePhase::AwaitOpen, SeqWriteEvent::Opened(_)) => (
            SeqWritePhase::AwaitChannel,
            SeqWriteAction::GetIoChannel,
        ),
        (SeqWritePhase::AwaitChannel, SeqWriteEvent::ChannelGot(ok)) => if ok {
            (SeqWritePhase::AwaitWrite, SeqWriteAction::WriteBuffer(write_size))
        } else {
            (SeqWritePhase::Done, SeqWriteAction::Finish(false))
        },
        (SeqWritePhase::AwaitWrite, SeqWriteEvent::WriteDone(_)) => (
            SeqWritePhase::AwaitRelease,
            SeqWriteAction::Release,
        ),
        (SeqWritePhase::AwaitRelease, SeqWriteEvent::Released) => (
            SeqWritePhase::Done,
            SeqWriteAction::Finish(true),
        ),
        _ => (phase, SeqWriteAction::Nothing),
    }
}

/// Law of `seq_write_step`: the device is written to only after a channel
/// was got, the write is always of the configured size at offset 0, and
/// once the run is done every event leaves it done and asks for nothing.
pub proof fn lemma_seq_write_order(phase: SeqWritePhase, event: SeqWriteEvent, write_size: u64)
    ensures
        seq_write_next(phase, event, write_size).1 is WriteBuffer ==> phase == SeqWritePhase::AwaitChannel
            && event == SeqWriteEvent::ChannelGot(true)
            && seq_write_next(phase, event, write_size).1 == SeqWriteAction::WriteBuffer(write_size),
        phase == SeqWritePhase::Done ==> seq_write_next(phase, event, write_size) == (
            SeqWritePhase::Done,
            SeqWriteAction::Nothing,
        ),
{
}


/// Law of `seq_write_step`: a run that got an I/O channel gives it back
/// before it finishes. Whatever the write's outcome, the next request is
/// the release; the release is asked for only right after the write; and a
/// successful finish comes only once the release is done.
pub proof fn lemma_seq_write_releases(phase: SeqWritePhase, event: SeqWriteEvent, write_size: u64, ok: bool)
    ensures
        seq_write_next(SeqWritePhase::AwaitWrite, SeqWriteEvent::WriteDone(ok), write_size) == (
            SeqWritePhase::AwaitRelease,
            SeqWriteAction::Release,
        ),
        seq_write_next(phase, event, write_size).1 == SeqWriteAction::Release ==> phase
            == SeqWritePhase::AwaitWrite && event is WriteDone,
        seq_write_next(phase, event, write_size).0 == SeqWritePhase::AwaitRelease ==> phase
            == SeqWritePhase::AwaitRelease || seq_write_next(phase, event, write_size).1
            == SeqWriteAction::Release,
        seq_write_next(phase, event, write_size).1 == SeqWriteAction::Finish(true) ==> phase
            == SeqWritePhase::AwaitRelease && event == SeqWriteEvent::Released,
        seq_write_next(phase, event, write_size).1 == SeqWriteAction::Finish(false) ==> phase
            == SeqWritePhase::AwaitChannel && event == SeqWriteEvent::ChannelGot(false),
{
}


/// Law of `seq_write_step`, its error policy: only a missing device aborts
/// the run; the outcome of opening the device is passed over, the channel
/// being asked for either way; a found device is opened for writing; and
/// the device is looked up once, at the start.
pub proof fn lemma_seq_write_policy(phase: SeqWritePhase, event: SeqWriteEvent, write_size: u64, ok: bool)
    ensures
        seq_write_next(phase, event, write_size).1 == SeqWriteAction::Abort ==> phase
            == SeqWritePhase::AwaitDevice && event == SeqWriteEvent::DeviceLookedUp(false),
        seq_write_next(SeqWritePhase::AwaitOpen, SeqWriteEvent::Opened(ok), write_size) == (
            SeqWritePhase::AwaitChannel,
            SeqWriteAction::GetIoChannel,
        ),
        seq_write_next(SeqWritePhase::AwaitDevice, SeqWriteEvent::DeviceLookedUp(true), write_size) == (
            SeqWritePhase::AwaitOpen,
            SeqWriteAction::OpenForWriting,
        ),
        seq_write_next(phase, event, write_size).1 == SeqWriteAction::LookUpDevice ==> phase
            == SeqWritePhase::Begin && event == SeqWriteEvent::Start,
        seq_write_next(phase, event, write_size).1 == SeqWriteAction::OpenForWriting ==> phase
            == SeqWritePhase::AwaitDevice && event == SeqWriteEvent::DeviceLookedUp(true),
        seq_write_next(phase, event, write_size).1 == SeqWriteAction::GetIoChannel ==> phase
            == SeqWritePhase::AwaitOpen && event is Opened,
{
}

/// The phase that the sequential write reaches, and the actions it asks
/// for, when it starts at `phase` and the events `events` come in order.
pub open spec fn seq_write_run(phase: SeqWritePhase, events: Seq<SeqWriteEvent>, write_size: u64) -> (
    SeqWritePhase,
    Seq<SeqWriteAction>,
)
    decreases events.len(),
{
    if events.len() == 0 {
        (phase, Seq::empty())
    } else {
        let (p, acts) = seq_write_run(phase, events.drop_last(), write_size);
        let (q, a) = seq_write_next(p, events.last(), write_size);
        (q, acts.push(a))
    }
}

/// Law of `seq_write_step` over a whole run from the start: whatever events
/// come, a successful finish is preceded by a release, and every release
/// is preceded by a write of the configured size.
pub proof fn lemma_seq_write_run_releases(events: Seq<SeqWriteEvent>, write_size: u64)
    ensures
        ({
            let acts = seq_write_run(SeqWritePhase::Begin, events, write_size).1;
            &&& acts.len() == events.len()
            &&& forall|k: int|
                0 <= k < acts.len() && acts[k] == SeqWriteAction::Finish(true) ==> exists|j: int|
                    0 <= j < k && acts[j] == SeqWriteAction::Release
            &&& forall|k: int|
                0 <= k < acts.len() && acts[k] == SeqWriteAction::Release ==> exists|j: int|
                    0 <= j < k && acts[j] == SeqWriteAction::WriteBuffer(write_size)
        }),
        seq_write_run(SeqWritePhase::Begin, events, write_size).0 == SeqWritePhase::AwaitRelease ==> exists|
            j: int,
        |
            0 <= j < events.len() && seq_write_run(SeqWritePhase::Begin, events, write_size).1[j]
                == SeqWriteAction::Release,
        seq_write_run(SeqWritePhase::Begin, events, write_size).0 == SeqWritePhase::AwaitWrite ==> exists|
            j: int,
        |
            0 <= j < events.len() && seq_write_run(SeqWritePhase::Begin, events, write_size).1[j]
                == SeqWriteAction::WriteBuffer(write_size),
    decreases events.len(),
{
    if events.len() > 0 {
        let prev = events.drop_last();
        lemma_seq_write_run_releases(prev, write_size);
        let (p, acts) = seq_write_run(SeqWritePhase::Begin, prev, write_size);
        let (q, a) = seq_write_next(p, events.last(), write_size);
        let all = acts.push(a);
        assert(seq_write_run(SeqWritePhase::Begin, events, write_size) == (q, all));
        lemma_seq_write_releases(p, events.last(), write_size, true);
        assert forall|k: int|
            0 <= k < all.len() && all[k] == SeqWriteAction::Finish(true) implies exists|j: int|
                0 <= j < k && all[j] == SeqWriteAction::Release by {
            if k < acts.len() {
                assert(acts[k] == all[k]);
                let j = choose|j: int| 0 <= j < k && acts[j] == SeqWriteAction::Release;
                assert(all[j] == acts[j]);
            } else {
                let j = choose|j: int| 0 <= j < prev.len() && acts[j] == SeqWriteAction::Release;
                assert(all[j] == acts[j]);
            }
        }
        assert forall|k: int|
            0 <= k < all.len() && all[k] == SeqWriteAction::Release implies exists|j: int|
                0 <= j < k && all[j] == SeqWriteAction::WriteBuffer(write_size) by {
            if k < acts.len() {
                assert(acts[k] == all[k]);
                let j = choose|j: int| 0 <= j < k && acts[j] == SeqWriteAction::WriteBuffer(write_size);
                assert(all[j] == acts[j]);
            } else {
                let j = choose|j: int|
                    0 <= j < prev.len() && acts[j] == SeqWriteAction::WriteBuffer(write_size);
                assert(all[j] == acts[j]);
            }
        }
        if q == SeqWritePhase::AwaitRelease {
            if a == SeqWriteAction::Release {
                assert(all[prev.len() as int] == a);
            } else {
                let j = choose|j: int| 0 <= j < prev.len() && acts[j] == SeqWriteAction::Release;
                assert(all[j] == acts[j]);
            }
        }
        if q == SeqWritePhase::AwaitWrite {
            if a == SeqWriteAction::WriteBuffer(write_size) {
                assert(all[prev.len() as int] == a);
            } else {
                let j = choose|j: int|
                    0 <= j < prev.len() && acts[j] == SeqWriteAction::WriteBuffer(write_size);
                assert(all[j] == acts[j]);
            }
        }
    }
}


/// `f` stands in `report` where `dd` prints its throughput figure: on the
/// third line, after the last comma of that line (if any), as the second
/// space-separated word. That is, `report` is `pre + head + first + " " + f
/// + rest + post`, where `pre` is the first two lines with their line
/// breaks, `head` the third line up to and with its last comma (empty if it
/// has none), `first` the word before the figure (empty when a space
/// follows the comma), `rest` the rest of the line, starting with a space
/// unless empty, and `post` empty or starting with a line break.
pub open spec fn figure_place(report: Seq<char>, f: Seq<char>) -> bool {
    exists|pre: Seq<char>, head: Seq<char>, first: Seq<char>, rest: Seq<char>, post: Seq<char>|
        {
            &&& report == pre + head + first + seq![' '] + f + rest + post
            &&& count_char(pre, '\n') == 2 && pre.len() > 0 && pre.last() == '\n'
            &&& count_char(head + first + seq![' '] + f + rest, '\n') == 0
            &&& post.len() == 0 || post[0] == '\n'
            &&& head.len() == 0 || head.last() == ','
            &&& count_char(first + seq![' '] + f + rest, ',') == 0
            &&& count_char(first, ' ') == 0
            &&& count_char(f, ' ') == 0
            &&& rest.len() == 0 || rest[0] == ' '
        }
}

/// Law of `dd_throughput`: the figure read from a report is the whole
/// second word after the last comma of its third line, as `figure_place`
/// describes, so never a part of a word nor another word.
pub proof fn lemma_dd_figure_place(report: Seq<char>)
    ensures
        dd_figure(report) is Some ==> figure_place(report, dd_figure(report)->0),
{
    let lines = split(report, '\n');
    if lines.len() >= 3 {
        let line = lines[2];
        let parts = split(line, ',');
        lemma_split_nonempty(line, ',');
        let k = parts.len() - 1;
        let part = parts[k];
        let words = split(part, ' ');
        if words.len() >= 2 {
            let f = words[1];
            let (pre, post) = lemma_split_piece(report, '\n', 2);
            let (head, b2) = lemma_split_piece(line, ',', k);
            let (a3, rest) = lemma_split_piece(part, ' ', 1);
            let first = a3.drop_last();
            assert(a3 =~= first + seq![' ']);
            lemma_count_concat(first, seq![' '], ' ');
            assert(count_char(seq![' '], ' ') == 1) by {
                assert(seq![' '].drop_last() =~= Seq::<char>::empty());
            }
            assert(part =~= first + seq![' '] + f + rest);
            assert(line =~= head + first + seq![' '] + f + rest);
            assert(report =~= pre + head + first + seq![' '] + f + rest + post);
            lemma_count_none(line, '\n');
            lemma_count_none(part, ',');
            lemma_count_none(f, ' ');
            assert(parts.last() == part);
            assert(dd_figure(report) == Some(f));
            assert(figure_place(report, f)) by {
                assert(report == pre + head + first + seq![' '] + f + rest + post);
            }
        } else {
            assert(dd_figure(report) is None);
        }
    } else {
        assert(dd_figure(report) is None);
    }
}

} // verus!
