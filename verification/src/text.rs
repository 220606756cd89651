//! Byte-level text helpers: ASCII case folding, substring search and
//! suffix extraction on the UTF-8 bytes of a `str`.
use vstd::prelude::*;
use vstd::string::*;
use vstd::utf8::*;

verus! {

broadcast use vstd::utf8::group_utf8_lib;

/// The UTF-8 bytes of a string slice.
pub open spec fn bytes_of(s: &str) -> Seq<u8> {
    s.spec_bytes()
}

/// ASCII lower-casing of one byte; every other byte is left alone.
pub open spec fn ascii_lower(b: u8) -> u8 {
    if 65 <= b <= 90 {
        (b + 32) as u8
    } else {
        b
    }
}

/// `needle` occurs in `haystack` at byte position `at`, ignoring ASCII case.
pub open spec fn matches_at(haystack: Seq<u8>, needle: Seq<u8>, at: int) -> bool {
    &&& 0 <= at
    &&& at + needle.len() <= haystack.len()
    &&& forall|j: int|
        0 <= j < needle.len() ==> ascii_lower(#[trigger] haystack[at + j]) == ascii_lower(needle[j])
}

/// `needle` occurs somewhere in `haystack`, ignoring ASCII case; the empty
/// needle occurs in every haystack.
pub open spec fn contains_ci(haystack: Seq<u8>, needle: Seq<u8>) -> bool {
    needle.len() == 0 || exists|at: int| #[trigger] matches_at(haystack, needle, at)
}

/// `haystack` begins with `prefix`, ignoring ASCII case.
pub open spec fn starts_with_ci(haystack: Seq<u8>, prefix: Seq<u8>) -> bool {
    matches_at(haystack, prefix, 0)
}

/// ASCII lower-casing of a whole byte sequence.
pub open spec fn lower_all(s: Seq<u8>) -> Seq<u8> {
    Seq::new(s.len(), |i: int| ascii_lower(s[i]))
}

/// Index of the last occurrence of `b` in `s`, or `-1` when there is none.
pub open spec fn last_index_of(s: Seq<u8>, b: u8) -> int
    decreases s.len(),
{
    if s.len() == 0 {
        -1
    } else if s.last() == b {
        s.len() - 1
    } else {
        last_index_of(s.drop_last(), b)
    }
}

/// The part of `s` after the last occurrence of `b` (all of `s` when `b`
/// does not occur).
pub open spec fn after_last(s: Seq<u8>, b: u8) -> Seq<u8> {
    s.subrange(last_index_of(s, b) + 1, s.len() as int)
}

pub proof fn lemma_last_index_of(s: Seq<u8>, b: u8)
    ensures
        -1 <= last_index_of(s, b) < s.len(),
        last_index_of(s, b) >= 0 ==> s[last_index_of(s, b)] == b,
        forall|j: int| last_index_of(s, b) < j < s.len() ==> s[j] != b,
    decreases s.len(),
{
    if s.len() > 0 && s.last() != b {
        lemma_last_index_of(s.drop_last(), b);
        assert forall|j: int| last_index_of(s, b) < j < s.len() implies s[j] != b by {
            if j < s.len() - 1 {
                assert(s[j] == s.drop_last()[j]);
            }
        }
    }
}

fn lower_byte(b: u8) -> (r: u8)
    ensures
        r == ascii_lower(b),
{
    if 65 <= b && b <= 90 {
        b + 32
    } else {
        b
    }
}

/// Whether `needle` occurs in `haystack`, comparing bytes with ASCII case
/// folding. The empty needle is found in every haystack.
pub fn contains_ignore_ascii_case(haystack: &str, needle: &str) -> (res: bool)
    ensures
        res == contains_ci(bytes_of(haystack), bytes_of(needle)),
{
    let h = haystack.as_bytes();
    let n = needle.as_bytes();
    if n.len() == 0 {
        return true;
    }
    if h.len() < n.len() {
        assert forall|at: int| !matches_at(h@, n@, at) by {}
        return false;
    }
    let last = h.len() - n.len();
    let mut at: usize = 0;
    while at <= last
        invariant
            h@ == bytes_of(haystack),
            n@ == bytes_of(needle),
            n.len() > 0,
            last == h.len() - n.len(),
            at <= last + 1,
            forall|k: int| 0 <= k < at ==> !#[trigger] matches_at(h@, n@, k),
        decreases last + 1 - at,
    {
        let mut j: usize = 0;
        let mut same = true;
        while j < n.len()
            invariant
                at <= last,
                last == h.len() - n.len(),
                j <= n.len(),
                same ==> forall|i: int|
                    0 <= i < j ==> ascii_lower(#[trigger] h@[at + i]) == ascii_lower(n@[i]),
                !same ==> !matches_at(h@, n@, at as int),
            decreases n.len() - j,
        {
            if same && lower_byte(h[at + j]) != lower_byte(n[j]) {
                same = false;
                assert(!(ascii_lower(h@[at + j as int]) == ascii_lower(n@[j as int])));
            }
            j += 1;
        }
        if same {
            assert(matches_at(h@, n@, at as int));
            return true;
        }
        at += 1;
    }
    assert forall|k: int| !matches_at(h@, n@, k) by {
        if 0 <= k < at {
        }
    }
    false
}

/// Whether `haystack` begins with `prefix`, comparing bytes with ASCII case
/// folding.
pub fn starts_with_ignore_ascii_case(haystack: &str, prefix: &str) -> (res: bool)
    ensures
        res == starts_with_ci(bytes_of(haystack), bytes_of(prefix)),
{
    let h = haystack.as_bytes();
    let p = prefix.as_bytes();
    if h.len() < p.len() {
        return false;
    }
    let mut j: usize = 0;
    while j < p.len()
        invariant
            h@ == bytes_of(haystack),
            p@ == bytes_of(prefix),
            p.len() <= h.len(),
            j <= p.len(),
            forall|i: int| 0 <= i < j ==> ascii_lower(#[trigger] h@[0 + i]) == ascii_lower(p@[i]),
        decreases p.len() - j,
    {
        if lower_byte(h[j]) != lower_byte(p[j]) {
            assert(ascii_lower(h@[0 + j as int]) != ascii_lower(p@[j as int]));
            return false;
        }
        j += 1;
    }
    true
}

/// Position of the last byte of `s` equal to `b`.
pub fn rfind_byte(s: &[u8], b: u8) -> (res: Option<usize>)
    ensures
        match res {
            Some(i) => i as int == last_index_of(s@, b),
            None => last_index_of(s@, b) == -1,
        },
{
    let mut i = s.len();
    assert(s@.subrange(0, i as int) =~= s@);
    while i > 0
        invariant
            i <= s.len(),
            last_index_of(s@, b) == last_index_of(s@.subrange(0, i as int), b),
        decreases i,
    {
        assert(s@.subrange(0, i as int).drop_last() =~= s@.subrange(0, i - 1));
        if s[i - 1] == b {
            return Some(i - 1);
        }
        i -= 1;
    }
    None
}

/// The part of `s` after the ASCII byte at `idx`.
pub fn suffix_after(s: &str, idx: usize) -> (r: &str)
    requires
        idx < bytes_of(s).len(),
        bytes_of(s)[idx as int] < 128,
    ensures
        bytes_of(r) == bytes_of(s).subrange(idx + 1, bytes_of(s).len() as int),
{
    let ghost bytes = bytes_of(s);
    assert(valid_utf8(encode_utf8(s@)));
    assert(is_leading_byte_width_1(bytes[idx as int]));
    assert(is_char_boundary(bytes, idx as int));
    let (_, tail) = s.split_at(idx);
    let ghost tb = bytes_of(tail);
    assert(tb.len() >= 1 && tb[0] < 128);
    assert(is_char_boundary(tb, 1)) by {
        reveal_with_fuel(is_char_boundary, 2);
        assert(length_of_first_scalar(tb) == 1);
        assert(pop_first_scalar(tb) =~= tb.subrange(1, tb.len() as int));
    }
    let (_, rest) = tail.split_at(1);
    assert(bytes_of(rest) =~= bytes.subrange(idx + 1, bytes.len() as int));
    rest
}

/// The part of `s` after its last occurrence of the ASCII byte `b`, or all of
/// `s` when `b` does not occur.
pub fn after_last_ascii(s: &str, b: u8) -> (r: &str)
    requires
        b < 128,
    ensures
        bytes_of(r) == after_last(bytes_of(s), b),
{
    match rfind_byte(s.as_bytes(), b) {
        Some(idx) => {
            proof {
                lemma_last_index_of(bytes_of(s), b);
            }
            suffix_after(s, idx)
        },
        None => {
            assert(bytes_of(s).subrange(0, bytes_of(s).len() as int) =~= bytes_of(s));
            s
        },
    }
}

/// The decimal digit character of `d` (`d < 10`).
pub open spec fn digit_char(d: nat) -> char {
    ((48 + d) as u8) as char
}

/// The decimal representation of `n`, without leading zeros.
pub open spec fn decimal(n: nat) -> Seq<char>
    decreases n,
{
    if n < 10 {
        seq![digit_char(n)]
    } else {
        decimal(n / 10).push(digit_char(n % 10))
    }
}

fn digit_str(d: u64) -> (res: &'static str)
    requires
        d < 10,
    ensures
        res@ == seq![digit_char(d as nat)],
{
    proof {
        reveal_strlit("0");
        reveal_strlit("1");
        reveal_strlit("2");
        reveal_strlit("3");
        reveal_strlit("4");
        reveal_strlit("5");
        reveal_strlit("6");
        reveal_strlit("7");
        reveal_strlit("8");
        reveal_strlit("9");
    }
    match d {
        0 => "0",
        1 => "1",
        2 => "2",
        3 => "3",
        4 => "4",
        5 => "5",
        6 => "6",
        7 => "7",
        8 => "8",
        _ => "9",
    }
}

/// The decimal text of `n`, as `n.to_string()` writes it.
pub fn decimal_string(n: u64) -> (res: String)
    ensures
        res@ == decimal(n as nat),
    decreases n,
{
    let mut res = if n >= 10 {
        decimal_string(n / 10)
    } else {
        String::new()
    };
    let ghost before = res@;
    res.append(digit_str(n % 10));
    proof {
        if n < 10 {
            assert(res@ =~= seq![digit_char(n as nat)]);
        } else {
            assert(res@ =~= decimal((n / 10) as nat).push(digit_char((n % 10) as nat)));
        }
    }
    res
}

/// `s` ends with `suffix`.
pub open spec fn ends_with(s: Seq<u8>, suffix: Seq<u8>) -> bool {
    s.len() >= suffix.len() && s.subrange(s.len() - suffix.len(), s.len() as int) == suffix
}

/// Whether the ASCII-lower-cased bytes of `name` end with `suffix`.
pub fn lowercase_ends_with(name: &str, suffix: &str) -> (res: bool)
    ensures
        res == ends_with(lower_all(bytes_of(name)), bytes_of(suffix)),
{
    let h = name.as_bytes();
    let x = suffix.as_bytes();
    if h.len() < x.len() {
        return false;
    }
    let start = h.len() - x.len();
    let ghost lowered = lower_all(h@);
    let mut j: usize = 0;
    while j < x.len()
        invariant
            h@ == bytes_of(name),
            x@ == bytes_of(suffix),
            lowered == lower_all(h@),
            start == h.len() - x.len(),
            j <= x.len(),
            forall|i: int| 0 <= i < j ==> #[trigger] lowered[start + i] == x@[i],
        decreases x.len() - j,
    {
        if lower_byte(h[start + j]) != x[j] {
            assert(lowered.subrange(start as int, h.len() as int)[j as int] != x@[j as int]);
            return false;
        }
        j += 1;
    }
    assert forall|i: int| 0 <= i < x@.len() implies lowered.subrange(
        start as int,
        h.len() as int,
    )[i] == x@[i] by {
        assert(lowered[start + i] == x@[i]);
    }
    assert(lowered.subrange(start as int, h.len() as int) =~= x@);
    true
}

} // verus!
