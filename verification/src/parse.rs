//! Parsing one decoded record into an edge, a comment, or a malformed line.
//!
//! A record is a sequence of Unicode scalar values. One that begins with `#`
//! is a comment. Any other record is trimmed of surrounding whitespace and
//! split on tab characters; its first two fields, each trimmed again, must
//! parse as unsigned integers (an optional leading `+`, then decimal digits,
//! fitting in 64 bits), or the record is malformed.

use vstd::prelude::*;

verus! {

/// True for a scalar value with the Unicode `White_Space` property.
pub open spec fn is_ws(c: u32) -> bool {
    c == 0x09 || c == 0x0A || c == 0x0B || c == 0x0C || c == 0x0D || c == 0x20 || c == 0x85 || c
        == 0xA0 || c == 0x1680 || (0x2000 <= c && c <= 0x200A) || c == 0x2028 || c == 0x2029 || c
        == 0x202F || c == 0x205F || c == 0x3000
}

pub open spec fn trim_start(s: Seq<u32>) -> Seq<u32>
    decreases s.len(),
{
    if s.len() > 0 && is_ws(s[0]) {
        trim_start(s.skip(1))
    } else {
        s
    }
}

pub open spec fn trim_end(s: Seq<u32>) -> Seq<u32>
    decreases s.len(),
{
    if s.len() > 0 && is_ws(s[s.len() - 1]) {
        trim_end(s.drop_last())
    } else {
        s
    }
}

/// `s` without its leading and trailing whitespace.
pub open spec fn spec_trim(s: Seq<u32>) -> Seq<u32> {
    trim_end(trim_start(s))
}

proof fn lemma_trim_start_skip(s: Seq<u32>, lo: int)
    requires
        0 <= lo <= s.len(),
        forall|j: int| 0 <= j < lo ==> is_ws(s[j]),
        lo == s.len() || !is_ws(s[lo]),
    ensures
        trim_start(s) == s.skip(lo),
    decreases lo,
{
    if lo == 0 {
        assert(s.skip(0) =~= s);
    } else {
        assert(is_ws(s[0]));
        assert forall|j: int| 0 <= j < lo - 1 implies is_ws(s.skip(1)[j]) by {
            assert(s.skip(1)[j] == s[j + 1]);
        }
        assert(lo - 1 == s.skip(1).len() || !is_ws(s.skip(1)[lo - 1]));
        lemma_trim_start_skip(s.skip(1), lo - 1);
        assert(s.skip(1).skip(lo - 1) =~= s.skip(lo));
    }
}

proof fn lemma_trim_end_take(s: Seq<u32>, hi: int)
    requires
        0 <= hi <= s.len(),
        forall|j: int| hi <= j < s.len() ==> is_ws(s[j]),
        hi == 0 || !is_ws(s[hi - 1]),
    ensures
        trim_end(s) == s.take(hi),
    decreases s.len() - hi,
{
    if hi == s.len() {
        assert(s.take(hi) =~= s);
    } else {
        assert(is_ws(s[s.len() - 1]));
        assert(s.drop_last() =~= s.take(s.len() - 1));
        assert forall|j: int| hi <= j < s.drop_last().len() implies is_ws(s.drop_last()[j]) by {
            assert(s.drop_last()[j] == s[j]);
        }
        lemma_trim_end_take(s.drop_last(), hi);
        assert(s.drop_last().take(hi) =~= s.take(hi));
    }
}

/// True for the `White_Space` scalar values.
fn ws(c: u32) -> (r: bool)
    ensures
        r == is_ws(c),
{
    c == 0x09 || c == 0x0A || c == 0x0B || c == 0x0C || c == 0x0D || c == 0x20 || c == 0x85 || c
        == 0xA0 || c == 0x1680 || (0x2000 <= c && c <= 0x200A) || c == 0x2028 || c == 0x2029 || c
        == 0x202F || c == 0x205F || c == 0x3000
}

/// Copies `s` without its leading and trailing whitespace.
pub fn trim_cps(s: &[u32]) -> (r: Vec<u32>)
    ensures
        r@ == spec_trim(s@),
{
    let n = s.len();
    let mut lo: usize = 0;
    while lo < n && ws(s[lo])
        invariant
            lo <= n,
            n == s@.len(),
            forall|j: int| 0 <= j < lo ==> is_ws(s@[j]),
        decreases n - lo,
    {
        lo = lo + 1;
    }
    let mut hi: usize = n;
    while hi > lo && ws(s[hi - 1])
        invariant
            lo <= hi <= n,
            n == s@.len(),
            forall|j: int| hi <= j < n ==> is_ws(s@[j]),
        decreases hi,
    {
        hi = hi - 1;
    }
    proof {
        lemma_trim_start_skip(s@, lo as int);
        let t = s@.skip(lo as int);
        assert forall|j: int| hi - lo <= j < t.len() implies is_ws(t[j]) by {
            assert(t[j] == s@[lo + j]);
        }
        if hi > lo {
            assert(t[hi - lo - 1] == s@[hi - 1]);
        }
        lemma_trim_end_take(t, hi - lo);
        assert(t.take(hi - lo) =~= s@.subrange(lo as int, hi as int));
    }
    vstd::slice::slice_to_vec(vstd::slice::slice_subrange(s, lo, hi))
}

/// True for a decimal digit.
pub open spec fn is_digit(c: u32) -> bool {
    0x30 <= c && c <= 0x39
}

pub open spec fn all_digits(s: Seq<u32>) -> bool {
    forall|j: int| 0 <= j < s.len() ==> is_digit(s[j])
}

/// The value of a sequence of decimal digits, most significant first.
pub open spec fn digits_val(s: Seq<u32>) -> int
    decreases s.len(),
{
    if s.len() == 0 {
        0
    } else {
        digits_val(s.drop_last()) * 10 + (s.last() - 0x30)
    }
}

/// The integer denoted by `s`: an optional `+`, then decimal digits, with a
/// value that fits in 64 bits; `None` otherwise.
pub open spec fn spec_parse_u64(s: Seq<u32>) -> Option<u64> {
    let t = if s.len() > 0 && s[0] == 0x2B {
        s.skip(1)
    } else {
        s
    };
    if t.len() > 0 && all_digits(t) && digits_val(t) <= u64::MAX {
        Some(digits_val(t) as u64)
    } else {
        None
    }
}

proof fn lemma_digits_val_prefix(t: Seq<u32>, i: int)
    requires
        all_digits(t),
        0 <= i <= t.len(),
    ensures
        0 <= digits_val(t.take(i)) <= digits_val(t),
    decreases t.len(),
{
    if i == t.len() {
        assert(t.take(i) =~= t);
        if t.len() > 0 {
            assert(all_digits(t.drop_last()));
            lemma_digits_val_prefix(t.drop_last(), t.len() - 1);
            assert(t.drop_last().take(t.len() - 1) =~= t.drop_last());
        }
    } else {
        assert(all_digits(t.drop_last()));
        lemma_digits_val_prefix(t.drop_last(), i);
        assert(t.drop_last().take(i) =~= t.take(i));
        assert(is_digit(t.last()));
    }
}

/// Parses `s` as an unsigned 64-bit integer, as `spec_parse_u64` says.
pub fn parse_u64_cps(s: &[u32]) -> (r: Option<u64>)
    ensures
        r == spec_parse_u64(s@),
{
    let n = s.len();
    let start: usize = if n > 0 && s[0] == 0x2B {
        1
    } else {
        0
    };
    let ghost t = if s@.len() > 0 && s@[0] == 0x2B {
        s@.skip(1)
    } else {
        s@
    };
    proof {
        assert(t =~= s@.skip(start as int));
    }
    if n == start {
        return None;
    }
    let mut acc: u64 = 0;
    let mut i: usize = start;
    proof {
        assert(t.take(0) =~= Seq::<u32>::empty());
    }
    while i < n
        invariant
            start <= i <= n,
            n == s@.len(),
            t == s@.skip(start as int),
            t == (if s@.len() > 0 && s@[0] == 0x2B {
                s@.skip(1)
            } else {
                s@
            }),
            all_digits(t.take(i - start)),
            acc == digits_val(t.take(i - start)),
        decreases n - i,
    {
        let c = s[i];
        proof {
            assert(t[i - start] == s@[i as int]);
        }
        if !(0x30 <= c && c <= 0x39) {
            proof {
                assert(!is_digit(t[i - start]));
                assert(!all_digits(t));
            }
            return None;
        }
        let d = (c - 0x30) as u64;
        let ghost prev = t.take(i - start);
        proof {
            assert(t.take(i - start + 1).drop_last() =~= prev);
            assert(t.take(i - start + 1).last() == t[i - start]);
            assert(digits_val(t.take(i - start + 1)) == acc * 10 + d);
        }
        let step = match acc.checked_mul(10) {
            Some(m) => m.checked_add(d),
            None => None,
        };
        match step {
            Some(next) => {
                acc = next;
                i = i + 1;
                proof {
                    assert(all_digits(t.take(i - start)));
                }
            },
            None => {
                proof {
                    assert(digits_val(t.take(i - start + 1)) > u64::MAX);
                    if all_digits(t) {
                        lemma_digits_val_prefix(t, i - start + 1);
                    }
                }
                return None;
            },
        }
    }
    proof {
        assert(t.take(n - start) =~= t);
    }
    Some(acc)
}

/// Index of the first tab of `s`, or `s.len()` when there is none.
pub open spec fn find_tab(s: Seq<u32>) -> int
    decreases s.len(),
{
    if s.len() == 0 {
        0
    } else if s[0] == 9 {
        0
    } else {
        1 + find_tab(s.skip(1))
    }
}

proof fn lemma_find_tab(s: Seq<u32>)
    ensures
        0 <= find_tab(s) <= s.len(),
        forall|j: int| 0 <= j < find_tab(s) ==> s[j] != 9,
        find_tab(s) < s.len() ==> s[find_tab(s)] == 9,
    decreases s.len(),
{
    if s.len() == 0 || s[0] == 9 {
    } else {
        lemma_find_tab(s.skip(1));
        assert forall|j: int| 0 <= j < find_tab(s) implies s[j] != 9 by {
            if j > 0 {
                assert(s.skip(1)[j - 1] == s[j]);
            }
        }
        if find_tab(s) < s.len() {
            assert(s.skip(1)[find_tab(s) - 1] == s[find_tab(s)]);
        }
    }
}

proof fn lemma_find_tab_at(s: Seq<u32>, k: int)
    requires
        0 <= k <= s.len(),
        forall|j: int| 0 <= j < k ==> s[j] != 9,
        k == s.len() || s[k] == 9,
    ensures
        find_tab(s) == k,
{
    lemma_find_tab(s);
    if find_tab(s) < k {
        assert(s[find_tab(s)] == 9);
    }
    if find_tab(s) > k {
        assert(s[k] != 9);
    }
}

/// Index of the first tab of `s`, or `s.len()` when there is none.
fn find_tab_cps(s: &[u32]) -> (r: usize)
    ensures
        r as int == find_tab(s@),
        r <= s@.len(),
{
    let n = s.len();
    let mut i: usize = 0;
    while i < n
        invariant
            i <= n,
            n == s@.len(),
            forall|j: int| 0 <= j < i ==> s@[j] != 9,
        decreases n - i,
    {
        if s[i] == 9 {
            proof {
                lemma_find_tab_at(s@, i as int);
            }
            return i;
        }
        i = i + 1;
    }
    proof {
        lemma_find_tab_at(s@, n as int);
    }
    n
}

/// What one decoded record is: a comment, an edge, or malformed.
pub enum LineKind {
    Comment,
    Edge { from: u64, to: u64 },
    Malformed,
}

/// Classifies one decoded record. A record whose first scalar value is `#`
/// is a comment. Any other record is trimmed and split on tabs; its first
/// two fields, each trimmed, must parse as unsigned 64-bit integers.
pub open spec fn spec_classify(cps: Seq<u32>) -> LineKind {
    if cps.len() > 0 && cps[0] == 0x23 {
        LineKind::Comment
    } else {
        let t = spec_trim(cps);
        let i = find_tab(t);
        if i >= t.len() {
            LineKind::Malformed
        } else {
            let rest = t.skip(i + 1);
            let f1 = spec_trim(t.take(i));
            let f2 = spec_trim(rest.take(find_tab(rest)));
            match (spec_parse_u64(f1), spec_parse_u64(f2)) {
                (Some(a), Some(b)) => LineKind::Edge { from: a, to: b },
                _ => LineKind::Malformed,
            }
        }
    }
}

/// Classifies one decoded record, as `spec_classify` says.
pub fn classify_line(cps: &[u32]) -> (r: LineKind)
    ensures
        r == spec_classify(cps@),
{
    let n = cps.len();
    if n > 0 && cps[0] == 0x23 {
        return LineKind::Comment;
    }
    let t = trim_cps(cps);
    let tlen = t.len();
    let i = find_tab_cps(t.as_slice());
    if i == tlen {
        return LineKind::Malformed;
    }
    let first = vstd::slice::slice_subrange(t.as_slice(), 0, i);
    let rest = vstd::slice::slice_subrange(t.as_slice(), i + 1, tlen);
    let j = find_tab_cps(rest);
    let second = vstd::slice::slice_subrange(rest, 0, j);
    proof {
        assert(first@ =~= spec_trim(cps@).take(i as int));
        assert(rest@ =~= spec_trim(cps@).skip(i + 1));
        assert(second@ =~= rest@.take(find_tab(rest@)));
    }
    let a = parse_u64_cps(trim_cps(first).as_slice());
    let b = parse_u64_cps(trim_cps(second).as_slice());
    match (a, b) {
        (Some(from), Some(to)) => LineKind::Edge { from, to },
        _ => LineKind::Malformed,
    }
}

} // verus!
