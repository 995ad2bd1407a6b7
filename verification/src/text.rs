//! Splitting a byte stream into newline-delimited records.
//!
//! A record is the content between newlines (`0x0A`); a record that was
//! terminated by a newline loses one trailing carriage return (`0x0D`), and a
//! final unterminated record is kept verbatim. A stream that ends with a
//! newline has no final empty record.

use vstd::prelude::*;

verus! {

/// Index of the first newline byte of `s`, or `s.len()` when there is none.
pub open spec fn find_nl(s: Seq<u8>) -> int
    decreases s.len(),
{
    if s.len() == 0 {
        0
    } else if s[0] == 10 {
        0
    } else {
        1 + find_nl(s.skip(1))
    }
}

proof fn lemma_find_nl(s: Seq<u8>)
    ensures
        0 <= find_nl(s) <= s.len(),
        forall|j: int| 0 <= j < find_nl(s) ==> s[j] != 10,
        find_nl(s) < s.len() ==> s[find_nl(s)] == 10,
    decreases s.len(),
{
    if s.len() == 0 || s[0] == 10 {
    } else {
        lemma_find_nl(s.skip(1));
        assert forall|j: int| 0 <= j < find_nl(s) implies s[j] != 10 by {
            if j > 0 {
                assert(s.skip(1)[j - 1] == s[j]);
            }
        }
        if find_nl(s) < s.len() {
            assert(s.skip(1)[find_nl(s) - 1] == s[find_nl(s)]);
        }
    }
}

/// `find_nl` is determined by where the newline bytes are: if no newline
/// occurs before `k`, and `k` is the end or a newline, then `find_nl` is `k`.
proof fn lemma_find_nl_at(s: Seq<u8>, k: int)
    requires
        0 <= k <= s.len(),
        forall|j: int| 0 <= j < k ==> s[j] != 10,
        k == s.len() || s[k] == 10,
    ensures
        find_nl(s) == k,
{
    lemma_find_nl(s);
    if find_nl(s) < k {
        assert(s[find_nl(s)] == 10);
    }
    if find_nl(s) > k {
        assert(s[k] != 10);
    }
}

/// Drops one trailing carriage return, if present.
pub open spec fn strip_cr(t: Seq<u8>) -> Seq<u8> {
    if t.len() > 0 && t[t.len() - 1] == 13 {
        t.drop_last()
    } else {
        t
    }
}

/// The records of `s`, in order.
pub open spec fn spec_lines(s: Seq<u8>) -> Seq<Seq<u8>>
    decreases s.len(),
{
    if s.len() == 0 {
        Seq::empty()
    } else {
        let i = find_nl(s);
        if 0 <= i && i < s.len() {
            seq![strip_cr(s.take(i))] + spec_lines(s.skip(i + 1))
        } else {
            seq![s]
        }
    }
}

/// The byte contents of a vector of records.
pub open spec fn lines_view(v: Seq<Vec<u8>>) -> Seq<Seq<u8>> {
    v.map_values(|l: Vec<u8>| l@)
}

/// Splits `bytes` into its newline-delimited records.
pub fn split_lines(bytes: &[u8]) -> (r: Vec<Vec<u8>>)
    ensures
        lines_view(r@) == spec_lines(bytes@),
{
    let n = bytes.len();
    let mut out: Vec<Vec<u8>> = Vec::new();
    let mut start: usize = 0;
    let mut i: usize = 0;
    proof {
        assert(bytes@.skip(0) =~= bytes@);
        assert(lines_view(out@) + spec_lines(bytes@) =~= spec_lines(bytes@));
    }
    while i < n
        invariant
            start <= i <= n,
            n == bytes@.len(),
            lines_view(out@) + spec_lines(bytes@.skip(start as int)) == spec_lines(bytes@),
            forall|j: int| start <= j < i ==> bytes@[j] != 10,
        decreases n - i,
    {
        if bytes[i] == 10 {
            let ghost s = bytes@.skip(start as int);
            proof {
                assert forall|j: int| 0 <= j < i - start implies s[j] != 10 by {
                    assert(s[j] == bytes@[start + j]);
                }
                assert(s[i - start] == bytes@[i as int]);
                lemma_find_nl_at(s, i - start);
                assert(s.take(i - start) =~= bytes@.subrange(start as int, i as int));
                assert(s.skip(i - start + 1) =~= bytes@.skip(i + 1));
            }
            let mut line = vstd::slice::slice_to_vec(vstd::slice::slice_subrange(bytes, start, i));
            if line.len() > 0 && line[line.len() - 1] == 13 {
                line.pop();
            }
            proof {
                assert(line@ == strip_cr(bytes@.subrange(start as int, i as int)));
                assert(spec_lines(s) == seq![line@] + spec_lines(bytes@.skip(i + 1)));
                assert(lines_view(out@.push(line)) =~= lines_view(out@) + seq![line@]);
                assert((lines_view(out@) + seq![line@]) + spec_lines(bytes@.skip(i + 1)) =~= lines_view(
                    out@,
                ) + (seq![line@] + spec_lines(bytes@.skip(i + 1))));
            }
            out.push(line);
            start = i + 1;
        }
        i = i + 1;
    }
    if start < n {
        let ghost s = bytes@.skip(start as int);
        proof {
            assert forall|j: int| 0 <= j < s.len() implies s[j] != 10 by {
                assert(s[j] == bytes@[start + j]);
            }
            lemma_find_nl_at(s, s.len() as int);
            assert(spec_lines(s) == seq![s]);
            assert(s =~= bytes@.subrange(start as int, n as int));
        }
        let line = vstd::slice::slice_to_vec(vstd::slice::slice_subrange(bytes, start, n));
        proof {
            assert(lines_view(out@.push(line)) =~= lines_view(out@) + seq![line@]);
            assert((lines_view(out@) + seq![line@]) + Seq::<Seq<u8>>::empty() =~= lines_view(out@)
                + seq![line@]);
        }
        out.push(line);
    } else {
        proof {
            assert(bytes@.skip(start as int) =~= Seq::<u8>::empty());
            assert(lines_view(out@) + Seq::<Seq<u8>>::empty() =~= lines_view(out@));
        }
    }
    out
}

} // verus!
