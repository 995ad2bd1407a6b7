//! Laws of the loader: how the produced commands relate to the records of
//! the input text.

use vstd::prelude::*;

use crate::loader::{
    decoded_lines, insert_edge, spec_limit, spec_load, spec_load_text, taken_lines, Update,
};
use crate::parse::{spec_classify, LineKind};
use crate::text::spec_lines;

verus! {

/// True for a record that is a comment: its first scalar value is `#`.
pub open spec fn is_comment(l: Seq<u32>) -> bool {
    l.len() > 0 && l[0] == 0x23
}

/// The records of `lines` that are not comments, in order.
pub open spec fn qualifying_lines(lines: Seq<Seq<u32>>) -> Seq<Seq<u32>>
    decreases lines.len(),
{
    if lines.len() == 0 {
        Seq::empty()
    } else if is_comment(lines[0]) {
        qualifying_lines(lines.skip(1))
    } else {
        seq![lines[0]] + qualifying_lines(lines.skip(1))
    }
}

/// The command a record yields when it parses as an edge.
pub open spec fn edge_cmd_of(l: Seq<u32>) -> Update
    recommends
        spec_classify(l) is Edge,
{
    match spec_classify(l) {
        LineKind::Edge { from, to } => insert_edge(from, to),
        _ => vstd::pervasive::arbitrary(),
    }
}

/// Law: a successful load produces one command per non-comment record, in
/// record order. Comment records produce no command, whatever follows the
/// `#`; the `k`-th command wraps the edge parsed from the `k`-th
/// non-comment record.
pub proof fn lemma_commands_match_qualifying_lines(lines: Seq<Seq<u32>>, cmds: Seq<Update>)
    requires
        spec_load(lines) == Ok::<Seq<Update>, int>(cmds),
    ensures
        cmds.len() == qualifying_lines(lines).len(),
        forall|k: int|
            0 <= k < cmds.len() ==> spec_classify(#[trigger] qualifying_lines(lines)[k]) is Edge,
        forall|k: int|
            0 <= k < cmds.len() ==> #[trigger] cmds[k] == edge_cmd_of(qualifying_lines(lines)[k]),
    decreases lines.len(),
{
    if lines.len() == 0 {
        assert(qualifying_lines(lines).len() == 0);
    } else {
        let rest = lines.skip(1);
        match spec_classify(lines[0]) {
            LineKind::Malformed => {
                assert(spec_load(lines) == Err::<Seq<Update>, int>(0));
            },
            LineKind::Comment => {
                assert(is_comment(lines[0]));
                assert(qualifying_lines(lines) == qualifying_lines(rest));
                lemma_commands_match_qualifying_lines(rest, cmds);
            },
            LineKind::Edge { from, to } => {
                assert(!is_comment(lines[0]));
                let tail = match spec_load(rest) {
                    Ok(v) => v,
                    Err(_) => Seq::empty(),
                };
                assert(cmds == seq![insert_edge(from, to)] + tail);
                lemma_commands_match_qualifying_lines(rest, tail);
                let q = qualifying_lines(lines);
                assert(q == seq![lines[0]] + qualifying_lines(rest));
                assert forall|k: int| 0 <= k < cmds.len() implies spec_classify(
                    #[trigger] q[k],
                ) is Edge && cmds[k] == edge_cmd_of(q[k]) by {
                    if k == 0 {
                        assert(q[0] == lines[0]);
                        assert(cmds[0] == insert_edge(from, to));
                    } else {
                        assert(q[k] == qualifying_lines(rest)[k - 1]);
                        assert(cmds[k] == tail[k - 1]);
                    }
                }
            },
        }
    }
}

/// Law: a load fails exactly when some consumed record is malformed.
pub proof fn lemma_load_fails_iff_malformed(lines: Seq<Seq<u32>>)
    ensures
        spec_load(lines) is Err <==> exists|k: int|
            0 <= k < lines.len() && spec_classify(#[trigger] lines[k]) is Malformed,
    decreases lines.len(),
{
    if lines.len() == 0 {
    } else {
        let rest = lines.skip(1);
        lemma_load_fails_iff_malformed(rest);
        match spec_classify(lines[0]) {
            LineKind::Malformed => {
                assert(spec_classify(lines[0]) is Malformed);
            },
            _ => {
                if spec_load(rest) is Err {
                    let k = choose|k: int|
                        0 <= k < rest.len() && spec_classify(#[trigger] rest[k]) is Malformed;
                    assert(rest[k] == lines[k + 1]);
                    assert(spec_classify(lines[k + 1]) is Malformed);
                } else {
                    if exists|k: int|
                        0 <= k < lines.len() && spec_classify(#[trigger] lines[k]) is Malformed {
                        let k = choose|k: int|
                            0 <= k < lines.len() && spec_classify(
                                #[trigger] lines[k],
                            ) is Malformed;
                        assert(rest[k - 1] == lines[k]);
                        assert(false);
                    }
                }
            },
        }
    }
}

/// Law: a failed load reports the first malformed record consumed: the
/// record at the reported position is malformed and none before it is.
pub proof fn lemma_error_index(lines: Seq<Seq<u32>>, i: int)
    requires
        spec_load(lines) == Err::<Seq<Update>, int>(i),
    ensures
        0 <= i < lines.len(),
        spec_classify(lines[i]) is Malformed,
        forall|k: int| 0 <= k < i ==> !(spec_classify(#[trigger] lines[k]) is Malformed),
    decreases lines.len(),
{
    let rest = lines.skip(1);
    match spec_classify(lines[0]) {
        LineKind::Malformed => {},
        _ => {
            assert(spec_load(rest) == Err::<Seq<Update>, int>(i - 1));
            lemma_error_index(rest, i - 1);
            assert(lines[i] == rest[i - 1]);
            assert forall|k: int| 0 <= k < i implies !(spec_classify(
                #[trigger] lines[k],
            ) is Malformed) by {
                if k > 0 {
                    assert(lines[k] == rest[k - 1]);
                }
            }
        },
    }
}

/// Law: the count of produced commands equals the count of non-comment
/// records among the decoded records consumed — the first `samples` decoded
/// records, comments included in that count.
pub proof fn lemma_command_count(bytes: Seq<u8>, samples: Option<usize>, cmds: Seq<Update>)
    requires
        spec_load_text(bytes, spec_limit(samples)) == Ok::<Seq<Update>, int>(cmds),
    ensures
        cmds.len() == qualifying_lines(taken_lines(bytes, spec_limit(samples))).len(),
{
    lemma_commands_match_qualifying_lines(taken_lines(bytes, spec_limit(samples)), cmds);
}

proof fn lemma_qualifying_all(lines: Seq<Seq<u32>>)
    requires
        forall|k: int| 0 <= k < lines.len() ==> !is_comment(lines[k]),
    ensures
        qualifying_lines(lines) == lines,
    decreases lines.len(),
{
    if lines.len() == 0 {
        assert(qualifying_lines(lines) =~= lines);
    } else {
        let rest = lines.skip(1);
        assert forall|k: int| 0 <= k < rest.len() implies !is_comment(rest[k]) by {
            assert(rest[k] == lines[k + 1]);
        }
        lemma_qualifying_all(rest);
        assert(seq![lines[0]] + rest =~= lines);
    }
}

/// Law: with sample limit `n` and `t` decoded records, none of them a
/// comment, a successful load produces exactly `min(n, t)` commands.
pub proof fn lemma_limit_caps_commands(bytes: Seq<u8>, samples: Option<usize>, cmds: Seq<Update>)
    requires
        spec_load_text(bytes, spec_limit(samples)) == Ok::<Seq<Update>, int>(cmds),
        forall|k: int|
            0 <= k < decoded_lines(spec_lines(bytes)).len() ==> !is_comment(
                decoded_lines(spec_lines(bytes))[k],
            ),
    ensures
        cmds.len() == (if spec_limit(samples) <= decoded_lines(spec_lines(bytes)).len() {
            spec_limit(samples)
        } else {
            decoded_lines(spec_lines(bytes)).len() as int
        }),
{
    let dl = decoded_lines(spec_lines(bytes));
    let taken = taken_lines(bytes, spec_limit(samples));
    assert forall|k: int| 0 <= k < taken.len() implies !is_comment(taken[k]) by {
        assert(taken[k] == dl[k]);
    }
    lemma_qualifying_all(taken);
    lemma_commands_match_qualifying_lines(taken, cmds);
}

} // verus!
