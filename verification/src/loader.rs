//! The dataset loader.
//!
//! Input is a gzip-compressed text file of newline-delimited records: a
//! record beginning with `#` is a comment; any other record holds two
//! tab-separated integer fields, a directed edge's source and destination.
//! The loader turns the text into an ordered sequence of commands, each
//! inserting one edge fact into the fixed edge relation of a downstream
//! incremental computation engine.
//!
//! A record that is not valid UTF-8 is silently dropped and does not count
//! toward the sample limit; the limit counts the records that decode,
//! comments included. A malformed record (a non-comment record without two
//! parseable integer fields) fails the whole load with no partial result.

use vstd::prelude::*;

use crate::parse::{spec_classify, LineKind};
use crate::text::{lines_view, spec_lines};
use crate::utf8::utf8_decode;

verus! {

/// Identifier of the edge relation inside the downstream engine. All
/// commands this loader produces target this one relation.
pub const EDGE_RELATION: usize = 0;

/// A directed graph edge: source and destination vertex identifiers.
#[derive(Debug, PartialEq, Eq, Structural)]
pub struct Edge {
    pub from: u64,
    pub to: u64,
}

/// A command for the downstream engine: insert one edge fact into the
/// relation named by `relid`.
#[derive(Debug, PartialEq, Eq, Structural)]
pub enum Update {
    Insert { relid: usize, edge: Edge },
}

/// Why a load failed: the compressed stream did not decompress, or a record
/// was malformed. `line` is the position of the offending record among the
/// successfully decoded records, counted from zero.
#[derive(Debug, PartialEq, Eq, Structural)]
pub enum LoadError {
    Corrupt,
    Malformed { line: usize },
}

/// The command that inserts the edge `(from, to)`.
pub open spec fn insert_edge(from: u64, to: u64) -> Update {
    Update::Insert { relid: EDGE_RELATION, edge: Edge { from, to } }
}

/// The records of `raw` that decode as UTF-8, decoded, in order.
pub open spec fn decoded_lines(raw: Seq<Seq<u8>>) -> Seq<Seq<u32>>
    decreases raw.len(),
{
    if raw.len() == 0 {
        Seq::empty()
    } else {
        match utf8_decode(raw[0]) {
            None => decoded_lines(raw.skip(1)),
            Some(cps) => seq![cps] + decoded_lines(raw.skip(1)),
        }
    }
}

/// The commands produced from the decoded records `lines`, in record order,
/// or the index of the first malformed record.
pub open spec fn spec_load(lines: Seq<Seq<u32>>) -> Result<Seq<Update>, int>
    decreases lines.len(),
{
    if lines.len() == 0 {
        Ok(Seq::empty())
    } else {
        match spec_classify(lines[0]) {
            LineKind::Malformed => Err(0),
            LineKind::Comment => match spec_load(lines.skip(1)) {
                Ok(cmds) => Ok(cmds),
                Err(i) => Err(i + 1),
            },
            LineKind::Edge { from, to } => match spec_load(lines.skip(1)) {
                Ok(cmds) => Ok(seq![insert_edge(from, to)] + cmds),
                Err(i) => Err(i + 1),
            },
        }
    }
}

/// The sample limit as a count: `None` means the largest representable one.
pub open spec fn spec_limit(samples: Option<usize>) -> int {
    match samples {
        Some(n) => n as int,
        None => usize::MAX as int,
    }
}

/// The first `limit` decoded records of the text `bytes`.
pub open spec fn taken_lines(bytes: Seq<u8>, limit: int) -> Seq<Seq<u32>> {
    let dl = decoded_lines(spec_lines(bytes));
    if limit <= dl.len() {
        dl.take(limit)
    } else {
        dl
    }
}

/// What loading the text `bytes` under the sample limit `limit` yields: the
/// command sequence, or the index of the first malformed record consumed.
pub open spec fn spec_load_text(bytes: Seq<u8>, limit: int) -> Result<Seq<Update>, int> {
    spec_load(taken_lines(bytes, limit))
}

proof fn lemma_decoded_lines_append(a: Seq<Seq<u8>>, b: Seq<Seq<u8>>)
    ensures
        decoded_lines(a + b) == decoded_lines(a) + decoded_lines(b),
    decreases a.len(),
{
    if a.len() == 0 {
        assert(a + b =~= b);
        assert(decoded_lines(a) + decoded_lines(b) =~= decoded_lines(b));
    } else {
        assert((a + b).skip(1) =~= a.skip(1) + b);
        assert((a + b)[0] == a[0]);
        lemma_decoded_lines_append(a.skip(1), b);
        match utf8_decode(a[0]) {
            None => {},
            Some(cps) => {
                assert(seq![cps] + (decoded_lines(a.skip(1)) + decoded_lines(b)) =~= (seq![cps]
                    + decoded_lines(a.skip(1))) + decoded_lines(b));
            },
        }
    }
}

proof fn lemma_spec_load_append(a: Seq<Seq<u32>>, b: Seq<Seq<u32>>)
    ensures
        spec_load(a + b) == (match spec_load(a) {
            Err(i) => Err::<Seq<Update>, int>(i),
            Ok(v) => match spec_load(b) {
                Err(j) => Err::<Seq<Update>, int>(a.len() + j),
                Ok(w) => Ok::<Seq<Update>, int>(v + w),
            },
        }),
    decreases a.len(),
{
    if a.len() == 0 {
        assert(a + b =~= b);
        match spec_load(b) {
            Err(_) => {},
            Ok(w) => {
                assert(Seq::<Update>::empty() + w =~= w);
            },
        }
    } else {
        assert((a + b).skip(1) =~= a.skip(1) + b);
        assert((a + b)[0] == a[0]);
        lemma_spec_load_append(a.skip(1), b);
        match spec_classify(a[0]) {
            LineKind::Malformed => {},
            LineKind::Comment => {},
            LineKind::Edge { from, to } => {
                match (spec_load(a.skip(1)), spec_load(b)) {
                    (Ok(v), Ok(w)) => {
                        assert(seq![insert_edge(from, to)] + (v + w) =~= (seq![insert_edge(
                            from,
                            to,
                        )] + v) + w);
                    },
                    _ => {},
                }
            },
        }
    }
}

proof fn lemma_decoded_lines_one(l: Seq<u8>)
    ensures
        decoded_lines(seq![l]) == (match utf8_decode(l) {
            None => Seq::<Seq<u32>>::empty(),
            Some(cps) => seq![cps],
        }),
{
    assert(seq![l][0] == l);
    assert(seq![l].skip(1) =~= Seq::<Seq<u8>>::empty());
    assert(decoded_lines(Seq::<Seq<u8>>::empty()) == Seq::<Seq<u32>>::empty());
    match utf8_decode(l) {
        None => {},
        Some(cps) => {
            assert(seq![cps] + Seq::<Seq<u32>>::empty() =~= seq![cps]);
        },
    }
}

proof fn lemma_spec_load_one(l: Seq<u32>)
    ensures
        spec_load(seq![l]) == (match spec_classify(l) {
            LineKind::Malformed => Err::<Seq<Update>, int>(0),
            LineKind::Comment => Ok::<Seq<Update>, int>(Seq::empty()),
            LineKind::Edge { from, to } => Ok::<Seq<Update>, int>(seq![insert_edge(from, to)]),
        }),
{
    assert(seq![l][0] == l);
    assert(seq![l].skip(1) =~= Seq::<Seq<u32>>::empty());
    assert(spec_load(Seq::<Seq<u32>>::empty()) == Ok::<Seq<Update>, int>(Seq::empty()));
    match spec_classify(l) {
        LineKind::Edge { from, to } => {
            assert(seq![insert_edge(from, to)] + Seq::<Update>::empty() =~= seq![insert_edge(
                from,
                to,
            )]);
        },
        _ => {},
    }
}

/// Relies on flate2's `bufread::GzDecoder`, read through
/// `std::io::Read::read_to_end`: whether a byte sequence is a well-formed
/// gzip stream, and what it decompresses to, are functions of the bytes
/// alone; reading succeeds exactly on the well-formed streams.
#[verifier::external_body]
fn gunzip(data: &[u8]) -> (r: Option<Vec<u8>>)
    ensures
        r is Some <==> gunzip_ok(data@),
        r matches Some(v) ==> v@ == gunzip_of(data@),
{
    let mut decoder = flate2::bufread::GzDecoder::new(data);
    let mut out = Vec::new();
    match std::io::Read::read_to_end(&mut decoder, &mut out) {
        Ok(_) => Some(out),
        Err(_) => None,
    }
}

/// True when `data` is a well-formed gzip stream.
pub uninterp spec fn gunzip_ok(data: Seq<u8>) -> bool;

/// The decompressed content of the gzip stream `data`.
pub uninterp spec fn gunzip_of(data: Seq<u8>) -> Seq<u8>;

/// Loads edge-insertion commands from the uncompressed text `bytes`,
/// consuming at most `samples` decoded records (comments included); `None`
/// puts no bound. Fails on the first malformed record, with its position
/// among the decoded records and no partial result.
pub fn load_text(bytes: &[u8], samples: Option<usize>) -> (r: Result<Vec<Update>, LoadError>)
    ensures
        match spec_load_text(bytes@, spec_limit(samples)) {
            Ok(cmds) => r matches Ok(v) && v@ == cmds,
            Err(i) => r matches Err(e) && e == (LoadError::Malformed { line: i as usize }) && 0
                <= i <= usize::MAX,
        },
{
    let limit: usize = match samples {
        Some(n) => n,
        None => usize::MAX,
    };
    let raw = crate::text::split_lines(bytes);
    let nlines = raw.len();
    let mut out: Vec<Update> = Vec::new();
    let mut consumed: usize = 0;
    let mut i: usize = 0;
    proof {
        assert(lines_view(raw@).take(0) =~= Seq::<Seq<u8>>::empty());
    }
    while i < nlines && consumed < limit
        invariant
            i <= nlines,
            nlines == raw@.len(),
            lines_view(raw@) == spec_lines(bytes@),
            limit as int == spec_limit(samples),
            consumed <= limit,
            decoded_lines(lines_view(raw@).take(i as int)).len() == consumed as int,
            spec_load(decoded_lines(lines_view(raw@).take(i as int))) == Ok::<Seq<Update>, int>(
                out@,
            ),
        decreases nlines - i,
    {
        let ghost lv = lines_view(raw@);
        let ghost dec = decoded_lines(lv.take(i as int));
        proof {
            assert(lv.take(i + 1) =~= lv.take(i as int) + seq![lv[i as int]]);
            lemma_decoded_lines_append(lv.take(i as int), seq![lv[i as int]]);
            assert(seq![lv[i as int]].skip(1) =~= Seq::<Seq<u8>>::empty());
            assert(raw@[i as int]@ == lv[i as int]);
        }
        let line = &raw[i];
        match crate::utf8::decode_utf8(line.as_slice()) {
            None => {
                proof {
                    lemma_decoded_lines_one(lv[i as int]);
                    assert(decoded_lines(lv.take(i + 1)) =~= dec);
                }
            },
            Some(cps) => {
                let ghost dec1 = dec + seq![cps@];
                proof {
                    lemma_decoded_lines_one(lv[i as int]);
                    assert(decoded_lines(lv.take(i + 1)) == dec1);
                    lemma_spec_load_append(dec, seq![cps@]);
                    lemma_spec_load_one(cps@);
                }
                match crate::parse::classify_line(cps.as_slice()) {
                    LineKind::Comment => {
                        proof {
                            assert(out@ + Seq::<Update>::empty() =~= out@);
                        }
                    },
                    LineKind::Edge { from, to } => {
                        proof {
                            assert(out@ + seq![insert_edge(from, to)] =~= out@.push(
                                insert_edge(from, to),
                            ));
                        }
                        out.push(Update::Insert { relid: EDGE_RELATION, edge: Edge { from, to } });
                    },
                    LineKind::Malformed => {
                        proof {
                            assert(spec_load(dec1) == Err::<Seq<Update>, int>(consumed as int));
                            let dl = decoded_lines(lv);
                            assert(lv =~= lv.take(i + 1) + lv.skip(i + 1));
                            lemma_decoded_lines_append(lv.take(i + 1), lv.skip(i + 1));
                            let suffix = decoded_lines(lv.skip(i + 1));
                            assert(dl == dec1 + suffix);
                            let taken = taken_lines(bytes@, limit as int);
                            assert(taken =~= dec1 + (if limit - dec1.len() <= suffix.len() {
                                suffix.take(limit - dec1.len())
                            } else {
                                suffix
                            }));
                            lemma_spec_load_append(dec1, (if limit - dec1.len() <= suffix.len() {
                                suffix.take(limit - dec1.len())
                            } else {
                                suffix
                            }));
                            assert(spec_load_text(bytes@, spec_limit(samples)) == Err::<
                                Seq<Update>,
                                int,
                            >(consumed as int));
                        }
                        return Err(LoadError::Malformed { line: consumed });
                    },
                }
                consumed = consumed + 1;
            },
        }
        i = i + 1;
    }
    proof {
        let lv = lines_view(raw@);
        let dl = decoded_lines(lv);
        let dec = decoded_lines(lv.take(i as int));
        assert(lv =~= lv.take(i as int) + lv.skip(i as int));
        lemma_decoded_lines_append(lv.take(i as int), lv.skip(i as int));
        let suffix = decoded_lines(lv.skip(i as int));
        assert(dl == dec + suffix);
        if i == nlines {
            assert(lv.skip(i as int) =~= Seq::<Seq<u8>>::empty());
            assert(dl =~= dec);
            assert(taken_lines(bytes@, limit as int) =~= dec);
        } else {
            assert(consumed == limit);
            assert(dl.len() >= limit);
            assert(taken_lines(bytes@, limit as int) =~= dec);
        }
    }
    Ok(out)
}

/// Loads edge-insertion commands from the gzip-compressed text `data`,
/// consuming at most `samples` decoded records (comments included); `None`
/// puts no bound. Fails when the stream does not decompress, or on the
/// first malformed record, with no partial result.
pub fn dataset(data: &[u8], samples: Option<usize>) -> (r: Result<Vec<Update>, LoadError>)
    ensures
        match r {
            Ok(v) => gunzip_ok(data@) && spec_load_text(gunzip_of(data@), spec_limit(samples))
                == Ok::<Seq<Update>, int>(v@),
            Err(LoadError::Malformed { line }) => gunzip_ok(data@) && spec_load_text(
                gunzip_of(data@),
                spec_limit(samples),
            ) == Err::<Seq<Update>, int>(line as int),
            Err(LoadError::Corrupt) => !gunzip_ok(data@),
        },
{
    match gunzip(data) {
        None => Err(LoadError::Corrupt),
        Some(text) => load_text(text.as_slice(), samples),
    }
}

} // verus!
