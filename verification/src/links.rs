//! Link-target masking: a helper that does not own markdown link targets
//! `](…)` runs only on the text between them, and the targets pass through
//! verbatim.
use crate::css::opt_view;
use crate::patterns::{find_link_targets, link_target_spans};
use crate::text::{push_slice, spans_wf, Span};
use vstd::prelude::*;
use vstd::slice::slice_subrange;

verus! {

/// The `i`-th stretch of `hay` around the link targets `spans`: before the
/// first target, between two targets, or after the last one (there are
/// `spans.len() + 1` of them).
pub open spec fn chunk(hay: Seq<u8>, spans: Seq<Span>, i: int) -> Seq<u8> {
    let from = if i == 0 {
        0
    } else {
        spans[i - 1].1 as int
    };
    let to = if i < spans.len() {
        spans[i].0 as int
    } else {
        hay.len() as int
    };
    hay.subrange(from, to)
}

/// The converted stretches `outs`, with the link targets of `hay` back
/// between them.
pub open spec fn woven(hay: Seq<u8>, spans: Seq<Span>, outs: Seq<Seq<u8>>) -> Seq<u8>
    decreases outs.len(),
{
    if outs.len() == 0 {
        seq![]
    } else if outs.len() == 1 {
        outs[0]
    } else {
        let t = spans[outs.len() - 2];
        woven(hay, spans, outs.drop_last()) + hay.subrange(t.0 as int, t.1 as int) + outs.last()
    }
}

/// `done` are results that `rel` allows for the first stretches of `hay`.
pub open spec fn chunks_prefix(
    rel: spec_fn(Seq<u8>, Option<Seq<u8>>) -> bool,
    hay: Seq<u8>,
    spans: Seq<Span>,
    done: Seq<Seq<u8>>,
) -> bool {
    &&& done.len() <= spans.len() + 1
    &&& forall|i: int| 0 <= i < done.len() ==> rel(chunk(hay, spans, i), Some(#[trigger] done[i]))
}

/// `out` is what comes of running a helper with results `rel` on the text
/// between the link targets of `hay`, one stretch after another, with the
/// targets kept verbatim; `None` from the first stretch without a result on.
pub open spec fn masked_by(
    rel: spec_fn(Seq<u8>, Option<Seq<u8>>) -> bool,
    hay: Seq<u8>,
    out: Option<Seq<u8>>,
) -> bool {
    let spans = link_target_spans(hay);
    exists|done: Seq<Seq<u8>>|
        {
            &&& #[trigger] chunks_prefix(rel, hay, spans, done)
            &&& if done.len() == spans.len() + 1 {
                out == Some(woven(hay, spans, done))
            } else {
                rel(chunk(hay, spans, done.len() as int), None) && out is None
            }
        }
}

/// `rel` gives `t` some result.
pub open spec fn has_result(rel: spec_fn(Seq<u8>, Option<Seq<u8>>) -> bool, t: Seq<u8>) -> bool {
    exists|r: Seq<u8>| rel(t, Some(r))
}

/// A masked run puts the helper's result for every stretch between link
/// targets, the first, the last and each one between two targets, in place
/// of that stretch, and keeps the targets verbatim; where it has no result,
/// some stretch has none while those before it have one.
pub proof fn law_masked_stretches(
    rel: spec_fn(Seq<u8>, Option<Seq<u8>>) -> bool,
    hay: Seq<u8>,
    out: Option<Seq<u8>>,
)
    requires
        masked_by(rel, hay, out),
    ensures
        out matches Some(o) ==> exists|outs: Seq<Seq<u8>>|
            {
                &&& outs.len() == link_target_spans(hay).len() + 1
                &&& forall|i: int|
                    0 <= i < outs.len() ==> #[trigger] rel(
                        chunk(hay, link_target_spans(hay), i),
                        Some(outs[i]),
                    )
                &&& o == woven(hay, link_target_spans(hay), outs)
            },
        out is None ==> exists|i: int|
            0 <= i <= link_target_spans(hay).len() && #[trigger] rel(
                chunk(hay, link_target_spans(hay), i),
                None,
            ) && forall|j: int|
                0 <= j < i ==> #[trigger] has_result(rel, chunk(hay, link_target_spans(hay), j)),
{
    let spans = link_target_spans(hay);
    let d = choose|done: Seq<Seq<u8>>|
        {
            &&& #[trigger] chunks_prefix(rel, hay, spans, done)
            &&& if done.len() == spans.len() + 1 {
                out == Some(woven(hay, spans, done))
            } else {
                rel(chunk(hay, spans, done.len() as int), None) && out is None
            }
        };
    if d.len() == spans.len() + 1 {
        assert forall|i: int| 0 <= i < d.len() implies #[trigger] rel(chunk(hay, spans, i), Some(d[i])) by {
            assert(rel(chunk(hay, spans, i), Some(d[i])));
        }
    } else {
        let i = d.len() as int;
        assert(rel(chunk(hay, spans, i), None));
        assert forall|j: int| 0 <= j < i implies #[trigger] has_result(rel, chunk(hay, spans, j)) by {
            assert(rel(chunk(hay, spans, j), Some(d[j])));
        }
    }
}

/// In a text with no link target the masked run is the helper's run.
pub proof fn law_masked_without_targets(
    rel: spec_fn(Seq<u8>, Option<Seq<u8>>) -> bool,
    hay: Seq<u8>,
    out: Option<Seq<u8>>,
)
    requires
        masked_by(rel, hay, out),
        link_target_spans(hay).len() == 0,
    ensures
        rel(hay, out),
{
    let spans = link_target_spans(hay);
    assert(chunk(hay, spans, 0) =~= hay);
    let d = choose|done: Seq<Seq<u8>>|
        {
            &&& #[trigger] chunks_prefix(rel, hay, spans, done)
            &&& if done.len() == spans.len() + 1 {
                out == Some(woven(hay, spans, done))
            } else {
                rel(chunk(hay, spans, done.len() as int), None) && out is None
            }
        };
    if d.len() == 1 {
        assert(rel(chunk(hay, spans, 0), Some(d[0])));
    }
}

/// With a helper that has one result for each text, the masked run has one
/// result too.
pub proof fn lemma_masked_unique(
    rel: spec_fn(Seq<u8>, Option<Seq<u8>>) -> bool,
    hay: Seq<u8>,
    o1: Option<Seq<u8>>,
    o2: Option<Seq<u8>>,
)
    requires
        forall|t: Seq<u8>, x: Option<Seq<u8>>, y: Option<Seq<u8>>|
            #[trigger] rel(t, x) && #[trigger] rel(t, y) ==> x == y,
        masked_by(rel, hay, o1),
        masked_by(rel, hay, o2),
    ensures
        o1 == o2,
{
    let spans = link_target_spans(hay);
    let d1 = choose|done: Seq<Seq<u8>>|
        {
            &&& #[trigger] chunks_prefix(rel, hay, spans, done)
            &&& if done.len() == spans.len() + 1 {
                o1 == Some(woven(hay, spans, done))
            } else {
                rel(chunk(hay, spans, done.len() as int), None) && o1 is None
            }
        };
    let d2 = choose|done: Seq<Seq<u8>>|
        {
            &&& #[trigger] chunks_prefix(rel, hay, spans, done)
            &&& if done.len() == spans.len() + 1 {
                o2 == Some(woven(hay, spans, done))
            } else {
                rel(chunk(hay, spans, done.len() as int), None) && o2 is None
            }
        };
    let m = if d1.len() < d2.len() { d1.len() } else { d2.len() };
    assert forall|i: int| 0 <= i < m implies d1[i] == d2[i] by {
        assert(rel(chunk(hay, spans, i), Some(d1[i])));
        assert(rel(chunk(hay, spans, i), Some(d2[i])));
    }
    if d1.len() < d2.len() {
        let i = d1.len() as int;
        assert(rel(chunk(hay, spans, i), Some(d2[i])));
    } else if d2.len() < d1.len() {
        let i = d2.len() as int;
        assert(rel(chunk(hay, spans, i), Some(d1[i])));
    } else {
        assert(d1 =~= d2);
    }
}

/// Runs `run` on each stretch of `input` between markdown link targets and
/// puts the targets back between the results (see `masked_by`).
pub(crate) fn outside_link_targets<F: Fn(&[u8]) -> Option<Vec<u8>>>(
    input: &[u8],
    run: &F,
    Ghost(rel): Ghost<spec_fn(Seq<u8>, Option<Seq<u8>>) -> bool>,
) -> (r: Option<Vec<u8>>)
    requires
        forall|a: &[u8]| call_requires(*run, (a,)),
        forall|a: &[u8], c: Option<Vec<u8>>| call_ensures(*run, (a,), c) ==> rel(a@, opt_view(c)),
    ensures
        masked_by(rel, input@, opt_view(r)),
{
    let spans = find_link_targets(input);
    let ghost sp = spans@;
    let mut out: Vec<u8> = Vec::new();
    let mut i: usize = 0;
    let ghost mut done: Seq<Seq<u8>> = seq![];
    while i < spans.len()
        invariant
            i <= spans@.len(),
            sp == spans@,
            sp == link_target_spans(input@),
            spans_wf(sp, input@.len() as int),
            done.len() == i,
            chunks_prefix(rel, input@, sp, done),
            out@ == woven(input@, sp, done) + (if i > 0 {
                input@.subrange(sp[i - 1].0 as int, sp[i - 1].1 as int)
            } else {
                seq![]
            }),
            forall|a: &[u8]| call_requires(*run, (a,)),
            forall|a: &[u8], c: Option<Vec<u8>>| call_ensures(*run, (a,), c) ==> rel(a@, opt_view(c)),
        decreases spans@.len() - i,
    {
        let from = if i == 0 {
            0
        } else {
            spans[i - 1].1
        };
        let (s, e) = spans[i];
        if i > 0 {
            assert(sp[i - 1].1 <= sp[i as int].0);
        }
        let piece = slice_subrange(input, from, s);
        assert(piece@ == chunk(input@, sp, i as int));
        match run(piece) {
            Some(converted) => {
                let ghost before = out@;
                push_slice(&mut out, converted.as_slice());
                let ghost next = done.push(converted@);
                assert(next.drop_last() =~= done);
                push_slice(&mut out, slice_subrange(input, s, e));
                proof {
                    assert(woven(input@, sp, next) =~= before + converted@);
                    done = next;
                }
            },
            None => {
                assert(rel(chunk(input@, sp, i as int), None));
                return None;
            },
        }
        i = i + 1;
    }
    let from = if i == 0 {
        0
    } else {
        spans[i - 1].1
    };
    let piece = slice_subrange(input, from, input.len());
    assert(piece@ == chunk(input@, sp, i as int));
    match run(piece) {
        Some(converted) => {
            let ghost before = out@;
            push_slice(&mut out, converted.as_slice());
            let ghost next = done.push(converted@);
            assert(next.drop_last() =~= done);
            assert(woven(input@, sp, next) =~= before + converted@);
            assert(chunks_prefix(rel, input@, sp, next));
            Some(out)
        },
        None => {
            assert(rel(chunk(input@, sp, i as int), None));
            None
        },
    }
}

} // verus!
