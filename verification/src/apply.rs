//! Runs the chosen helpers one after another over a text, keeping markdown
//! link targets away from the helpers that do not own them.
use crate::css::opt_view;
use crate::helpers::{owns_link_targets, Helper};
use crate::hex::{hex2oklch, hex_rgba, oklch_conversion};
use crate::links::{lemma_masked_unique, masked_by, outside_link_targets};
use crate::mdlink::{mdlink, mdlink_spec};
use crate::now::{now, refreshed_by};
use crate::px::{px2rem, rem_conversion};
use crate::sort::{sort, sorted_text};
use crate::text::split_lines;
use crate::values::{deterministic, law_convert_unique, lines_converted_by, ValueKind};
use vstd::prelude::*;

verus! {

/// What the helpers need from outside: the rem text of a px value, the
/// oklch text of a color, and the current time.
pub struct Conversions<R, O, S> {
    /// The rem text for a matched px value such as `16px`.
    pub rem: R,
    /// The oklch text for red, green, blue and an optional alpha byte.
    pub oklch: O,
    /// The current local time as `2026-06-11 at 01.50.48 PM`, if known.
    pub stamp: S,
}

/// The closures of `conv` can be called on any argument.
pub open spec fn conversions_ready<
    R: Fn(&[u8]) -> Vec<u8>,
    O: Fn(u8, u8, u8, Option<u8>) -> Vec<u8>,
    S: Fn() -> Option<Vec<u8>>,
>(conv: Conversions<R, O, S>) -> bool {
    &&& forall|a: &[u8]| call_requires(conv.rem, (a,))
    &&& forall|r: u8, g: u8, b: u8, a: Option<u8>| call_requires(conv.oklch, (r, g, b, a))
    &&& call_requires(conv.stamp, ())
}

/// `out` is a result of the helper `h` on `text`, with `conv` for what comes
/// from outside.
pub open spec fn run_by<
    R: Fn(&[u8]) -> Vec<u8>,
    O: Fn(u8, u8, u8, Option<u8>) -> Vec<u8>,
    S: Fn() -> Option<Vec<u8>>,
>(h: Helper, conv: Conversions<R, O, S>, text: Seq<u8>, out: Option<Seq<u8>>) -> bool {
    match h {
        Helper::Px2rem => lines_converted_by(
            ValueKind::Px,
            rem_conversion(conv.rem),
            split_lines(text),
            out,
        ),
        Helper::Hex2oklch => lines_converted_by(
            ValueKind::Hex,
            oklch_conversion(conv.oklch),
            split_lines(text),
            out,
        ),
        Helper::Now => out matches Some(o) && refreshed_by(conv.stamp, text, o),
        Helper::Mdlink => out == Some(mdlink_spec(text)),
        Helper::Sort => out == Some(sorted_text(text)),
    }
}

/// `out` is a result of one step of `apply` with the helper `h`: the helper
/// on the whole text when it owns link targets, otherwise on the text
/// between them (see `masked_by`).
pub open spec fn step_by<
    R: Fn(&[u8]) -> Vec<u8>,
    O: Fn(u8, u8, u8, Option<u8>) -> Vec<u8>,
    S: Fn() -> Option<Vec<u8>>,
>(h: Helper, conv: Conversions<R, O, S>, text: Seq<u8>, out: Option<Seq<u8>>) -> bool {
    if owns_link_targets(h) {
        run_by(h, conv, text, out)
    } else {
        masked_by(|t: Seq<u8>, o: Option<Seq<u8>>| run_by(h, conv, t, o), text, out)
    }
}

/// `texts` are the text before the first step and after each of the first
/// steps of `apply` with `selected`.
pub open spec fn steps_taken<
    R: Fn(&[u8]) -> Vec<u8>,
    O: Fn(u8, u8, u8, Option<u8>) -> Vec<u8>,
    S: Fn() -> Option<Vec<u8>>,
>(selected: Seq<Helper>, conv: Conversions<R, O, S>, input: Seq<u8>, texts: Seq<Seq<u8>>) -> bool {
    &&& 1 <= texts.len() <= selected.len() + 1
    &&& texts[0] == input
    &&& forall|i: int|
        0 <= i < texts.len() - 1 ==> step_by(selected[i], conv, #[trigger] texts[i], Some(texts[i + 1]))
}

/// `out` is what `apply` makes of `input`: each selected helper in turn on
/// the result of the one before, or `None` from the first step without a
/// result on.
pub open spec fn applied_by<
    R: Fn(&[u8]) -> Vec<u8>,
    O: Fn(u8, u8, u8, Option<u8>) -> Vec<u8>,
    S: Fn() -> Option<Vec<u8>>,
>(selected: Seq<Helper>, conv: Conversions<R, O, S>, input: Seq<u8>, out: Option<Seq<u8>>) -> bool {
    exists|texts: Seq<Seq<u8>>|
        {
            &&& #[trigger] steps_taken(selected, conv, input, texts)
            &&& if texts.len() == selected.len() + 1 {
                out == Some(texts.last())
            } else {
                step_by(selected[texts.len() - 1], conv, texts.last(), None) && out is None
            }
        }
}

/// Running no helper gives the text back.
pub proof fn law_apply_nothing<
    R: Fn(&[u8]) -> Vec<u8>,
    O: Fn(u8, u8, u8, Option<u8>) -> Vec<u8>,
    S: Fn() -> Option<Vec<u8>>,
>(conv: Conversions<R, O, S>, input: Seq<u8>, out: Option<Seq<u8>>)
    requires
        applied_by(seq![], conv, input, out),
    ensures
        out == Some(input),
{
    let texts = choose|texts: Seq<Seq<u8>>|
        {
            &&& #[trigger] steps_taken(seq![], conv, input, texts)
            &&& if texts.len() == 0 + 1 {
                out == Some(texts.last())
            } else {
                step_by(seq![][texts.len() - 1], conv, texts.last(), None) && out is None
            }
        };
    assert(texts.len() == 1);
}

/// Helpers run one after another: a result of `a` on `input`, then of `b`
/// on that, is a result of `a + b` on `input`; where `a` gives no result,
/// neither does `a + b`.
#[verifier::spinoff_prover]
#[verifier::rlimit(40)]
pub proof fn law_apply_concat<
    R: Fn(&[u8]) -> Vec<u8>,
    O: Fn(u8, u8, u8, Option<u8>) -> Vec<u8>,
    S: Fn() -> Option<Vec<u8>>,
>(
    a: Seq<Helper>,
    b: Seq<Helper>,
    conv: Conversions<R, O, S>,
    input: Seq<u8>,
    mid: Option<Seq<u8>>,
    out: Option<Seq<u8>>,
)
    requires
        applied_by(a, conv, input, mid),
        mid matches Some(m) ==> applied_by(b, conv, m, out),
        mid is None ==> out is None,
    ensures
        applied_by(a + b, conv, input, out),
{
    let ab = a + b;
    let ta = choose|texts: Seq<Seq<u8>>|
        {
            &&& #[trigger] steps_taken(a, conv, input, texts)
            &&& if texts.len() == a.len() + 1 {
                mid == Some(texts.last())
            } else {
                step_by(a[texts.len() - 1], conv, texts.last(), None) && mid is None
            }
        };
    if ta.len() < a.len() + 1 {
        assert(steps_taken(ab, conv, input, ta)) by {
            assert forall|i: int| 0 <= i < ta.len() - 1 implies step_by(
                ab[i],
                conv,
                #[trigger] ta[i],
                Some(ta[i + 1]),
            ) by {
                assert(ab[i] == a[i]);
            }
        }
        assert(ab[ta.len() - 1] == a[ta.len() - 1]);
    } else {
        let m = ta.last();
        assert(applied_by(b, conv, m, out));
        let tb = choose|texts: Seq<Seq<u8>>|
            {
                &&& #[trigger] steps_taken(b, conv, m, texts)
                &&& if texts.len() == b.len() + 1 {
                    out == Some(texts.last())
                } else {
                    step_by(b[texts.len() - 1], conv, texts.last(), None) && out is None
                }
            };
        let n = a.len() as int;
        let t = Seq::new(
            (n + tb.len()) as nat,
            |i: int|
                if i <= n {
                    ta[i]
                } else {
                    tb[i - n]
                },
        );
        assert(ta[n] == m && tb[0] == m);
        assert(steps_taken(ab, conv, input, t)) by {
            assert forall|i: int| 0 <= i < t.len() - 1 implies step_by(
                ab[i],
                conv,
                #[trigger] t[i],
                Some(t[i + 1]),
            ) by {
                if i < n {
                    assert(ab[i] == a[i]);
                    assert(t[i] == ta[i] && t[i + 1] == ta[i + 1]);
                } else {
                    assert(ab[i] == b[i - n]);
                    assert(t[i] == tb[i - n] && t[i + 1] == tb[i - n + 1]);
                }
            }
        }
        assert(t.last() == tb.last());
        if tb.len() < b.len() + 1 {
            assert(ab[t.len() - 1] == b[tb.len() - 1]);
        }
    }
}

/// Every result of `a + b` comes from a result of `a`, then one of `b` on
/// it; where `a` gives no result, neither does `a + b`.
#[verifier::spinoff_prover]
#[verifier::rlimit(40)]
pub proof fn law_apply_split<
    R: Fn(&[u8]) -> Vec<u8>,
    O: Fn(u8, u8, u8, Option<u8>) -> Vec<u8>,
    S: Fn() -> Option<Vec<u8>>,
>(a: Seq<Helper>, b: Seq<Helper>, conv: Conversions<R, O, S>, input: Seq<u8>, out: Option<Seq<u8>>)
    requires
        applied_by(a + b, conv, input, out),
    ensures
        exists|mid: Option<Seq<u8>>|
            {
                &&& #[trigger] applied_by(a, conv, input, mid)
                &&& mid matches Some(m) ==> applied_by(b, conv, m, out)
                &&& mid is None ==> out is None
            },
{
    let ab = a + b;
    let n = a.len() as int;
    let t = choose|texts: Seq<Seq<u8>>|
        {
            &&& #[trigger] steps_taken(ab, conv, input, texts)
            &&& if texts.len() == ab.len() + 1 {
                out == Some(texts.last())
            } else {
                step_by(ab[texts.len() - 1], conv, texts.last(), None) && out is None
            }
        };
    if t.len() <= n {
        assert(steps_taken(a, conv, input, t)) by {
            assert forall|i: int| 0 <= i < t.len() - 1 implies step_by(
                a[i],
                conv,
                #[trigger] t[i],
                Some(t[i + 1]),
            ) by {
                assert(ab[i] == a[i]);
            }
        }
        assert(ab[t.len() - 1] == a[t.len() - 1]);
        assert(applied_by(a, conv, input, None));
    } else {
        let ta = t.subrange(0, n + 1);
        let tb = t.subrange(n, t.len() as int);
        let m = t[n];
        assert(steps_taken(a, conv, input, ta)) by {
            assert forall|i: int| 0 <= i < ta.len() - 1 implies step_by(
                a[i],
                conv,
                #[trigger] ta[i],
                Some(ta[i + 1]),
            ) by {
                assert(ab[i] == a[i]);
                assert(ta[i] == t[i] && ta[i + 1] == t[i + 1]);
                assert(step_by(ab[i], conv, t[i], Some(t[i + 1])));
            }
        }
        assert(ta.last() == m);
        assert(applied_by(a, conv, input, Some(m)));
        assert(steps_taken(b, conv, m, tb)) by {
            assert forall|i: int| 0 <= i < tb.len() - 1 implies step_by(
                b[i],
                conv,
                #[trigger] tb[i],
                Some(tb[i + 1]),
            ) by {
                assert(ab[i + n] == b[i]);
                assert(tb[i] == t[i + n] && tb[i + 1] == t[i + n + 1]);
                assert(step_by(ab[i + n], conv, t[i + n], Some(t[i + n + 1])));
            }
        }
        assert(tb.last() == t.last());
        if t.len() < ab.len() + 1 {
            assert(ab[t.len() - 1] == b[tb.len() - 1]);
        }
        assert(applied_by(b, conv, m, out));
    }
}

/// The conversions and the clock of `conv` give one answer to each
/// question: the rem text depends on the px text only, the oklch text on the
/// color only, and the clock always tells the same.
pub open spec fn conversions_deterministic<
    R: Fn(&[u8]) -> Vec<u8>,
    O: Fn(u8, u8, u8, Option<u8>) -> Vec<u8>,
    S: Fn() -> Option<Vec<u8>>,
>(conv: Conversions<R, O, S>) -> bool {
    &&& forall|a: &[u8], b: &[u8], v: Vec<u8>, w: Vec<u8>|
        #[trigger] call_ensures(conv.rem, (a,), v) && #[trigger] call_ensures(conv.rem, (b,), w)
            && a@ == b@ ==> v@ == w@
    &&& forall|r: u8, g: u8, b: u8, al: Option<u8>, v: Vec<u8>, w: Vec<u8>|
        #[trigger] call_ensures(conv.oklch, (r, g, b, al), v) && #[trigger] call_ensures(
            conv.oklch,
            (r, g, b, al),
            w,
        ) ==> v@ == w@
    &&& forall|x: Option<Vec<u8>>, y: Option<Vec<u8>>|
        #[trigger] call_ensures(conv.stamp, (), x) && #[trigger] call_ensures(conv.stamp, (), y)
            ==> opt_view(x) == opt_view(y)
}

/// With deterministic conversions each helper has one result for a text.
proof fn lemma_run_unique<
    R: Fn(&[u8]) -> Vec<u8>,
    O: Fn(u8, u8, u8, Option<u8>) -> Vec<u8>,
    S: Fn() -> Option<Vec<u8>>,
>(h: Helper, conv: Conversions<R, O, S>, text: Seq<u8>, o1: Option<Seq<u8>>, o2: Option<Seq<u8>>)
    requires
        conversions_deterministic(conv),
        run_by(h, conv, text, o1),
        run_by(h, conv, text, o2),
    ensures
        o1 == o2,
{
    match h {
        Helper::Px2rem => {
            let ok = rem_conversion(conv.rem);
            assert(deterministic(ok)) by {
                assert forall|t: Seq<u8>, c1: Option<Seq<u8>>, c2: Option<Seq<u8>>|
                    #[trigger] ok(t, c1) && #[trigger] ok(t, c2) implies c1 == c2 by {
                    let (a, v) = choose|a: &[u8], v: Vec<u8>|
                        a@ == t && #[trigger] call_ensures(conv.rem, (a,), v) && c1 == Some(v@);
                    let (b, w) = choose|b: &[u8], w: Vec<u8>|
                        b@ == t && #[trigger] call_ensures(conv.rem, (b,), w) && c2 == Some(w@);
                    assert(call_ensures(conv.rem, (a,), v) && call_ensures(conv.rem, (b,), w));
                }
            }
            law_convert_unique(ValueKind::Px, ok, split_lines(text), o1, o2);
        },
        Helper::Hex2oklch => {
            let ok = oklch_conversion(conv.oklch);
            assert(deterministic(ok)) by {
                assert forall|t: Seq<u8>, c1: Option<Seq<u8>>, c2: Option<Seq<u8>>|
                    #[trigger] ok(t, c1) && #[trigger] ok(t, c2) implies c1 == c2 by {
                    match hex_rgba(t.subrange(1, t.len() as int)) {
                        None => {},
                        Some(q) => {
                            let v = choose|v: Vec<u8>|
                                #[trigger] call_ensures(conv.oklch, (q.0, q.1, q.2, q.3), v) && c1 == Some(v@);
                            let w = choose|w: Vec<u8>|
                                #[trigger] call_ensures(conv.oklch, (q.0, q.1, q.2, q.3), w) && c2 == Some(w@);
                            assert(call_ensures(conv.oklch, (q.0, q.1, q.2, q.3), v));
                            assert(call_ensures(conv.oklch, (q.0, q.1, q.2, q.3), w));
                        },
                    }
                }
            }
            law_convert_unique(ValueKind::Hex, ok, split_lines(text), o1, o2);
        },
        Helper::Now => {
            let x1 = o1.unwrap();
            let x2 = o2.unwrap();
            assert(refreshed_by(conv.stamp, text, x1) && refreshed_by(conv.stamp, text, x2));
            if crate::patterns::timestamp_spans(text).len() != 0 {
                let r1 = choose|r: Option<Vec<u8>>|
                    #[trigger] call_ensures(conv.stamp, (), r) && x1 == crate::now::refreshed_with(
                        text,
                        match r {
                            Some(s) => Some(s@),
                            None => None,
                        },
                    );
                let r2 = choose|r: Option<Vec<u8>>|
                    #[trigger] call_ensures(conv.stamp, (), r) && x2 == crate::now::refreshed_with(
                        text,
                        match r {
                            Some(s) => Some(s@),
                            None => None,
                        },
                    );
                assert(call_ensures(conv.stamp, (), r1) && call_ensures(conv.stamp, (), r2));
                assert(opt_view(r1) == opt_view(r2));
            }
        },
        Helper::Mdlink => {},
        Helper::Sort => {},
    }
}

/// With deterministic conversions each step has one result for a text.
proof fn lemma_step_unique<
    R: Fn(&[u8]) -> Vec<u8>,
    O: Fn(u8, u8, u8, Option<u8>) -> Vec<u8>,
    S: Fn() -> Option<Vec<u8>>,
>(h: Helper, conv: Conversions<R, O, S>, text: Seq<u8>, o1: Option<Seq<u8>>, o2: Option<Seq<u8>>)
    requires
        conversions_deterministic(conv),
        step_by(h, conv, text, o1),
        step_by(h, conv, text, o2),
    ensures
        o1 == o2,
{
    if owns_link_targets(h) {
        lemma_run_unique(h, conv, text, o1, o2);
    } else {
        let rel = |t: Seq<u8>, o: Option<Seq<u8>>| run_by(h, conv, t, o);
        assert forall|t: Seq<u8>, x: Option<Seq<u8>>, y: Option<Seq<u8>>|
            #[trigger] rel(t, x) && #[trigger] rel(t, y) implies x == y by {
            lemma_run_unique(h, conv, t, x, y);
        }
        lemma_masked_unique(rel, text, o1, o2);
    }
}

/// With deterministic conversions, applying helpers has one result.
pub proof fn law_apply_unique<
    R: Fn(&[u8]) -> Vec<u8>,
    O: Fn(u8, u8, u8, Option<u8>) -> Vec<u8>,
    S: Fn() -> Option<Vec<u8>>,
>(
    selected: Seq<Helper>,
    conv: Conversions<R, O, S>,
    input: Seq<u8>,
    o1: Option<Seq<u8>>,
    o2: Option<Seq<u8>>,
)
    requires
        conversions_deterministic(conv),
        applied_by(selected, conv, input, o1),
        applied_by(selected, conv, input, o2),
    ensures
        o1 == o2,
{
    let t1 = choose|texts: Seq<Seq<u8>>|
        {
            &&& #[trigger] steps_taken(selected, conv, input, texts)
            &&& if texts.len() == selected.len() + 1 {
                o1 == Some(texts.last())
            } else {
                step_by(selected[texts.len() - 1], conv, texts.last(), None) && o1 is None
            }
        };
    let t2 = choose|texts: Seq<Seq<u8>>|
        {
            &&& #[trigger] steps_taken(selected, conv, input, texts)
            &&& if texts.len() == selected.len() + 1 {
                o2 == Some(texts.last())
            } else {
                step_by(selected[texts.len() - 1], conv, texts.last(), None) && o2 is None
            }
        };
    let m = if t1.len() < t2.len() { t1.len() as int } else { t2.len() as int };
    lemma_texts_agree(selected, conv, input, t1, t2, m);
    if t1.len() < t2.len() {
        let i = t1.len() - 1;
        assert(step_by(selected[i], conv, t2[i], Some(t2[i + 1])));
        lemma_step_unique(selected[i], conv, t1[i], None, Some(t2[i + 1]));
    } else if t2.len() < t1.len() {
        let i = t2.len() - 1;
        assert(step_by(selected[i], conv, t1[i], Some(t1[i + 1])));
        lemma_step_unique(selected[i], conv, t2[i], None, Some(t1[i + 1]));
    } else {
        assert(t1.last() == t2.last());
    }
}

proof fn lemma_texts_agree<
    R: Fn(&[u8]) -> Vec<u8>,
    O: Fn(u8, u8, u8, Option<u8>) -> Vec<u8>,
    S: Fn() -> Option<Vec<u8>>,
>(
    selected: Seq<Helper>,
    conv: Conversions<R, O, S>,
    input: Seq<u8>,
    t1: Seq<Seq<u8>>,
    t2: Seq<Seq<u8>>,
    m: int,
)
    requires
        conversions_deterministic(conv),
        steps_taken(selected, conv, input, t1),
        steps_taken(selected, conv, input, t2),
        1 <= m <= t1.len(),
        m <= t2.len(),
    ensures
        forall|i: int| 0 <= i < m ==> t1[i] == t2[i],
    decreases m,
{
    if m > 1 {
        lemma_texts_agree(selected, conv, input, t1, t2, m - 1);
        let i = m - 2;
        assert(step_by(selected[i], conv, t1[i], Some(t1[i + 1])));
        assert(step_by(selected[i], conv, t2[i], Some(t2[i + 1])));
        lemma_step_unique(selected[i], conv, t1[i], Some(t1[i + 1]), Some(t2[i + 1]));
    }
}

/// Helpers are applied one after another: with deterministic conversions,
/// the result of `a + b` is the result of `b` on the result of `a` (none
/// where `a` has none).
pub proof fn law_apply_concat_eq<
    R: Fn(&[u8]) -> Vec<u8>,
    O: Fn(u8, u8, u8, Option<u8>) -> Vec<u8>,
    S: Fn() -> Option<Vec<u8>>,
>(
    a: Seq<Helper>,
    b: Seq<Helper>,
    conv: Conversions<R, O, S>,
    input: Seq<u8>,
    mid: Option<Seq<u8>>,
    out: Option<Seq<u8>>,
    whole: Option<Seq<u8>>,
)
    requires
        conversions_deterministic(conv),
        applied_by(a, conv, input, mid),
        mid matches Some(m) ==> applied_by(b, conv, m, out),
        mid is None ==> out is None,
        applied_by(a + b, conv, input, whole),
    ensures
        whole == out,
{
    law_apply_concat(a, b, conv, input, mid, out);
    law_apply_unique(a + b, conv, input, whole, out);
}

/// Runs the helper `h` on the whole of `text`.
pub fn run_helper<
    R: Fn(&[u8]) -> Vec<u8>,
    O: Fn(u8, u8, u8, Option<u8>) -> Vec<u8>,
    S: Fn() -> Option<Vec<u8>>,
>(h: Helper, text: &[u8], conv: &Conversions<R, O, S>) -> (r: Option<Vec<u8>>)
    requires
        conversions_ready(*conv),
    ensures
        run_by(h, *conv, text@, opt_view(r)),
{
    match h {
        Helper::Px2rem => px2rem(text, &conv.rem),
        Helper::Hex2oklch => hex2oklch(text, &conv.oklch),
        Helper::Now => Some(now(text, &conv.stamp)),
        Helper::Mdlink => Some(mdlink(text)),
        Helper::Sort => Some(sort(text)),
    }
}

/// Runs the helper `h` as one step of `apply` (see `step_by`).
pub fn run_step<
    R: Fn(&[u8]) -> Vec<u8>,
    O: Fn(u8, u8, u8, Option<u8>) -> Vec<u8>,
    S: Fn() -> Option<Vec<u8>>,
>(h: Helper, text: &[u8], conv: &Conversions<R, O, S>) -> (r: Option<Vec<u8>>)
    requires
        conversions_ready(*conv),
    ensures
        step_by(h, *conv, text@, opt_view(r)),
{
    if h.sees_link_targets() {
        run_helper(h, text, conv)
    } else {
        let run = |t: &[u8]| -> (c: Option<Vec<u8>>)
            ensures
                run_by(h, *conv, t@, opt_view(c)),
            { run_helper(h, t, conv) };
        outside_link_targets(
            text,
            &run,
            Ghost(|t: Seq<u8>, o: Option<Seq<u8>>| run_by(h, *conv, t, o)),
        )
    }
}

/// Applies the selected helpers to `input`, one after another in the given
/// order (see `applied_by`). `None` where a helper hits a line that ends in
/// a bare `/*/` while originals are to be echoed.
pub fn apply<
    R: Fn(&[u8]) -> Vec<u8>,
    O: Fn(u8, u8, u8, Option<u8>) -> Vec<u8>,
    S: Fn() -> Option<Vec<u8>>,
>(selected: &[Helper], input: Vec<u8>, conv: &Conversions<R, O, S>) -> (r: Option<Vec<u8>>)
    requires
        conversions_ready(*conv),
    ensures
        applied_by(selected@, *conv, input@, opt_view(r)),
{
    let mut text = input;
    let ghost mut texts: Seq<Seq<u8>> = seq![input@];
    let mut k: usize = 0;
    while k < selected.len()
        invariant
            k <= selected@.len(),
            conversions_ready(*conv),
            texts.len() == k + 1,
            texts.last() == text@,
            steps_taken(selected@, *conv, input@, texts),
        decreases selected@.len() - k,
    {
        match run_step(selected[k], text.as_slice(), conv) {
            Some(next) => {
                proof {
                    let more = texts.push(next@);
                    assert forall|i: int| 0 <= i < more.len() - 1 implies step_by(
                        selected@[i],
                        *conv,
                        #[trigger] more[i],
                        Some(more[i + 1]),
                    ) by {
                        if i < texts.len() - 1 {
                            assert(more[i] == texts[i] && more[i + 1] == texts[i + 1]);
                        }
                    }
                    texts = more;
                }
                text = next;
            },
            None => {
                assert(steps_taken(selected@, *conv, input@, texts));
                return None;
            },
        }
        k = k + 1;
    }
    assert(steps_taken(selected@, *conv, input@, texts));
    Some(text)
}

} // verus!
