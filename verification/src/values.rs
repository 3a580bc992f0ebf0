//! Runs the CSS value engine over every line of a text, for one kind of
//! value (px lengths or hex colors).
use crate::css::{
    comments_ok, convert_line, converted_line, law_commented_values_stay, opt_view, strip_eol,
    values_ok,
};
use crate::patterns::{
    bracket_spans, comment_spans, find_brackets, find_comments, find_hex_colors, find_px_values,
    hex_color_spans, is_hex_digit, lacks, px_value_spans,
};
use crate::text::{
    is_within, lemma_line_end, lemma_split_lines_concat, line_end, push_slice, split_lines, within,
    Span,
};
use vstd::prelude::*;
use vstd::slice::slice_subrange;

verus! {

/// The kinds of CSS values that get converted.
#[derive(Clone, Copy, PartialEq, Eq)]
pub enum ValueKind {
    /// A px length, `-?\d+(?:\.\d+)?px`.
    Px,
    /// A hex color, `#` and three to eight hex digits.
    Hex,
}

/// The value matches of `kind` in `line`.
pub open spec fn value_spans(kind: ValueKind, line: Seq<u8>) -> Seq<Span> {
    match kind {
        ValueKind::Px => px_value_spans(line),
        ValueKind::Hex => hex_color_spans(line),
    }
}

/// What the matched text of a value of `kind` looks like: a hex color is `#`
/// and three to eight ASCII hex digits.
pub open spec fn value_text_ok(kind: ValueKind, t: Seq<u8>) -> bool {
    match kind {
        ValueKind::Px => true,
        ValueKind::Hex => 4 <= t.len() <= 9 && t[0] == 0x23u8 && forall|p: int|
            1 <= p < t.len() ==> is_hex_digit(#[trigger] t[p]),
    }
}

/// `out` is what the engine makes of the line `full` for values of `kind`,
/// where `ok(text, c)` says that `c` is a conversion the converter may give
/// for the matched `text`. Values inside comments are not converted.
pub open spec fn line_converted_by(
    kind: ValueKind,
    ok: spec_fn(Seq<u8>, Option<Seq<u8>>) -> bool,
    full: Seq<u8>,
    out: Option<Seq<u8>>,
) -> bool {
    let line = strip_eol(full);
    let values = value_spans(kind, line);
    let comments = comment_spans(line);
    exists|convs: Seq<Option<Seq<u8>>>|
        {
            &&& convs.len() == values.len()
            &&& forall|k: int|
                0 <= k < values.len() ==> if within(
                    comments,
                    values[k].0 as int,
                    values[k].1 as int,
                ) {
                    #[trigger] convs[k] is None
                } else {
                    ok(line.subrange(values[k].0 as int, values[k].1 as int), convs[k])
                }
            &&& out == converted_line(
                full,
                comments,
                bracket_spans(line),
                values,
                convs,
                kind == ValueKind::Hex,
            )
        }
}

/// All the bytes of `parts`, one after another.
pub open spec fn concat_all(parts: Seq<Seq<u8>>) -> Seq<u8>
    decreases parts.len(),
{
    if parts.len() == 0 {
        seq![]
    } else {
        concat_all(parts.drop_last()) + parts.last()
    }
}

/// `done` are the outputs of the first lines of `lines`, each converted (see
/// `line_converted_by`).
pub open spec fn converted_prefix(
    kind: ValueKind,
    ok: spec_fn(Seq<u8>, Option<Seq<u8>>) -> bool,
    lines: Seq<Seq<u8>>,
    done: Seq<Seq<u8>>,
) -> bool {
    &&& done.len() <= lines.len()
    &&& forall|i: int|
        0 <= i < done.len() ==> line_converted_by(kind, ok, lines[i], Some(#[trigger] done[i]))
}

/// `out` is what the engine makes of `lines`, one after another (see
/// `line_converted_by`): all of them converted, or `None` from the first line
/// without a result on (the lines after it are not looked at).
pub open spec fn lines_converted_by(
    kind: ValueKind,
    ok: spec_fn(Seq<u8>, Option<Seq<u8>>) -> bool,
    lines: Seq<Seq<u8>>,
    out: Option<Seq<u8>>,
) -> bool {
    exists|done: Seq<Seq<u8>>|
        {
            &&& #[trigger] converted_prefix(kind, ok, lines, done)
            &&& if done.len() == lines.len() {
                out == Some(concat_all(done))
            } else {
                line_converted_by(kind, ok, lines[done.len() as int], None) && out is None
            }
        }
}

proof fn lemma_concat_prepend(a: Seq<u8>, rest: Seq<Seq<u8>>)
    ensures
        concat_all(seq![a] + rest) == a + concat_all(rest),
    decreases rest.len(),
{
    if rest.len() == 0 {
        assert(seq![a] + rest =~= seq![a]);
        assert(seq![a].drop_last() =~= Seq::<Seq<u8>>::empty());
        assert(concat_all(seq![a]) == concat_all(seq![a].drop_last()) + a);
        assert(Seq::<u8>::empty() + a =~= a);
        assert(a + concat_all(rest) =~= a);
    } else {
        let all = seq![a] + rest;
        assert(all.drop_last() =~= seq![a] + rest.drop_last());
        lemma_concat_prepend(a, rest.drop_last());
        assert(concat_all(all) == concat_all(all.drop_last()) + rest.last());
        assert(a + concat_all(rest) =~= a + concat_all(rest.drop_last()) + rest.last());
    }
}

/// The lines of a text, put back one after another, are the text.
pub proof fn lemma_lines_concat(s: Seq<u8>)
    ensures
        concat_all(split_lines(s)) == s,
    decreases s.len(),
{
    if s.len() > 0 {
        lemma_line_end(s, 0);
        let n = line_end(s, 0);
        if n > 0 && n <= s.len() {
            let rest = s.subrange(n, s.len() as int);
            lemma_lines_concat(rest);
            lemma_concat_prepend(s.subrange(0, n), split_lines(rest));
            assert(s.subrange(0, n) + rest =~= s);
        } else {
            assert(seq![s].drop_last() =~= Seq::<Seq<u8>>::empty());
            assert(Seq::<u8>::empty() + s =~= s);
        }
    }
}

/// Values inside a `/* … */` comment are never converted, so a text in
/// which every value match of every line lies in a comment (as after an
/// earlier run, which echoed the originals there) comes out unchanged.
pub proof fn law_commented_values_stay_in_text(
    kind: ValueKind,
    ok: spec_fn(Seq<u8>, Option<Seq<u8>>) -> bool,
    input: Seq<u8>,
    out: Option<Seq<u8>>,
)
    requires
        lines_converted_by(kind, ok, split_lines(input), out),
        forall|i: int|
            0 <= i < split_lines(input).len() ==> {
                let line = strip_eol(#[trigger] split_lines(input)[i]);
                forall|k: int|
                    0 <= k < value_spans(kind, line).len() ==> within(
                        comment_spans(line),
                        #[trigger] value_spans(kind, line)[k].0 as int,
                        value_spans(kind, line)[k].1 as int,
                    )
            },
    ensures
        out == Some(input),
{
    let lines = split_lines(input);
    let done = choose|done: Seq<Seq<u8>>|
        {
            &&& #[trigger] converted_prefix(kind, ok, lines, done)
            &&& if done.len() == lines.len() {
                out == Some(concat_all(done))
            } else {
                line_converted_by(kind, ok, lines[done.len() as int], None) && out is None
            }
        };
    // every line either comes out as it is or gives a result
    assert forall|i: int| 0 <= i < lines.len() implies forall|o: Option<Seq<u8>>|
        line_converted_by(kind, ok, #[trigger] lines[i], o) ==> o == Some(lines[i]) by {
        let full = lines[i];
        let line = strip_eol(full);
        let values = value_spans(kind, line);
        assert forall|o: Option<Seq<u8>>| line_converted_by(kind, ok, full, o) implies o == Some(full) by {
            let convs = choose|convs: Seq<Option<Seq<u8>>>|
                {
                    &&& convs.len() == values.len()
                    &&& forall|k: int|
                        0 <= k < values.len() ==> if within(
                            comment_spans(line),
                            values[k].0 as int,
                            values[k].1 as int,
                        ) {
                            #[trigger] convs[k] is None
                        } else {
                            ok(line.subrange(values[k].0 as int, values[k].1 as int), convs[k])
                        }
                    &&& o == converted_line(
                        full,
                        comment_spans(line),
                        bracket_spans(line),
                        values,
                        convs,
                        kind == ValueKind::Hex,
                    )
                };
            law_commented_values_stay(
                full,
                comment_spans(line),
                bracket_spans(line),
                values,
                convs,
                kind == ValueKind::Hex,
            );
        }
    }
    if done.len() < lines.len() {
        assert(line_converted_by(kind, ok, lines[done.len() as int], None));
        assert(false);
    }
    assert(done =~= lines) by {
        assert forall|i: int| 0 <= i < lines.len() implies done[i] == lines[i] by {
            assert(line_converted_by(kind, ok, lines[i], Some(done[i])));
        }
    }
    lemma_lines_concat(input);
}

/// The bytes of `parts + more` are those of `parts`, then those of `more`.
proof fn lemma_concat_append(parts: Seq<Seq<u8>>, more: Seq<Seq<u8>>)
    ensures
        concat_all(parts + more) == concat_all(parts) + concat_all(more),
    decreases more.len(),
{
    if more.len() == 0 {
        assert(parts + more =~= parts);
        assert(concat_all(parts) + concat_all(more) =~= concat_all(parts));
    } else {
        lemma_concat_append(parts, more.drop_last());
        assert((parts + more).drop_last() =~= parts + more.drop_last());
        assert(concat_all(parts + more) =~= concat_all(parts) + concat_all(more));
    }
}

/// Both results, one after the other, when there are both.
pub open spec fn then_join(first: Option<Seq<u8>>, second: Option<Seq<u8>>) -> Option<Seq<u8>> {
    match (first, second) {
        (Some(x), Some(y)) => Some(x + y),
        _ => None,
    }
}

/// Values are converted line by line: where `a` is empty or ends with
/// `\n`, a result for `a` followed by a result for `b` is a result for
/// `a + b`; where `a` gives none, neither does `a + b`.
pub proof fn law_convert_joined(
    kind: ValueKind,
    ok: spec_fn(Seq<u8>, Option<Seq<u8>>) -> bool,
    a: Seq<u8>,
    b: Seq<u8>,
    first: Option<Seq<u8>>,
    second: Option<Seq<u8>>,
)
    requires
        a.len() == 0 || a.last() == 0x0au8,
        lines_converted_by(kind, ok, split_lines(a), first),
        first is Some ==> lines_converted_by(kind, ok, split_lines(b), second),
    ensures
        lines_converted_by(kind, ok, split_lines(a + b), then_join(first, second)),
{
    lemma_split_lines_concat(a, b);
    let la = split_lines(a);
    let lb = split_lines(b);
    let l = la + lb;
    let da = choose|done: Seq<Seq<u8>>|
        {
            &&& #[trigger] converted_prefix(kind, ok, la, done)
            &&& if done.len() == la.len() {
                first == Some(concat_all(done))
            } else {
                line_converted_by(kind, ok, la[done.len() as int], None) && first is None
            }
        };
    if da.len() < la.len() {
        assert(converted_prefix(kind, ok, l, da)) by {
            assert forall|i: int| 0 <= i < da.len() implies line_converted_by(kind, ok, l[i], Some(#[trigger] da[i])) by {
                assert(l[i] == la[i]);
            }
        }
        assert(l[da.len() as int] == la[da.len() as int]);
    } else {
        let db = choose|done: Seq<Seq<u8>>|
            {
                &&& #[trigger] converted_prefix(kind, ok, lb, done)
                &&& if done.len() == lb.len() {
                    second == Some(concat_all(done))
                } else {
                    line_converted_by(kind, ok, lb[done.len() as int], None) && second is None
                }
            };
        let d = da + db;
        assert(converted_prefix(kind, ok, l, d)) by {
            assert forall|i: int| 0 <= i < d.len() implies line_converted_by(kind, ok, l[i], Some(#[trigger] d[i])) by {
                if i < da.len() {
                    assert(l[i] == la[i] && d[i] == da[i]);
                } else {
                    assert(l[i] == lb[i - da.len()] && d[i] == db[i - da.len()]);
                }
            }
        }
        lemma_concat_append(da, db);
        if db.len() < lb.len() {
            assert(l[d.len() as int] == lb[db.len() as int]);
        }
    }
}

/// `out` is `first`, a result for `a`, followed by `second`, a result for
/// `b` (looked at only where `a` gives a result).
pub open spec fn joined_from(
    kind: ValueKind,
    ok: spec_fn(Seq<u8>, Option<Seq<u8>>) -> bool,
    a: Seq<u8>,
    b: Seq<u8>,
    first: Option<Seq<u8>>,
    second: Option<Seq<u8>>,
    out: Option<Seq<u8>>,
) -> bool {
    &&& lines_converted_by(kind, ok, split_lines(a), first)
    &&& first is Some ==> lines_converted_by(kind, ok, split_lines(b), second)
    &&& out == then_join(first, second)
}

/// Values are converted line by line: where `a` is empty or ends with
/// `\n`, every result for `a + b` is a result for `a` followed by one for
/// `b`, or there is none because `a` gives none.
pub proof fn law_convert_splits(
    kind: ValueKind,
    ok: spec_fn(Seq<u8>, Option<Seq<u8>>) -> bool,
    a: Seq<u8>,
    b: Seq<u8>,
    out: Option<Seq<u8>>,
)
    requires
        a.len() == 0 || a.last() == 0x0au8,
        lines_converted_by(kind, ok, split_lines(a + b), out),
    ensures
        exists|first: Option<Seq<u8>>, second: Option<Seq<u8>>|
            #[trigger] joined_from(kind, ok, a, b, first, second, out),
{
    lemma_split_lines_concat(a, b);
    let la = split_lines(a);
    let lb = split_lines(b);
    let l = la + lb;
    let d = choose|done: Seq<Seq<u8>>|
        {
            &&& #[trigger] converted_prefix(kind, ok, l, done)
            &&& if done.len() == l.len() {
                out == Some(concat_all(done))
            } else {
                line_converted_by(kind, ok, l[done.len() as int], None) && out is None
            }
        };
    if d.len() < la.len() {
        assert(converted_prefix(kind, ok, la, d)) by {
            assert forall|i: int| 0 <= i < d.len() implies line_converted_by(kind, ok, la[i], Some(#[trigger] d[i])) by {
                assert(l[i] == la[i]);
            }
        }
        assert(l[d.len() as int] == la[d.len() as int]);
        assert(lines_converted_by(kind, ok, la, None));
        assert(joined_from(kind, ok, a, b, None, None, out));
    } else {
        let n = la.len() as int;
        let da = d.subrange(0, n);
        let db = d.subrange(n, d.len() as int);
        assert(converted_prefix(kind, ok, la, da)) by {
            assert forall|i: int| 0 <= i < da.len() implies line_converted_by(kind, ok, la[i], Some(#[trigger] da[i])) by {
                assert(l[i] == la[i] && da[i] == d[i]);
            }
        }
        assert(converted_prefix(kind, ok, lb, db)) by {
            assert forall|i: int| 0 <= i < db.len() implies line_converted_by(kind, ok, lb[i], Some(#[trigger] db[i])) by {
                assert(l[i + n] == lb[i] && db[i] == d[i + n]);
            }
        }
        let first = Some(concat_all(da));
        assert(lines_converted_by(kind, ok, la, first));
        assert(d =~= da + db);
        lemma_concat_append(da, db);
        if d.len() == l.len() {
            let second = Some(concat_all(db));
            assert(lines_converted_by(kind, ok, lb, second));
            assert(joined_from(kind, ok, a, b, first, second, out));
        } else {
            assert(l[d.len() as int] == lb[db.len() as int]);
            assert(lines_converted_by(kind, ok, lb, None));
            assert(joined_from(kind, ok, a, b, first, None, out));
        }
    }
}

/// `ok` allows at most one conversion of each text: the conversion is
/// deterministic.
pub open spec fn deterministic(ok: spec_fn(Seq<u8>, Option<Seq<u8>>) -> bool) -> bool {
    forall|t: Seq<u8>, c1: Option<Seq<u8>>, c2: Option<Seq<u8>>|
        #[trigger] ok(t, c1) && #[trigger] ok(t, c2) ==> c1 == c2
}

/// With a deterministic conversion a line has one result.
proof fn lemma_line_unique(
    kind: ValueKind,
    ok: spec_fn(Seq<u8>, Option<Seq<u8>>) -> bool,
    full: Seq<u8>,
    o1: Option<Seq<u8>>,
    o2: Option<Seq<u8>>,
)
    requires
        deterministic(ok),
        line_converted_by(kind, ok, full, o1),
        line_converted_by(kind, ok, full, o2),
    ensures
        o1 == o2,
{
    let line = strip_eol(full);
    let values = value_spans(kind, line);
    let comments = comment_spans(line);
    let c1 = choose|convs: Seq<Option<Seq<u8>>>|
        {
            &&& convs.len() == values.len()
            &&& forall|k: int|
                0 <= k < values.len() ==> if within(comments, values[k].0 as int, values[k].1 as int) {
                    #[trigger] convs[k] is None
                } else {
                    ok(line.subrange(values[k].0 as int, values[k].1 as int), convs[k])
                }
            &&& o1 == converted_line(full, comments, bracket_spans(line), values, convs, kind == ValueKind::Hex)
        };
    let c2 = choose|convs: Seq<Option<Seq<u8>>>|
        {
            &&& convs.len() == values.len()
            &&& forall|k: int|
                0 <= k < values.len() ==> if within(comments, values[k].0 as int, values[k].1 as int) {
                    #[trigger] convs[k] is None
                } else {
                    ok(line.subrange(values[k].0 as int, values[k].1 as int), convs[k])
                }
            &&& o2 == converted_line(full, comments, bracket_spans(line), values, convs, kind == ValueKind::Hex)
        };
    assert(c1 =~= c2) by {
        assert forall|k: int| 0 <= k < c1.len() implies c1[k] == c2[k] by {
            if !within(comments, values[k].0 as int, values[k].1 as int) {
                let t = line.subrange(values[k].0 as int, values[k].1 as int);
                assert(ok(t, c1[k]) && ok(t, c2[k]));
            } else {
                assert(c1[k] is None && c2[k] is None);
            }
        }
    }
}

/// With a deterministic conversion a text has one result.
pub proof fn law_convert_unique(
    kind: ValueKind,
    ok: spec_fn(Seq<u8>, Option<Seq<u8>>) -> bool,
    lines: Seq<Seq<u8>>,
    o1: Option<Seq<u8>>,
    o2: Option<Seq<u8>>,
)
    requires
        deterministic(ok),
        lines_converted_by(kind, ok, lines, o1),
        lines_converted_by(kind, ok, lines, o2),
    ensures
        o1 == o2,
{
    let d1 = choose|done: Seq<Seq<u8>>|
        {
            &&& #[trigger] converted_prefix(kind, ok, lines, done)
            &&& if done.len() == lines.len() {
                o1 == Some(concat_all(done))
            } else {
                line_converted_by(kind, ok, lines[done.len() as int], None) && o1 is None
            }
        };
    let d2 = choose|done: Seq<Seq<u8>>|
        {
            &&& #[trigger] converted_prefix(kind, ok, lines, done)
            &&& if done.len() == lines.len() {
                o2 == Some(concat_all(done))
            } else {
                line_converted_by(kind, ok, lines[done.len() as int], None) && o2 is None
            }
        };
    let m = if d1.len() < d2.len() { d1.len() } else { d2.len() };
    assert forall|i: int| 0 <= i < m implies d1[i] == d2[i] by {
        assert(line_converted_by(kind, ok, lines[i], Some(d1[i])));
        assert(line_converted_by(kind, ok, lines[i], Some(d2[i])));
        lemma_line_unique(kind, ok, lines[i], Some(d1[i]), Some(d2[i]));
    }
    if d1.len() < d2.len() {
        let i = d1.len() as int;
        assert(line_converted_by(kind, ok, lines[i], Some(d2[i])));
        lemma_line_unique(kind, ok, lines[i], None, Some(d2[i]));
    } else if d2.len() < d1.len() {
        let i = d2.len() as int;
        assert(line_converted_by(kind, ok, lines[i], Some(d1[i])));
        lemma_line_unique(kind, ok, lines[i], None, Some(d1[i]));
    } else {
        assert(d1 =~= d2);
    }
}

/// Values are converted line by line: with a deterministic conversion, and
/// `a` empty or ending with `\n`, the result for `a + b` is the result for
/// `a` followed by the result for `b` (none where either has none).
pub proof fn law_convert_concat(
    kind: ValueKind,
    ok: spec_fn(Seq<u8>, Option<Seq<u8>>) -> bool,
    a: Seq<u8>,
    b: Seq<u8>,
    first: Option<Seq<u8>>,
    second: Option<Seq<u8>>,
    whole: Option<Seq<u8>>,
)
    requires
        deterministic(ok),
        a.len() == 0 || a.last() == 0x0au8,
        lines_converted_by(kind, ok, split_lines(a), first),
        lines_converted_by(kind, ok, split_lines(b), second),
        lines_converted_by(kind, ok, split_lines(a + b), whole),
    ensures
        whole == then_join(first, second),
{
    law_convert_joined(kind, ok, a, b, first, second);
    law_convert_unique(kind, ok, split_lines(a + b), whole, then_join(first, second));
}

fn find_values(kind: ValueKind, line: &[u8]) -> (r: Vec<Span>)
    ensures
        r@ == value_spans(kind, line@),
        values_ok(line@, r@),
        forall|k: int|
            0 <= k < r@.len() ==> value_text_ok(
                kind,
                line@.subrange(#[trigger] r@[k].0 as int, r@[k].1 as int),
            ),
{
    match kind {
        ValueKind::Px => find_px_values(line),
        ValueKind::Hex => {
            let r = find_hex_colors(line);
            assert forall|k: int| 0 <= k < r@.len() implies {
                let (s, e) = #[trigger] r@[k];
                &&& lacks(line@, s as int, e as int, 0x20u8)
                &&& lacks(line@, s as int, e as int, 0x2fu8)
            } by {
                let (s, e) = r@[k];
                assert forall|p: int| s <= p < e implies #[trigger] line@[p] != 0x20u8 && line@[p]
                    != 0x2fu8 by {
                    if p > s {
                        assert(is_hex_digit(line@[p]));
                    }
                }
            }
            assert forall|k: int| 0 <= k < r@.len() implies value_text_ok(
                kind,
                line@.subrange(#[trigger] r@[k].0 as int, r@[k].1 as int),
            ) by {
                let (s, e) = r@[k];
                let t = line@.subrange(s as int, e as int);
                assert forall|p: int| 1 <= p < t.len() implies is_hex_digit(#[trigger] t[p]) by {
                    assert(t[p] == line@[s + p]);
                }
            }
            r
        },
    }
}

/// Converts the values of `kind` on one line `full` (with or without its
/// `\n`), asking `convert` for the conversion of each value outside a
/// comment.
fn convert_one_line<F: Fn(&[u8]) -> Option<Vec<u8>>>(
    full: &[u8],
    kind: ValueKind,
    convert: &F,
    Ghost(ok): Ghost<spec_fn(Seq<u8>, Option<Seq<u8>>) -> bool>,
) -> (r: Option<Vec<u8>>)
    requires
        forall|a: &[u8]| value_text_ok(kind, a@) ==> call_requires(*convert, (a,)),
        forall|a: &[u8], c: Option<Vec<u8>>|
            call_ensures(*convert, (a,), c) ==> ok(a@, opt_view(c)),
    ensures
        line_converted_by(kind, ok, full@, opt_view(r)),
{
    let has_eol = full.len() > 0 && full[full.len() - 1] == 0x0a;
    let line_len = if has_eol {
        full.len() - 1
    } else {
        full.len()
    };
    let line = slice_subrange(full, 0, line_len);
    assert(line@ == strip_eol(full@));
    let comments = find_comments(line);
    let brackets = find_brackets(line);
    let values = find_values(kind, line);
    let mut converted: Vec<Option<Vec<u8>>> = Vec::new();
    let mut k: usize = 0;
    while k < values.len()
        invariant
            k <= values@.len(),
            converted@.len() == k,
            values@ == value_spans(kind, line@),
            comments@ == comment_spans(line@),
            forall|l: int| 0 <= l < values@.len() ==> value_text_ok(kind, line@.subrange(#[trigger] values@[l].0 as int, values@[l].1 as int)),
            values_ok(line@, values@),
            forall|a: &[u8]| value_text_ok(kind, a@) ==> call_requires(*convert, (a,)),
            forall|a: &[u8], c: Option<Vec<u8>>|
                call_ensures(*convert, (a,), c) ==> ok(a@, opt_view(c)),
            forall|l: int|
                0 <= l < k ==> if within(comments@, values@[l].0 as int, values@[l].1 as int) {
                    #[trigger] converted@[l] is None
                } else {
                    ok(line@.subrange(values@[l].0 as int, values@[l].1 as int), opt_view(converted@[l]))
                },
        decreases values@.len() - k,
    {
        let (s, e) = values[k];
        if is_within(comments.as_slice(), s, e) {
            converted.push(None);
        } else {
            let text = slice_subrange(line, s, e);
            assert(value_text_ok(kind, text@));
            let c = convert(text);
            converted.push(c);
        }
        k = k + 1;
    }
    let ghost convs = converted@.map_values(|o: Option<Vec<u8>>| opt_view(o));
    assert forall|l: int| 0 <= l < values@.len() implies if within(
        comments@,
        values@[l].0 as int,
        values@[l].1 as int,
    ) {
        #[trigger] convs[l] is None
    } else {
        ok(line@.subrange(values@[l].0 as int, values@[l].1 as int), convs[l])
    } by {
        assert(convs[l] == opt_view(converted@[l]));
    }
    let lower = match kind {
        ValueKind::Hex => true,
        ValueKind::Px => false,
    };
    let r = convert_line(
        full,
        comments.as_slice(),
        brackets.as_slice(),
        values.as_slice(),
        converted.as_slice(),
        lower,
    );
    assert(line_converted_by(kind, ok, full@, opt_view(r)));
    r
}

/// Converts the values of `kind` in `input`, line by line (see
/// `lines_converted_by`).
pub(crate) fn convert_values<F: Fn(&[u8]) -> Option<Vec<u8>>>(
    input: &[u8],
    kind: ValueKind,
    convert: &F,
    Ghost(ok): Ghost<spec_fn(Seq<u8>, Option<Seq<u8>>) -> bool>,
) -> (r: Option<Vec<u8>>)
    requires
        forall|a: &[u8]| value_text_ok(kind, a@) ==> call_requires(*convert, (a,)),
        forall|a: &[u8], c: Option<Vec<u8>>|
            call_ensures(*convert, (a,), c) ==> ok(a@, opt_view(c)),
    ensures
        lines_converted_by(kind, ok, split_lines(input@), opt_view(r)),
{
    let mut out: Vec<u8> = Vec::new();
    let mut pos: usize = 0;
    let ghost mut seen: Seq<Seq<u8>> = seq![];
    let ghost mut outs: Seq<Seq<u8>> = seq![];
    assert(input@.subrange(0, input@.len() as int) =~= input@);
    while pos < input.len()
        invariant
            pos <= input@.len(),
            split_lines(input@) == seen + split_lines(input@.subrange(pos as int, input@.len() as int)),
            outs.len() == seen.len(),
            forall|i: int| 0 <= i < seen.len() ==> line_converted_by(kind, ok, seen[i], Some(#[trigger] outs[i])),
            out@ == concat_all(outs),
            forall|a: &[u8]| value_text_ok(kind, a@) ==> call_requires(*convert, (a,)),
            forall|a: &[u8], c: Option<Vec<u8>>|
                call_ensures(*convert, (a,), c) ==> ok(a@, opt_view(c)),
        decreases input@.len() - pos,
    {
        let ghost rest = input@.subrange(pos as int, input@.len() as int);
        let mut end = pos;
        while end < input.len() && input[end] != 0x0a
            invariant
                pos <= end <= input@.len(),
                rest == input@.subrange(pos as int, input@.len() as int),
                line_end(rest, 0) == line_end(rest, end - pos),
            decreases input@.len() - end,
        {
            end = end + 1;
        }
        if end < input.len() {
            end = end + 1;
        }
        proof {
            lemma_line_end(rest, 0);
        }
        assert(line_end(rest, 0) == end - pos);
        let line = slice_subrange(input, pos, end);
        assert(line@ =~= rest.subrange(0, end - pos));
        assert(rest.subrange(end - pos, rest.len() as int) =~= input@.subrange(end as int, input@.len() as int));
        assert(split_lines(rest) == seq![line@] + split_lines(input@.subrange(end as int, input@.len() as int)));
        let ghost lines = split_lines(input@);
        assert(lines =~= seen.push(line@) + split_lines(input@.subrange(end as int, input@.len() as int)));
        match convert_one_line(line, kind, convert, Ghost(ok)) {
            Some(converted) => {
                push_slice(&mut out, converted.as_slice());
                proof {
                    let next_outs = outs.push(converted@);
                    assert(next_outs.drop_last() =~= outs);
                    outs = next_outs;
                    seen = seen.push(line@);
                }
            },
            None => {
                assert(converted_prefix(kind, ok, lines, outs)) by {
                    assert forall|i: int| 0 <= i < outs.len() implies line_converted_by(kind, ok, lines[i], Some(#[trigger] outs[i])) by {
                        assert(lines[i] == seen[i]);
                    }
                }
                assert(lines[outs.len() as int] == line@);
                return None;
            },
        }
        assert(split_lines(input@) =~= seen + split_lines(input@.subrange(end as int, input@.len() as int)));
        pos = end;
    }
    assert(split_lines(input@.subrange(pos as int, input@.len() as int)) =~= Seq::<Seq<u8>>::empty());
    assert(split_lines(input@) =~= seen);
    assert(converted_prefix(kind, ok, seen, outs));
    Some(out)
}

} // verus!
