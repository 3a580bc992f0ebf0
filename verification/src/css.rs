//! The CSS value engine shared by px → rem and hex → oklch: it replaces the
//! value matches of one line and echoes the originals in a comment.
//!
//! ```text
//! foo: #fff;          ->  foo: oklch(100% 0 0); /* #fff */
//! padding: 16px 8px;  ->  padding: 1rem 0.5rem; /* 16px 8px */
//! px-[16px]           ->  px-[1rem]                 (bracket: no comment)
//! 6px                 ->  0.375rem /* 6px */        (no `;`: end of line)
//! ```
//!
//! Values inside a `/* … */` comment are left alone; inside `[…]` the
//! converted text gets `_` for spaces and no comment; otherwise the originals
//! of a declaration are gathered into one comment after its closing `;`,
//! merged into a comment already standing there.
use crate::patterns::lacks;
use crate::text::{
    is_within, join, push_slice, push_trimmed, spans_in, spans_wf, trim,
    within, Span,
};
use vstd::prelude::*;
use vstd::slice::slice_subrange;

verus! {

/// A planned replacement in a line: its byte range, the text put there, and
/// whether the original is echoed in a comment.
pub type Planned = (int, int, Seq<u8>, bool);

/// A replacement of a line's bytes `[start, end)` by `text`; `echo` when the
/// original is to be repeated in a comment.
pub struct Replacement {
    pub start: usize,
    pub end: usize,
    pub text: Vec<u8>,
    pub echo: bool,
}

impl View for Replacement {
    type V = Planned;

    open spec fn view(&self) -> Planned {
        (self.start as int, self.end as int, self.text@, self.echo)
    }
}

/// The bytes of an optional byte vector.
pub open spec fn opt_view(o: Option<Vec<u8>>) -> Option<Seq<u8>> {
    match o {
        Some(v) => Some(v@),
        None => None,
    }
}

/// `t` with every space turned into `_`.
pub open spec fn underscored(t: Seq<u8>) -> Seq<u8> {
    t.map_values(|b: u8| if b == 0x20u8 { 0x5fu8 } else { b })
}

/// `t` with its ASCII capitals lowered.
pub open spec fn ascii_lower(t: Seq<u8>) -> Seq<u8> {
    t.map_values(|b: u8| if 0x41u8 <= b && b <= 0x5au8 { (b + 32) as u8 } else { b })
}

/// How an original is echoed in a comment: lowered when `lower` (hex colors
/// are echoed in lower case).
pub open spec fn echo_form(lower: bool, t: Seq<u8>) -> Seq<u8> {
    if lower {
        ascii_lower(t)
    } else {
        t
    }
}

/// The echoed forms of the originals at `spans` of `line`.
pub open spec fn echoes(line: Seq<u8>, spans: Seq<Span>, lower: bool) -> Seq<Seq<u8>> {
    spans.map_values(|p: Span| echo_form(lower, line.subrange(p.0 as int, p.1 as int)))
}

/// A line without its final `\n`, if it has one.
pub open spec fn strip_eol(full: Seq<u8>) -> Seq<u8> {
    if full.len() > 0 && full.last() == 0x0au8 {
        full.drop_last()
    } else {
        full
    }
}

/// The final `\n` of a line, if it has one.
pub open spec fn eol(full: Seq<u8>) -> Seq<u8> {
    if full.len() > 0 && full.last() == 0x0au8 {
        seq![0x0au8]
    } else {
        seq![]
    }
}

/// The replacements planned for the value matches `values` of `line`, whose
/// conversions are `converted`: matches inside a comment and matches without
/// a conversion are left out; inside brackets spaces become `_` and nothing
/// is echoed.
pub open spec fn planned(
    line: Seq<u8>,
    comments: Seq<Span>,
    brackets: Seq<Span>,
    values: Seq<Span>,
    converted: Seq<Option<Seq<u8>>>,
) -> Seq<Planned>
    decreases values.len(),
{
    if values.len() == 0 || converted.len() == 0 {
        seq![]
    } else {
        let prev = planned(line, comments, brackets, values.drop_last(), converted.drop_last());
        let s = values.last().0 as int;
        let e = values.last().1 as int;
        if within(comments, s, e) {
            prev
        } else {
            match converted.last() {
                None => prev,
                Some(t) => if within(brackets, s, e) {
                    prev.push((s, e, underscored(t), false))
                } else {
                    prev.push((s, e, t, true))
                },
            }
        }
    }
}

/// A `;` at `p` that is neither in a comment nor in brackets.
pub open spec fn is_open_semicolon(
    line: Seq<u8>,
    comments: Seq<Span>,
    brackets: Seq<Span>,
    p: int,
) -> bool {
    line[p] == 0x3bu8 && !within(comments, p, p + 1) && !within(brackets, p, p + 1)
}

/// The first open `;` at or after `i`, or the line's length when there is
/// none.
pub open spec fn next_semicolon(line: Seq<u8>, comments: Seq<Span>, brackets: Seq<Span>, i: int) -> int
    decreases line.len() - i,
{
    if i >= line.len() {
        line.len() as int
    } else if is_open_semicolon(line, comments, brackets, i) {
        i
    } else {
        next_semicolon(line, comments, brackets, i + 1)
    }
}

/// The first position at or after `i` that does not hold a space, or the
/// line's length.
pub open spec fn space_end(line: Seq<u8>, i: int) -> int
    decreases line.len() - i,
{
    if i >= line.len() {
        line.len() as int
    } else if line[i] != 0x20u8 {
        i
    } else {
        space_end(line, i + 1)
    }
}

/// The index of the first comment, from index `k` on, that starts at `p`.
pub open spec fn comment_from(comments: Seq<Span>, p: int, k: int) -> Option<int>
    decreases comments.len() - k,
{
    if k < 0 || k >= comments.len() {
        None
    } else if comments[k].0 == p {
        Some(k)
    } else {
        comment_from(comments, p, k + 1)
    }
}

/// The bytes `/* `.
pub open spec fn comment_open() -> Seq<u8> {
    seq![0x2fu8, 0x2au8, 0x20u8]
}

/// The bytes ` */`.
pub open spec fn comment_close() -> Seq<u8> {
    seq![0x20u8, 0x2au8, 0x2fu8]
}

/// A comment holding `existing` and then the originals: `/* existing o1 o2 */`.
pub open spec fn merged_comment(existing: Seq<u8>, originals: Seq<Seq<u8>>) -> Seq<u8> {
    comment_open() + existing + seq![0x20u8] + join(originals, seq![0x20u8]) + comment_close()
}

/// A new comment after a value: ` /* o1 o2 */`.
pub open spec fn fresh_comment(originals: Seq<Seq<u8>>) -> Seq<u8> {
    seq![0x20u8] + comment_open() + join(originals, seq![0x20u8]) + comment_close()
}

/// The output of the line scan from position `i`, with the replacements
/// `reps[k..]` still to make and the originals `pending` not yet echoed, and
/// the originals that are still pending at the end of the line.
///
/// Text is copied up to the next event: the next replacement, or, while
/// originals are pending, the next open `;`. At a replacement its text is
/// put in and, when it is echoed, the echoed form of its original becomes
/// pending. At a `;` the pending originals are echoed after it: merged into
/// a comment that starts right after it (past spaces), or in a new comment.
pub open spec fn scan(
    line: Seq<u8>,
    comments: Seq<Span>,
    brackets: Seq<Span>,
    reps: Seq<Planned>,
    k: int,
    i: int,
    pending: Seq<Seq<u8>>,
    lower: bool,
) -> (Seq<u8>, Seq<Seq<u8>>)
    decreases line.len() - i,
{
    if i < 0 || i >= line.len() {
        (seq![], pending)
    } else {
        let next_rep = if 0 <= k < reps.len() {
            reps[k].0
        } else {
            line.len() as int
        };
        let next_semi = if pending.len() == 0 {
            line.len() as int
        } else {
            next_semicolon(line, comments, brackets, i)
        };
        let stop = if next_rep <= next_semi {
            next_rep
        } else {
            next_semi
        };
        if stop < i {
            (seq![], pending)
        } else if stop >= line.len() {
            (line.subrange(i, line.len() as int), pending)
        } else if 0 <= k < reps.len() && next_rep == stop {
            let r = reps[k];
            if r.1 <= stop || r.1 > line.len() {
                (seq![], pending)
            } else {
                let next_pending = if r.3 {
                    pending.push(echo_form(lower, line.subrange(r.0, r.1)))
                } else {
                    pending
                };
                let rest = scan(line, comments, brackets, reps, k + 1, r.1, next_pending, lower);
                (line.subrange(i, stop) + r.2 + rest.0, rest.1)
            }
        } else {
            let step = after_semicolon(line, comments, stop, pending);
            if step.1 <= stop || step.1 > line.len() {
                (seq![], pending)
            } else {
                let rest = scan(line, comments, brackets, reps, k, step.1, seq![], lower);
                (line.subrange(i, stop) + step.0 + rest.0, rest.1)
            }
        }
    }
}

/// What is written for the open `;` at `stop` while `pending` originals
/// wait, and where the scan goes on: the `;`, then the originals merged into
/// a comment that starts right after it (past spaces, which are kept), or
/// else in a new comment.
pub open spec fn after_semicolon(
    line: Seq<u8>,
    comments: Seq<Span>,
    stop: int,
    pending: Seq<Seq<u8>>,
) -> (Seq<u8>, int) {
    let j = stop + 1;
    let w = space_end(line, j);
    match comment_from(comments, w, 0) {
        Some(c) => {
            let cs = comments[c].0 as int;
            let ce = comments[c].1 as int;
            if ce < cs + 4 || ce > line.len() || cs < j {
                (seq![], -1)
            } else {
                (
                    seq![0x3bu8] + line.subrange(j, cs) + merged_comment(
                        trim(line.subrange(cs + 2, ce - 2)),
                        pending,
                    ),
                    ce,
                )
            }
        },
        None => (seq![0x3bu8] + fresh_comment(pending), j),
    }
}

/// The start of the last `/*` that ends by position `upto` of `b`.
pub open spec fn last_open(b: Seq<u8>, upto: int) -> Option<int>
    decreases upto,
{
    if upto < 2 || upto > b.len() {
        None
    } else if b[upto - 2] == 0x2fu8 && b[upto - 1] == 0x2au8 {
        Some(upto - 2)
    } else {
        last_open(b, upto - 1)
    }
}

/// `b` ends with `*/`.
pub open spec fn ends_with_close(b: Seq<u8>) -> bool {
    b.len() >= 2 && b[b.len() - 2] == 0x2au8 && b[b.len() - 1] == 0x2fu8
}

/// The end of a line scan: originals still pending after the last `;` are
/// echoed at the end of the line, merged into the comment that ends it, if
/// any. `None` where that comment is a bare `/*/` (the text between its
/// markers does not exist).
pub open spec fn finish(out: Seq<u8>, pending: Seq<Seq<u8>>) -> Option<Seq<u8>> {
    if pending.len() == 0 {
        Some(out)
    } else if ends_with_close(out) && last_open(out, out.len() as int) is Some {
        let open = last_open(out, out.len() as int).unwrap();
        if open + 2 > out.len() - 2 {
            None
        } else {
            Some(
                out.subrange(0, open) + merged_comment(
                    trim(out.subrange(open + 2, out.len() - 2)),
                    pending,
                ),
            )
        }
    } else {
        Some(out + fresh_comment(pending))
    }
}

/// The converted line: `full` (one line, with or without its `\n`) with the
/// value matches `values` (found in the line without its `\n`, as are
/// `comments` and `brackets`) replaced by their conversions `converted`.
/// Originals are echoed as they are, or lowered when `lower`. `None` where
/// the line ends in a bare `/*/` while originals are to be echoed.
pub open spec fn converted_line(
    full: Seq<u8>,
    comments: Seq<Span>,
    brackets: Seq<Span>,
    values: Seq<Span>,
    converted: Seq<Option<Seq<u8>>>,
    lower: bool,
) -> Option<Seq<u8>> {
    let line = strip_eol(full);
    let reps = planned(line, comments, brackets, values, converted);
    if reps.len() == 0 {
        Some(full)
    } else {
        let scanned = scan(line, comments, brackets, reps, 0, 0, seq![], lower);
        match finish(scanned.0, scanned.1) {
            Some(out) => Some(out + eol(full)),
            None => None,
        }
    }
}

/// Comment matches as the comment pattern gives them: in order, each
/// starting with `/*` and ending with `*/`.
pub open spec fn comments_ok(line: Seq<u8>, comments: Seq<Span>) -> bool {
    &&& spans_wf(comments, line.len() as int)
    &&& forall|k: int|
        0 <= k < comments.len() ==> {
            let (s, e) = #[trigger] comments[k];
            &&& s + 4 <= e
            &&& line[s as int] == 0x2fu8 && line[s + 1] == 0x2au8
            &&& line[e - 2] == 0x2au8 && line[e - 1] == 0x2fu8
        }
}

/// Value matches as the value patterns give them: in order, holding no space
/// and no `/`.
pub open spec fn values_ok(line: Seq<u8>, values: Seq<Span>) -> bool {
    &&& spans_wf(values, line.len() as int)
    &&& forall|k: int|
        0 <= k < values.len() ==> {
            let (s, e) = #[trigger] values[k];
            &&& lacks(line, s as int, e as int, 0x20u8)
            &&& lacks(line, s as int, e as int, 0x2fu8)
        }
}

/// Planned replacements that the scan can make one after another: in order,
/// inside the line, apart from every comment, not starting with a space.
pub open spec fn reps_ok(line: Seq<u8>, comments: Seq<Span>, reps: Seq<Planned>) -> bool {
    &&& forall|k: int| 0 <= k < reps.len() ==> 0 <= #[trigger] reps[k].0 < reps[k].1 <= line.len()
    &&& forall|k: int, l: int| 0 <= k < l < reps.len() ==> #[trigger] reps[k].1 <= #[trigger] reps[l].0
    &&& forall|k: int, c: int|
        0 <= k < reps.len() && 0 <= c < comments.len() ==> #[trigger] reps[k].1 <= #[trigger] comments[c].0
            || reps[k].0 >= comments[c].1
    &&& forall|k: int| 0 <= k < reps.len() ==> line[#[trigger] reps[k].0] != 0x20u8
}

proof fn lemma_space_end_bound(line: Seq<u8>, j: int, p: int)
    requires
        0 <= j <= p < line.len(),
        line[p] != 0x20u8,
    ensures
        j <= space_end(line, j) <= p,
    decreases p - j,
{
    if line[j] != 0x20u8 {
    } else {
        lemma_space_end_bound(line, j + 1, p);
    }
}

proof fn lemma_comment_from(comments: Seq<Span>, p: int, k: int)
    requires
        0 <= k,
    ensures
        comment_from(comments, p, k) matches Some(c) ==> k <= c < comments.len() && comments[c].0
            == p,
    decreases comments.len() - k,
{
    if k < comments.len() && comments[k].0 != p {
        lemma_comment_from(comments, p, k + 1);
    }
}

/// Each planned replacement comes from one of the value matches.
proof fn lemma_planned_from_values(
    line: Seq<u8>,
    comments: Seq<Span>,
    brackets: Seq<Span>,
    values: Seq<Span>,
    converted: Seq<Option<Seq<u8>>>,
)
    requires
        values.len() == converted.len(),
    ensures
        forall|k: int|
            0 <= k < planned(line, comments, brackets, values, converted).len() ==> exists|j: int|
                0 <= j < values.len() && #[trigger] planned(
                    line,
                    comments,
                    brackets,
                    values,
                    converted,
                )[k].0 == values[j].0 && planned(line, comments, brackets, values, converted)[k].1
                    == values[j].1 && !within(comments, values[j].0 as int, values[j].1 as int),
    decreases values.len(),
{
    if values.len() > 0 {
        lemma_planned_from_values(
            line,
            comments,
            brackets,
            values.drop_last(),
            converted.drop_last(),
        );
        let prev = planned(line, comments, brackets, values.drop_last(), converted.drop_last());
        let cur = planned(line, comments, brackets, values, converted);
        assert forall|k: int| 0 <= k < cur.len() implies exists|j: int|
            0 <= j < values.len() && #[trigger] cur[k].0 == values[j].0 && cur[k].1 == values[j].1
                && !within(comments, values[j].0 as int, values[j].1 as int) by {
            if k < prev.len() {
                assert(cur[k] == prev[k]);
                let j = choose|j: int|
                    0 <= j < values.drop_last().len() && #[trigger] prev[k].0
                        == values.drop_last()[j].0 && prev[k].1 == values.drop_last()[j].1
                        && !within(
                        comments,
                        values.drop_last()[j].0 as int,
                        values.drop_last()[j].1 as int,
                    );
                assert(values.drop_last()[j] == values[j]);
            } else {
                assert(cur[k].0 == values[values.len() - 1].0);
            }
        }
    }
}

/// The planned replacements of well-formed matches can be made by the scan.
proof fn lemma_planned_ok(
    line: Seq<u8>,
    comments: Seq<Span>,
    brackets: Seq<Span>,
    values: Seq<Span>,
    converted: Seq<Option<Seq<u8>>>,
)
    requires
        values.len() == converted.len(),
        comments_ok(line, comments),
        values_ok(line, values),
    ensures
        reps_ok(line, comments, planned(line, comments, brackets, values, converted)),
    decreases values.len(),
{
    if values.len() > 0 {
        let vs = values.drop_last();
        let cs = converted.drop_last();
        assert(values_ok(line, vs)) by {
            assert forall|k: int| 0 <= k < vs.len() implies #[trigger] vs[k].0 < vs[k].1 <= line.len() by {
                assert(vs[k] == values[k]);
            }
            assert forall|k: int, l: int| 0 <= k < l < vs.len() implies #[trigger] vs[k].1 <= #[trigger] vs[l].0 by {
                assert(vs[k] == values[k] && vs[l] == values[l]);
            }
            assert forall|k: int| 0 <= k < vs.len() implies {
                let (s, e) = #[trigger] vs[k];
                &&& lacks(line, s as int, e as int, 0x20u8)
                &&& lacks(line, s as int, e as int, 0x2fu8)
            } by {
                assert(vs[k] == values[k]);
            }
        }
        lemma_planned_ok(line, comments, brackets, vs, cs);
        lemma_planned_from_values(line, comments, brackets, vs, cs);
        let prev = planned(line, comments, brackets, vs, cs);
        let cur = planned(line, comments, brackets, values, converted);
        let n = values.len() - 1;
        let s = values[n].0 as int;
        let e = values[n].1 as int;
        if cur.len() > prev.len() {
            assert(cur == prev.push(cur.last()));
            assert(!within(comments, s, e));
            assert(cur.last().0 == s && cur.last().1 == e);
            // the new replacement comes after every earlier one
            assert forall|k: int| 0 <= k < prev.len() implies #[trigger] prev[k].1 <= s by {
                let j = choose|j: int|
                    0 <= j < vs.len() && #[trigger] prev[k].0 == vs[j].0 && prev[k].1 == vs[j].1
                        && !within(comments, vs[j].0 as int, vs[j].1 as int);
                assert(vs[j] == values[j]);
            }
            // it stays apart from every comment
            assert forall|c: int| 0 <= c < comments.len() implies e <= #[trigger] comments[c].0
                || s >= comments[c].1 by {
                let (a, b) = comments[c];
                if !(e <= a || s >= b) {
                    if s < a {
                        assert(line[a as int] == 0x2fu8);
                        assert(values[n] == (s as usize, e as usize));
                    } else if e > b {
                        assert(line[b - 1] == 0x2fu8);
                    } else {
                        assert(within(comments, s, e));
                    }
                }
            }
            assert(line[s] != 0x20u8);
            assert forall|k: int, l: int| 0 <= k < l < cur.len() implies #[trigger] cur[k].1
                <= #[trigger] cur[l].0 by {
                if l == cur.len() - 1 {
                    assert(cur[k] == prev[k]);
                } else {
                    assert(cur[k] == prev[k] && cur[l] == prev[l]);
                }
            }
            assert forall|k: int, c: int| 0 <= k < cur.len() && 0 <= c < comments.len() implies #[trigger] cur[k].1
                <= #[trigger] comments[c].0 || cur[k].0 >= comments[c].1 by {
                if k < prev.len() {
                    assert(cur[k] == prev[k]);
                }
            }
            assert forall|k: int| 0 <= k < cur.len() implies 0 <= #[trigger] cur[k].0 < cur[k].1
                <= line.len() by {
                if k < prev.len() {
                    assert(cur[k] == prev[k]);
                }
            }
            assert forall|k: int| 0 <= k < cur.len() implies line[#[trigger] cur[k].0] != 0x20u8 by {
                if k < prev.len() {
                    assert(cur[k] == prev[k]);
                }
            }
        } else {
            assert(cur == prev);
        }
    }
}

/// Nothing is planned for value matches that all lie in comments.
proof fn lemma_planned_none_in_comments(
    line: Seq<u8>,
    comments: Seq<Span>,
    brackets: Seq<Span>,
    values: Seq<Span>,
    converted: Seq<Option<Seq<u8>>>,
)
    requires
        forall|k: int|
            0 <= k < values.len() ==> within(comments, #[trigger] values[k].0 as int, values[k].1 as int),
    ensures
        planned(line, comments, brackets, values, converted).len() == 0,
    decreases values.len(),
{
    if values.len() > 0 && converted.len() > 0 {
        let vs = values.drop_last();
        assert forall|k: int| 0 <= k < vs.len() implies within(comments, #[trigger] vs[k].0 as int, vs[k].1 as int) by {
            assert(vs[k] == values[k]);
        }
        lemma_planned_none_in_comments(line, comments, brackets, vs, converted.drop_last());
        assert(within(comments, values[values.len() - 1].0 as int, values[values.len() - 1].1 as int));
    }
}

/// Values inside a `/* … */` comment are never converted: a line whose
/// value matches all lie in comments (as they do once the originals have
/// been echoed there) comes out exactly as it went in, whatever the
/// conversions.
pub proof fn law_commented_values_stay(
    full: Seq<u8>,
    comments: Seq<Span>,
    brackets: Seq<Span>,
    values: Seq<Span>,
    converted: Seq<Option<Seq<u8>>>,
    lower: bool,
)
    requires
        forall|k: int|
            0 <= k < values.len() ==> within(comments, #[trigger] values[k].0 as int, values[k].1 as int),
    ensures
        converted_line(full, comments, brackets, values, converted, lower) == Some(full),
{
    lemma_planned_none_in_comments(strip_eol(full), comments, brackets, values, converted);
}

fn find_next_semicolon(line: &[u8], comments: &[Span], brackets: &[Span], i: usize) -> (r: usize)
    requires
        i <= line@.len(),
    ensures
        r as int == next_semicolon(line@, comments@, brackets@, i as int),
        i <= r <= line@.len(),
{
    let mut p = i;
    while p < line.len()
        invariant
            i <= p <= line@.len(),
            next_semicolon(line@, comments@, brackets@, i as int) == next_semicolon(
                line@,
                comments@,
                brackets@,
                p as int,
            ),
        decreases line@.len() - p,
    {
        if line[p] == 0x3b && !is_within(comments, p, p + 1) && !is_within(brackets, p, p + 1) {
            return p;
        }
        p = p + 1;
    }
    p
}

fn find_space_end(line: &[u8], j: usize) -> (r: usize)
    requires
        j <= line@.len(),
    ensures
        r as int == space_end(line@, j as int),
        j <= r <= line@.len(),
{
    let mut p = j;
    while p < line.len() && line[p] == 0x20
        invariant
            j <= p <= line@.len(),
            space_end(line@, j as int) == space_end(line@, p as int),
        decreases line@.len() - p,
    {
        p = p + 1;
    }
    p
}

fn find_comment_at(comments: &[Span], p: usize) -> (r: Option<usize>)
    ensures
        r matches Some(c) ==> comment_from(comments@, p as int, 0) == Some(c as int),
        r is None ==> comment_from(comments@, p as int, 0) is None,
{
    let mut k: usize = 0;
    while k < comments.len()
        invariant
            k <= comments@.len(),
            comment_from(comments@, p as int, 0) == comment_from(comments@, p as int, k as int),
        decreases comments@.len() - k,
    {
        if comments[k].0 == p {
            return Some(k);
        }
        k = k + 1;
    }
    None
}

fn find_last_open(b: &[u8]) -> (r: Option<usize>)
    ensures
        r matches Some(o) ==> last_open(b@, b@.len() as int) == Some(o as int) && o + 2 <= b@.len(),
        r is None ==> last_open(b@, b@.len() as int) is None,
{
    let mut upto = b.len();
    while upto >= 2 && !(b[upto - 2] == 0x2f && b[upto - 1] == 0x2a)
        invariant
            upto <= b@.len(),
            last_open(b@, b@.len() as int) == last_open(b@, upto as int),
        decreases upto,
    {
        upto = upto - 1;
    }
    if upto >= 2 {
        Some(upto - 2)
    } else {
        None
    }
}

fn push_bytes3(out: &mut Vec<u8>, x: u8, y: u8, z: u8)
    ensures
        final(out)@ == old(out)@ + seq![x, y, z],
{
    out.push(x);
    out.push(y);
    out.push(z);
    assert(out@ =~= old(out)@ + seq![x, y, z]);
}

/// Appends to `out` the echoed forms of the originals at `spans` of `hay`,
/// separated by single spaces.
fn push_joined_echoes(out: &mut Vec<u8>, hay: &[u8], spans: &[Span], lower: bool)
    requires
        spans_in(spans@, hay@.len() as int),
    ensures
        final(out)@ == old(out)@ + join(echoes(hay@, spans@, lower), seq![0x20u8]),
{
    let mut k: usize = 0;
    while k < spans.len()
        invariant
            k <= spans@.len(),
            spans_in(spans@, hay@.len() as int),
            out@ == old(out)@ + join(echoes(hay@, spans@.subrange(0, k as int), lower), seq![0x20u8]),
        decreases spans@.len() - k,
    {
        if k > 0 {
            out.push(0x20);
        }
        let (s, e) = spans[k];
        let ghost before = out@;
        let mut p = s;
        while p < e
            invariant
                s <= p <= e <= hay@.len(),
                out@ == before + echo_form(lower, hay@.subrange(s as int, p as int)),
            decreases e - p,
        {
            let b = hay[p];
            let c = if lower && 0x41 <= b && b <= 0x5a {
                b + 32
            } else {
                b
            };
            out.push(c);
            p = p + 1;
            assert(out@ =~= before + echo_form(lower, hay@.subrange(s as int, p as int)));
        }
        let ghost prev = echoes(hay@, spans@.subrange(0, k as int), lower);
        let ghost next = echoes(hay@, spans@.subrange(0, k + 1), lower);
        assert(next.drop_last() =~= prev);
        assert(next.last() == echo_form(lower, hay@.subrange(s as int, e as int)));
        k = k + 1;
        assert(out@ =~= old(out)@ + join(next, seq![0x20u8]));
    }
    assert(spans@.subrange(0, spans@.len() as int) =~= spans@);
}

/// Appends `/* existing o1 o2 */` where `existing` is `trim(b[from..to])`.
fn push_merged_comment(out: &mut Vec<u8>, b: &[u8], from: usize, to: usize, line: &[u8], pending: &[Span], lower: bool)
    requires
        from <= to <= b@.len(),
        spans_in(pending@, line@.len() as int),
    ensures
        final(out)@ == old(out)@ + merged_comment(
            trim(b@.subrange(from as int, to as int)),
            echoes(line@, pending@, lower),
        ),
{
    push_bytes3(out, 0x2f, 0x2a, 0x20);
    push_trimmed(out, b, from, to);
    out.push(0x20);
    push_joined_echoes(out, line, pending, lower);
    push_bytes3(out, 0x20, 0x2a, 0x2f);
    assert(out@ =~= old(out)@ + merged_comment(
        trim(b@.subrange(from as int, to as int)),
        echoes(line@, pending@, lower),
    ));
}

/// Appends ` /* o1 o2 */`.
fn push_fresh_comment(out: &mut Vec<u8>, line: &[u8], pending: &[Span], lower: bool)
    requires
        spans_in(pending@, line@.len() as int),
    ensures
        final(out)@ == old(out)@ + fresh_comment(echoes(line@, pending@, lower)),
{
    out.push(0x20);
    push_bytes3(out, 0x2f, 0x2a, 0x20);
    push_joined_echoes(out, line, pending, lower);
    push_bytes3(out, 0x20, 0x2a, 0x2f);
    assert(out@ =~= old(out)@ + fresh_comment(echoes(line@, pending@, lower)));
}

fn pending_slice(v: &Vec<Span>) -> (r: &[Span])
    ensures
        r@ == v@,
{
    v.as_slice()
}

fn underscore(t: &Vec<u8>) -> (r: Vec<u8>)
    ensures
        r@ == underscored(t@),
{
    let mut r: Vec<u8> = Vec::new();
    let mut k: usize = 0;
    while k < t.len()
        invariant
            k <= t@.len(),
            r@ == underscored(t@.subrange(0, k as int)),
        decreases t@.len() - k,
    {
        let b = t[k];
        r.push(if b == 0x20 { 0x5f } else { b });
        k = k + 1;
        assert(r@ =~= underscored(t@.subrange(0, k as int)));
    }
    assert(t@.subrange(0, t@.len() as int) =~= t@);
    r
}

fn copy_bytes(t: &Vec<u8>) -> (r: Vec<u8>)
    ensures
        r@ == t@,
{
    let mut r: Vec<u8> = Vec::new();
    push_slice(&mut r, t.as_slice());
    r
}

/// Plans the replacements of one line (see `planned`).
fn plan(line: &[u8], comments: &[Span], brackets: &[Span], values: &[Span], converted: &[Option<Vec<u8>>]) -> (r: Vec<Replacement>)
    requires
        values@.len() == converted@.len(),
    ensures
        r@.map_values(|x: Replacement| x@) == planned(
            line@,
            comments@,
            brackets@,
            values@,
            converted@.map_values(|o: Option<Vec<u8>>| opt_view(o)),
        ),
{
    let ghost conv = converted@.map_values(|o: Option<Vec<u8>>| opt_view(o));
    let mut reps: Vec<Replacement> = Vec::new();
    let mut k: usize = 0;
    while k < values.len()
        invariant
            k <= values@.len(),
            values@.len() == converted@.len(),
            conv == converted@.map_values(|o: Option<Vec<u8>>| opt_view(o)),
            reps@.map_values(|x: Replacement| x@) == planned(
                line@,
                comments@,
                brackets@,
                values@.subrange(0, k as int),
                conv.subrange(0, k as int),
            ),
        decreases values@.len() - k,
    {
        let ghost before = reps@.map_values(|x: Replacement| x@);
        let (s, e) = values[k];
        assert(values@.subrange(0, k + 1).drop_last() =~= values@.subrange(0, k as int));
        assert(conv.subrange(0, k + 1).drop_last() =~= conv.subrange(0, k as int));
        assert(conv.subrange(0, k + 1).last() == opt_view(converted@[k as int]));
        if !is_within(comments, s, e) {
            match &converted[k] {
                Some(t) => {
                    if is_within(brackets, s, e) {
                        reps.push(Replacement { start: s, end: e, text: underscore(t), echo: false });
                    } else {
                        reps.push(Replacement { start: s, end: e, text: copy_bytes(t), echo: true });
                    }
                    assert(reps@.map_values(|x: Replacement| x@) =~= before.push(reps@.last()@));
                },
                None => {},
            }
        }
        k = k + 1;
    }
    assert(values@.subrange(0, values@.len() as int) =~= values@);
    assert(conv.subrange(0, conv.len() as int) =~= conv);
    reps
}

/// Writes what comes of the open `;` at `stop` (see `after_semicolon`) and
/// returns where the scan goes on.
fn push_after_semicolon(
    out: &mut Vec<u8>,
    line: &[u8],
    comments: &[Span],
    stop: usize,
    pending: &[Span],
    lower: bool,
    Ghost(next_rep): Ghost<int>,
) -> (r: usize)
    requires
        stop < line@.len(),
        comments_ok(line@, comments@),
        spans_in(pending@, line@.len() as int),
        stop < next_rep,
        next_rep < line@.len() ==> line@[next_rep] != 0x20u8,
        next_rep < line@.len() ==> forall|c: int|
            0 <= c < comments@.len() ==> next_rep < #[trigger] comments@[c].0 || next_rep
                >= comments@[c].1,
    ensures
        final(out)@ == old(out)@ + after_semicolon(line@, comments@, stop as int, echoes(line@, pending@, lower)).0,
        r as int == after_semicolon(line@, comments@, stop as int, echoes(line@, pending@, lower)).1,
        stop < r <= line@.len(),
        next_rep < line@.len() ==> r <= next_rep,
{
    out.push(0x3b);
    let n = line.len();
    assert(stop < n);
    let j = stop + 1;
    let w = find_space_end(line, j);
    proof {
        lemma_comment_from(comments@, w as int, 0);
        if next_rep < line@.len() {
            lemma_space_end_bound(line@, j as int, next_rep);
        }
    }
    match find_comment_at(comments, w) {
        Some(c) => {
            let (cs, ce) = comments[c];
            push_slice(out, slice_subrange(line, j, cs));
            push_merged_comment(out, line, cs + 2, ce - 2, line, pending, lower);
            ce
        },
        None => {
            push_fresh_comment(out, line, pending, lower);
            j
        },
    }
}

/// The end of a line scan (see `finish`).
fn finish_line(out: Vec<u8>, line: &[u8], pending: &[Span], lower: bool) -> (r: Option<Vec<u8>>)
    requires
        spans_in(pending@, line@.len() as int),
    ensures
        opt_view(r) == finish(out@, echoes(line@, pending@, lower)),
{
    if pending.len() == 0 {
        assert(echoes(line@, pending@, lower) =~= Seq::<Seq<u8>>::empty());
        return Some(out);
    }
    let mut res: Vec<u8> = Vec::new();
    let n = out.len();
    let closes = n >= 2 && out[n - 2] == 0x2a && out[n - 1] == 0x2f;
    let open = if closes {
        find_last_open(out.as_slice())
    } else {
        None
    };
    match open {
        Some(o) => {
            if o + 2 > n - 2 {
                return None;
            }
            push_slice(&mut res, slice_subrange(out.as_slice(), 0, o));
            push_merged_comment(&mut res, out.as_slice(), o + 2, n - 2, line, pending, lower);
        },
        None => {
            push_slice(&mut res, out.as_slice());
            push_fresh_comment(&mut res, line, pending, lower);
        },
    }
    Some(res)
}

/// Replaces the value matches of one line by their conversions, echoing the
/// originals in a comment (see `converted_line`). `full` is the line with or
/// without its `\n`; `comments`, `brackets` and `values` are the matches of
/// the comment, bracket and value patterns in the line without its `\n`, and
/// `converted[k]` the conversion of `values[k]` (`None`: leave it).
#[verifier::spinoff_prover]
pub fn convert_line(
    full: &[u8],
    comments: &[Span],
    brackets: &[Span],
    values: &[Span],
    converted: &[Option<Vec<u8>>],
    lower: bool,
) -> (r: Option<Vec<u8>>)
    requires
        values@.len() == converted@.len(),
        comments_ok(strip_eol(full@), comments@),
        values_ok(strip_eol(full@), values@),
    ensures
        opt_view(r) == converted_line(
            full@,
            comments@,
            brackets@,
            values@,
            converted@.map_values(|o: Option<Vec<u8>>| opt_view(o)),
            lower,
        ),
{
    let ghost conv = converted@.map_values(|o: Option<Vec<u8>>| opt_view(o));
    let has_eol = full.len() > 0 && full[full.len() - 1] == 0x0a;
    let line_len = if has_eol {
        full.len() - 1
    } else {
        full.len()
    };
    let line = slice_subrange(full, 0, line_len);
    assert(line@ == strip_eol(full@));
    let reps = plan(line, comments, brackets, values, converted);
    let ghost rs = reps@.map_values(|x: Replacement| x@);
    if reps.len() == 0 {
        let mut same: Vec<u8> = Vec::new();
        push_slice(&mut same, full);
        return Some(same);
    }
    proof {
        lemma_planned_ok(line@, comments@, brackets@, values@, conv);
    }
    let ghost total = scan(line@, comments@, brackets@, rs, 0, 0, seq![], lower);
    let mut out: Vec<u8> = Vec::new();
    let mut pending: Vec<Span> = Vec::new();
    let mut i: usize = 0;
    let mut k: usize = 0;
    assert(echoes(line@, pending@, lower) =~= Seq::<Seq<u8>>::empty());
    while i < line.len()
        invariant
            i <= line@.len(),
            k <= reps@.len(),
            rs == reps@.map_values(|x: Replacement| x@),
            reps_ok(line@, comments@, rs),
            comments_ok(line@, comments@),
            k < rs.len() ==> rs[k as int].0 >= i,
            spans_in(pending@, line@.len() as int),
            total == (
                out@ + scan(line@, comments@, brackets@, rs, k as int, i as int, echoes(line@, pending@, lower), lower).0,
                scan(line@, comments@, brackets@, rs, k as int, i as int, echoes(line@, pending@, lower), lower).1,
            ),
        decreases line@.len() - i,
    {
        let ghost pend = echoes(line@, pending@, lower);
        let ghost here = scan(line@, comments@, brackets@, rs, k as int, i as int, pend, lower);
        let next_rep = if k < reps.len() {
            reps[k].start
        } else {
            line.len()
        };
        assert(next_rep as int == (if k < rs.len() { rs[k as int].0 } else { line@.len() as int }));
        let next_semi = if pending.len() == 0 {
            line.len()
        } else {
            find_next_semicolon(line, comments, brackets, i)
        };
        let stop = if next_rep <= next_semi {
            next_rep
        } else {
            next_semi
        };
        push_slice(&mut out, slice_subrange(line, i, stop));
        if stop >= line.len() {
            assert(here == (line@.subrange(i as int, line@.len() as int), pend));
            i = line.len();
        } else if k < reps.len() && next_rep == stop {
            let end = reps[k].end;
            assert(rs[k as int] == reps@[k as int]@);
            push_slice(&mut out, reps[k].text.as_slice());
            if reps[k].echo {
                let ghost before_p = pending@;
                pending.push((reps[k].start, end));
                assert forall|l: int| 0 <= l < pending@.len() implies #[trigger] pending@[l].0 <= pending@[l].1 && pending@[l].1 <= line@.len() by {
                    if l < before_p.len() {
                        assert(pending@[l] == before_p[l]);
                    } else {
                        assert(pending@[l] == (reps@[k as int].start, end));
                        assert(0 <= rs[k as int].0 < rs[k as int].1 <= line@.len());
                    }
                }
                assert(echoes(line@, pending@, lower) =~= pend.push(
                    echo_form(lower, line@.subrange(rs[k as int].0, rs[k as int].1)),
                ));
            }
            let ghost rest = scan(line@, comments@, brackets@, rs, k + 1, end as int, echoes(line@, pending@, lower), lower);
            assert(here == (line@.subrange(i as int, stop as int) + rs[k as int].2 + rest.0, rest.1));
            i = end;
            k = k + 1;
        } else {
            let ghost step = after_semicolon(line@, comments@, stop as int, pend);
            proof {
                if k < rs.len() {
                    assert(rs[k as int].0 == next_rep);
                }
            }
            let ps = pending_slice(&pending);
            let next_i = push_after_semicolon(
                &mut out,
                line,
                comments,
                stop,
                ps,
                lower,
                Ghost(next_rep as int),
            );
            let ghost rest = scan(line@, comments@, brackets@, rs, k as int, next_i as int, seq![], lower);
            assert(here == (line@.subrange(i as int, stop as int) + step.0 + rest.0, rest.1));
            i = next_i;
            pending = Vec::new();
            assert(echoes(line@, pending@, lower) =~= Seq::<Seq<u8>>::empty());
        }
        assert(total.0 =~= out@ + scan(line@, comments@, brackets@, rs, k as int, i as int, echoes(line@, pending@, lower), lower).0);
    }
    let ghost pend = echoes(line@, pending@, lower);
    let ghost out_v = out@;
    assert(total == (out_v, pend));
    let ps = pending_slice(&pending);
    match finish_line(out, line, ps, lower) {
        Some(mut res) => {
            let ghost fin = res@;
            if has_eol {
                res.push(0x0a);
            }
            assert(res@ =~= fin + eol(full@));
            Some(res)
        },
        None => None,
    }
}

} // verus!
