//! sort: sort the lines of a selection in ascending byte order (the order of
//! `str`), keeping a trailing newline.
use crate::text::{
    join, lemma_join_front, lemma_join_last, lemma_line_end, lemma_split_last,
    lemma_split_no_newline, lemma_split_pieces, lemma_split_prefix, line_end, no_newline,
    lemma_newline_count_add, lemma_newline_count_join, lemma_newline_count_lines, newline_count,
    push_joined_spans, push_slice, span_texts, spans_in, split_lines, Span,
};
use vstd::prelude::*;
use vstd::relations::{sorted_by, total_ordering};
use vstd::slice::slice_subrange;

verus! {

/// Lexicographic order of byte strings: a prefix comes first, otherwise the
/// first differing byte decides.
pub open spec fn lex_le(a: Seq<u8>, b: Seq<u8>) -> bool
    decreases a.len(),
{
    if a.len() == 0 {
        true
    } else if b.len() == 0 {
        false
    } else if a[0] != b[0] {
        a[0] < b[0]
    } else {
        lex_le(a.subrange(1, a.len() as int), b.subrange(1, b.len() as int))
    }
}

/// `lex_le` as a relation.
pub open spec fn byte_order() -> spec_fn(Seq<u8>, Seq<u8>) -> bool {
    |a: Seq<u8>, b: Seq<u8>| lex_le(a, b)
}

/// A line of `str::lines`: the piece without its `\n`, and then without a
/// `\r` before it.
pub open spec fn line_content(piece: Seq<u8>) -> Seq<u8> {
    if piece.len() > 0 && piece.last() == 0x0au8 {
        let l = piece.drop_last();
        if l.len() > 0 && l.last() == 0x0du8 {
            l.drop_last()
        } else {
            l
        }
    } else {
        piece
    }
}

/// The lines of `s`, as `str::lines` gives them.
pub open spec fn text_lines(s: Seq<u8>) -> Seq<Seq<u8>> {
    split_lines(s).map_values(|p: Seq<u8>| line_content(p))
}

/// `s` ends with `\n`.
pub open spec fn ends_with_newline(s: Seq<u8>) -> bool {
    s.len() > 0 && s.last() == 0x0au8
}

/// `\n` when `b`, else nothing.
pub open spec fn newline_if(b: bool) -> Seq<u8> {
    if b {
        seq![0x0au8]
    } else {
        seq![]
    }
}

/// The lines of `s` in ascending byte order.
pub open spec fn sorted_lines(s: Seq<u8>) -> Seq<Seq<u8>> {
    text_lines(s).sort_by(byte_order())
}

/// The lines of `s` in ascending order, joined with `\n`, with a final `\n`
/// when `s` had one.
pub open spec fn sorted_text(s: Seq<u8>) -> Seq<u8> {
    join(sorted_lines(s), seq![0x0au8]) + newline_if(ends_with_newline(s))
}

/// `b` ends with `\r`.
pub open spec fn ends_with_cr(b: Seq<u8>) -> bool {
    b.len() > 0 && b.last() == 0x0du8
}

proof fn lemma_lex_reflexive(a: Seq<u8>)
    ensures
        lex_le(a, a),
    decreases a.len(),
{
    if a.len() > 0 {
        lemma_lex_reflexive(a.subrange(1, a.len() as int));
    }
}

proof fn lemma_lex_antisymmetric(a: Seq<u8>, b: Seq<u8>)
    requires
        lex_le(a, b),
        lex_le(b, a),
    ensures
        a == b,
    decreases a.len(),
{
    if a.len() > 0 && b.len() > 0 {
        lemma_lex_antisymmetric(a.subrange(1, a.len() as int), b.subrange(1, b.len() as int));
        assert(a =~= seq![a[0]] + a.subrange(1, a.len() as int));
        assert(b =~= seq![b[0]] + b.subrange(1, b.len() as int));
    }
}

proof fn lemma_lex_transitive(a: Seq<u8>, b: Seq<u8>, c: Seq<u8>)
    requires
        lex_le(a, b),
        lex_le(b, c),
    ensures
        lex_le(a, c),
    decreases a.len(),
{
    if a.len() > 0 && b.len() > 0 && c.len() > 0 && a[0] == b[0] && b[0] == c[0] {
        lemma_lex_transitive(
            a.subrange(1, a.len() as int),
            b.subrange(1, b.len() as int),
            c.subrange(1, c.len() as int),
        );
    }
}

proof fn lemma_lex_total(a: Seq<u8>, b: Seq<u8>)
    ensures
        lex_le(a, b) || lex_le(b, a),
    decreases a.len(),
{
    if a.len() > 0 && b.len() > 0 && a[0] == b[0] {
        lemma_lex_total(a.subrange(1, a.len() as int), b.subrange(1, b.len() as int));
    }
}

/// `lex_le` is plain byte order: where two lines first differ, the smaller
/// byte comes first; a line comes before every line that it begins.
pub proof fn law_byte_order(a: Seq<u8>, b: Seq<u8>, k: int)
    requires
        0 <= k <= a.len(),
        k <= b.len(),
        a.subrange(0, k) == b.subrange(0, k),
    ensures
        k < a.len() && k < b.len() && a[k] != b[k] ==> (lex_le(a, b) <==> a[k] < b[k]),
        k == a.len() ==> lex_le(a, b),
        k == b.len() && k < a.len() ==> !lex_le(a, b),
    decreases k,
{
    if k > 0 {
        assert(a[0] == a.subrange(0, k)[0] && b[0] == b.subrange(0, k)[0]);
        let a1 = a.subrange(1, a.len() as int);
        let b1 = b.subrange(1, b.len() as int);
        assert(a1.subrange(0, k - 1) =~= a.subrange(0, k).subrange(1, k));
        assert(b1.subrange(0, k - 1) =~= b.subrange(0, k).subrange(1, k));
        law_byte_order(a1, b1, k - 1);
        if k < a.len() {
            assert(a1[k - 1] == a[k]);
        }
        if k < b.len() {
            assert(b1[k - 1] == b[k]);
        }
    }
}

/// Byte order is a total order.
pub proof fn lemma_byte_order_total()
    ensures
        total_ordering(byte_order()),
{
    assert forall|x: Seq<u8>| #[trigger] byte_order()(x, x) by {
        lemma_lex_reflexive(x);
    }
    assert forall|x: Seq<u8>, y: Seq<u8>| #[trigger] byte_order()(x, y) && #[trigger] byte_order()(
        y,
        x,
    ) implies x == y by {
        lemma_lex_antisymmetric(x, y);
    }
    assert forall|x: Seq<u8>, y: Seq<u8>, z: Seq<u8>| #[trigger] byte_order()(x, y)
        && #[trigger] byte_order()(y, z) implies byte_order()(x, z) by {
        lemma_lex_transitive(x, y, z);
    }
    assert forall|x: Seq<u8>, y: Seq<u8>| #[trigger] byte_order()(x, y) || #[trigger] byte_order()(
        y,
        x,
    ) by {
        lemma_lex_total(x, y);
    }
}

/// Two sequences in byte order with the same elements are equal.
pub proof fn lemma_sorted_unique(a: Seq<Seq<u8>>, b: Seq<Seq<u8>>)
    requires
        sorted_by(a, byte_order()),
        sorted_by(b, byte_order()),
        a.to_multiset() == b.to_multiset(),
    ensures
        a == b,
    decreases a.len(),
{
    broadcast use vstd::seq_lib::group_to_multiset_ensures;

    lemma_byte_order_total();
    if a.len() == 0 {
        assert(b.to_multiset().len() == 0);
        assert(b =~= a);
    } else {
        assert(a.to_multiset().len() == a.len());
        assert(b.to_multiset().len() == b.len());
        assert(b.len() == a.len());
        assert(a.contains(a[0]));
        assert(b.to_multiset().count(a[0]) > 0);
        assert(b.contains(a[0]));
        let j = choose|j: int| 0 <= j < b.len() && b[j] == a[0];
        assert(b.contains(b[0]));
        assert(a.to_multiset().count(b[0]) > 0);
        assert(a.contains(b[0]));
        let i = choose|i: int| 0 <= i < a.len() && a[i] == b[0];
        if j > 0 {
            assert(byte_order()(b[0], b[j]));
        } else {
            lemma_lex_reflexive(b[0]);
        }
        if i > 0 {
            assert(byte_order()(a[0], a[i]));
        } else {
            lemma_lex_reflexive(a[0]);
        }
        lemma_lex_antisymmetric(a[0], b[0]);
        let a1 = a.remove(0);
        let b1 = b.remove(0);
        assert(a1.to_multiset() =~= a.to_multiset().remove(a[0]));
        assert(b1.to_multiset() =~= b.to_multiset().remove(b[0]));
        assert forall|x: int, y: int| 0 <= x < y < a1.len() implies #[trigger] byte_order()(
            a1[x],
            a1[y],
        ) by {
            assert(a1[x] == a[x + 1] && a1[y] == a[y + 1]);
        }
        assert forall|x: int, y: int| 0 <= x < y < b1.len() implies #[trigger] byte_order()(
            b1[x],
            b1[y],
        ) by {
            assert(b1[x] == b[x + 1] && b1[y] == b[y + 1]);
        }
        lemma_sorted_unique(a1, b1);
        assert(a =~= seq![a[0]] + a1);
        assert(b =~= seq![b[0]] + b1);
    }
}

/// Splitting lines joined with `\n` (and a final `\n` when `nl`) gives
/// them back, as long as none holds `\n`, none but an unterminated last one
/// ends with `\r` (a `\r\n` break loses its `\r`), and an unterminated
/// last one is not empty.
proof fn lemma_lines_of_join(lines: Seq<Seq<u8>>, nl: bool)
    requires
        forall|i: int| 0 <= i < lines.len() ==> no_newline(#[trigger] lines[i]),
        forall|i: int|
            0 <= i < lines.len() && ends_with_cr(#[trigger] lines[i]) ==> i == lines.len() - 1 && !nl,
        lines.len() == 0 ==> !nl,
        lines.len() > 0 && !nl ==> lines.last().len() > 0,
    ensures
        text_lines(join(lines, seq![0x0au8]) + newline_if(nl)) == lines,
    decreases lines.len(),
{
    let y = join(lines, seq![0x0au8]) + newline_if(nl);
    if lines.len() == 0 {
        assert(y =~= Seq::<u8>::empty());
        assert(text_lines(y) =~= lines);
    } else if lines.len() == 1 {
        let a = lines[0];
        assert(no_newline(a));
        if nl {
            lemma_split_prefix(a, seq![]);
            assert(y =~= a + seq![0x0au8] + Seq::<u8>::empty());
            assert(split_lines(Seq::<u8>::empty()) =~= Seq::<Seq<u8>>::empty());
            assert(split_lines(y) =~= seq![a + seq![0x0au8]]);
            assert((a + seq![0x0au8]).drop_last() =~= a);
            assert(!ends_with_cr(a));
            assert(text_lines(y) =~= lines);
        } else {
            assert(y =~= a);
            lemma_split_no_newline(a);
            assert(a.last() != 0x0au8);
            assert(text_lines(y) =~= lines);
        }
    } else {
        let a = lines[0];
        let rest = lines.subrange(1, lines.len() as int);
        lemma_join_front(lines, seq![0x0au8]);
        let ry = join(rest, seq![0x0au8]) + newline_if(nl);
        assert(y =~= a + seq![0x0au8] + ry);
        assert(no_newline(a));
        lemma_split_prefix(a, ry);
        assert forall|i: int| 0 <= i < rest.len() implies no_newline(#[trigger] rest[i]) by {
            assert(rest[i] == lines[i + 1]);
        }
        assert forall|i: int|
            0 <= i < rest.len() && ends_with_cr(#[trigger] rest[i]) implies i == rest.len() - 1 && !nl by {
            assert(rest[i] == lines[i + 1]);
        }
        lemma_lines_of_join(rest, nl);
        assert(!ends_with_cr(a));
        assert((a + seq![0x0au8]).drop_last() =~= a);
        assert(text_lines(y) =~= seq![a] + text_lines(ry));
        assert(text_lines(y) =~= lines);
    }
}

/// No line of `s` holds `\n`.
proof fn lemma_text_lines_no_newline(s: Seq<u8>)
    ensures
        forall|i: int| 0 <= i < text_lines(s).len() ==> no_newline(#[trigger] text_lines(s)[i]),
{
    lemma_split_pieces(s);
    assert forall|i: int| 0 <= i < text_lines(s).len() implies no_newline(#[trigger] text_lines(s)[i]) by {
        let p = split_lines(s)[i];
        assert(p.len() > 0 && no_newline(p.drop_last()));
        let c = text_lines(s)[i];
        assert(c == line_content(p));
        assert forall|q: int| 0 <= q < c.len() implies #[trigger] c[q] != 0x0au8 by {
            if p.last() == 0x0au8 {
                assert(c[q] == p.drop_last()[q]);
            } else if q < p.len() - 1 {
                assert(c[q] == p.drop_last()[q]);
            }
        }
    }
}

/// A non-empty text has lines; when it does not end with `\n` its last line
/// is not empty.
proof fn lemma_text_lines_last(s: Seq<u8>)
    requires
        s.len() > 0,
    ensures
        text_lines(s).len() > 0,
        !ends_with_newline(s) ==> text_lines(s).last().len() > 0,
{
    lemma_split_last(s);
    let p = split_lines(s).last();
    assert(text_lines(s).last() == line_content(p));
}

/// An empty text has no lines.
proof fn lemma_text_lines_empty(s: Seq<u8>)
    requires
        s.len() == 0,
    ensures
        text_lines(s).len() == 0,
{
}

/// What comes after a non-empty line in byte order is not empty.
proof fn lemma_lex_after_nonempty(a: Seq<u8>, b: Seq<u8>)
    requires
        a.len() > 0,
        lex_le(a, b),
    ensures
        b.len() > 0,
{
}

/// The sorted lines are the lines of `s`, and each of them is one of the
/// lines of `s`.
proof fn lemma_sorted_lines(s: Seq<u8>)
    ensures
        sorted_by(sorted_lines(s), byte_order()),
        sorted_lines(s).to_multiset() == text_lines(s).to_multiset(),
        sorted_lines(s).len() == text_lines(s).len(),
        forall|i: int|
            0 <= i < sorted_lines(s).len() ==> text_lines(s).contains(#[trigger] sorted_lines(s)[i]),
{
    broadcast use vstd::seq_lib::group_to_multiset_ensures;

    lemma_byte_order_total();
    let l = text_lines(s);
    let sl = sorted_lines(s);
    l.lemma_sort_by_ensures(byte_order());
    assert(sl.to_multiset().len() == sl.len());
    assert(l.to_multiset().len() == l.len());
    assert forall|i: int| 0 <= i < sl.len() implies l.contains(#[trigger] sl[i]) by {
        assert(sl.contains(sl[i]));
    }
}

/// No sorted line of `s` ends with `\r` where a `\n` follows it in the
/// sorted text: only the last line of a text without a final `\n` may.
/// (A `\r` followed by `\n` would read as a `\r\n` break.)
pub open spec fn no_inner_cr(s: Seq<u8>) -> bool {
    forall|i: int|
        0 <= i < sorted_lines(s).len() && ends_with_cr(#[trigger] sorted_lines(s)[i]) ==> i
            == sorted_lines(s).len() - 1 && !ends_with_newline(s)
}

/// The lines of the sorted text are the sorted lines, and it ends with `\n`
/// exactly when `s` does.
proof fn lemma_sorted_text_lines(s: Seq<u8>)
    requires
        no_inner_cr(s),
    ensures
        text_lines(sorted_text(s)) == sorted_lines(s),
        ends_with_newline(sorted_text(s)) == ends_with_newline(s),
{
    broadcast use vstd::seq_lib::group_to_multiset_ensures;

    let l = text_lines(s);
    let sl = sorted_lines(s);
    let nl = ends_with_newline(s);
    let y = sorted_text(s);
    lemma_byte_order_total();
    lemma_sorted_lines(s);
    lemma_text_lines_no_newline(s);
    assert forall|i: int| 0 <= i < sl.len() implies no_newline(#[trigger] sl[i]) by {
        let j = choose|j: int| 0 <= j < l.len() && l[j] == sl[i];
        assert(no_newline(l[j]));
    }
    if s.len() == 0 {
        lemma_text_lines_empty(s);
    } else {
        lemma_text_lines_last(s);
    }
    if sl.len() > 0 && !nl {
        let last = l.last();
        assert(last.len() > 0);
        assert(l.contains(last));
        assert(l.to_multiset().count(last) > 0);
        assert(sl.contains(last));
        let k = choose|k: int| 0 <= k < sl.len() && sl[k] == last;
        if k < sl.len() - 1 {
            assert(byte_order()(sl[k], sl[sl.len() - 1]));
            lemma_lex_after_nonempty(sl[k], sl.last());
        }
    }
    lemma_lines_of_join(sl, nl);
    if nl {
        assert(ends_with_newline(y));
    } else if sl.len() == 0 {
        assert(y =~= Seq::<u8>::empty());
    } else {
        lemma_join_last(sl, seq![0x0au8]);
        assert(no_newline(sl.last()));
        assert(sl.last().last() != 0x0au8);
        assert(y =~= join(sl, seq![0x0au8]));
        assert(!ends_with_newline(y));
    }
}

/// Sorting keeps the lines and puts them in order: the lines of the sorted
/// text are those of `s`, as many times each, in ascending byte order, and a
/// final `\n` stays. (A line ending in `\r` that gets a `\n` after it would
/// be read back without its `\r`; see `no_inner_cr`.)
pub proof fn law_sort_keeps_lines(s: Seq<u8>)
    requires
        no_inner_cr(s),
    ensures
        text_lines(sorted_text(s)).to_multiset() == text_lines(s).to_multiset(),
        sorted_by(text_lines(sorted_text(s)), byte_order()),
        ends_with_newline(sorted_text(s)) == ends_with_newline(s),
{
    lemma_sorted_text_lines(s);
    lemma_sorted_lines(s);
}

/// Sorting keeps the number of newlines.
pub proof fn law_sort_keeps_newlines(s: Seq<u8>)
    ensures
        newline_count(sorted_text(s)) == newline_count(s),
{
    let l = text_lines(s);
    let sl = sorted_lines(s);
    let nl = ends_with_newline(s);
    lemma_sorted_lines(s);
    lemma_text_lines_no_newline(s);
    lemma_newline_count_lines(s);
    assert(l.len() == split_lines(s).len());
    if s.len() > 0 {
        lemma_split_last(s);
    }
    if sl.len() == 0 {
        assert(sorted_text(s) =~= Seq::<u8>::empty());
    } else {
        assert forall|i: int| 0 <= i < sl.len() implies no_newline(#[trigger] sl[i]) by {
            let j = choose|j: int| 0 <= j < l.len() && l[j] == sl[i];
            assert(no_newline(l[j]));
        }
        lemma_newline_count_join(sl);
        lemma_newline_count_add(join(sl, seq![0x0au8]), newline_if(nl));
        if nl {
            let t = seq![0x0au8];
            assert(t.drop_last() =~= Seq::<u8>::empty());
            assert(newline_count(t.drop_last()) == 0);
            assert(newline_count(newline_if(nl)) == 1);
        } else {
            assert(newline_count(newline_if(nl)) == 0);
        }
    }
}

/// Sorting is idempotent: sorting lines that are already sorted changes
/// nothing. This fails only where a sorted line ends with `\r` and a `\n`
/// follows it, which the second sort reads as a `\r\n` break (see
/// `no_inner_cr`).
pub proof fn law_sort_idempotent(s: Seq<u8>)
    requires
        no_inner_cr(s),
    ensures
        sorted_text(sorted_text(s)) == sorted_text(s),
{
    broadcast use vstd::seq_lib::group_to_multiset_ensures;

    let sl = sorted_lines(s);
    let y = sorted_text(s);
    lemma_byte_order_total();
    lemma_sorted_lines(s);
    lemma_sorted_text_lines(s);
    sl.lemma_sort_by_ensures(byte_order());
    lemma_sorted_unique(sl.sort_by(byte_order()), sl);
    assert(sorted_lines(y) == sl);
}

/// Sorting a single line leaves it as it is, unless it ends in a `\r\n`
/// break (it comes back ending in `\n`).
pub proof fn law_sort_single_line(s: Seq<u8>)
    requires
        text_lines(s).len() <= 1,
        !(s.len() >= 2 && s[s.len() - 2] == 0x0du8 && s[s.len() - 1] == 0x0au8),
    ensures
        sorted_text(s) == s,
{
    broadcast use vstd::seq_lib::group_to_multiset_ensures;

    let l = text_lines(s);
    lemma_sorted_lines(s);
    lemma_sorted_unique(sorted_lines(s), l);
    if s.len() == 0 {
        lemma_text_lines_empty(s);
        assert(sorted_text(s) =~= s);
    } else {
        lemma_text_lines_last(s);
        lemma_line_end(s, 0);
        let n = line_end(s, 0);
        let rest = s.subrange(n, s.len() as int);
        if rest.len() > 0 {
            lemma_split_last(rest);
            assert(split_lines(s) =~= seq![s.subrange(0, n)] + split_lines(rest));
            assert(false);
        }
        assert(s.subrange(0, n) =~= s);
        assert(split_lines(s)[0] == s);
        assert(l[0] == line_content(s));
        assert(join(l, seq![0x0au8]) == l[0]);
        if ends_with_newline(s) {
            assert(l[0] =~= s.drop_last());
            assert(sorted_text(s) =~= s);
        } else {
            assert(sorted_text(s) =~= s);
        }
    }
}

/// Whether `a <= b` in byte order.
fn lex_le_exec(a: &[u8], b: &[u8]) -> (r: bool)
    ensures
        r == lex_le(a@, b@),
{
    let mut k: usize = 0;
    assert(a@.subrange(0, a@.len() as int) =~= a@);
    assert(b@.subrange(0, b@.len() as int) =~= b@);
    while k < a.len() && k < b.len() && a[k] == b[k]
        invariant
            k <= a@.len(),
            k <= b@.len(),
            lex_le(a@, b@) == lex_le(
                a@.subrange(k as int, a@.len() as int),
                b@.subrange(k as int, b@.len() as int),
            ),
        decreases a@.len() - k,
    {
        let ghost sa = a@.subrange(k as int, a@.len() as int);
        let ghost sb = b@.subrange(k as int, b@.len() as int);
        assert(sa.subrange(1, sa.len() as int) =~= a@.subrange(k + 1, a@.len() as int));
        assert(sb.subrange(1, sb.len() as int) =~= b@.subrange(k + 1, b@.len() as int));
        k = k + 1;
    }
    if k == a.len() {
        true
    } else if k == b.len() {
        false
    } else {
        a[k] < b[k]
    }
}

/// The spans of the lines of `input` (see `text_lines`).
fn line_spans(input: &[u8]) -> (r: Vec<Span>)
    ensures
        span_texts(input@, r@) == text_lines(input@),
        spans_in(r@, input@.len() as int),
{
    let mut spans: Vec<Span> = Vec::new();
    let mut pos: usize = 0;
    let ghost mut seen: Seq<Seq<u8>> = seq![];
    assert(input@.subrange(0, input@.len() as int) =~= input@);
    while pos < input.len()
        invariant
            pos <= input@.len(),
            split_lines(input@) == seen + split_lines(input@.subrange(pos as int, input@.len() as int)),
            span_texts(input@, spans@) == seen.map_values(|p: Seq<u8>| line_content(p)),
            spans_in(spans@, input@.len() as int),
        decreases input@.len() - pos,
    {
        let ghost rest = input@.subrange(pos as int, input@.len() as int);
        let mut end = pos;
        while end < input.len() && input[end] != 0x0a
            invariant
                pos <= end <= input@.len(),
                rest == input@.subrange(pos as int, input@.len() as int),
                line_end(rest, 0) == line_end(rest, end - pos),
                forall|q: int| pos <= q < end ==> input@[q] != 0x0au8,
            decreases input@.len() - end,
        {
            end = end + 1;
        }
        let ghost first_end = end;
        let mut stop = end;
        if end < input.len() {
            end = end + 1;
            if stop > pos && input[stop - 1] == 0x0d {
                stop = stop - 1;
            }
        }
        proof {
            lemma_line_end(rest, 0);
        }
        assert(line_end(rest, 0) == end - pos);
        let ghost piece = input@.subrange(pos as int, end as int);
        assert(piece =~= rest.subrange(0, end - pos));
        assert(rest.subrange(end - pos, rest.len() as int) =~= input@.subrange(end as int, input@.len() as int));
        assert(split_lines(rest) == seq![piece] + split_lines(input@.subrange(end as int, input@.len() as int)));
        proof {
            if first_end < input@.len() {
                assert(piece.last() == 0x0au8);
                assert(piece.drop_last() =~= input@.subrange(pos as int, first_end as int));
            } else {
                assert(piece.last() == input@[first_end - 1]);
            }
        }
        assert(line_content(piece) =~= input@.subrange(pos as int, stop as int));
        let ghost before = spans@;
        spans.push((pos, stop));
        assert(spans_in(spans@, input@.len() as int)) by {
            assert forall|k: int| 0 <= k < spans@.len() implies #[trigger] spans@[k].0 <= spans@[k].1 && spans@[k].1 <= input@.len() by {
                if k < before.len() {
                    assert(spans@[k] == before[k]);
                }
            }
        }
        proof {
            let next = seen.push(piece);
            assert(span_texts(input@, spans@) =~= span_texts(input@, before).push(input@.subrange(pos as int, stop as int)));
            assert(next.map_values(|p: Seq<u8>| line_content(p)) =~= seen.map_values(|p: Seq<u8>| line_content(p)).push(line_content(piece)));
            assert(split_lines(input@) =~= next + split_lines(input@.subrange(end as int, input@.len() as int)));
            seen = next;
        }
        pos = end;
    }
    assert(split_lines(input@.subrange(pos as int, input@.len() as int)) =~= Seq::<Seq<u8>>::empty());
    assert(split_lines(input@) =~= seen);
    spans
}

/// The first position of `sorted` whose line comes strictly after `x`.
fn insertion_point(input: &[u8], sorted: &Vec<Span>, x: &[u8]) -> (pos: usize)
    requires
        spans_in(sorted@, input@.len() as int),
    ensures
        pos <= sorted@.len(),
        forall|l: int| 0 <= l < pos ==> lex_le(#[trigger] span_texts(input@, sorted@)[l], x@),
        pos < sorted@.len() ==> !lex_le(span_texts(input@, sorted@)[pos as int], x@),
{
    let ghost texts = span_texts(input@, sorted@);
    let mut pos: usize = 0;
    while pos < sorted.len()
        invariant
            pos <= sorted@.len(),
            texts == span_texts(input@, sorted@),
            spans_in(sorted@, input@.len() as int),
            forall|l: int| 0 <= l < pos ==> lex_le(#[trigger] texts[l], x@),
        decreases sorted@.len() - pos,
    {
        let (s, e) = sorted[pos];
        if !lex_le_exec(slice_subrange(input, s, e), x) {
            return pos;
        }
        pos = pos + 1;
    }
    pos
}

/// Inserting `x` where `insertion_point` puts it keeps lines in order, and
/// adds `x` to them.
proof fn lemma_insert_in_order(texts: Seq<Seq<u8>>, pos: int, x: Seq<u8>)
    requires
        0 <= pos <= texts.len(),
        sorted_by(texts, byte_order()),
        forall|l: int| 0 <= l < pos ==> lex_le(#[trigger] texts[l], x),
        pos < texts.len() ==> !lex_le(texts[pos], x),
    ensures
        sorted_by(texts.insert(pos, x), byte_order()),
        texts.insert(pos, x).to_multiset() == texts.to_multiset().insert(x),
{
    let next = texts.insert(pos, x);
    texts.insert_ensures(pos, x);
    assert(next.remove(pos) =~= texts);
    assert(next[pos] == x);
    next.to_multiset_ensures();
    texts.to_multiset_ensures();
    assert(next.remove(pos).to_multiset() =~= next.to_multiset().remove(next[pos]));
    assert(next.contains(x));
    assert(next.to_multiset().count(x) > 0);
    assert(next.to_multiset() =~= texts.to_multiset().insert(x));
    assert forall|i: int, j: int| 0 <= i < j < next.len() implies #[trigger] byte_order()(
        next[i],
        next[j],
    ) by {
        if pos < texts.len() {
            lemma_lex_total(texts[pos], x);
        }
        if j < pos {
            assert(next[i] == texts[i] && next[j] == texts[j]);
        } else if j == pos {
            assert(next[i] == texts[i]);
        } else if i == pos {
            assert(next[j] == texts[j - 1]);
            if j - 1 > pos {
                assert(byte_order()(texts[pos], texts[j - 1]));
            } else {
                lemma_lex_reflexive(texts[pos]);
            }
            lemma_lex_transitive(x, texts[pos], texts[j - 1]);
        } else if i < pos {
            assert(next[i] == texts[i] && next[j] == texts[j - 1]);
            assert(byte_order()(texts[i], texts[j - 1]));
        } else {
            assert(next[i] == texts[i - 1] && next[j] == texts[j - 1]);
            assert(byte_order()(texts[i - 1], texts[j - 1]));
        }
    }
}

/// Sorts the lines of `input` in ascending byte order (the order of `str`)
/// and joins them with `\n`; a trailing newline of `input` is kept. Lines
/// end at `\n` or `\r\n`, as `str::lines` splits them.
#[verifier::spinoff_prover]
pub fn sort(input: &[u8]) -> (r: Vec<u8>)
    ensures
        r@ == sorted_text(input@),
{
    broadcast use vstd::seq_lib::group_to_multiset_ensures;

    let lines = line_spans(input);
    let ghost all = text_lines(input@);
    let mut sorted: Vec<Span> = Vec::new();
    let mut k: usize = 0;
    proof {
        lemma_byte_order_total();
    }
    while k < lines.len()
        invariant
            k <= lines@.len(),
            span_texts(input@, lines@) == all,
            spans_in(lines@, input@.len() as int),
            spans_in(sorted@, input@.len() as int),
            sorted_by(span_texts(input@, sorted@), byte_order()),
            span_texts(input@, sorted@).to_multiset() == all.subrange(0, k as int).to_multiset(),
            total_ordering(byte_order()),
        decreases lines@.len() - k,
    {
        let (s, e) = lines[k];
        let x = slice_subrange(input, s, e);
        let ghost texts = span_texts(input@, sorted@);
        let pos = insertion_point(input, &sorted, x);
        sorted.insert(pos, (s, e));
        let ghost next = span_texts(input@, sorted@);
        proof {
            assert(next =~= texts.insert(pos as int, x@));
            lemma_insert_in_order(texts, pos as int, x@);
            assert(x@ == all[k as int]);
            assert(all.subrange(0, k + 1) =~= all.subrange(0, k as int).push(x@));
            all.subrange(0, k as int).to_multiset_ensures();
        }
        k = k + 1;
    }
    let ghost fin = span_texts(input@, sorted@);
    proof {
        assert(all.subrange(0, all.len() as int) =~= all);
        all.lemma_sort_by_ensures(byte_order());
        lemma_sorted_unique(fin, all.sort_by(byte_order()));
    }
    let mut out: Vec<u8> = Vec::new();
    push_joined_spans(&mut out, input, sorted.as_slice(), 0x0a);
    if input.len() > 0 && input[input.len() - 1] == 0x0a {
        out.push(0x0a);
    }
    assert(out@ =~= sorted_text(input@));
    out
}

} // verus!
