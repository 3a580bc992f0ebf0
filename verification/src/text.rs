//! Byte-level text primitives shared by the helpers: spans, joining,
//! whitespace trimming, line splitting.
use vstd::prelude::*;

verus! {

/// A half-open byte range `[start, end)` of some haystack.
pub type Span = (usize, usize);

/// The spans are non-empty, lie inside a haystack of `len` bytes, and come in
/// increasing order without overlapping.
pub open spec fn spans_wf(spans: Seq<Span>, len: int) -> bool {
    &&& forall|k: int| 0 <= k < spans.len() ==> #[trigger] spans[k].0 < spans[k].1 && spans[k].1 <= len
    &&& forall|k: int, l: int|
        0 <= k < l < spans.len() ==> #[trigger] spans[k].1 <= #[trigger] spans[l].0
}

/// Every span of `spans` is a range, possibly empty, inside a haystack of
/// `len` bytes.
pub open spec fn spans_in(spans: Seq<Span>, len: int) -> bool {
    forall|k: int| 0 <= k < spans.len() ==> #[trigger] spans[k].0 <= spans[k].1 && spans[k].1 <= len
}

/// Some span of `spans` covers the whole range `[s, e)`.
pub open spec fn within(spans: Seq<Span>, s: int, e: int) -> bool {
    exists|k: int| 0 <= k < spans.len() && #[trigger] spans[k].0 <= s && e <= spans[k].1
}

/// Whether some span of `spans` covers `[s, e)`.
pub fn is_within(spans: &[Span], s: usize, e: usize) -> (r: bool)
    ensures
        r == within(spans@, s as int, e as int),
{
    let mut k: usize = 0;
    while k < spans.len()
        invariant
            k <= spans@.len(),
            forall|l: int| 0 <= l < k ==> !(spans@[l].0 <= s && e <= spans@[l].1),
        decreases spans@.len() - k,
    {
        if spans[k].0 <= s && e <= spans[k].1 {
            return true;
        }
        k = k + 1;
    }
    assert(!within(spans@, s as int, e as int)) by {
        if within(spans@, s as int, e as int) {
            let l = choose|l: int|
                0 <= l < spans@.len() && #[trigger] spans@[l].0 <= s && e <= spans@[l].1;
            assert(!(spans@[l].0 <= s && e <= spans@[l].1));
        }
    }
    false
}

/// Appends the bytes of `s` to `out`.
pub fn push_slice(out: &mut Vec<u8>, s: &[u8])
    ensures
        final(out)@ == old(out)@ + s@,
{
    let mut k: usize = 0;
    while k < s.len()
        invariant
            k <= s@.len(),
            out@ == old(out)@ + s@.subrange(0, k as int),
        decreases s@.len() - k,
    {
        out.push(s[k]);
        k = k + 1;
        assert(out@ =~= old(out)@ + s@.subrange(0, k as int));
    }
    assert(s@.subrange(0, s@.len() as int) =~= s@);
}

/// The parts, with `sep` between each two of them.
pub open spec fn join(parts: Seq<Seq<u8>>, sep: Seq<u8>) -> Seq<u8>
    decreases parts.len(),
{
    if parts.len() == 0 {
        seq![]
    } else if parts.len() == 1 {
        parts[0]
    } else {
        join(parts.drop_last(), sep) + sep + parts.last()
    }
}

/// The bytes that each span covers in `hay`, in order.
pub open spec fn span_texts(hay: Seq<u8>, spans: Seq<Span>) -> Seq<Seq<u8>> {
    spans.map_values(|p: Span| hay.subrange(p.0 as int, p.1 as int))
}

/// Appends to `out` the texts of `spans` in `hay`, with the byte `sep`
/// between each two.
pub fn push_joined_spans(out: &mut Vec<u8>, hay: &[u8], spans: &[Span], sep: u8)
    requires
        spans_in(spans@, hay@.len() as int),
    ensures
        final(out)@ == old(out)@ + join(span_texts(hay@, spans@), seq![sep]),
{
    let mut k: usize = 0;
    while k < spans.len()
        invariant
            k <= spans@.len(),
            spans_in(spans@, hay@.len() as int),
            out@ == old(out)@ + join(span_texts(hay@, spans@.subrange(0, k as int)), seq![sep]),
        decreases spans@.len() - k,
    {
        let ghost before = out@;
        if k > 0 {
            out.push(sep);
        }
        let (s, e) = spans[k];
        push_slice(out, vstd::slice::slice_subrange(hay, s, e));
        let ghost prev = span_texts(hay@, spans@.subrange(0, k as int));
        let ghost next = span_texts(hay@, spans@.subrange(0, k + 1));
        assert(next.drop_last() =~= prev);
        assert(next.last() == hay@.subrange(s as int, e as int));
        k = k + 1;
        assert(out@ =~= old(out)@ + join(next, seq![sep]));
    }
    assert(spans@.subrange(0, spans@.len() as int) =~= spans@);
}

/// Length of the UTF-8 encoding of a `White_Space` character (what
/// `char::is_whitespace` accepts) that `b` begins with, or 0 when it begins
/// with none.
pub open spec fn leading_ws_len(b: Seq<u8>) -> int {
    if b.len() >= 1 && (b[0] == 0x20u8 || (0x09u8 <= b[0] && b[0] <= 0x0du8)) {
        1
    } else if b.len() >= 2 && b[0] == 0xc2u8 && (b[1] == 0x85u8 || b[1] == 0xa0u8) {
        2
    } else if b.len() >= 3 && is_ws3(b[0], b[1], b[2]) {
        3
    } else {
        0
    }
}

/// Length of the UTF-8 encoding of a `White_Space` character that `b` ends
/// with, or 0 when it ends with none.
pub open spec fn trailing_ws_len(b: Seq<u8>) -> int {
    let n = b.len() as int;
    if n >= 1 && (b[n - 1] == 0x20u8 || (0x09u8 <= b[n - 1] && b[n - 1] <= 0x0du8)) {
        1
    } else if n >= 2 && b[n - 2] == 0xc2u8 && (b[n - 1] == 0x85u8 || b[n - 1] == 0xa0u8) {
        2
    } else if n >= 3 && is_ws3(b[n - 3], b[n - 2], b[n - 1]) {
        3
    } else {
        0
    }
}

/// The three-byte UTF-8 encodings of the `White_Space` characters U+1680,
/// U+2000..=U+200A, U+2028, U+2029, U+202F, U+205F and U+3000.
pub open spec fn is_ws3(x: u8, y: u8, z: u8) -> bool {
    ||| x == 0xe1u8 && y == 0x9au8 && z == 0x80u8
    ||| x == 0xe2u8 && y == 0x80u8 && ((0x80u8 <= z && z <= 0x8au8) || z == 0xa8u8 || z == 0xa9u8
        || z == 0xafu8)
    ||| x == 0xe2u8 && y == 0x81u8 && z == 0x9fu8
    ||| x == 0xe3u8 && y == 0x80u8 && z == 0x80u8
}

/// `b` without its leading whitespace characters.
pub open spec fn trim_start(b: Seq<u8>) -> Seq<u8>
    decreases b.len(),
{
    let k = leading_ws_len(b);
    if k == 0 {
        b
    } else {
        trim_start(b.subrange(k, b.len() as int))
    }
}

/// `b` without its trailing whitespace characters.
pub open spec fn trim_end(b: Seq<u8>) -> Seq<u8>
    decreases b.len(),
{
    let k = trailing_ws_len(b);
    if k == 0 {
        b
    } else {
        trim_end(b.subrange(0, b.len() - k))
    }
}

/// `b` without leading and trailing whitespace: on UTF-8 text, what
/// `str::trim` keeps.
pub open spec fn trim(b: Seq<u8>) -> Seq<u8> {
    trim_end(trim_start(b))
}

fn ws3(x: u8, y: u8, z: u8) -> (r: bool)
    ensures
        r == is_ws3(x, y, z),
{
    (x == 0xe1 && y == 0x9a && z == 0x80) || (x == 0xe2 && y == 0x80 && ((0x80 <= z && z <= 0x8a)
        || z == 0xa8 || z == 0xa9 || z == 0xaf)) || (x == 0xe2 && y == 0x81 && z == 0x9f) || (x
        == 0xe3 && y == 0x80 && z == 0x80)
}

fn leading_ws(b: &[u8], from: usize, to: usize) -> (r: usize)
    requires
        from <= to <= b@.len(),
    ensures
        r as int == leading_ws_len(b@.subrange(from as int, to as int)),
{
    let ghost s = b@.subrange(from as int, to as int);
    let n = to - from;
    if n >= 1 && (b[from] == 0x20 || (0x09 <= b[from] && b[from] <= 0x0d)) {
        1
    } else if n >= 2 && b[from] == 0xc2 && (b[from + 1] == 0x85 || b[from + 1] == 0xa0) {
        2
    } else if n >= 3 && ws3(b[from], b[from + 1], b[from + 2]) {
        3
    } else {
        0
    }
}

fn trailing_ws(b: &[u8], from: usize, to: usize) -> (r: usize)
    requires
        from <= to <= b@.len(),
    ensures
        r as int == trailing_ws_len(b@.subrange(from as int, to as int)),
{
    let ghost s = b@.subrange(from as int, to as int);
    let n = to - from;
    if n >= 1 && (b[to - 1] == 0x20 || (0x09 <= b[to - 1] && b[to - 1] <= 0x0d)) {
        1
    } else if n >= 2 && b[to - 2] == 0xc2 && (b[to - 1] == 0x85 || b[to - 1] == 0xa0) {
        2
    } else if n >= 3 && ws3(b[to - 3], b[to - 2], b[to - 1]) {
        3
    } else {
        0
    }
}

/// Appends `trim(b[from..to])` to `out`.
pub fn push_trimmed(out: &mut Vec<u8>, b: &[u8], from: usize, to: usize)
    requires
        from <= to <= b@.len(),
    ensures
        final(out)@ == old(out)@ + trim(b@.subrange(from as int, to as int)),
{
    let mut s = from;
    while s < to && leading_ws(b, s, to) > 0
        invariant
            from <= s <= to <= b@.len(),
            trim_start(b@.subrange(from as int, to as int)) == trim_start(
                b@.subrange(s as int, to as int),
            ),
        decreases to - s,
    {
        let k = leading_ws(b, s, to);
        assert(b@.subrange(s as int, to as int).subrange(k as int, (to - s) as int) =~= b@.subrange(
            s + k,
            to as int,
        ));
        s = s + k;
    }
    assert(trim_start(b@.subrange(from as int, to as int)) == b@.subrange(s as int, to as int));
    let mut e = to;
    while e > s && trailing_ws(b, s, e) > 0
        invariant
            from <= s <= e <= to <= b@.len(),
            trim(b@.subrange(from as int, to as int)) == trim_end(b@.subrange(s as int, e as int)),
        decreases e - s,
    {
        let k = trailing_ws(b, s, e);
        assert(b@.subrange(s as int, e as int).subrange(0, (e - s) - k) =~= b@.subrange(
            s as int,
            e - k,
        ));
        e = e - k;
    }
    push_slice(out, vstd::slice::slice_subrange(b, s, e));
}

/// The length of the first line of `s` (up to and with its `\n`), looking
/// from position `i` on.
pub open spec fn line_end(s: Seq<u8>, i: int) -> int
    decreases s.len() - i,
{
    if i >= s.len() {
        s.len() as int
    } else if s[i] == 0x0au8 {
        i + 1
    } else {
        line_end(s, i + 1)
    }
}

/// The lines of `s`, each with its `\n` (the last one may lack it), as
/// `str::split_inclusive('\n')` gives them.
pub open spec fn split_lines(s: Seq<u8>) -> Seq<Seq<u8>>
    decreases s.len(),
{
    if s.len() == 0 {
        seq![]
    } else {
        let n = line_end(s, 0);
        if n <= 0 || n > s.len() {
            seq![s]
        } else {
            seq![s.subrange(0, n)] + split_lines(s.subrange(n, s.len() as int))
        }
    }
}

pub proof fn lemma_line_end(s: Seq<u8>, i: int)
    requires
        0 <= i <= s.len(),
    ensures
        i <= line_end(s, i) <= s.len(),
        line_end(s, i) == s.len() || (line_end(s, i) > i && s[line_end(s, i) - 1] == 0x0au8),
    decreases s.len() - i,
{
    if i < s.len() && s[i] != 0x0au8 {
        lemma_line_end(s, i + 1);
    }
}


/// `join` seen from the front: the first part, the separator, then the rest.
pub proof fn lemma_join_front(parts: Seq<Seq<u8>>, sep: Seq<u8>)
    requires
        parts.len() >= 2,
    ensures
        join(parts, sep) == parts[0] + sep + join(parts.subrange(1, parts.len() as int), sep),
    decreases parts.len(),
{
    let rest = parts.subrange(1, parts.len() as int);
    let init = parts.drop_last();
    assert(join(parts, sep) == join(init, sep) + sep + parts.last());
    if parts.len() == 2 {
        assert(init.len() == 1 && init[0] == parts[0]);
        assert(join(init, sep) == parts[0]);
        assert(rest.len() == 1 && rest[0] == parts[1]);
        assert(join(rest, sep) == parts[1]);
        assert(join(parts, sep) =~= parts[0] + sep + join(rest, sep));
    } else {
        lemma_join_front(init, sep);
        assert(init.subrange(1, init.len() as int) =~= rest.drop_last());
        assert(rest.last() == parts.last());
        assert(join(rest, sep) == join(rest.drop_last(), sep) + sep + rest.last());
        assert(join(parts, sep) =~= parts[0] + sep + join(rest, sep));
    }
}

/// The last byte of a join is the last byte of its last part.
pub proof fn lemma_join_last(parts: Seq<Seq<u8>>, sep: Seq<u8>)
    requires
        parts.len() > 0,
        parts.last().len() > 0,
    ensures
        join(parts, sep).len() > 0,
        join(parts, sep).last() == parts.last().last(),
{
    if parts.len() > 1 {
        let j = join(parts, sep);
        assert(j == join(parts.drop_last(), sep) + sep + parts.last());
    }
}

/// The only `\n` before `line_end(s, i)`, from `i` on, is its last byte.
pub proof fn lemma_line_end_first(s: Seq<u8>, i: int, q: int)
    requires
        0 <= i <= q < line_end(s, i),
        s[q] == 0x0au8,
    ensures
        q == line_end(s, i) - 1,
    decreases s.len() - i,
{
    if i < s.len() && s[i] != 0x0au8 {
        if q > i {
            lemma_line_end_first(s, i + 1, q);
        }
    }
}

/// `s` holds no `\n`.
pub open spec fn no_newline(s: Seq<u8>) -> bool {
    forall|p: int| 0 <= p < s.len() ==> #[trigger] s[p] != 0x0au8
}

proof fn lemma_line_end_after(s: Seq<u8>, i: int, n: int)
    requires
        0 <= i <= n <= s.len(),
        forall|p: int| i <= p < n ==> #[trigger] s[p] != 0x0au8,
    ensures
        n < s.len() && s[n] == 0x0au8 ==> line_end(s, i) == n + 1,
        n == s.len() ==> line_end(s, i) == s.len(),
    decreases n - i,
{
    if i < n {
        lemma_line_end_after(s, i + 1, n);
    }
}

/// A line without `\n`, then `\n`, then the rest: the line comes first.
pub proof fn lemma_split_prefix(a: Seq<u8>, rest: Seq<u8>)
    requires
        no_newline(a),
    ensures
        split_lines(a + seq![0x0au8] + rest) == seq![a + seq![0x0au8]] + split_lines(rest),
{
    let s = a + seq![0x0au8] + rest;
    assert forall|p: int| 0 <= p < a.len() implies #[trigger] s[p] != 0x0au8 by {
        assert(s[p] == a[p]);
    }
    lemma_line_end_after(s, 0, a.len() as int);
    assert(s.subrange(0, a.len() as int + 1) =~= a + seq![0x0au8]);
    assert(s.subrange(a.len() as int + 1, s.len() as int) =~= rest);
}

/// A text without `\n` is one line, or none when it is empty.
pub proof fn lemma_split_no_newline(a: Seq<u8>)
    requires
        no_newline(a),
    ensures
        split_lines(a) == (if a.len() == 0 {
            Seq::<Seq<u8>>::empty()
        } else {
            seq![a]
        }),
{
    if a.len() > 0 {
        lemma_line_end_after(a, 0, a.len() as int);
        assert(a.subrange(0, a.len() as int) =~= a);
        let e = a.subrange(a.len() as int, a.len() as int);
        assert(e.len() == 0);
        assert(split_lines(e) == Seq::<Seq<u8>>::empty());
        assert(seq![a] + Seq::<Seq<u8>>::empty() =~= seq![a]);
    }
}

/// A non-empty text has lines; the last one is not empty and ends with the
/// text's last byte.
pub proof fn lemma_split_last(s: Seq<u8>)
    requires
        s.len() > 0,
    ensures
        split_lines(s).len() > 0,
        split_lines(s).last().len() > 0,
        split_lines(s).last().last() == s.last(),
    decreases s.len(),
{
    lemma_line_end(s, 0);
    let n = line_end(s, 0);
    if n > 0 && n <= s.len() {
        let rest = s.subrange(n, s.len() as int);
        let lines = split_lines(s);
        if rest.len() == 0 {
            assert(split_lines(rest) =~= Seq::<Seq<u8>>::empty());
            assert(lines =~= seq![s.subrange(0, n)]);
        } else {
            lemma_split_last(rest);
            assert(lines.last() == split_lines(rest).last());
        }
    }
}

/// Every line of `s` holds `\n` at most as its last byte.
pub proof fn lemma_split_pieces(s: Seq<u8>)
    ensures
        forall|i: int|
            0 <= i < split_lines(s).len() ==> #[trigger] split_lines(s)[i].len() > 0 && no_newline(
                split_lines(s)[i].drop_last(),
            ),
    decreases s.len(),
{
    if s.len() > 0 {
        lemma_line_end(s, 0);
        let n = line_end(s, 0);
        if n > 0 && n <= s.len() {
            let rest = s.subrange(n, s.len() as int);
            lemma_split_pieces(rest);
            let first = s.subrange(0, n);
            assert forall|p: int| 0 <= p < first.drop_last().len() implies #[trigger] first.drop_last()[p] != 0x0au8 by {
                if s[p] == 0x0au8 {
                    lemma_line_end_first(s, 0, p);
                }
            }
            let lines = split_lines(s);
            assert forall|i: int| 0 <= i < lines.len() implies #[trigger] lines[i].len() > 0 && no_newline(
                lines[i].drop_last(),
            ) by {
                if i > 0 {
                    assert(lines[i] == split_lines(rest)[i - 1]);
                }
            }
        }
    }
}

/// The lines of `a + b`, where `a` is empty or ends with `\n`, are those
/// of `a` and then those of `b`.
pub proof fn lemma_split_lines_concat(a: Seq<u8>, b: Seq<u8>)
    requires
        a.len() == 0 || a.last() == 0x0au8,
    ensures
        split_lines(a + b) == split_lines(a) + split_lines(b),
    decreases a.len(),
{
    if a.len() == 0 {
        assert(a + b =~= b);
        assert(split_lines(a) =~= Seq::<Seq<u8>>::empty());
        assert(split_lines(a) + split_lines(b) =~= split_lines(b));
    } else {
        let s = a + b;
        lemma_line_end(a, 0);
        let n = line_end(a, 0);
        assert(a[n - 1] == 0x0au8);
        assert forall|p: int| 0 <= p < n - 1 implies #[trigger] s[p] != 0x0au8 by {
            assert(s[p] == a[p]);
            if a[p] == 0x0au8 {
                lemma_line_end_first(a, 0, p);
            }
        }
        lemma_line_end_after(s, 0, n - 1);
        assert(line_end(s, 0) == n);
        let ra = a.subrange(n, a.len() as int);
        assert(ra.len() == 0 || ra.last() == a.last());
        lemma_split_lines_concat(ra, b);
        assert(s.subrange(0, n) =~= a.subrange(0, n));
        assert(s.subrange(n, s.len() as int) =~= ra + b);
        assert(split_lines(s) == seq![a.subrange(0, n)] + split_lines(ra + b));
        assert(split_lines(a) == seq![a.subrange(0, n)] + split_lines(ra));
        assert(split_lines(s) =~= split_lines(a) + split_lines(b));
    }
}

/// The number of `\n` bytes in `s`.
pub open spec fn newline_count(s: Seq<u8>) -> nat
    decreases s.len(),
{
    if s.len() == 0 {
        0
    } else {
        newline_count(s.drop_last()) + if s.last() == 0x0au8 {
            1nat
        } else {
            0nat
        }
    }
}

/// Newlines add up over a concatenation.
pub proof fn lemma_newline_count_add(a: Seq<u8>, b: Seq<u8>)
    ensures
        newline_count(a + b) == newline_count(a) + newline_count(b),
    decreases b.len(),
{
    if b.len() == 0 {
        assert(a + b =~= a);
    } else {
        lemma_newline_count_add(a, b.drop_last());
        assert((a + b).drop_last() =~= a + b.drop_last());
    }
}

/// A text without `\n` has no newline.
pub proof fn lemma_newline_count_none(s: Seq<u8>)
    requires
        no_newline(s),
    ensures
        newline_count(s) == 0,
    decreases s.len(),
{
    if s.len() > 0 {
        assert forall|p: int| 0 <= p < s.drop_last().len() implies #[trigger] s.drop_last()[p] != 0x0au8 by {
            assert(s.drop_last()[p] == s[p]);
        }
        lemma_newline_count_none(s.drop_last());
    }
}

/// Parts without `\n` joined with `\n` hold one newline fewer than parts.
pub proof fn lemma_newline_count_join(parts: Seq<Seq<u8>>)
    requires
        parts.len() > 0,
        forall|i: int| 0 <= i < parts.len() ==> no_newline(#[trigger] parts[i]),
    ensures
        newline_count(join(parts, seq![0x0au8])) == parts.len() - 1,
    decreases parts.len(),
{
    lemma_newline_count_none(parts.last());
    if parts.len() > 1 {
        let init = parts.drop_last();
        assert forall|i: int| 0 <= i < init.len() implies no_newline(#[trigger] init[i]) by {
            assert(init[i] == parts[i]);
        }
        lemma_newline_count_join(init);
        lemma_newline_count_add(join(init, seq![0x0au8]), seq![0x0au8]);
        lemma_newline_count_add(join(init, seq![0x0au8]) + seq![0x0au8], parts.last());
        assert(newline_count(seq![0x0au8]) == 1) by {
            let nl = seq![0x0au8];
            assert(nl.drop_last() =~= Seq::<u8>::empty());
            assert(newline_count(nl.drop_last()) == 0);
            assert(nl.last() == 0x0au8);
        }
    }
}

/// Every line but an unterminated last one holds one newline.
pub proof fn lemma_newline_count_lines(s: Seq<u8>)
    ensures
        newline_count(s) + (if s.len() > 0 && s.last() != 0x0au8 {
            1int
        } else {
            0int
        }) == split_lines(s).len(),
    decreases s.len(),
{
    if s.len() > 0 {
        lemma_line_end(s, 0);
        let n = line_end(s, 0);
        let piece = s.subrange(0, n);
        let rest = s.subrange(n, s.len() as int);
        assert forall|p: int| 0 <= p < piece.drop_last().len() implies #[trigger] piece.drop_last()[p] != 0x0au8 by {
            if s[p] == 0x0au8 {
                lemma_line_end_first(s, 0, p);
            }
        }
        lemma_newline_count_none(piece.drop_last());
        assert(piece.drop_last() + seq![piece.last()] =~= piece);
        assert(newline_count(piece) == newline_count(piece.drop_last()) + (if piece.last() == 0x0au8 { 1nat } else { 0nat }));
        assert(piece + rest =~= s);
        lemma_newline_count_add(piece, rest);
        lemma_newline_count_lines(rest);
        if rest.len() == 0 {
            assert(split_lines(rest) =~= Seq::<Seq<u8>>::empty());
            assert(piece =~= s);
        } else {
            assert(rest.last() == s.last());
            assert(piece.last() == 0x0au8);
        }
    }
}

} // verus!
