//! mdlink: escape spaces in markdown link paths,
//! `[doc](my notes.md)` → `[doc](my%20notes.md)`.
use crate::patterns::{
    close_from, find_md_links, is_remote, is_remote_target, link_end_at, md_links_from,
};
use crate::text::{push_slice, spans_wf, Span};
use vstd::prelude::*;
use vstd::slice::slice_subrange;

verus! {

/// The bytes `%20`, for a space.
pub open spec fn escaped_space() -> Seq<u8> {
    seq![0x25u8, 0x32u8, 0x30u8]
}

/// The bytes `%E2%80%AF`, for the narrow no-break space U+202F.
pub open spec fn escaped_narrow_space() -> Seq<u8> {
    seq![0x25u8, 0x45u8, 0x32u8, 0x25u8, 0x38u8, 0x30u8, 0x25u8, 0x41u8, 0x46u8]
}

/// `b` starts with the UTF-8 encoding of U+202F (`E2 80 AF`).
pub open spec fn starts_with_narrow_space(b: Seq<u8>) -> bool {
    b.len() >= 3 && b[0] == 0xe2u8 && b[1] == 0x80u8 && b[2] == 0xafu8
}

/// A path with its spaces written `%20` and its narrow no-break spaces
/// written `%E2%80%AF`.
pub open spec fn escape_path(b: Seq<u8>) -> Seq<u8>
    decreases b.len(),
{
    if b.len() == 0 {
        seq![]
    } else if b[0] == 0x20u8 {
        escaped_space() + escape_path(b.subrange(1, b.len() as int))
    } else if starts_with_narrow_space(b) {
        escaped_narrow_space() + escape_path(b.subrange(3, b.len() as int))
    } else {
        seq![b[0]] + escape_path(b.subrange(1, b.len() as int))
    }
}

/// `b` holds nothing that `escape_path` rewrites: no space and no narrow
/// no-break space.
pub open spec fn escape_free(b: Seq<u8>) -> bool {
    forall|p: int| 0 <= p < b.len() ==> #[trigger] b[p] != 0x20u8 && !starts_with_narrow_space(b.subrange(p, b.len() as int))
}

proof fn lemma_escape_free_tail(b: Seq<u8>, k: int)
    requires
        escape_free(b),
        0 <= k <= b.len(),
    ensures
        escape_free(b.subrange(k, b.len() as int)),
{
    let t = b.subrange(k, b.len() as int);
    assert forall|p: int| 0 <= p < t.len() implies #[trigger] t[p] != 0x20u8 && !starts_with_narrow_space(t.subrange(p, t.len() as int)) by {
        assert(t[p] == b[k + p]);
        assert(t.subrange(p, t.len() as int) =~= b.subrange(k + p, b.len() as int));
    }
}

/// A path with nothing to escape is left as it is.
proof fn lemma_escape_free_fixed(b: Seq<u8>)
    requires
        escape_free(b),
    ensures
        escape_path(b) == b,
    decreases b.len(),
{
    if b.len() > 0 {
        assert(b[0] != 0x20u8);
        assert(b.subrange(0, b.len() as int) =~= b);
        lemma_escape_free_tail(b, 1);
        lemma_escape_free_fixed(b.subrange(1, b.len() as int));
        assert(seq![b[0]] + b.subrange(1, b.len() as int) =~= b);
    }
}

/// Prefixing ASCII bytes other than a space to an escape-free path keeps it
/// escape-free.
proof fn lemma_escape_free_ascii_prefix(a: Seq<u8>, e: Seq<u8>)
    requires
        forall|p: int| 0 <= p < a.len() ==> #[trigger] a[p] < 0x80u8 && a[p] != 0x20u8,
        escape_free(e),
    ensures
        escape_free(a + e),
{
    let x = a + e;
    assert forall|p: int| 0 <= p < x.len() implies #[trigger] x[p] != 0x20u8 && !starts_with_narrow_space(x.subrange(p, x.len() as int)) by {
        if p >= a.len() {
            assert(x[p] == e[p - a.len()]);
            assert(x.subrange(p, x.len() as int) =~= e.subrange(p - a.len(), e.len() as int));
        } else {
            assert(x[p] == a[p]);
        }
    }
}

/// What an escaped path starts with, where it does not start with `%`.
proof fn lemma_escape_head(b: Seq<u8>)
    requires
        escape_path(b).len() > 0,
        escape_path(b)[0] != 0x25u8,
    ensures
        b.len() > 0,
        b[0] != 0x20u8,
        !starts_with_narrow_space(b),
        escape_path(b) == seq![b[0]] + escape_path(b.subrange(1, b.len() as int)),
{
}

/// An escaped path holds nothing left to escape.
proof fn lemma_escaped_is_free(b: Seq<u8>)
    ensures
        escape_free(escape_path(b)),
    decreases b.len(),
{
    if b.len() > 0 {
        let rest1 = b.subrange(1, b.len() as int);
        if b[0] == 0x20u8 {
            lemma_escaped_is_free(rest1);
            lemma_escape_free_ascii_prefix(escaped_space(), escape_path(rest1));
        } else if starts_with_narrow_space(b) {
            let rest3 = b.subrange(3, b.len() as int);
            lemma_escaped_is_free(rest3);
            lemma_escape_free_ascii_prefix(escaped_narrow_space(), escape_path(rest3));
        } else {
            lemma_escaped_is_free(rest1);
            let e = escape_path(rest1);
            let x = seq![b[0]] + e;
            assert forall|p: int| 0 <= p < x.len() implies #[trigger] x[p] != 0x20u8 && !starts_with_narrow_space(x.subrange(p, x.len() as int)) by {
                if p >= 1 {
                    assert(x[p] == e[p - 1]);
                    assert(x.subrange(p, x.len() as int) =~= e.subrange(p - 1, e.len() as int));
                } else if starts_with_narrow_space(x) {
                    // `e` starts with `80 AF`, so `b` started with `E2 80 AF`
                    assert(e[0] == 0x80u8 && e[1] == 0xafu8);
                    lemma_escape_head(rest1);
                    let rest2 = rest1.subrange(1, rest1.len() as int);
                    assert(e.subrange(1, e.len() as int) =~= escape_path(rest2));
                    assert(escape_path(rest2)[0] == 0xafu8);
                    lemma_escape_head(rest2);
                    assert(b[1] == rest1[0] && b[2] == rest2[0]);
                    assert(false);
                }
            }
        }
    }
}

/// Escaping changes nothing in a path without spaces and narrow no-break
/// spaces, writes a space as `%20` and a narrow no-break space as
/// `%E2%80%AF`, and leaves no space or narrow no-break space behind.
pub proof fn law_escape_path(path: Seq<u8>)
    ensures
        escape_free(path) ==> escape_path(path) == path,
        escape_free(escape_path(path)),
        escape_path(seq![0x20u8] + path) == seq![0x25u8, 0x32u8, 0x30u8] + escape_path(path),
        escape_path(seq![0xe2u8, 0x80u8, 0xafu8] + path) == seq![0x25u8, 0x45u8, 0x32u8, 0x25u8, 0x38u8, 0x30u8, 0x25u8, 0x41u8, 0x46u8]
            + escape_path(path),
{
    if escape_free(path) {
        lemma_escape_free_fixed(path);
    }
    lemma_escaped_is_free(path);
    let a = seq![0x20u8] + path;
    assert(a.subrange(1, a.len() as int) =~= path);
    let b = seq![0xe2u8, 0x80u8, 0xafu8] + path;
    assert(b.subrange(3, b.len() as int) =~= path);
    assert(starts_with_narrow_space(b));
}

/// Escaping a path twice is escaping it once: once a space is `%20` there is
/// nothing left to encode.
pub proof fn law_escape_idempotent(path: Seq<u8>)
    ensures
        escape_path(escape_path(path)) == escape_path(path),
{
    lemma_escaped_is_free(path);
    lemma_escape_free_fixed(escape_path(path));
}

/// What becomes of the link target `hay[s..e]` (`](path)`): left as it is
/// when the path is an address (`scheme://`, `mailto:`, `tel:`, `#`),
/// otherwise its path escaped.
pub open spec fn rewritten_target(hay: Seq<u8>, s: int, e: int) -> Seq<u8> {
    let path = hay.subrange(s + 2, e - 1);
    if is_remote_target(path) {
        hay.subrange(s, e)
    } else {
        seq![0x5du8, 0x28u8] + escape_path(path) + seq![0x29u8]
    }
}

/// `hay` from position `pos` on, with the link targets `spans[k..]`
/// rewritten.
pub open spec fn rewrite_from(hay: Seq<u8>, spans: Seq<Span>, k: int, pos: int) -> Seq<u8>
    decreases spans.len() - k,
{
    if k < 0 || k >= spans.len() {
        hay.subrange(pos, hay.len() as int)
    } else {
        hay.subrange(pos, spans[k].0 as int) + rewritten_target(
            hay,
            spans[k].0 as int,
            spans[k].1 as int,
        ) + rewrite_from(hay, spans, k + 1, spans[k].1 as int)
    }
}

/// `hay` with the paths of its local markdown link targets escaped.
pub open spec fn mdlink_spec(hay: Seq<u8>) -> Seq<u8> {
    rewrite_from(hay, md_links_from(hay, 0), 0, 0)
}

/// `h` with the paths of its local markdown link targets escaped, read from
/// its start: a target found at the start is rewritten and the rest follows,
/// otherwise the first byte stays and the rest follows.
pub open spec fn md_rewrite(h: Seq<u8>) -> Seq<u8>
    decreases h.len(),
{
    if h.len() == 0 {
        seq![]
    } else {
        match link_end_at(h, 0) {
            Some(e) => if 0 < e && e <= h.len() {
                rewritten_target(h, 0, e) + md_rewrite(h.subrange(e, h.len() as int))
            } else {
                seq![]
            },
            None => seq![h[0]] + md_rewrite(h.subrange(1, h.len() as int)),
        }
    }
}

/// `h[k..]` holds no `)`.
pub open spec fn no_close(h: Seq<u8>, k: int) -> bool {
    forall|q: int| k <= q < h.len() ==> #[trigger] h[q] != 0x29u8
}

proof fn lemma_close_from(h: Seq<u8>, k: int)
    requires
        0 <= k,
    ensures
        close_from(h, k) is None <==> no_close(h, k),
        close_from(h, k) matches Some(j) ==> k <= j < h.len() && h[j] == 0x29u8 && forall|q: int|
            k <= q < j ==> #[trigger] h[q] != 0x29u8,
    decreases h.len() - k,
{
    if k < h.len() && h[k] != 0x29u8 {
        lemma_close_from(h, k + 1);
        if no_close(h, k + 1) {
            assert forall|q: int| k <= q < h.len() implies #[trigger] h[q] != 0x29u8 by {
                if q > k {
                    assert(h[q] != 0x29u8);
                }
            }
        }
    }
}

/// `close_from` looks only forward: on a suffix it finds the same `)`.
proof fn lemma_close_shift(h: Seq<u8>, i: int, k: int)
    requires
        0 <= i <= h.len(),
        0 <= k,
    ensures
        close_from(h.subrange(i, h.len() as int), k) == match close_from(h, i + k) {
            Some(j) => Some(j - i),
            None => None::<int>,
        },
    decreases h.len() - i - k,
{
    let t = h.subrange(i, h.len() as int);
    if i + k < h.len() {
        assert(t[k] == h[i + k]);
        if h[i + k] != 0x29u8 {
            lemma_close_shift(h, i, k + 1);
        }
    }
}

/// `link_end_at` looks only forward.
proof fn lemma_link_shift(h: Seq<u8>, i: int)
    requires
        0 <= i <= h.len(),
    ensures
        link_end_at(h.subrange(i, h.len() as int), 0) == match link_end_at(h, i) {
            Some(e) => Some(e - i),
            None => None::<int>,
        },
{
    let t = h.subrange(i, h.len() as int);
    if i + 2 < h.len() {
        assert(t[0] == h[i] && t[1] == h[i + 1] && t[2] == h[i + 2]);
        lemma_close_shift(h, i, 2);
    }
}

/// A link target found by `link_end_at` lies inside `h` and ends with its
/// first `)` after the path.
proof fn lemma_link_end(h: Seq<u8>, i: int)
    requires
        link_end_at(h, i) is Some,
    ensures
        i + 3 < link_end_at(h, i).unwrap() + 1,
        link_end_at(h, i).unwrap() <= h.len(),
        h[link_end_at(h, i).unwrap() - 1] == 0x29u8,
        no_close(h.subrange(0, link_end_at(h, i).unwrap() - 1), i + 2),
{
    lemma_close_from(h, i + 2);
    let j = close_from(h, i + 2).unwrap();
    let pre = h.subrange(0, j);
    assert forall|q: int| i + 2 <= q < pre.len() implies #[trigger] pre[q] != 0x29u8 by {
        assert(pre[q] == h[q]);
    }
}

/// The link targets found from `i` on start at `i` or later.
proof fn lemma_links_start(h: Seq<u8>, i: int)
    requires
        0 <= i,
        h.len() <= usize::MAX,
    ensures
        md_links_from(h, i).len() > 0 ==> i <= md_links_from(h, i)[0].0 < md_links_from(h, i)[0].1 <= h.len(),
    decreases h.len() - i,
{
    if i < h.len() {
        if link_end_at(h, i) is None {
            lemma_links_start(h, i + 1);
        } else {
            lemma_link_end(h, i);
        }
    }
}

/// The link targets found from `i` on are successive, each inside `h` and
/// at least `](x)` long.
proof fn lemma_links_wf(h: Seq<u8>, i: int)
    requires
        0 <= i,
        h.len() <= usize::MAX,
    ensures
        spans_wf(md_links_from(h, i), h.len() as int),
        forall|k: int| 0 <= k < md_links_from(h, i).len() ==> i <= #[trigger] md_links_from(h, i)[k].0
            && md_links_from(h, i)[k].0 + 3 <= md_links_from(h, i)[k].1,
    decreases h.len() - i,
{
    let sp = md_links_from(h, i);
    if i < h.len() {
        match link_end_at(h, i) {
            Some(e) => {
                lemma_link_end(h, i);
                lemma_links_wf(h, e);
                let rest = md_links_from(h, e);
                assert(sp == seq![(i as usize, e as usize)] + rest);
                assert forall|k: int| 0 <= k < sp.len() implies i <= #[trigger] sp[k].0 && sp[k].0 + 3 <= sp[k].1 by {
                    if k > 0 {
                        assert(sp[k] == rest[k - 1]);
                    }
                }
                assert forall|k: int| 0 <= k < sp.len() implies #[trigger] sp[k].0 < sp[k].1 && sp[k].1 <= h.len() by {
                    if k > 0 {
                        assert(sp[k] == rest[k - 1]);
                    }
                }
                assert forall|k: int, l: int| 0 <= k < l < sp.len() implies #[trigger] sp[k].1 <= #[trigger] sp[l].0 by {
                    assert(sp[l] == rest[l - 1]);
                    if k > 0 {
                        assert(sp[k] == rest[k - 1]);
                    }
                }
            },
            None => {
                lemma_links_wf(h, i + 1);
            },
        }
    }
}

proof fn lemma_rewrite_from_tail(hay: Seq<u8>, x: Span, spans: Seq<Span>, k: int, pos: int)
    requires
        0 <= k,
    ensures
        rewrite_from(hay, seq![x] + spans, k + 1, pos) == rewrite_from(hay, spans, k, pos),
    decreases spans.len() - k,
{
    let all = seq![x] + spans;
    if k < spans.len() {
        assert(all[k + 1] == spans[k]);
        lemma_rewrite_from_tail(hay, x, spans, k + 1, spans[k].1 as int);
    }
}

/// Rewriting the targets found from `i` on, starting at `i`, is rewriting
/// the suffix from its start.
proof fn lemma_rewrite_connect(h: Seq<u8>, i: int)
    requires
        0 <= i <= h.len(),
        h.len() <= usize::MAX,
    ensures
        rewrite_from(h, md_links_from(h, i), 0, i) == md_rewrite(h.subrange(i, h.len() as int)),
    decreases h.len() - i,
{
    let t = h.subrange(i, h.len() as int);
    let sp = md_links_from(h, i);
    lemma_link_shift(h, i);
    if i == h.len() {
        assert(t.len() == 0);
        assert(h.subrange(i, h.len() as int) =~= Seq::<u8>::empty());
    } else {
        match link_end_at(h, i) {
            Some(e) => {
                lemma_link_end(h, i);
                assert(sp == seq![(i as usize, e as usize)] + md_links_from(h, e));
                lemma_rewrite_connect(h, e);
                lemma_rewrite_from_tail(h, (i as usize, e as usize), md_links_from(h, e), 0, e);
                assert(link_end_at(t, 0) == Some(e - i));
                assert(t.subrange(e - i, t.len() as int) =~= h.subrange(e, h.len() as int));
                assert(t.subrange(2, e - i - 1) =~= h.subrange(i + 2, e - 1));
                assert(t.subrange(0, e - i) =~= h.subrange(i, e));
                assert(rewritten_target(t, 0, e - i) == rewritten_target(h, i, e));
                assert(h.subrange(i, i) =~= Seq::<u8>::empty());
                assert(sp[0].0 as int == i && sp[0].1 as int == e);
                assert(rewrite_from(h, sp, 0, i) == h.subrange(i, i) + rewritten_target(h, i, e) + rewrite_from(h, sp, 1, e));
                assert(rewrite_from(h, sp, 0, i) =~= rewritten_target(h, i, e) + rewrite_from(h, md_links_from(h, e), 0, e));
            },
            None => {
                assert(sp == md_links_from(h, i + 1));
                lemma_rewrite_connect(h, i + 1);
                lemma_links_start(h, i + 1);
                assert(t.subrange(1, t.len() as int) =~= h.subrange(i + 1, h.len() as int));
                assert(t[0] == h[i]);
                if sp.len() == 0 {
                    assert(h.subrange(i, h.len() as int) =~= seq![h[i]] + h.subrange(i + 1, h.len() as int));
                } else {
                    let s0 = sp[0].0 as int;
                    assert(i + 1 <= s0);
                    assert(h.subrange(i, s0) =~= seq![h[i]] + h.subrange(i + 1, s0));
                    assert(rewrite_from(h, sp, 0, i) =~= seq![h[i]] + rewrite_from(h, sp, 0, i + 1));
                }
            },
        }
    }
}

/// Escaping keeps a path free of `)` and not empty.
proof fn lemma_escape_no_close(p: Seq<u8>)
    requires
        no_close(p, 0),
    ensures
        no_close(escape_path(p), 0),
        p.len() > 0 ==> escape_path(p).len() > 0,
    decreases p.len(),
{
    if p.len() > 0 {
        let r1 = p.subrange(1, p.len() as int);
        if p[0] == 0x20u8 || !starts_with_narrow_space(p) {
            assert forall|q: int| 0 <= q < r1.len() implies #[trigger] r1[q] != 0x29u8 by {
                assert(r1[q] == p[q + 1]);
            }
            lemma_escape_no_close(r1);
            let e = escape_path(r1);
            let head = if p[0] == 0x20u8 { escaped_space() } else { seq![p[0]] };
            assert(escape_path(p) == head + e);
            assert forall|q: int| 0 <= q < (head + e).len() implies #[trigger] (head + e)[q] != 0x29u8 by {
                if q >= head.len() {
                    assert((head + e)[q] == e[q - head.len()]);
                }
            }
        } else {
            let r3 = p.subrange(3, p.len() as int);
            assert forall|q: int| 0 <= q < r3.len() implies #[trigger] r3[q] != 0x29u8 by {
                assert(r3[q] == p[q + 3]);
            }
            lemma_escape_no_close(r3);
            let e = escape_path(r3);
            let head = escaped_narrow_space();
            assert(escape_path(p) == head + e);
            assert forall|q: int| 0 <= q < (head + e).len() implies #[trigger] (head + e)[q] != 0x29u8 by {
                if q >= head.len() {
                    assert((head + e)[q] == e[q - head.len()]);
                }
            }
        }
    }
}

/// A text without `)` holds no link target and is left as it is.
proof fn lemma_no_close_kept(x: Seq<u8>)
    requires
        no_close(x, 0),
    ensures
        md_rewrite(x) == x,
    decreases x.len(),
{
    if x.len() > 0 {
        if x.len() > 2 {
            lemma_close_from(x, 2);
            assert(no_close(x, 2));
        }
        assert(link_end_at(x, 0) is None);
        let r = x.subrange(1, x.len() as int);
        assert forall|q: int| 0 <= q < r.len() implies #[trigger] r[q] != 0x29u8 by {
            assert(r[q] == x[q + 1]);
        }
        lemma_no_close_kept(r);
        assert(seq![x[0]] + r =~= x);
    }
}

/// Rewriting keeps the first byte of a non-empty text.
proof fn lemma_rewrite_first(h: Seq<u8>)
    requires
        h.len() > 0,
    ensures
        md_rewrite(h).len() > 0,
        md_rewrite(h)[0] == h[0],
{
    if link_end_at(h, 0) is Some {
        lemma_link_end(h, 0);
    }
}

/// Re-running `mdlink` is a no-op: once a space is `%20` there is nothing
/// left to encode, and every link target is found again where it was.
proof fn lemma_rewrite_idempotent(h: Seq<u8>)
    ensures
        md_rewrite(md_rewrite(h)) == md_rewrite(h),
    decreases h.len(),
{
    let o = md_rewrite(h);
    if h.len() == 0 {
        assert(o.len() == 0);
    } else {
        match link_end_at(h, 0) {
            Some(e) => {
                lemma_link_end(h, 0);
                let rest = h.subrange(e, h.len() as int);
                lemma_rewrite_idempotent(rest);
                let o2 = md_rewrite(rest);
                let p = h.subrange(2, e - 1);
                assert forall|q: int| 0 <= q < p.len() implies #[trigger] p[q] != 0x29u8 by {
                    assert(p[q] == h.subrange(0, e - 1)[q + 2]);
                }
                lemma_escape_no_close(p);
                let pp = if is_remote_target(p) { p } else { escape_path(p) };
                let t = seq![0x5du8, 0x28u8] + pp + seq![0x29u8];
                assert(rewritten_target(h, 0, e) == t) by {
                    if is_remote_target(p) {
                        assert(h.subrange(0, e) =~= seq![0x5du8, 0x28u8] + p + seq![0x29u8]);
                    }
                }
                assert(o == t + o2);
                let n = t.len() as int;
                // the target is found again at the start, ending where it did
                assert(o[0] == 0x5du8 && o[1] == 0x28u8 && o[2] == pp[0]);
                assert(o[n - 1] == 0x29u8);
                assert forall|q: int| 2 <= q < n - 1 implies #[trigger] o[q] != 0x29u8 by {
                    assert(o[q] == pp[q - 2]);
                }
                lemma_close_from(o, 2);
                if close_from(o, 2) is None {
                    assert(o[n - 1] == 0x29u8);
                    assert(false);
                }
                let j = close_from(o, 2).unwrap();
                if j < n - 1 {
                    assert(o[j] != 0x29u8);
                } else if j > n - 1 {
                    assert(o[n - 1] != 0x29u8);
                }
                assert(link_end_at(o, 0) == Some(n));
                assert(o.subrange(n, o.len() as int) =~= o2);
                assert(o.subrange(2, n - 1) =~= pp);
                assert(o.subrange(0, n) =~= t);
                if !is_remote_target(p) {
                    law_escape_idempotent(p);
                }
                assert(rewritten_target(o, 0, n) == t);
                assert(md_rewrite(o) == rewritten_target(o, 0, n) + md_rewrite(o2));
            },
            None => {
                let h1 = h.subrange(1, h.len() as int);
                lemma_rewrite_idempotent(h1);
                let o1 = md_rewrite(h1);
                assert(o == seq![h[0]] + o1);
                assert(o.subrange(1, o.len() as int) =~= o1);
                // no target starts at the beginning of the output either
                if link_end_at(o, 0) is Some {
                    assert(h[0] == 0x5du8);
                    assert(o.len() > 2);
                    lemma_rewrite_first(h1);
                    assert(h[1] == 0x28u8);
                    assert(link_end_at(h1, 0) is None);
                    let h2 = h.subrange(2, h.len() as int);
                    assert(h1.subrange(1, h1.len() as int) =~= h2);
                    assert(o1 == seq![h1[0]] + md_rewrite(h2));
                    assert(h2.len() > 0);
                    lemma_rewrite_first(h2);
                    assert(o[2] == h[2]);
                    assert(h[2] != 0x29u8);
                    lemma_close_from(h, 2);
                    assert(no_close(h, 2));
                    assert forall|q: int| 0 <= q < h2.len() implies #[trigger] h2[q] != 0x29u8 by {
                        assert(h2[q] == h[q + 2]);
                    }
                    lemma_no_close_kept(h2);
                    assert(o =~= seq![h[0], h[1]] + h2);
                    assert forall|q: int| 2 <= q < o.len() implies #[trigger] o[q] != 0x29u8 by {
                        assert(o[q] == h[q]);
                    }
                    lemma_close_from(o, 2);
                    assert(false);
                }
                assert(md_rewrite(o) == seq![o[0]] + md_rewrite(o.subrange(1, o.len() as int)));
            },
        }
    }
}

/// A link target is left as it is exactly when its path is an address
/// (`scheme://`, `mailto:`, `tel:`, `#`); a local path has its spaces and
/// narrow no-break spaces escaped and nothing else changed.
pub proof fn law_local_paths_escaped(hay: Seq<u8>, s: int, e: int)
    requires
        0 <= s,
        s + 3 <= e <= hay.len(),
    ensures
        !is_remote_target(hay.subrange(s + 2, e - 1)) ==> rewritten_target(hay, s, e) == seq![0x5du8, 0x28u8]
            + escape_path(hay.subrange(s + 2, e - 1)) + seq![0x29u8],
        is_remote_target(hay.subrange(s + 2, e - 1)) ==> rewritten_target(hay, s, e) == hay.subrange(s, e),
{
}

/// A text that is one link target with a local path `p` (not empty, no
/// `)`) comes out as that target with `p` escaped.
pub proof fn law_single_local_target(p: Seq<u8>)
    requires
        p.len() > 0,
        no_close(p, 0),
        !is_remote_target(p),
    ensures
        md_rewrite(seq![0x5du8, 0x28u8] + p + seq![0x29u8]) == seq![0x5du8, 0x28u8] + escape_path(p)
            + seq![0x29u8],
{
    let h = seq![0x5du8, 0x28u8] + p + seq![0x29u8];
    let n = h.len() as int;
    assert forall|q: int| 2 <= q < n - 1 implies #[trigger] h[q] != 0x29u8 by {
        assert(h[q] == p[q - 2]);
    }
    lemma_close_from(h, 2);
    let j = close_from(h, 2).unwrap();
    if close_from(h, 2) is None {
        assert(h[n - 1] == 0x29u8);
        assert(false);
    }
    if j < n - 1 {
        assert(h[j] != 0x29u8);
    }
    assert(h[2] == p[0]);
    assert(link_end_at(h, 0) == Some(n));
    assert(h.subrange(2, n - 1) =~= p);
    assert(h.subrange(n, n) =~= Seq::<u8>::empty());
    assert(md_rewrite(h) == rewritten_target(h, 0, n) + md_rewrite(h.subrange(n, n)));
    assert(md_rewrite(h.subrange(n, n)) =~= Seq::<u8>::empty());
    assert(md_rewrite(h) =~= seq![0x5du8, 0x28u8] + escape_path(p) + seq![0x29u8]);
}

/// `mdlink` rewrites a text one link target after another: its result is
/// `md_rewrite`, which keeps every byte outside the targets.
pub proof fn law_mdlink_reads_targets(text: Seq<u8>)
    requires
        text.len() <= usize::MAX,
    ensures
        mdlink_spec(text) == md_rewrite(text),
{
    lemma_rewrite_connect(text, 0);
    assert(text.subrange(0, text.len() as int) =~= text);
}

/// Re-running `mdlink` changes nothing: once a space is `%20` there is
/// nothing left to encode, and the link targets of the escaped text are the
/// escaped targets.
pub proof fn law_mdlink_idempotent(text: Seq<u8>)
    requires
        text.len() <= usize::MAX,
        mdlink_spec(text).len() <= usize::MAX,
    ensures
        mdlink_spec(mdlink_spec(text)) == mdlink_spec(text),
{
    lemma_rewrite_connect(text, 0);
    assert(text.subrange(0, text.len() as int) =~= text);
    let o = mdlink_spec(text);
    lemma_rewrite_connect(o, 0);
    assert(o.subrange(0, o.len() as int) =~= o);
    lemma_rewrite_idempotent(text);
}

/// Appends `escape_path(b)` to `out`.
fn push_escaped(out: &mut Vec<u8>, b: &[u8])
    ensures
        final(out)@ == old(out)@ + escape_path(b@),
{
    let mut p: usize = 0;
    assert(b@.subrange(0, b@.len() as int) =~= b@);
    while p < b.len()
        invariant
            p <= b@.len(),
            old(out)@ + escape_path(b@) == out@ + escape_path(b@.subrange(p as int, b@.len() as int)),
        decreases b@.len() - p,
    {
        let ghost rest = b@.subrange(p as int, b@.len() as int);
        if b[p] == 0x20 {
            out.push(0x25);
            out.push(0x32);
            out.push(0x30);
            assert(rest.subrange(1, rest.len() as int) =~= b@.subrange(p + 1, b@.len() as int));
            p = p + 1;
        } else if b.len() - p >= 3 && b[p] == 0xe2 && b[p + 1] == 0x80 && b[p + 2] == 0xaf {
            out.push(0x25);
            out.push(0x45);
            out.push(0x32);
            out.push(0x25);
            out.push(0x38);
            out.push(0x30);
            out.push(0x25);
            out.push(0x41);
            out.push(0x46);
            assert(rest.subrange(3, rest.len() as int) =~= b@.subrange(p + 3, b@.len() as int));
            p = p + 3;
        } else {
            out.push(b[p]);
            assert(rest.subrange(1, rest.len() as int) =~= b@.subrange(p + 1, b@.len() as int));
            p = p + 1;
        }
    }
    assert(b@.subrange(p as int, b@.len() as int) =~= Seq::<u8>::empty());
    assert(out@ =~= old(out)@ + escape_path(b@));
}

/// Rewrites the link targets `spans` of `hay` (see `rewrite_from`).
pub fn rewrite_links(hay: &[u8], spans: &[Span]) -> (r: Vec<u8>)
    requires
        spans_wf(spans@, hay@.len() as int),
        forall|k: int| 0 <= k < spans@.len() ==> #[trigger] spans@[k].0 + 3 <= spans@[k].1,
    ensures
        r@ == rewrite_from(hay@, spans@, 0, 0),
{
    let mut out: Vec<u8> = Vec::new();
    let mut pos: usize = 0;
    let mut k: usize = 0;
    while k < spans.len()
        invariant
            k <= spans@.len(),
            pos <= hay@.len(),
            k < spans@.len() ==> pos <= spans@[k as int].0,
            spans_wf(spans@, hay@.len() as int),
            forall|l: int| 0 <= l < spans@.len() ==> #[trigger] spans@[l].0 + 3 <= spans@[l].1,
            rewrite_from(hay@, spans@, 0, 0) == out@ + rewrite_from(hay@, spans@, k as int, pos as int),
        decreases spans@.len() - k,
    {
        let (s, e) = spans[k];
        let ghost before = out@;
        push_slice(&mut out, slice_subrange(hay, pos, s));
        let path = slice_subrange(hay, s + 2, e - 1);
        if is_remote(path) {
            push_slice(&mut out, slice_subrange(hay, s, e));
        } else {
            out.push(0x5d);
            out.push(0x28);
            push_escaped(&mut out, path);
            out.push(0x29);
        }
        assert(out@ =~= before + hay@.subrange(pos as int, s as int) + rewritten_target(
            hay@,
            s as int,
            e as int,
        ));
        pos = e;
        k = k + 1;
        if k < spans.len() {
            assert(spans@[k - 1].1 <= spans@[k as int].0);
        }
    }
    push_slice(&mut out, slice_subrange(hay, pos, hay.len()));
    out
}

/// Escapes the spaces (`%20`) and narrow no-break spaces (`%E2%80%AF`) in
/// the path of every markdown link target `](path)` whose path is local:
/// paths starting with `scheme://`, `mailto:`, `tel:` or `#` are left alone.
pub fn mdlink(input: &[u8]) -> (r: Vec<u8>)
    ensures
        r@ == mdlink_spec(input@),
{
    let spans = find_md_links(input);
    let n = input.len();
    proof {
        assert(input@.len() == n);
        lemma_links_wf(input@, 0);
    }
    rewrite_links(input, spans.as_slice())
}

} // verus!
