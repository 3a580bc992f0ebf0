//! The regular expressions of the helpers, run by the `regex` crate.
//!
//! Each search is a trusted item: its result is given a name, beside a few
//! facts that the pattern itself guarantees (where matches begin and end,
//! which bytes they cannot hold); the markdown link search, short to state,
//! is stated in full (`md_links_from`). The byte API used here returns, on
//! UTF-8 text, the matches that the `str` API gives for the same patterns.
use crate::text::{spans_wf, Span};
use vstd::prelude::*;

verus! {

/// The matches of `\]\([^)]*\)` (a markdown link target `](…)`) in `hay`.
pub uninterp spec fn link_target_spans(hay: Seq<u8>) -> Seq<Span>;

/// The matches of `/\*.*?\*/` (a CSS comment) in `hay`.
pub uninterp spec fn comment_spans(hay: Seq<u8>) -> Seq<Span>;

/// The matches of `\[[^\]]*\]` (a bracketed, tailwind-style value) in `hay`.
pub uninterp spec fn bracket_spans(hay: Seq<u8>) -> Seq<Span>;

/// The matches of `-?\d+(?:\.\d+)?px\b` (a px length) in `hay`.
pub uninterp spec fn px_value_spans(hay: Seq<u8>) -> Seq<Span>;

/// The matches of `#[0-9a-fA-F]{3,8}\b` (a hex color) in `hay`.
pub uninterp spec fn hex_color_spans(hay: Seq<u8>) -> Seq<Span>;

/// The matches of `\d{4}-\d{2}-\d{2} at \d{2}\.\d{2}\.\d{2} (?:AM|PM)`
/// (a timestamp) in `hay`.
pub uninterp spec fn timestamp_spans(hay: Seq<u8>) -> Seq<Span>;

/// What `replace_all` makes of `hay` when each timestamp is replaced by the
/// replacement string `stamp`.
pub uninterp spec fn timestamps_replaced(hay: Seq<u8>, stamp: Seq<u8>) -> Seq<u8>;

/// The first `)` of `h` at or after position `k`.
pub open spec fn close_from(h: Seq<u8>, k: int) -> Option<int>
    decreases h.len() - k,
{
    if k < 0 || k >= h.len() {
        None
    } else if h[k] == 0x29u8 {
        Some(k)
    } else {
        close_from(h, k + 1)
    }
}

/// Where a markdown link target `](path)` starting at `i` ends, if one
/// does: `](`, a path of at least one byte holding no `)`, then `)`.
pub open spec fn link_end_at(h: Seq<u8>, i: int) -> Option<int> {
    if 0 <= i && i + 2 < h.len() && h[i] == 0x5du8 && h[i + 1] == 0x28u8 && h[i + 2] != 0x29u8 {
        match close_from(h, i + 2) {
            Some(j) => Some(j + 1),
            None => None,
        }
    } else {
        None
    }
}

/// The markdown link targets of `h` from position `i` on, as a regex search
/// finds them: the leftmost one, then the leftmost after its end, and so on.
pub open spec fn md_links_from(h: Seq<u8>, i: int) -> Seq<Span>
    decreases h.len() - i,
{
    if i < 0 || i >= h.len() {
        seq![]
    } else {
        match link_end_at(h, i) {
            Some(e) => if i < e && e <= h.len() {
                seq![(i as usize, e as usize)] + md_links_from(h, e)
            } else {
                seq![]
            },
            None => md_links_from(h, i + 1),
        }
    }
}

/// Whether `path` matches `(?i)^(?:[a-z][a-z0-9+.-]*://|mailto:|tel:|#)`,
/// i.e. starts like an address rather than a local file.
pub uninterp spec fn is_remote_target(path: Seq<u8>) -> bool;

/// `hay` with the ranges of `spans` replaced by `with`.
pub open spec fn splice_all(hay: Seq<u8>, spans: Seq<Span>, with: Seq<u8>) -> Seq<u8>
    decreases spans.len(),
{
    if spans.len() == 0 {
        hay
    } else {
        let last = spans.last();
        splice_all(hay.subrange(0, last.0 as int), spans.drop_last(), with) + with + hay.subrange(
            last.1 as int,
            hay.len() as int,
        )
    }
}

/// Every byte of `hay[s..e]` differs from `b`.
pub open spec fn lacks(hay: Seq<u8>, s: int, e: int, b: u8) -> bool {
    forall|p: int| s <= p < e ==> #[trigger] hay[p] != b
}

/// An ASCII hexadecimal digit.
pub open spec fn is_hex_digit(b: u8) -> bool {
    (0x30u8 <= b && b <= 0x39u8) || (0x41u8 <= b && b <= 0x46u8) || (0x61u8 <= b && b <= 0x66u8)
}

/// Runs `regex::bytes::Regex::find_iter` for the link target pattern. The
/// matches are successive and do not overlap; each starts with `](` and ends
/// with `)`, with no `)` between.
#[verifier::external_body]
pub(crate) fn find_link_targets(hay: &[u8]) -> (r: Vec<Span>)
    ensures
        r@ == link_target_spans(hay@),
        spans_wf(r@, hay@.len() as int),
        forall|k: int|
            0 <= k < r@.len() ==> {
                let (s, e) = #[trigger] r@[k];
                &&& s + 3 <= e
                &&& hay@[s as int] == 0x5du8 && hay@[s + 1] == 0x28u8 && hay@[e - 1] == 0x29u8
                &&& lacks(hay@, s + 2, e - 1, 0x29u8)
            },
{
    let re = regex::bytes::Regex::new(r"\]\([^)]*\)").unwrap();
    re.find_iter(hay).map(|m| (m.start(), m.end())).collect()
}

/// Runs `regex::bytes::Regex::find_iter` for the comment pattern. The matches
/// are successive and do not overlap; each starts with `/*` and ends with `*/`.
#[verifier::external_body]
pub(crate) fn find_comments(hay: &[u8]) -> (r: Vec<Span>)
    ensures
        r@ == comment_spans(hay@),
        spans_wf(r@, hay@.len() as int),
        forall|k: int|
            0 <= k < r@.len() ==> {
                let (s, e) = #[trigger] r@[k];
                &&& s + 4 <= e
                &&& hay@[s as int] == 0x2fu8 && hay@[s + 1] == 0x2au8
                &&& hay@[e - 2] == 0x2au8 && hay@[e - 1] == 0x2fu8
            },
{
    let re = regex::bytes::Regex::new(r"/\*.*?\*/").unwrap();
    re.find_iter(hay).map(|m| (m.start(), m.end())).collect()
}

/// Runs `regex::bytes::Regex::find_iter` for the bracket pattern. The matches
/// are successive and do not overlap.
#[verifier::external_body]
pub(crate) fn find_brackets(hay: &[u8]) -> (r: Vec<Span>)
    ensures
        r@ == bracket_spans(hay@),
        spans_wf(r@, hay@.len() as int),
{
    let re = regex::bytes::Regex::new(r"\[[^\]]*\]").unwrap();
    re.find_iter(hay).map(|m| (m.start(), m.end())).collect()
}

/// Runs `regex::bytes::Regex::find_iter` for the px pattern. The matches are
/// successive and do not overlap, and hold no space and no `/` (only a sign,
/// digits, a dot and `px`).
#[verifier::external_body]
pub(crate) fn find_px_values(hay: &[u8]) -> (r: Vec<Span>)
    ensures
        r@ == px_value_spans(hay@),
        spans_wf(r@, hay@.len() as int),
        forall|k: int|
            0 <= k < r@.len() ==> {
                let (s, e) = #[trigger] r@[k];
                &&& lacks(hay@, s as int, e as int, 0x20u8)
                &&& lacks(hay@, s as int, e as int, 0x2fu8)
            },
{
    let re = regex::bytes::Regex::new(r"-?\d+(?:\.\d+)?px\b").unwrap();
    re.find_iter(hay).map(|m| (m.start(), m.end())).collect()
}

/// Runs `regex::bytes::Regex::find_iter` for the hex color pattern. The
/// matches are successive and do not overlap; each is `#` followed by three
/// to eight ASCII hex digits.
#[verifier::external_body]
pub(crate) fn find_hex_colors(hay: &[u8]) -> (r: Vec<Span>)
    ensures
        r@ == hex_color_spans(hay@),
        spans_wf(r@, hay@.len() as int),
        forall|k: int|
            0 <= k < r@.len() ==> {
                let (s, e) = #[trigger] r@[k];
                &&& s + 4 <= e <= s + 9
                &&& hay@[s as int] == 0x23u8
                &&& forall|p: int| s < p < e ==> is_hex_digit(#[trigger] hay@[p])
            },
{
    let re = regex::bytes::Regex::new(r"#[0-9a-fA-F]{3,8}\b").unwrap();
    re.find_iter(hay).map(|m| (m.start(), m.end())).collect()
}

/// Runs `regex::bytes::Regex::is_match` for the timestamp pattern: whether
/// `hay` holds a timestamp at all.
#[verifier::external_body]
pub(crate) fn has_timestamp(hay: &[u8]) -> (r: bool)
    ensures
        r == (timestamp_spans(hay@).len() > 0),
{
    let re = regex::bytes::Regex::new(r"\d{4}-\d{2}-\d{2} at \d{2}\.\d{2}\.\d{2} (?:AM|PM)").unwrap();
    re.is_match(hay)
}

/// Runs `regex::bytes::Regex::replace_all` for the timestamp pattern, with
/// `stamp` as the replacement string. A replacement string is taken
/// literally unless it holds `$` (which names a capture group); without `$`
/// every timestamp, as `find_iter` finds them, gives way to `stamp`.
#[verifier::external_body]
pub(crate) fn replace_timestamps(hay: &[u8], stamp: &[u8]) -> (r: Vec<u8>)
    ensures
        r@ == timestamps_replaced(hay@, stamp@),
        !stamp@.contains(0x24u8) ==> r@ == splice_all(hay@, timestamp_spans(hay@), stamp@),
{
    let re = regex::bytes::Regex::new(r"\d{4}-\d{2}-\d{2} at \d{2}\.\d{2}\.\d{2} (?:AM|PM)").unwrap();
    re.replace_all(hay, stamp).into_owned()
}

/// Runs `regex::bytes::Regex::find_iter` for the markdown link pattern
/// `(\]\()([^)]+)(\))`, written with Unicode off so that `[^)]` is any byte
/// but `)` (on UTF-8 text the matches are those of the Unicode pattern). A
/// match is `](`, at least one byte that is not `)`, and the first `)` after
/// them; `find_iter` gives the leftmost match, then the leftmost one from its
/// end on, and so on (`md_links_from`).
#[verifier::external_body]
pub(crate) fn find_md_links(hay: &[u8]) -> (r: Vec<Span>)
    ensures
        r@ == md_links_from(hay@, 0),
{
    let re = regex::bytes::Regex::new(r"(?-u:(\]\()([^)]+)(\)))").unwrap();
    re.find_iter(hay).map(|m| (m.start(), m.end())).collect()
}

/// Runs `regex::bytes::Regex::is_match` for the remote-address pattern on a
/// link path.
#[verifier::external_body]
pub(crate) fn is_remote(path: &[u8]) -> (r: bool)
    ensures
        r == is_remote_target(path@),
{
    let re = regex::bytes::Regex::new(r"(?i)^(?:[a-z][a-z0-9+.-]*://|mailto:|tel:|#)").unwrap();
    re.is_match(path)
}

} // verus!
