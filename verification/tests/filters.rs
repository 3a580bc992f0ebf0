use regex::Regex;
use zh::apply::{apply, Conversions};
use zh::helpers::{helpers, Helper};
use zh::hex::{hex2oklch, oklch_text};
use zh::mdlink::mdlink;
use zh::now::now;
use zh::number::tidy_number;
use zh::px::px2rem;
use zh::sort::sort;

// The number formatting that the program does around the library (floating
// point), reproduced here so that the expected texts can be checked.

fn fmt(v: f64, decimals: usize) -> String {
    let printed = format!("{:.*}", decimals, v);
    String::from_utf8(tidy_number(printed.as_bytes())).unwrap()
}

fn rem(px_text: &[u8]) -> Vec<u8> {
    let text = std::str::from_utf8(px_text).unwrap();
    let px: f64 = text.strip_suffix("px").unwrap().parse().unwrap();
    format!("{}rem", fmt(px / 16.0, 4)).into_bytes()
}

fn srgb_to_oklch(r: u8, g: u8, b: u8) -> (f64, f64, f64) {
    fn linearize(c: u8) -> f64 {
        let c = c as f64 / 255.0;
        if c <= 0.04045 {
            c / 12.92
        } else {
            ((c + 0.055) / 1.055).powf(2.4)
        }
    }
    let (r, g, b) = (linearize(r), linearize(g), linearize(b));
    let l = (0.4122214708 * r + 0.5363325363 * g + 0.0514459929 * b).cbrt();
    let m = (0.2119034982 * r + 0.6806995451 * g + 0.1073969566 * b).cbrt();
    let s = (0.0883024619 * r + 0.2817188376 * g + 0.6299787005 * b).cbrt();
    let lightness = 0.2104542553 * l + 0.7936177850 * m - 0.0040720468 * s;
    let a = 1.9779984951 * l - 2.4285922050 * m + 0.4505937099 * s;
    let b2 = 0.0259040371 * l + 0.7827717662 * m - 0.8086757660 * s;
    let chroma = (a * a + b2 * b2).sqrt();
    let mut hue = b2.atan2(a).to_degrees();
    if hue < 0.0 {
        hue += 360.0;
    }
    (lightness, chroma, hue)
}

fn oklch(r: u8, g: u8, b: u8, alpha: Option<u8>) -> Vec<u8> {
    let (l, c, h) = srgb_to_oklch(r, g, b);
    let lightness = fmt(l * 100.0, 2);
    let chroma_hue = if c < 1e-4 { None } else { Some((fmt(c, 4), fmt(h, 2))) };
    let alpha = alpha.map(|a| fmt(a as f64 / 255.0 * 100.0, 1));
    oklch_text(
        lightness.as_bytes(),
        chroma_hue.as_ref().map(|(c, h)| (c.as_bytes(), h.as_bytes())),
        alpha.as_ref().map(|a| a.as_bytes()),
    )
}

fn fixed_stamp() -> Option<Vec<u8>> {
    Some(b"2030-02-03 at 04.05.06 PM".to_vec())
}

fn text(v: Vec<u8>) -> String {
    String::from_utf8(v).unwrap()
}

fn px(input: &str) -> String {
    text(px2rem(input.as_bytes(), &rem).unwrap())
}

fn hex(input: &str) -> String {
    text(hex2oklch(input.as_bytes(), &oklch).unwrap())
}

fn all() -> Vec<Helper> {
    helpers().into_iter().filter(|h| h.in_all()).collect()
}

fn run_all(input: &str) -> String {
    let conv = Conversions { rem, oklch, stamp: fixed_stamp };
    text(apply(&all(), input.as_bytes().to_vec(), &conv).unwrap())
}

// --- px2rem -----------------------------------------------------------

#[test]
fn px_css_declaration_comments_after_semicolon() {
    assert_eq!(px("padding: 16px 8px;"), "padding: 1rem 0.5rem; /* 16px 8px */");
}

#[test]
fn px_tailwind_bracket_has_no_comment() {
    assert_eq!(px("px-[16px]"), "px-[1rem]");
}

#[test]
fn px_bare_value_comments_inline() {
    assert_eq!(px("6px"), "0.375rem /* 6px */");
}

#[test]
fn px_idempotent() {
    let once = px("padding: 16px 8px;");
    assert_eq!(px(&once), once);
}

// --- hex2oklch --------------------------------------------------------

#[test]
fn hex_css_declaration_comments_after_semicolon() {
    assert_eq!(hex("foo: #fff;"), "foo: oklch(100% 0 0); /* #fff */");
}

#[test]
fn hex_tailwind_bracket_uses_underscores_no_comment() {
    assert_eq!(hex("text-[#fff]"), "text-[oklch(100%_0_0)]");
}

#[test]
fn hex_alpha() {
    assert_eq!(hex("#ff000080"), "oklch(62.8% 0.2577 29.23 / 50.2%) /* #ff000080 */");
}

#[test]
fn hex_idempotent() {
    let once = hex("color: #ff0000;");
    assert_eq!(hex(&once), once);
}

// --- composition ------------------------------------------------------

#[test]
fn mixed_declaration_shares_one_comment() {
    let out = hex(&px("border: 1px solid #3b3b3b;"));
    assert_eq!(out, "border: 0.0625rem solid oklch(35.23% 0 0); /* 1px #3b3b3b */");
}

// --- now --------------------------------------------------------------

#[test]
fn now_replaces_the_stamp_only() {
    let stamp = Regex::new(r"^\d{4}-\d{2}-\d{2} at \d{2}\.\d{2}\.\d{2} (?:AM|PM)$").unwrap();
    let out = text(now(b"createdAt: 2026-06-11 at 01.50.48 PM", &fixed_stamp));
    let value = out.strip_prefix("createdAt: ").unwrap();
    assert!(stamp.is_match(value), "got {out:?}");
}

// --- priorities -------------------------------------------------------

#[test]
fn link_targets_belong_to_mdlink() {
    // A screenshot filename holds a date, a "px value" and a "hex color" —
    // none of them may be converted; only mdlink escapes the spaces.
    let line = "![](../Resources/Screenshot 2026-06-11 at 11.44.05 AM 16px #fff.webp)";
    assert_eq!(
        run_all(line),
        "![](../Resources/Screenshot%202026-06-11%20at%2011.44.05%20AM%2016px%20#fff.webp)"
    );
}

#[test]
fn now_still_refreshes_outside_a_link() {
    let out = run_all("updated: 2020-01-01 at 09.00.00 AM ![](a 2026-06-17 at 12.54.47 PM.webp)");
    assert!(!out.contains("2020-01-01"), "outside date refreshed: {out:?}");
    assert!(
        out.contains("![](a%202026-06-17%20at%2012.54.47%20PM.webp)"),
        "link only escaped, date kept: {out:?}"
    );
}

// --- mdlink -----------------------------------------------------------

#[test]
fn mdlink_escapes_local_paths_only() {
    assert_eq!(text(mdlink(b"[doc](my notes.md)")), "[doc](my%20notes.md)");
    assert_eq!(
        text(mdlink(b"[site](https://example.com/a b)")),
        "[site](https://example.com/a b)"
    );
}

#[test]
fn mdlink_idempotent() {
    let once = mdlink(b"[doc](my notes.md)");
    assert_eq!(mdlink(&once), once);
}

// --- sort -------------------------------------------------------------

#[test]
fn sort_orders_lines_and_keeps_trailing_newline() {
    assert_eq!(text(sort(b"banana\napple\ncherry")), "apple\nbanana\ncherry");
    assert_eq!(text(sort(b"b\na\n")), "a\nb\n");
}
