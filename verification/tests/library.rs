use zh::apply::{apply, Conversions};
use zh::css::convert_line;
use zh::helpers::{helpers, list_entry, select, wants_list, Helper};
use zh::hex::{hex2oklch, oklch_text, parse_hex};
use zh::mdlink::{mdlink, rewrite_links};
use zh::now::{now, refresh, stamp_from_output};
use zh::number::tidy_number;
use zh::px::px2rem;
use zh::sort::sort;
use zh::text::is_within;

// Conversions that show plainly what they were given.

fn rem_tag(t: &[u8]) -> Vec<u8> {
    let mut v = b"<".to_vec();
    v.extend_from_slice(t);
    v.push(b'>');
    v
}

fn rgb_tag(r: u8, g: u8, b: u8, a: Option<u8>) -> Vec<u8> {
    match a {
        Some(a) => format!("rgba({},{},{},{})", r, g, b, a).into_bytes(),
        None => format!("rgb({},{},{})", r, g, b).into_bytes(),
    }
}

fn no_stamp() -> Option<Vec<u8>> {
    None
}

fn stamp_x() -> Option<Vec<u8>> {
    Some(b"X".to_vec())
}

fn never_asked() -> Option<Vec<u8>> {
    panic!("the clock was asked although there was no timestamp")
}

fn s(v: Vec<u8>) -> String {
    String::from_utf8(v).unwrap()
}

fn px(input: &str) -> Option<String> {
    px2rem(input.as_bytes(), &rem_tag).map(s)
}

fn hex(input: &str) -> Option<String> {
    hex2oklch(input.as_bytes(), &rgb_tag).map(s)
}

fn args(list: &[&str]) -> Vec<String> {
    list.iter().map(|a| a.to_string()).collect()
}

// --- the value engine ---------------------------------------------------

#[test]
fn values_already_in_a_comment_stay() {
    let line = "margin: 1rem; /* 16px */";
    assert_eq!(px(line).unwrap(), line);
    let colored = "color: rgb(255,0,0); /* #ff0000 */\nbg: x; /* #fff */\n";
    assert_eq!(hex(colored).unwrap(), colored);
}

#[test]
fn px_conversion_is_asked_for_each_value() {
    assert_eq!(px("padding: 16px -2.5px;").unwrap(), "padding: <16px> <-2.5px>; /* 16px -2.5px */");
}

#[test]
fn echo_merges_into_a_comment_after_the_semicolon() {
    assert_eq!(px("margin: 6px;  /* keep */").unwrap(), "margin: <6px>;  /* keep 6px */");
}

#[test]
fn echo_merges_into_a_trailing_comment() {
    assert_eq!(px("6px /* a */").unwrap(), "<6px> /* a 6px */");
}

#[test]
fn each_declaration_gets_its_own_comment() {
    assert_eq!(
        px("a: 1px; b: 2px;").unwrap(),
        "a: <1px>; /* 1px */ b: <2px>; /* 2px */"
    );
}

#[test]
fn lines_are_converted_one_by_one() {
    assert_eq!(px("a: 1px;\n2px\n").unwrap(), "a: <1px>; /* 1px */\n<2px> /* 2px */\n");
}

#[test]
fn semicolon_in_brackets_does_not_close_a_declaration() {
    assert_eq!(px("a: 1px [x;y];").unwrap(), "a: <1px> [x;y]; /* 1px */");
    assert_eq!(px("w-[1px;2px] 3px").unwrap(), "w-[<1px>;<2px>] <3px> /* 3px */");
}

#[test]
fn bare_comment_marker_at_line_end_is_refused() {
    assert_eq!(px("6px /*/"), None);
    assert_eq!(px("a: 1px;\n6px /*/\n"), None);
    // nothing pending: the line is left as it is
    assert_eq!(px("a /*/").unwrap(), "a /*/");
}

#[test]
fn hex_echo_is_lowercased() {
    assert_eq!(hex("color: #FF0000;").unwrap(), "color: rgb(255,0,0); /* #ff0000 */");
    assert_eq!(hex("#AbC").unwrap(), "rgb(170,187,204) /* #abc */");
}

#[test]
fn hex_digit_counts() {
    assert_eq!(hex("#abc").unwrap(), "rgb(170,187,204) /* #abc */");
    assert_eq!(hex("#abcd").unwrap(), "rgba(170,187,204,221) /* #abcd */");
    assert_eq!(hex("#102030").unwrap(), "rgb(16,32,48) /* #102030 */");
    assert_eq!(hex("#10203040").unwrap(), "rgba(16,32,48,64) /* #10203040 */");
    // five and seven digits make no color: left as they are
    assert_eq!(hex("#12345").unwrap(), "#12345");
    assert_eq!(hex("#1234567").unwrap(), "#1234567");
}

#[test]
fn hex_in_brackets_gets_underscores() {
    let spaced = |_r: u8, _g: u8, _b: u8, _a: Option<u8>| b"c 1 2".to_vec();
    assert_eq!(s(hex2oklch(b"bg-[#fff]", &spaced).unwrap()), "bg-[c_1_2]");
}

#[test]
fn convert_line_with_given_matches() {
    let out = convert_line(b"a: 1px;\n", &[], &[], &[(3, 6)], &[Some(b"R".to_vec())], false);
    assert_eq!(s(out.unwrap()), "a: R; /* 1px */\n");
    let lowered = convert_line(b"c: #FA0", &[], &[], &[(3, 7)], &[Some(b"K".to_vec())], true);
    assert_eq!(s(lowered.unwrap()), "c: K /* #fa0 */");
}

#[test]
fn convert_line_leaves_values_without_conversion() {
    let out = convert_line(b"a: 1px;", &[], &[], &[(3, 6)], &[None], false);
    assert_eq!(s(out.unwrap()), "a: 1px;");
}

#[test]
fn convert_line_skips_values_in_comments() {
    let out = convert_line(b"/* 1px */", &[(0, 9)], &[], &[(3, 6)], &[Some(b"R".to_vec())], false);
    assert_eq!(s(out.unwrap()), "/* 1px */");
}

#[test]
fn is_within_checks_cover() {
    assert!(is_within(&[(2, 8)], 3, 5));
    assert!(!is_within(&[(2, 8)], 1, 5));
    assert!(!is_within(&[], 0, 0));
}

// --- now ----------------------------------------------------------------

#[test]
fn now_without_timestamp_does_not_ask_the_clock() {
    assert_eq!(s(now(b"nothing to do here", &never_asked)), "nothing to do here");
}

#[test]
fn now_without_a_clock_keeps_the_text() {
    let t = "at 2026-06-11 at 01.50.48 PM";
    assert_eq!(s(now(t.as_bytes(), &no_stamp)), t);
}

#[test]
fn now_replaces_every_timestamp() {
    let t = "a 2026-06-11 at 01.50.48 PM b 2026-06-12 at 02.00.00 AM c";
    assert_eq!(s(now(t.as_bytes(), &stamp_x)), "a X b X c");
}

#[test]
fn refresh_with_and_without_stamp() {
    let t = b"due 2026-06-11 at 01.50.48 PM";
    assert_eq!(s(refresh(t, &Some(b"Y".to_vec()))), "due Y");
    assert_eq!(s(refresh(t, &None)), "due 2026-06-11 at 01.50.48 PM");
    assert_eq!(s(refresh(b"2026-06-11 01.50.48", &Some(b"Y".to_vec()))), "2026-06-11 01.50.48");
}

// --- mdlink -------------------------------------------------------------

#[test]
fn mdlink_leaves_addresses_alone() {
    for t in ["[m](mailto:a b@c)", "[t](tel:+1 555)", "[h](#some anchor)", "[f](FTP://x y)"] {
        assert_eq!(s(mdlink(t.as_bytes())), t);
    }
}

#[test]
fn mdlink_escapes_narrow_no_break_space() {
    assert_eq!(
        s(mdlink("[shot](Screenshot 12.54.47\u{202F}PM.webp)".as_bytes())),
        "[shot](Screenshot%2012.54.47%E2%80%AFPM.webp)"
    );
}

#[test]
fn mdlink_escaping_twice_is_escaping_once() {
    let once = mdlink("[a](x y\u{202F}z) and [b](c d)".as_bytes());
    assert_eq!(s(once.clone()), "[a](x%20y%E2%80%AFz) and [b](c%20d)");
    assert_eq!(mdlink(&once), once);
}

#[test]
fn mdlink_needs_a_path() {
    assert_eq!(s(mdlink(b"[a]() b")), "[a]() b");
}

#[test]
fn rewrite_links_with_given_targets() {
    assert_eq!(s(rewrite_links(b"x](a b)y", &[(1, 7)])), "x](a%20b)y");
    assert_eq!(s(rewrite_links(b"x](a b)y", &[])), "x](a b)y");
}

// --- sort ---------------------------------------------------------------

#[test]
fn sort_twice_is_sort_once() {
    let once = sort(b"pear\napple\nfig\n");
    assert_eq!(s(once.clone()), "apple\nfig\npear\n");
    assert_eq!(sort(&once), once);
}

#[test]
fn sort_single_line_is_unchanged() {
    assert_eq!(s(sort(b"only\n")), "only\n");
    assert_eq!(s(sort(b"only")), "only");
    assert_eq!(s(sort(b"")), "");
    // a `\r\n` break comes back as `\n`
    assert_eq!(s(sort(b"a\r\n")), "a\n");
}

#[test]
fn sort_reads_crlf_breaks() {
    assert_eq!(s(sort(b"b\r\na\r\n")), "a\nb\n");
}

#[test]
fn sort_keeps_a_trailing_carriage_return_of_the_last_line() {
    let once = sort(b"b\na\r");
    assert_eq!(s(once.clone()), "a\r\nb");
    // the second sort reads `a\r\n` as a `\r\n` break
    assert_eq!(s(sort(&once)), "a\nb");
}

#[test]
fn sort_is_by_bytes() {
    assert_eq!(s(sort(b"b\nB\na\n\nab\n")), "\nB\na\nab\nb\n");
}

// --- helpers and arguments ------------------------------------------------

#[test]
fn bare_run_skips_sort() {
    assert_eq!(
        select(&[]),
        vec![Helper::Px2rem, Helper::Hex2oklch, Helper::Now, Helper::Mdlink]
    );
}

#[test]
fn arguments_choose_helpers_in_their_order() {
    assert_eq!(
        select(&args(&["asc", "nope", "px", "links", "hex2oklch"])),
        vec![Helper::Sort, Helper::Px2rem, Helper::Mdlink, Helper::Hex2oklch]
    );
    assert_eq!(select(&args(&["nope"])), vec![]);
}

#[test]
fn list_flags() {
    assert!(wants_list(&args(&["px", "-l"])));
    assert!(wants_list(&args(&["--help"])));
    assert!(wants_list(&args(&["--list", "hex"])));
    assert!(!wants_list(&args(&["px", "--lis"])));
    assert!(!wants_list(&[]));
}

#[test]
fn list_entries() {
    assert_eq!(
        list_entry(Helper::Px2rem),
        "px2rem       (px, rem)  padding: 16px 8px; -> padding: 1rem 0.5rem; /* 16px 8px */"
    );
    assert_eq!(
        list_entry(Helper::Sort),
        "sort         (asc)  sort the selected lines alphabetically (opt-in; visual mode)"
    );
    assert_eq!(
        list_entry(Helper::Hex2oklch),
        "hex2oklch    (hex, oklch)  color: #fff; -> color: oklch(100% 0 0); /* #fff */"
    );
}

#[test]
fn helper_table() {
    let all = helpers();
    let names: Vec<&str> = all.iter().map(|h| h.name()).collect();
    assert_eq!(names, vec!["px2rem", "hex2oklch", "now", "mdlink", "sort"]);
    assert_eq!(Helper::Now.aliases(), vec!["date", "time"]);
    assert_eq!(Helper::Now.about(), "2026-06-11 at 01.50.48 PM -> current local time");
    assert!(!Helper::Sort.in_all());
    assert!(Helper::Mdlink.in_all());
    assert!(Helper::Sort.sees_link_targets());
    assert!(Helper::Mdlink.sees_link_targets());
    assert!(!Helper::Hex2oklch.sees_link_targets());
}

// --- apply ----------------------------------------------------------------

fn conv() -> Conversions<fn(&[u8]) -> Vec<u8>, fn(u8, u8, u8, Option<u8>) -> Vec<u8>, fn() -> Option<Vec<u8>>> {
    Conversions { rem: rem_tag, oklch: rgb_tag, stamp: stamp_x }
}

#[test]
fn apply_runs_helpers_in_turn() {
    let out = apply(&[Helper::Px2rem, Helper::Hex2oklch], b"border: 1px solid #3B3B3B;".to_vec(), &conv());
    assert_eq!(s(out.unwrap()), "border: <1px> solid rgb(59,59,59); /* 1px #3b3b3b */");
}

#[test]
fn apply_sort_sees_whole_lines() {
    let out = apply(&[Helper::Sort], b"b](x)\na\n".to_vec(), &conv());
    assert_eq!(s(out.unwrap()), "a\nb](x)\n");
}

#[test]
fn apply_keeps_link_targets_from_value_helpers() {
    let out = apply(&[Helper::Px2rem, Helper::Now], b"1px [a](2px 2026-06-11 at 01.50.48 PM) 3px".to_vec(), &conv());
    assert_eq!(
        s(out.unwrap()),
        "<1px> [a /* 1px */](2px 2026-06-11 at 01.50.48 PM) <3px> /* 3px */"
    );
}

#[test]
fn apply_refuses_what_a_helper_refuses() {
    assert_eq!(apply(&[Helper::Px2rem], b"6px /*/".to_vec(), &conv()), None);
    assert_eq!(apply(&[], b"6px /*/".to_vec(), &conv()).map(s), Some("6px /*/".to_string()));
}

// --- numbers and the clock's output -----------------------------------------

fn tidy(t: &str) -> String {
    s(tidy_number(t.as_bytes()))
}

#[test]
fn numbers_lose_trailing_zeros() {
    assert_eq!(tidy("0.3750"), "0.375");
    assert_eq!(tidy("100.00"), "100");
    assert_eq!(tidy("62.80"), "62.8");
    assert_eq!(tidy("0.0000"), "0");
    assert_eq!(tidy("-0.000"), "0");
    assert_eq!(tidy("-1.50"), "-1.5");
    assert_eq!(tidy("12"), "12");
    // a whole number keeps its zeros
    assert_eq!(tidy("100"), "100");
    assert_eq!(tidy("-0"), "0");
    assert_eq!(tidy(""), "0");
}

#[test]
fn clock_output_is_trimmed() {
    assert_eq!(
        stamp_from_output(true, b"2026-06-11 at 01.50.48 PM\n").map(s),
        Some("2026-06-11 at 01.50.48 PM".to_string())
    );
    assert_eq!(stamp_from_output(true, b" \n"), None);
    assert_eq!(stamp_from_output(false, b"2026-06-11 at 01.50.48 PM\n"), None);
}

#[test]
fn oklch_layouts() {
    assert_eq!(s(oklch_text(b"62.8", Some((b"0.2577", b"29.23")), None)), "oklch(62.8% 0.2577 29.23)");
    assert_eq!(s(oklch_text(b"100", None, None)), "oklch(100% 0 0)");
    assert_eq!(
        s(oklch_text(b"62.8", Some((b"0.2577", b"29.23")), Some(b"50.2"))),
        "oklch(62.8% 0.2577 29.23 / 50.2%)"
    );
}

#[test]
fn parse_hex_reads_pairs() {
    assert_eq!(parse_hex(b"fff"), Some((255, 255, 255, None)));
    assert_eq!(parse_hex(b"A0b1"), Some((0xaa, 0x00, 0xbb, Some(0x11))));
    assert_eq!(parse_hex(b"10203040"), Some((16, 32, 48, Some(64))));
    // a leading `+` in a pair reads as a sign, as `u8::from_str_radix` does
    assert_eq!(parse_hex(b"+f0000"), Some((15, 0, 0, None)));
}

#[test]
fn parse_hex_refuses_what_is_no_color() {
    assert_eq!(parse_hex(b"zz"), None);
    assert_eq!(parse_hex(b"zzz"), None);
    assert_eq!(parse_hex(b"12345"), None);
    assert_eq!(parse_hex(b"-f0000"), None);
    assert_eq!(parse_hex(b"ff00g0"), None);
    assert_eq!(parse_hex(b""), None);
}

#[test]
fn sort_keeps_the_newlines() {
    for t in ["b\na\n", "b\na", "b\r\na\r\n", "\n\n", "x"] {
        let out = s(sort(t.as_bytes()));
        assert_eq!(out.matches('\n').count(), t.matches('\n').count(), "{t:?}");
    }
}

#[test]
fn conversion_goes_line_by_line() {
    let a = "a: 1px;\n";
    let b = "b: #fff; 2px\n";
    let whole = px(&format!("{a}{b}")).unwrap();
    assert_eq!(whole, format!("{}{}", px(a).unwrap(), px(b).unwrap()));
}

#[test]
fn apply_composes() {
    let input = b"1px #FFF 2026-06-11 at 01.50.48 PM [l](a b)\n".to_vec();
    let both = apply(&[Helper::Px2rem, Helper::Hex2oklch, Helper::Now, Helper::Mdlink], input.clone(), &conv()).unwrap();
    let first = apply(&[Helper::Px2rem, Helper::Hex2oklch], input, &conv()).unwrap();
    let then = apply(&[Helper::Now, Helper::Mdlink], first, &conv()).unwrap();
    assert_eq!(both, then);
    assert_eq!(apply(&[], b"same".to_vec(), &conv()).unwrap(), b"same".to_vec());
}

#[test]
fn mdlink_twice_is_mdlink_once_on_whole_texts() {
    for t in [
        "[a](x y) and [b](#a b) and [c](mailto:q r)\n",
        "](a b](c d) e)",
        "[a]() ](x y)",
        "[a](b (c) d)",
        "]( no close here",
        "[k](\u{212A}x://a b) [n](note\u{202F}1.md)",
    ] {
        let once = mdlink(t.as_bytes());
        assert_eq!(mdlink(&once), once, "{t:?}");
    }
    assert_eq!(s(mdlink(b"](a b](c d) e)")), "](a%20b](c%20d) e)");
}
