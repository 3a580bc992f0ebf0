//! hex → oklch: `color: #fff;` → `color: oklch(100% 0 0); /* #fff */`.
use crate::css::opt_view;
use crate::patterns::is_hex_digit;
use crate::text::{push_slice, split_lines};
use crate::values::{convert_values, lines_converted_by, value_text_ok, ValueKind};
use vstd::prelude::*;

verus! {

/// The value of an ASCII hex digit.
pub open spec fn hex_digit_value(b: u8) -> int {
    if 0x30u8 <= b && b <= 0x39u8 {
        b - 0x30
    } else if 0x41u8 <= b && b <= 0x46u8 {
        b - 0x41 + 10
    } else {
        b - 0x61 + 10
    }
}

/// The digits of a color in six- or eight-digit form: three or four digits
/// are each doubled (`fff` → `ffffff`).
pub open spec fn expanded(hex: Seq<u8>) -> Seq<u8> {
    if hex.len() == 3 || hex.len() == 4 {
        Seq::new(2 * hex.len(), |i: int| hex[i / 2])
    } else {
        hex
    }
}

/// What base-16 `u8::from_str_radix` gives for the two bytes `x y`: an
/// optional `+` sign and then hex digits; `None` for anything else.
pub open spec fn pair_value(x: u8, y: u8) -> Option<u8> {
    if is_hex_digit(x) && is_hex_digit(y) {
        Some((16 * hex_digit_value(x) + hex_digit_value(y)) as u8)
    } else if x == 0x2bu8 && is_hex_digit(y) {
        Some(hex_digit_value(y) as u8)
    } else {
        None
    }
}

/// The red, green and blue bytes and the optional alpha byte that the digits
/// of a hex color give, each read from two digits of its expanded form;
/// `None` unless there are 3, 4, 6 or 8 of them and each pair reads as a
/// byte.
pub open spec fn hex_rgba(hex: Seq<u8>) -> Option<(u8, u8, u8, Option<u8>)> {
    if hex.len() == 3 || hex.len() == 4 || hex.len() == 6 || hex.len() == 8 {
        let e = expanded(hex);
        let r = pair_value(e[0], e[1]);
        let g = pair_value(e[2], e[3]);
        let b = pair_value(e[4], e[5]);
        let a = if e.len() == 8 {
            pair_value(e[6], e[7])
        } else {
            Some(0u8)
        };
        if r is Some && g is Some && b is Some && a is Some {
            Some(
                (
                    r.unwrap(),
                    g.unwrap(),
                    b.unwrap(),
                    if e.len() == 8 {
                        Some(a.unwrap())
                    } else {
                        None
                    },
                ),
            )
        } else {
            None
        }
    } else {
        None
    }
}

fn digit_value(b: u8) -> (r: u8)
    requires
        is_hex_digit(b),
    ensures
        r as int == hex_digit_value(b),
        r < 16,
{
    if b <= 0x39 {
        b - 0x30
    } else if b <= 0x46 {
        b - 0x41 + 10
    } else {
        b - 0x61 + 10
    }
}

fn hex_digit(b: u8) -> (r: bool)
    ensures
        r == is_hex_digit(b),
{
    (0x30 <= b && b <= 0x39) || (0x41 <= b && b <= 0x46) || (0x61 <= b && b <= 0x66)
}

/// Reads the two bytes `x y` as a base-16 byte (see `pair_value`).
fn pair(x: u8, y: u8) -> (r: Option<u8>)
    ensures
        r == pair_value(x, y),
{
    if hex_digit(x) && hex_digit(y) {
        Some(digit_value(x) * 16 + digit_value(y))
    } else if x == 0x2b && hex_digit(y) {
        Some(digit_value(y))
    } else {
        None
    }
}

/// Reads the digits of a hex color (after its `#`): red, green and blue,
/// and alpha for eight (or four) digits; `None` for a digit count other than
/// 3, 4, 6 or 8, or for a pair that does not read as a byte.
pub fn parse_hex(hex: &[u8]) -> (r: Option<(u8, u8, u8, Option<u8>)>)
    ensures
        r == hex_rgba(hex@),
{
    let n = hex.len();
    if n != 3 && n != 4 && n != 6 && n != 8 {
        return None;
    }
    let ghost e = expanded(hex@);
    let (r, g, b, a) = if n == 3 || n == 4 {
        assert(e[0] == hex@[0] && e[1] == hex@[0] && e[2] == hex@[1] && e[3] == hex@[1]);
        assert(e[4] == hex@[2] && e[5] == hex@[2]);
        assert(n == 4 ==> e[6] == hex@[3] && e[7] == hex@[3]);
        (
            pair(hex[0], hex[0]),
            pair(hex[1], hex[1]),
            pair(hex[2], hex[2]),
            if n == 4 {
                pair(hex[3], hex[3])
            } else {
                Some(0)
            },
        )
    } else {
        (
            pair(hex[0], hex[1]),
            pair(hex[2], hex[3]),
            pair(hex[4], hex[5]),
            if n == 8 {
                pair(hex[6], hex[7])
            } else {
                Some(0)
            },
        )
    };
    match (r, g, b, a) {
        (Some(r), Some(g), Some(b), Some(a)) => Some(
            (
                r,
                g,
                b,
                if n == 8 || n == 4 {
                    Some(a)
                } else {
                    None
                },
            ),
        ),
        _ => None,
    }
}

/// `c` is a conversion that `oklch` may give for the hex color text `t`
/// (`#` and its digits): `None` when the digits make no color, else what
/// `oklch` returns for the color's bytes.
pub open spec fn oklch_conversion<O: Fn(u8, u8, u8, Option<u8>) -> Vec<u8>>(oklch: O) -> spec_fn(Seq<u8>, Option<Seq<u8>>) -> bool {
    |t: Seq<u8>, c: Option<Seq<u8>>|
        match hex_rgba(t.subrange(1, t.len() as int)) {
            None => c is None,
            Some(rgba) => exists|v: Vec<u8>|
                #[trigger] call_ensures(oklch, (rgba.0, rgba.1, rgba.2, rgba.3), v) && c == Some(v@),
        }
}

/// Replaces every hex color outside comments with its oklch form, line by
/// line; `oklch` gives the oklch text for red, green, blue and an optional
/// alpha byte. Colors of 5 or 7 digits are left as they are. The originals,
/// lower-cased, are echoed in a comment after the declaration's `;`, or at
/// the end of the line; inside `[…]` no comment is added and spaces become
/// `_`.
/// `None` where a line ends in a bare `/*/` while originals are to be echoed.
pub fn hex2oklch<O: Fn(u8, u8, u8, Option<u8>) -> Vec<u8>>(input: &[u8], oklch: &O) -> (r: Option<Vec<u8>>)
    requires
        forall|r: u8, g: u8, b: u8, a: Option<u8>| call_requires(*oklch, (r, g, b, a)),
    ensures
        lines_converted_by(ValueKind::Hex, oklch_conversion(*oklch), split_lines(input@), opt_view(r)),
{
    let convert = |t: &[u8]| -> (c: Option<Vec<u8>>)
        requires
            value_text_ok(ValueKind::Hex, t@),
        ensures
            match hex_rgba(t@.subrange(1, t@.len() as int)) {
                None => c is None,
                Some(rgba) => exists|v: Vec<u8>|
                    call_ensures(*oklch, (rgba.0, rgba.1, rgba.2, rgba.3), v) && c == Some(v),
            },
        {
            let digits = vstd::slice::slice_subrange(t, 1, t.len());
            match parse_hex(digits) {
                Some((r, g, b, a)) => Some(oklch(r, g, b, a)),
                None => None,
            }
        };
    let ghost ok = oklch_conversion(*oklch);
    assert forall|a: &[u8], c: Option<Vec<u8>>| call_ensures(convert, (a,), c) implies ok(
        a@,
        opt_view(c),
    ) by {
        match hex_rgba(a@.subrange(1, a@.len() as int)) {
            None => {},
            Some(rgba) => {
                let v = choose|v: Vec<u8>|
                    call_ensures(*oklch, (rgba.0, rgba.1, rgba.2, rgba.3), v) && c == Some(v);
                assert(call_ensures(*oklch, (rgba.0, rgba.1, rgba.2, rgba.3), v));
            },
        }
    }
    convert_values(input, ValueKind::Hex, &convert, Ghost(ok))
}

/// The text `oklch(L% C H)`, or `oklch(L% C H / A%)` with an alpha: `l` is
/// the lightness in percent, `ch` the chroma and the hue (`None` for an
/// achromatic color, written `0 0`), `alpha` the opacity in percent.
pub open spec fn oklch_layout(l: Seq<u8>, ch: Option<(Seq<u8>, Seq<u8>)>, alpha: Option<Seq<u8>>) -> Seq<u8> {
    let (c, h) = match ch {
        Some(p) => p,
        None => (seq![0x30u8], seq![0x30u8]),
    };
    seq![0x6fu8, 0x6bu8, 0x6cu8, 0x63u8, 0x68u8, 0x28u8] + l + seq![0x25u8, 0x20u8] + c + seq![0x20u8]
        + h + match alpha {
        Some(a) => seq![0x20u8, 0x2fu8, 0x20u8] + a + seq![0x25u8, 0x29u8],
        None => seq![0x29u8],
    }
}

/// The alpha of an oklch text does not depend on the chroma and hue: with
/// an alpha `a` the text is the one without alpha, its `)` replaced by
/// ` / a%)`; an achromatic color is laid out as chroma `0` and hue `0`;
/// and the text starts `oklch(` with the lightness and `% `.
pub proof fn law_oklch_layout(l: Seq<u8>, ch: Option<(Seq<u8>, Seq<u8>)>, a: Seq<u8>)
    ensures
        oklch_layout(l, ch, Some(a)) == oklch_layout(l, ch, None).drop_last() + seq![0x20u8, 0x2fu8, 0x20u8]
            + a + seq![0x25u8, 0x29u8],
        oklch_layout(l, ch, None).last() == 0x29u8,
        oklch_layout(l, None, Some(a)) == oklch_layout(l, Some((seq![0x30u8], seq![0x30u8])), Some(a)),
        oklch_layout(l, None, None) == oklch_layout(l, Some((seq![0x30u8], seq![0x30u8])), None),
        oklch_layout(l, ch, None).subrange(0, 8 + l.len() as int) == seq![0x6fu8, 0x6bu8, 0x6cu8, 0x63u8, 0x68u8, 0x28u8]
            + l + seq![0x25u8, 0x20u8],
{
    let (c, h) = match ch {
        Some(p) => p,
        None => (seq![0x30u8], seq![0x30u8]),
    };
    let head = seq![0x6fu8, 0x6bu8, 0x6cu8, 0x63u8, 0x68u8, 0x28u8] + l + seq![0x25u8, 0x20u8] + c + seq![0x20u8] + h;
    assert(oklch_layout(l, ch, None) == head + seq![0x29u8]);
    assert((head + seq![0x29u8]).drop_last() =~= head);
    assert(oklch_layout(l, ch, Some(a)) =~= head + seq![0x20u8, 0x2fu8, 0x20u8] + a + seq![0x25u8, 0x29u8]);
    assert(oklch_layout(l, ch, None).subrange(0, 8 + l.len() as int) =~= seq![0x6fu8, 0x6bu8, 0x6cu8, 0x63u8, 0x68u8, 0x28u8]
        + l + seq![0x25u8, 0x20u8]);
}

/// Lays out an oklch color from its printed numbers (see `oklch_layout`).
pub fn oklch_text(l: &[u8], ch: Option<(&[u8], &[u8])>, alpha: Option<&[u8]>) -> (r: Vec<u8>)
    ensures
        r@ == oklch_layout(
            l@,
            match ch {
                Some(p) => Some((p.0@, p.1@)),
                None => None,
            },
            match alpha {
                Some(a) => Some(a@),
                None => None,
            },
        ),
{
    let mut r: Vec<u8> = Vec::new();
    r.push(0x6f);
    r.push(0x6b);
    r.push(0x6c);
    r.push(0x63);
    r.push(0x68);
    r.push(0x28);
    push_slice(&mut r, l);
    r.push(0x25);
    r.push(0x20);
    match ch {
        Some((c, h)) => {
            push_slice(&mut r, c);
            r.push(0x20);
            push_slice(&mut r, h);
        },
        None => {
            r.push(0x30);
            r.push(0x20);
            r.push(0x30);
        },
    }
    match alpha {
        Some(a) => {
            r.push(0x20);
            r.push(0x2f);
            r.push(0x20);
            push_slice(&mut r, a);
            r.push(0x25);
            r.push(0x29);
        },
        None => {
            r.push(0x29);
        },
    }
    assert(r@ =~= oklch_layout(
        l@,
        match ch {
            Some(p) => Some((p.0@, p.1@)),
            None => None,
        },
        match alpha {
            Some(a) => Some(a@),
            None => None,
        },
    ));
    r
}

} // verus!
