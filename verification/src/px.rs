//! px → rem: `padding: 16px 8px;` → `padding: 1rem 0.5rem; /* 16px 8px */`.
use crate::css::opt_view;
use crate::text::split_lines;
use crate::values::{convert_values, lines_converted_by, ValueKind};
use vstd::prelude::*;

verus! {

/// `c` is a conversion that `rem` may give for the px value `t`: `rem`,
/// called on the matched text, returns it.
pub open spec fn rem_conversion<R: Fn(&[u8]) -> Vec<u8>>(rem: R) -> spec_fn(Seq<u8>, Option<Seq<u8>>) -> bool {
    |t: Seq<u8>, c: Option<Seq<u8>>|
        exists|a: &[u8], v: Vec<u8>| a@ == t && #[trigger] call_ensures(rem, (a,), v) && c == Some(v@)
}

/// Replaces every px length outside comments with its rem value, line by
/// line; `rem` gives the rem text of a matched px text such as `16px`. The
/// originals are echoed in a comment after the declaration's `;`, or at the
/// end of the line; inside `[…]` no comment is added.
/// `None` where a line ends in a bare `/*/` while originals are to be echoed.
pub fn px2rem<R: Fn(&[u8]) -> Vec<u8>>(input: &[u8], rem: &R) -> (r: Option<Vec<u8>>)
    requires
        forall|a: &[u8]| call_requires(*rem, (a,)),
    ensures
        lines_converted_by(ValueKind::Px, rem_conversion(*rem), split_lines(input@), opt_view(r)),
{
    let convert = |t: &[u8]| -> (c: Option<Vec<u8>>)
        ensures
            exists|v: Vec<u8>| call_ensures(*rem, (t,), v) && c == Some(v),
        { Some(rem(t)) };
    let ghost ok = rem_conversion(*rem);
    assert forall|a: &[u8], c: Option<Vec<u8>>| call_ensures(convert, (a,), c) implies ok(
        a@,
        opt_view(c),
    ) by {
        let v = choose|v: Vec<u8>| call_ensures(*rem, (a,), v) && c == Some(v);
        assert(call_ensures(*rem, (a,), v));
    }
    convert_values(input, ValueKind::Px, &convert, Ghost(ok))
}

} // verus!
