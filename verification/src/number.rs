//! Tidying a number printed with a fixed count of decimals: trailing zeros
//! of the decimals go, and so does a dot left at the end (`0.3750` →
//! `0.375`, `1.00` → `1`); a whole number keeps its zeros (`100`).
use crate::text::push_slice;
use vstd::prelude::*;
use vstd::slice::slice_subrange;

verus! {

/// `t` without the copies of `b` at its end.
pub open spec fn without_trailing(t: Seq<u8>, b: u8) -> Seq<u8>
    decreases t.len(),
{
    if t.len() > 0 && t.last() == b {
        without_trailing(t.drop_last(), b)
    } else {
        t
    }
}

/// A printed number without the trailing zeros of its decimals and then
/// its trailing dots (a number without a `.` keeps its zeros); `0` where
/// nothing, or only `-0`, is left.
pub open spec fn tidied(t: Seq<u8>) -> Seq<u8> {
    let u = if t.contains(0x2eu8) {
        without_trailing(without_trailing(t, 0x30u8), 0x2eu8)
    } else {
        t
    };
    if u.len() == 0 || u == seq![0x2du8, 0x30u8] {
        seq![0x30u8]
    } else {
        u
    }
}

/// Whether `t` holds a `.`.
fn has_dot(t: &[u8]) -> (r: bool)
    ensures
        r == t@.contains(0x2eu8),
{
    let mut k: usize = 0;
    while k < t.len()
        invariant
            k <= t@.len(),
            forall|l: int| 0 <= l < k ==> t@[l] != 0x2eu8,
        decreases t@.len() - k,
    {
        if t[k] == 0x2e {
            assert(t@[k as int] == 0x2eu8);
            return true;
        }
        k = k + 1;
    }
    false
}

/// The length of `t[..end]` without the copies of `b` at its end.
fn trailing_start(t: &[u8], end: usize, b: u8) -> (r: usize)
    requires
        end <= t@.len(),
    ensures
        r <= end,
        t@.subrange(0, r as int) == without_trailing(t@.subrange(0, end as int), b),
{
    let mut n = end;
    while n > 0 && t[n - 1] == b
        invariant
            n <= end <= t@.len(),
            without_trailing(t@.subrange(0, end as int), b) == without_trailing(
                t@.subrange(0, n as int),
                b,
            ),
        decreases n,
    {
        assert(t@.subrange(0, n as int).drop_last() =~= t@.subrange(0, n - 1));
        n = n - 1;
    }
    n
}

/// Tidies a number printed with a fixed count of decimals (see `tidied`):
/// `0.3750` → `0.375`, `100.00` → `100`, `-0.000` → `0`, `100` → `100`.
pub fn tidy_number(t: &[u8]) -> (r: Vec<u8>)
    ensures
        r@ == tidied(t@),
{
    assert(t@.subrange(0, t@.len() as int) =~= t@);
    let dots = if has_dot(t) {
        let zeros = trailing_start(t, t.len(), 0x30);
        let d = trailing_start(t, zeros, 0x2e);
        assert(t@.subrange(0, zeros as int).subrange(0, d as int) =~= t@.subrange(0, d as int));
        d
    } else {
        t.len()
    };
    let ghost u = t@.subrange(0, dots as int);
    let mut r: Vec<u8> = Vec::new();
    if dots == 0 || (dots == 2 && t[0] == 0x2d && t[1] == 0x30) {
        r.push(0x30);
        proof {
            if dots == 2 {
                assert(u =~= seq![0x2du8, 0x30u8]);
            }
        }
        assert(r@ =~= seq![0x30u8]);
    } else {
        push_slice(&mut r, slice_subrange(t, 0, dots));
        proof {
            if u == seq![0x2du8, 0x30u8] {
                assert(u[0] == t@[0] && u[1] == t@[1]);
            }
        }
    }
    r
}

} // verus!
