//! now: refresh a `2026-06-11 at 01.50.48 PM` timestamp to the current
//! local time.
use crate::patterns::{has_timestamp, replace_timestamps, timestamp_spans, timestamps_replaced};
use crate::text::{push_slice, push_trimmed, trim};
use vstd::prelude::*;

verus! {

/// `input` with its timestamps replaced by `stamp`, or unchanged without a
/// stamp.
pub open spec fn refreshed_with(input: Seq<u8>, stamp: Option<Seq<u8>>) -> Seq<u8> {
    match stamp {
        Some(s) => if timestamp_spans(input).len() == 0 {
            input
        } else {
            timestamps_replaced(input, s)
        },
        None => input,
    }
}

/// `out` is what `now` may make of `input` when the current time comes from
/// `stamp`: without a timestamp in `input` the text is unchanged (and `stamp`
/// is not asked); otherwise its timestamps are replaced by what `stamp`
/// returned, or left when it returned nothing.
pub open spec fn refreshed_by<S: Fn() -> Option<Vec<u8>>>(stamp: S, input: Seq<u8>, out: Seq<u8>) -> bool {
    if timestamp_spans(input).len() == 0 {
        out == input
    } else {
        exists|r: Option<Vec<u8>>|
            #[trigger] call_ensures(stamp, (), r) && out == refreshed_with(
                input,
                match r {
                    Some(s) => Some(s@),
                    None => None,
                },
            )
    }
}

/// Replaces every timestamp of `input` by `stamp` (as `regex` replaces with a
/// replacement string); without a stamp, `input` is returned unchanged.
pub fn refresh(input: &[u8], stamp: &Option<Vec<u8>>) -> (r: Vec<u8>)
    ensures
        r@ == refreshed_with(
            input@,
            match stamp {
                Some(s) => Some(s@),
                None => None,
            },
        ),
{
    match stamp {
        Some(s) => {
            if has_timestamp(input) {
                replace_timestamps(input, s.as_slice())
            } else {
                let mut same: Vec<u8> = Vec::new();
                push_slice(&mut same, input);
                same
            }
        },
        None => {
            let mut same: Vec<u8> = Vec::new();
            push_slice(&mut same, input);
            same
        },
    }
}

/// Refreshes every timestamp shaped like `date "+%Y-%m-%d at %I.%M.%S %p"`
/// output to the current time that `stamp` gives. `stamp` is asked only when
/// there is a timestamp to refresh; when it gives nothing the text is
/// returned unchanged.
pub fn now<S: Fn() -> Option<Vec<u8>>>(input: &[u8], stamp: &S) -> (r: Vec<u8>)
    requires
        timestamp_spans(input@).len() > 0 ==> call_requires(*stamp, ()),
    ensures
        refreshed_by(*stamp, input@, r@),
{
    if !has_timestamp(input) {
        let mut same: Vec<u8> = Vec::new();
        push_slice(&mut same, input);
        return same;
    }
    let current = stamp();
    let r = refresh(input, &current);
    assert(call_ensures(*stamp, (), current));
    r
}

/// The current time as the `date` command printed it: its output without
/// surrounding whitespace; `None` when the command failed or printed nothing
/// but whitespace.
pub fn stamp_from_output(success: bool, stdout: &[u8]) -> (r: Option<Vec<u8>>)
    ensures
        r matches Some(v) ==> success && v@ == trim(stdout@) && v@.len() > 0,
        r is None ==> !success || trim(stdout@).len() == 0,
{
    if !success {
        return None;
    }
    let mut stamp: Vec<u8> = Vec::new();
    push_trimmed(&mut stamp, stdout, 0, stdout.len());
    assert(stdout@.subrange(0, stdout@.len() as int) =~= stdout@);
    if stamp.len() == 0 {
        None
    } else {
        Some(stamp)
    }
}

} // verus!
