//! Rendering a duration in milliseconds for human display.

use vstd::prelude::*;
use vstd::string::*;

use crate::digits::{dec_rep, digit_char, push_dec_u128};
use crate::text::push_char;

verus! {

/// A two-digit, zero-padded rendering of a value below one hundred.
pub open spec fn dec_rep2(n: int) -> Seq<char> {
    seq![digit_char(n / 10), digit_char(n % 10)]
}

/// How a duration is displayed: bare milliseconds below one second,
/// seconds with two decimal places below one minute, and minutes and
/// seconds from there on. The two decimal places are the milliseconds
/// rounded to the nearest hundredth of a second, with halves rounded up,
/// so a value just below one minute shows as `60.00s`.
pub open spec fn spec_format_duration(ms: int) -> Seq<char> {
    if ms < 1000 {
        dec_rep(ms) + "ms"@
    } else if ms < 60000 {
        let cs = (ms + 5) / 10;
        dec_rep(cs / 100) + seq!['.'] + dec_rep2(cs % 100) + "s"@
    } else {
        let secs = ms / 1000;
        dec_rep(secs / 60) + "m "@ + dec_rep(secs % 60) + "s"@
    }
}

/// Renders a duration in milliseconds for display.
pub fn format_duration(ms: u128) -> (r: String)
    ensures
        r@ == spec_format_duration(ms as int),
{
    let mut out = String::new();
    if ms < 1000 {
        push_dec_u128(&mut out, ms);
        out.append("ms");
        assert(out@ =~= spec_format_duration(ms as int));
    } else if ms < 60000 {
        let cs = (ms + 5) / 10;
        push_dec_u128(&mut out, cs / 100);
        push_char(&mut out, '.');
        push_char(&mut out, crate::digits::digit_to_char(((cs % 100) / 10) as u8));
        push_char(&mut out, crate::digits::digit_to_char((cs % 10) as u8));
        out.append("s");
        proof {
            assert((cs % 100) % 10 == cs % 10);
            assert(out@ =~= spec_format_duration(ms as int));
        }
    } else {
        let secs = ms / 1000;
        push_dec_u128(&mut out, secs / 60);
        out.append("m ");
        push_dec_u128(&mut out, secs % 60);
        out.append("s");
        assert(out@ =~= spec_format_duration(ms as int));
    }
    out
}

} // verus!
