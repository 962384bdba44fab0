//! Epoch timestamps: the clock reading rendered as seconds and exactly
//! six digits of microseconds, e.g. `1700000000.000042`.

use vstd::prelude::*;

use std::time::{SystemTime, UNIX_EPOCH};

use crate::bytes::{push_all, sub_vec};
use crate::render::{dec_u, push_dec};

verus! {

/// `m` (< 1000000) zero-padded to six digits: the digits of `1000000 + m`
/// with the leading `1` dropped.
pub open spec fn pad6(m: int) -> Seq<u8> {
    dec_u(1000000 + m).skip(1)
}

/// `<seconds>.<six digits of microseconds>`.
pub open spec fn epoch_text(secs: int, micros: int) -> Seq<u8> {
    dec_u(secs) + seq![46u8] + pad6(micros)
}

/// ASCII bytes read as characters, one for one.
pub open spec fn ascii_chars(s: Seq<u8>) -> Seq<char> {
    Seq::new(s.len(), |i: int| s[i] as char)
}

proof fn lemma_dec_u_digits(n: int)
    requires
        0 <= n,
    ensures
        forall|i: int| 0 <= i < dec_u(n).len() ==> 48 <= #[trigger] dec_u(n)[i] <= 57,
    decreases n,
{
    if n > 9 {
        assert(n / 10 < n) by (nonlinear_arith)
            requires
                n >= 10,
        ;
        assert(n / 10 >= 0) by (nonlinear_arith)
            requires
                n >= 10,
        ;
        lemma_dec_u_digits(n / 10);
        assert forall|i: int| 0 <= i < dec_u(n).len() implies 48 <= #[trigger] dec_u(n)[i]
            <= 57 by {
            if i < dec_u(n / 10).len() {
                assert(dec_u(n)[i] == dec_u(n / 10)[i]);
            } else {
                assert(0 <= n % 10 < 10) by (nonlinear_arith);
            }
        }
    }
}

/// Relies on std's `String::from_utf8`: ASCII bytes are valid UTF-8 and
/// decode to the identical characters, one per byte.
#[verifier::external_body]
fn ascii_string(v: &[u8]) -> (r: String)
    requires
        forall|i: int| 0 <= i < v@.len() ==> v@[i] < 128,
    ensures
        r@ == ascii_chars(v@),
{
    String::from_utf8(v.to_vec()).unwrap_or_default()
}

/// Relies on std's `SystemTime::now` and `duration_since(UNIX_EPOCH)`:
/// the clock reading as whole seconds and microseconds within the second
/// (always below one million); a clock before the epoch reads as zero.
#[verifier::external_body]
fn unix_now() -> (r: (u64, u32))
    ensures
        r.1 < 1000000,
{
    match SystemTime::now().duration_since(UNIX_EPOCH) {
        Ok(d) => (d.as_secs(), d.subsec_micros()),
        Err(_) => (0, 0),
    }
}

/// Renders a clock reading as `<seconds>.<microseconds>`, the fraction
/// zero-padded to exactly six digits.
pub fn format_epoch_at(secs: u64, micros: u32) -> (r: String)
    requires
        micros < 1000000,
    ensures
        r@ == ascii_chars(epoch_text(secs as int, micros as int)),
{
    let mut buf: Vec<u8> = Vec::new();
    push_dec(&mut buf, secs);
    proof {
        assert(Seq::<u8>::empty() + dec_u(secs as int) =~= dec_u(secs as int));
    }
    buf.push(46);
    let mut tmp: Vec<u8> = Vec::new();
    push_dec(&mut tmp, 1000000u64 + micros as u64);
    proof {
        assert(Seq::<u8>::empty() + dec_u(1000000 + micros as int) =~= dec_u(
            1000000 + micros as int,
        ));
        assert(tmp@.len() >= 1);
    }
    let pad = sub_vec(tmp.as_slice(), 1, tmp.len());
    proof {
        assert(pad@ =~= dec_u(1000000 + micros as int).skip(1));
    }
    push_all(&mut buf, pad.as_slice());
    proof {
        assert(buf@ =~= epoch_text(secs as int, micros as int));
        lemma_dec_u_digits(secs as int);
        lemma_dec_u_digits(1000000 + micros as int);
        assert forall|i: int| 0 <= i < buf@.len() implies buf@[i] < 128 by {
            let a = dec_u(secs as int);
            let p = pad6(micros as int);
            if i < a.len() {
                assert(buf@[i] == a[i]);
            } else if i == a.len() {
                assert(buf@[i] == 46);
            } else {
                assert(buf@[i] == p[i - a.len() - 1]);
                assert(p[i - a.len() - 1] == dec_u(1000000 + micros as int)[i - a.len()]);
            }
        }
    }
    let out = ascii_string(buf.as_slice());
    out
}

/// Is `out` the epoch rendering of some clock reading?
pub open spec fn is_epoch_output(s: u64, m: u32, out: Seq<char>) -> bool {
    m < 1000000 && out == ascii_chars(epoch_text(s as int, m as int))
}

/// Reads the clock and renders it; whatever the clock said, the output is
/// the exact rendering of one reading.
pub fn format_epoch() -> (r: String)
    ensures
        exists|s: u64, m: u32| is_epoch_output(s, m, r@),
{
    let now = unix_now();
    let out = format_epoch_at(now.0, now.1);
    proof {
        assert(is_epoch_output(now.0, now.1, out@));
    }
    out
}

} // verus!
