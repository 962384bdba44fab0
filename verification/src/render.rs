//! The formatter: substitutes named values into an output template.
//!
//! Substitution happens in two ordered passes, each a global literal
//! replacement of `{name}`: first every caller-supplied synthetic pair,
//! then every named entry of a match result in insertion order.  Within
//! one replacement, substituted text is not re-scanned for that same
//! placeholder, so no replacement can loop; a later pass (or entry) does
//! see what earlier ones substituted.  A placeholder that matches nothing
//! is left verbatim in the output.

use vstd::prelude::*;

use crate::bytes::{bytes_at, push_all};
use crate::matcher::MatchResult;
use crate::value::{false_text, true_text, ValModel, Value};

verus! {

/// Global left-to-right replacement of every non-overlapping occurrence
/// of `from` by `to`; the replacement text is not re-scanned.
pub open spec fn replace_spec(s: Seq<u8>, from: Seq<u8>, to: Seq<u8>) -> Seq<u8>
    decreases s.len(),
{
    if from.len() == 0 || s.len() < from.len() {
        s
    } else if s.take(from.len() as int) == from {
        to + replace_spec(s.skip(from.len() as int), from, to)
    } else {
        seq![s[0]] + replace_spec(s.skip(1), from, to)
    }
}

/// `{name}`.
pub open spec fn brace_wrap(name: Seq<u8>) -> Seq<u8> {
    seq![123u8] + name + seq![125u8]
}

/// Decimal digits of a non-negative number.
pub open spec fn dec_u(n: int) -> Seq<u8>
    recommends
        n >= 0,
    decreases n,
{
    if n <= 9 {
        seq![(48 + (if 0 <= n { n } else { 0 })) as u8]
    } else {
        dec_u(n / 10) + seq![(48 + n % 10) as u8]
    }
}

/// Decimal text of a signed number.
pub open spec fn int_text(v: int) -> Seq<u8> {
    if v < 0 {
        seq![45u8] + dec_u(-v)
    } else {
        dec_u(v)
    }
}

/// The text a value substitutes as: captured text verbatim for strings
/// and floats, decimal digits for integers, `true`/`false` for booleans.
pub open spec fn value_text(v: ValModel) -> Seq<u8> {
    match v {
        ValModel::Str(s) => s,
        ValModel::Int(i) => int_text(i),
        ValModel::UInt(u) => dec_u(u),
        ValModel::Float(t) => t,
        ValModel::Bool(b) => if b {
            true_text()
        } else {
            false_text()
        },
    }
}

/// One pass over caller-supplied synthetic pairs, in order.
pub open spec fn subst_extras(t: Seq<u8>, ex: Seq<(Seq<u8>, Seq<u8>)>) -> Seq<u8>
    decreases ex.len(),
{
    if ex.len() == 0 {
        t
    } else {
        subst_extras(replace_spec(t, brace_wrap(ex[0].0), ex[0].1), ex.skip(1))
    }
}

/// One pass over a result's entries, in insertion order.
pub open spec fn subst_entries(t: Seq<u8>, en: Seq<(Seq<u8>, ValModel)>) -> Seq<u8>
    decreases en.len(),
{
    if en.len() == 0 {
        t
    } else {
        subst_entries(replace_spec(t, brace_wrap(en[0].0), value_text(en[0].1)), en.skip(1))
    }
}

/// The full meaning of rendering: synthetic pairs first (so they take
/// precedence over captured fields of the same name), then the entries.
pub open spec fn render_spec(
    t: Seq<u8>,
    en: Seq<(Seq<u8>, ValModel)>,
    ex: Seq<(Seq<u8>, Seq<u8>)>,
) -> Seq<u8> {
    subst_entries(subst_extras(t, ex), en)
}

/// View of a list of owned byte-string pairs.
pub open spec fn pairs_view(ex: Seq<(Vec<u8>, Vec<u8>)>) -> Seq<(Seq<u8>, Seq<u8>)> {
    ex.map_values(|p: (Vec<u8>, Vec<u8>)| (p.0@, p.1@))
}

/// Replaces every occurrence of `from` in `s` by `to`, left to right,
/// without re-scanning replaced text.
pub fn replace_all(s: &[u8], from: &[u8], to: &[u8]) -> (r: Vec<u8>)
    ensures
        r@ == replace_spec(s@, from@, to@),
{
    let mut out: Vec<u8> = Vec::new();
    if from.len() == 0 {
        push_all(&mut out, s);
        return out;
    }
    let mut i: usize = 0;
    proof {
        assert(s@.skip(0) =~= s@);
        assert(out@ =~= Seq::<u8>::empty());
    }
    while i < s.len()
        invariant
            i <= s@.len(),
            from@.len() >= 1,
            replace_spec(s@, from@, to@) == out@ + replace_spec(s@.skip(i as int), from@, to@),
        decreases s@.len() - i,
    {
        let ghost rem = s@.skip(i as int);
        if bytes_at(s, i, from) {
            proof {
                assert(s@.subrange(i as int, i + from@.len()) =~= rem.take(from@.len() as int));
                assert(rem.skip(from@.len() as int) =~= s@.skip(i + from@.len()));
                assert(replace_spec(rem, from@, to@) == to@ + replace_spec(
                    s@.skip(i + from@.len()),
                    from@,
                    to@,
                ));
                assert((out@ + to@) + replace_spec(s@.skip(i + from@.len()), from@, to@) =~= out@
                    + (to@ + replace_spec(s@.skip(i + from@.len()), from@, to@)));
            }
            push_all(&mut out, to);
            i = i + from.len();
        } else {
            proof {
                if from@.len() <= rem.len() {
                    assert(s@.subrange(i as int, i + from@.len()) =~= rem.take(
                        from@.len() as int,
                    ));
                    assert(rem.take(from@.len() as int) != from@);
                }
                assert(rem.skip(1) =~= s@.skip(i + 1));
                assert(replace_spec(rem, from@, to@) == seq![rem[0]] + replace_spec(
                    s@.skip(i + 1),
                    from@,
                    to@,
                ));
                assert((out@ + seq![rem[0]]) + replace_spec(s@.skip(i + 1), from@, to@) =~= out@
                    + (seq![rem[0]] + replace_spec(s@.skip(i + 1), from@, to@)));
                assert(out@.push(s@[i as int]) =~= out@ + seq![rem[0]]);
            }
            let b = s[i];
            out.push(b);
            i = i + 1;
        }
    }
    proof {
        assert(s@.skip(i as int) =~= Seq::<u8>::empty());
        assert(replace_spec(Seq::<u8>::empty(), from@, to@) == Seq::<u8>::empty());
        assert(out@ + Seq::<u8>::empty() =~= out@);
    }
    out
}

/// Appends the decimal digits of `n`.
pub fn push_dec(out: &mut Vec<u8>, n: u64)
    ensures
        final(out)@ == old(out)@ + dec_u(n as int),
    decreases n,
{
    if n <= 9 {
        out.push(48 + n as u8);
        assert(final(out)@ =~= old(out)@ + dec_u(n as int));
    } else {
        proof {
            assert(n / 10 < n) by (nonlinear_arith)
                requires
                    n >= 10,
            ;
        }
        push_dec(out, n / 10);
        out.push(48 + (n % 10) as u8);
        assert(final(out)@ =~= old(out)@ + dec_u(n as int));
    }
}

/// `{name}` as owned bytes.
pub fn make_placeholder(name: &[u8]) -> (r: Vec<u8>)
    ensures
        r@ == brace_wrap(name@),
{
    let mut out: Vec<u8> = Vec::new();
    out.push(123);
    push_all(&mut out, name);
    out.push(125);
    proof {
        assert(out@ =~= brace_wrap(name@));
    }
    out
}

/// The substitution text of a value.
pub fn text_of_value(v: &Value) -> (r: Vec<u8>)
    ensures
        r@ == value_text(v@),
{
    match v {
        Value::Str(s) => crate::bytes::copy_vec(s),
        Value::Int(i) => {
            let mut out: Vec<u8> = Vec::new();
            if *i < 0 {
                out.push(45);
                let m: u64 = if *i == i64::MIN {
                    9223372036854775808u64
                } else {
                    (-*i) as u64
                };
                push_dec(&mut out, m);
                proof {
                    assert(out@ =~= seq![45u8] + dec_u(m as int));
                }
            } else {
                push_dec(&mut out, *i as u64);
                proof {
                    assert(out@ =~= Seq::<u8>::empty() + dec_u(*i as int));
                    assert(Seq::<u8>::empty() + dec_u(*i as int) =~= dec_u(*i as int));
                }
            }
            out
        },
        Value::UInt(u) => {
            let mut out: Vec<u8> = Vec::new();
            push_dec(&mut out, *u);
            proof {
                assert(Seq::<u8>::empty() + dec_u(*u as int) =~= dec_u(*u as int));
            }
            out
        },
        Value::Float(t) => crate::bytes::copy_vec(t),
        Value::Bool(b) => {
            let mut out: Vec<u8> = Vec::new();
            if *b {
                out.push(116);
                out.push(114);
                out.push(117);
                out.push(101);
                proof {
                    assert(out@ =~= true_text());
                }
            } else {
                out.push(102);
                out.push(97);
                out.push(108);
                out.push(115);
                out.push(101);
                proof {
                    assert(out@ =~= false_text());
                }
            }
            out
        },
    }
}

/// Renders an output template from a match result and synthetic pairs.
/// Pure substitution: unmatched placeholders stay verbatim.
pub fn render(template: &[u8], result: &MatchResult, extra: &Vec<(Vec<u8>, Vec<u8>)>) -> (r: Vec<
    u8,
>)
    ensures
        r@ == render_spec(template@, result@, pairs_view(extra@)),
{
    let ghost ex = pairs_view(extra@);
    let mut cur: Vec<u8> = vstd::slice::slice_to_vec(template);
    let mut i: usize = 0;
    proof {
        assert(ex.skip(0) =~= ex);
    }
    while i < extra.len()
        invariant
            i <= extra@.len(),
            ex == pairs_view(extra@),
            subst_extras(template@, ex) == subst_extras(cur@, ex.skip(i as int)),
        decreases extra@.len() - i,
    {
        let p = &extra[i];
        let ph = make_placeholder(p.0.as_slice());
        let next = replace_all(cur.as_slice(), ph.as_slice(), p.1.as_slice());
        proof {
            assert(ex.skip(i as int)[0] == (p.0@, p.1@));
            assert(ex.skip(i as int).skip(1) =~= ex.skip(i + 1));
            assert(subst_extras(cur@, ex.skip(i as int)) == subst_extras(
                replace_spec(cur@, brace_wrap(p.0@), p.1@),
                ex.skip(i + 1),
            ));
        }
        cur = next;
        i = i + 1;
    }
    proof {
        assert(ex.skip(i as int) =~= Seq::<(Seq<u8>, Seq<u8>)>::empty());
        assert(subst_extras(cur@, ex.skip(i as int)) == cur@);
    }
    let entries = result.values();
    let ghost en = result@;
    let mut j: usize = 0;
    proof {
        assert(en.skip(0) =~= en);
    }
    while j < entries.len()
        invariant
            j <= entries@.len(),
            en == entries@.map_values(|p: (Vec<u8>, Value)| (p.0@, p.1@)),
            subst_entries(subst_extras(template@, ex), en) == subst_entries(
                cur@,
                en.skip(j as int),
            ),
        decreases entries@.len() - j,
    {
        let p = &entries[j];
        let ph = make_placeholder(p.0.as_slice());
        let vt = text_of_value(&p.1);
        let next = replace_all(cur.as_slice(), ph.as_slice(), vt.as_slice());
        proof {
            assert(en.skip(j as int)[0] == (p.0@, p.1@));
            assert(en.skip(j as int).skip(1) =~= en.skip(j + 1));
            assert(subst_entries(cur@, en.skip(j as int)) == subst_entries(
                replace_spec(cur@, brace_wrap(p.0@), value_text(p.1@)),
                en.skip(j + 1),
            ));
        }
        cur = next;
        j = j + 1;
    }
    proof {
        assert(en.skip(j as int) =~= Seq::<(Seq<u8>, ValModel)>::empty());
        assert(subst_entries(cur@, en.skip(j as int)) == cur@);
    }
    cur
}

} // verus!
