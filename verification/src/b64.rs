//! The base64 pipeline: parse a line, take its `input` field, encode or
//! decode it, and render the output template with the codec's result
//! substituted for `{output}` and the remaining captured fields after it.

use vstd::prelude::*;

use crate::matcher::{lookup, match_spec, MatchResult};
use crate::pattern::Pattern;
use crate::render::{brace_wrap, replace_all, replace_spec, subst_entries, value_text};
use crate::value::{ValModel, Value};
use vstd::utf8::valid_utf8;

verus! {

/// `input`, the field the codec consumes.
pub open spec fn input_name() -> Seq<u8> {
    seq![105u8, 110u8, 112u8, 117u8, 116u8]
}

/// `output`, the placeholder the codec's result fills.
pub open spec fn output_name() -> Seq<u8> {
    seq![111u8, 117u8, 116u8, 112u8, 117u8, 116u8]
}

/// What base64's standard engine encodes `s` to.
pub uninterp spec fn b64_of(s: Seq<u8>) -> Seq<u8>;

/// What base64's standard engine decodes `s` to, when it accepts `s`.
pub uninterp spec fn b64_decoded(s: Seq<u8>) -> Seq<u8>;

/// Whether base64's standard engine accepts `s` at all; acceptance
/// depends on the input bytes alone.
pub uninterp spec fn b64_ok(s: Seq<u8>) -> bool;

/// Relies on the base64 crate's STANDARD engine: `encode` is a pure
/// function of the input bytes (standard alphabet, with padding, so four
/// output bytes for every started group of three input bytes).
#[verifier::external_body]
fn b64_encode(data: &[u8]) -> (r: Vec<u8>)
    ensures
        r@ == b64_of(data@),
        r@.len() == 4 * ((data@.len() + 2) / 3),
{
    base64::Engine::encode(&base64::engine::general_purpose::STANDARD, data).into_bytes()
}

/// Relies on the base64 crate's STANDARD engine: whether `decode` accepts
/// its input, and what it returns when it does, are pure functions of the
/// input bytes.
#[verifier::external_body]
fn b64_decode(data: &[u8]) -> (r: Option<Vec<u8>>)
    ensures
        r is Some <==> b64_ok(data@),
        (match r {
            Some(v) => v@ == b64_decoded(data@),
            None => true,
        }),
{
    match base64::Engine::decode(&base64::engine::general_purpose::STANDARD, data) {
        Ok(v) => Some(v),
        Err(_) => None,
    }
}

/// Relies on std's `str::from_utf8`, which succeeds exactly on well-formed
/// UTF-8; vstd's `valid_utf8` is the specification of that byte format.
#[verifier::external_body]
fn is_utf8(data: &[u8]) -> (r: bool)
    ensures
        r == valid_utf8(data@),
{
    core::str::from_utf8(data).is_ok()
}

/// The entries that still substitute after the codec consumed `input`.
pub open spec fn sans_input(en: Seq<(Seq<u8>, ValModel)>) -> Seq<(Seq<u8>, ValModel)>
    decreases en.len(),
{
    if en.len() == 0 {
        Seq::empty()
    } else if en[0].0 == input_name() {
        sans_input(en.skip(1))
    } else {
        seq![en[0]] + sans_input(en.skip(1))
    }
}

/// The rendered output line: `{output}` replaced by the codec result
/// first, then every captured field but `input`, in insertion order.
pub open spec fn codec_render(template: Seq<u8>, en: Seq<(Seq<u8>, ValModel)>, out: Seq<u8>) -> Seq<
    u8,
> {
    subst_entries(replace_spec(template, brace_wrap(output_name()), out), sans_input(en))
}

/// Is this name the codec's `input` field?
fn is_input_name(name: &[u8]) -> (r: bool)
    ensures
        r == (name@ == input_name()),
{
    if name.len() == 5 && name[0] == 105 && name[1] == 110 && name[2] == 112 && name[3] == 117
        && name[4] == 116 {
        assert(name@ =~= input_name());
        true
    } else {
        proof {
            if name@ == input_name() {
                assert(name@.len() == 5);
                assert(name@[0] == 105 && name@[1] == 110 && name@[2] == 112 && name@[3] == 117
                    && name@[4] == 116);
            }
        }
        false
    }
}

/// Substitutes the codec result and the remaining fields into `template`.
pub fn format_output(template: &[u8], result: &MatchResult, output: &[u8]) -> (r: Vec<u8>)
    ensures
        r@ == codec_render(template@, result@, output@),
{
    let mut ph: Vec<u8> = Vec::new();
    ph.push(123);
    ph.push(111);
    ph.push(117);
    ph.push(116);
    ph.push(112);
    ph.push(117);
    ph.push(116);
    ph.push(125);
    proof {
        assert(ph@ =~= brace_wrap(output_name()));
    }
    let mut cur = replace_all(template, ph.as_slice(), output);
    let ghost base = cur@;
    let entries = result.values();
    let ghost en = result@;
    let mut i: usize = 0;
    proof {
        assert(en.skip(0) =~= en);
    }
    while i < entries.len()
        invariant
            i <= entries@.len(),
            en == entries@.map_values(|p: (Vec<u8>, Value)| (p.0@, p.1@)),
            subst_entries(base, sans_input(en)) == subst_entries(
                cur@,
                sans_input(en.skip(i as int)),
            ),
        decreases entries@.len() - i,
    {
        let p = &entries[i];
        proof {
            assert(en.skip(i as int)[0] == (p.0@, p.1@));
            assert(en.skip(i as int).skip(1) =~= en.skip(i + 1));
        }
        if is_input_name(p.0.as_slice()) {
            proof {
                assert(sans_input(en.skip(i as int)) == sans_input(en.skip(i + 1)));
            }
        } else {
            let nph = crate::render::make_placeholder(p.0.as_slice());
            let vt = crate::render::text_of_value(&p.1);
            let next = replace_all(cur.as_slice(), nph.as_slice(), vt.as_slice());
            proof {
                let e = (p.0@, p.1@);
                let t = sans_input(en.skip(i + 1));
                assert(sans_input(en.skip(i as int)) == seq![e] + t);
                assert((seq![e] + t)[0] == e);
                assert((seq![e] + t).skip(1) =~= t);
                assert(subst_entries(cur@, seq![e] + t) == subst_entries(
                    replace_spec(cur@, brace_wrap(e.0), value_text(e.1)),
                    t,
                ));
            }
            cur = next;
        }
        i = i + 1;
    }
    proof {
        assert(en.skip(i as int) =~= Seq::<(Seq<u8>, ValModel)>::empty());
        assert(sans_input(Seq::<(Seq<u8>, ValModel)>::empty()) == Seq::<(
            Seq<u8>,
            ValModel,
        )>::empty());
        assert(subst_entries(cur@, Seq::<(Seq<u8>, ValModel)>::empty()) == cur@);
    }
    cur
}

/// `input` as owned bytes.
fn input_name_vec() -> (r: Vec<u8>)
    ensures
        r@ == input_name(),
{
    let mut v: Vec<u8> = Vec::new();
    v.push(105);
    v.push(110);
    v.push(112);
    v.push(117);
    v.push(116);
    proof {
        assert(v@ =~= input_name());
    }
    v
}

/// One line of the encoding pipeline: match, take `input`, encode it,
/// render.  `None` when the line does not match, has no `input` entry,
/// or its `input` value is not a string.
pub fn encode_line(pattern: &Pattern, out_spec: &[u8], line: &[u8]) -> (r: Option<Vec<u8>>)
    ensures
        (match match_spec(pattern@, line@) {
            None => r is None,
            Some(en) => (match lookup(en, input_name()) {
                Some(ValModel::Str(s)) => (match r {
                    Some(o) => o@ == codec_render(out_spec@, en, b64_of(s)),
                    None => false,
                }),
                _ => r is None,
            }),
        }),
{
    let result = match pattern.match_line(line) {
        Some(x) => x,
        None => {
            return None;
        },
    };
    let iname = input_name_vec();
    let input_v = match result.get(iname.as_slice()) {
        Some(v) => v,
        None => {
            return None;
        },
    };
    match input_v {
        Value::Str(s) => {
            let enc = b64_encode(s.as_slice());
            Some(format_output(out_spec, &result, enc.as_slice()))
        },
        _ => None,
    }
}

/// One line of the decoding pipeline.  `None` exactly when the line does
/// not match, captures no string under `input`, the base64 crate rejects
/// that text, or the decoded bytes are not UTF-8 — the lines the stream
/// filter drops.
pub fn decode_line(pattern: &Pattern, out_spec: &[u8], line: &[u8]) -> (r: Option<Vec<u8>>)
    ensures
        (match match_spec(pattern@, line@) {
            None => r is None,
            Some(en) => (match lookup(en, input_name()) {
                Some(ValModel::Str(s)) => {
                    &&& (r is Some <==> b64_ok(s) && valid_utf8(b64_decoded(s)))
                    &&& (match r {
                        Some(o) => o@ == codec_render(out_spec@, en, b64_decoded(s)),
                        None => true,
                    })
                },
                _ => r is None,
            }),
        }),
{
    let result = match pattern.match_line(line) {
        Some(x) => x,
        None => {
            return None;
        },
    };
    let iname = input_name_vec();
    let input_v = match result.get(iname.as_slice()) {
        Some(v) => v,
        None => {
            return None;
        },
    };
    match input_v {
        Value::Str(s) => {
            let dec = match b64_decode(s.as_slice()) {
                Some(d) => d,
                None => {
                    return None;
                },
            };
            if !is_utf8(dec.as_slice()) {
                return None;
            }
            Some(format_output(out_spec, &result, dec.as_slice()))
        },
        _ => None,
    }
}

} // verus!
