//! JSON emission: a matched line becomes one JSON object per line.  Keys
//! are emitted sorted bytewise (the object is assembled in an ordered map,
//! so a duplicated field name keeps only its last value), string values
//! are escaped, numeric and boolean values are emitted bare; a float's
//! captured text is normalized to JSON number syntax (no `+` sign, a
//! digit on each side of the decimal point, no redundant leading zeros).

use vstd::prelude::*;

use crate::bytes::{bytes_eq, copy_vec, find_byte, find_limited, push_all};
use crate::matcher::{match_spec, MatchResult};
use crate::pattern::Pattern;
use crate::render::{dec_u, int_text, text_of_value, value_text};
use crate::value::{false_text, is_digit, is_neg, strip_sign, true_text, ValModel, Value};

verus! {

/// Strict bytewise lexicographic order.
pub open spec fn bytes_lt(a: Seq<u8>, b: Seq<u8>) -> bool
    decreases a.len(),
{
    if b.len() == 0 {
        false
    } else if a.len() == 0 {
        true
    } else if a[0] < b[0] {
        true
    } else if a[0] > b[0] {
        false
    } else {
        bytes_lt(a.skip(1), b.skip(1))
    }
}

/// Executable lexicographic comparison.
fn lex_lt(a: &[u8], b: &[u8]) -> (r: bool)
    ensures
        r == bytes_lt(a@, b@),
{
    let mut i: usize = 0;
    proof {
        assert(a@.skip(0) =~= a@);
        assert(b@.skip(0) =~= b@);
    }
    while i < a.len() && i < b.len()
        invariant
            i <= a@.len(),
            i <= b@.len(),
            bytes_lt(a@, b@) == bytes_lt(a@.skip(i as int), b@.skip(i as int)),
            forall|j: int| 0 <= j < i ==> a@[j] == b@[j],
        decreases a@.len() - i,
    {
        let x = a[i];
        let y = b[i];
        proof {
            assert(a@.skip(i as int)[0] == x);
            assert(b@.skip(i as int)[0] == y);
            assert(a@.skip(i as int).skip(1) =~= a@.skip(i + 1));
            assert(b@.skip(i as int).skip(1) =~= b@.skip(i + 1));
        }
        if x < y {
            return true;
        }
        if x > y {
            return false;
        }
        i = i + 1;
    }
    proof {
        if i == a.len() {
            assert(a@.skip(i as int) =~= Seq::<u8>::empty());
        } else {
            assert(b@.skip(i as int) =~= Seq::<u8>::empty());
        }
    }
    i == a.len() && i < b.len()
}

/// An ordered map after one insertion: replace an equal key in place,
/// otherwise keep bytewise key order.
pub open spec fn sorted_put(s: Seq<(Seq<u8>, ValModel)>, k: Seq<u8>, v: ValModel) -> Seq<
    (Seq<u8>, ValModel),
>
    decreases s.len(),
{
    if s.len() == 0 {
        seq![(k, v)]
    } else if s[0].0 == k {
        seq![(k, v)] + s.skip(1)
    } else if bytes_lt(k, s[0].0) {
        seq![(k, v)] + s
    } else {
        seq![s[0]] + sorted_put(s.skip(1), k, v)
    }
}

/// All entries inserted in order into an initially empty ordered map:
/// keys sorted, a repeated name keeping only its last value.
pub open spec fn sorted_acc(
    acc: Seq<(Seq<u8>, ValModel)>,
    en: Seq<(Seq<u8>, ValModel)>,
) -> Seq<(Seq<u8>, ValModel)>
    decreases en.len(),
{
    if en.len() == 0 {
        acc
    } else {
        sorted_acc(sorted_put(acc, en[0].0, en[0].1), en.skip(1))
    }
}

/// Lowercase hex digit.
pub open spec fn hex_digit(n: int) -> u8 {
    if n < 10 {
        (48 + (if 0 <= n {
            n
        } else {
            0
        })) as u8
    } else {
        (87 + (if n <= 15 {
            n
        } else {
            15
        })) as u8
    }
}

/// JSON escaping of one byte: quote, backslash and the named control
/// characters get short escapes, other control bytes `\u00xx`.
pub open spec fn esc_byte(b: u8) -> Seq<u8> {
    if b == 34 {
        seq![92u8, 34u8]
    } else if b == 92 {
        seq![92u8, 92u8]
    } else if b == 8 {
        seq![92u8, 98u8]
    } else if b == 12 {
        seq![92u8, 102u8]
    } else if b == 10 {
        seq![92u8, 110u8]
    } else if b == 13 {
        seq![92u8, 114u8]
    } else if b == 9 {
        seq![92u8, 116u8]
    } else if b < 32 {
        seq![92u8, 117u8, 48u8, 48u8, hex_digit(b as int / 16), hex_digit(b as int % 16)]
    } else {
        seq![b]
    }
}

/// JSON escaping of a byte string.
pub open spec fn json_escaped(s: Seq<u8>) -> Seq<u8>
    decreases s.len(),
{
    if s.len() == 0 {
        Seq::empty()
    } else {
        esc_byte(s[0]) + json_escaped(s.skip(1))
    }
}

/// Index of the first exponent marker (`e` or `E`) in `b`, or `b.len()`.
pub open spec fn exp_pos(b: Seq<u8>) -> int {
    if find_byte(b, 101) <= find_byte(b, 69) {
        find_byte(b, 101)
    } else {
        find_byte(b, 69)
    }
}

/// Redundant leading zeros of an integer part dropped (one digit stays).
pub open spec fn strip_zeros(m: Seq<u8>) -> Seq<u8>
    decreases m.len(),
{
    if m.len() >= 2 && m[0] == 48 && is_digit(m[1]) {
        strip_zeros(m.skip(1))
    } else {
        m
    }
}

/// A captured float mantissa in JSON number syntax: a digit put on a bare
/// side of the decimal point, redundant leading zeros dropped.
pub open spec fn json_mantissa(m: Seq<u8>) -> Seq<u8> {
    let m1 = if m.len() > 0 && m[0] == 46 {
        seq![48u8] + m
    } else {
        m
    };
    let m2 = if m1.len() > 0 && m1.last() == 46 {
        m1 + seq![48u8]
    } else {
        m1
    };
    strip_zeros(m2)
}

/// A captured float as a JSON number: a `+` sign dropped, the mantissa
/// normalized, the exponent kept as captured.
pub open spec fn json_float(t: Seq<u8>) -> Seq<u8> {
    let b = strip_sign(t);
    (if is_neg(t) {
        seq![45u8]
    } else {
        Seq::<u8>::empty()
    }) + json_mantissa(b.take(exp_pos(b))) + b.skip(exp_pos(b))
}

/// The JSON text of one value: strings quoted and escaped, numbers and
/// booleans bare, a float's captured text normalized to JSON number
/// syntax.
pub open spec fn json_value_text(v: ValModel) -> Seq<u8> {
    match v {
        ValModel::Str(s) => seq![34u8] + json_escaped(s) + seq![34u8],
        ValModel::Int(i) => int_text(i),
        ValModel::UInt(u) => dec_u(u),
        ValModel::Float(t) => json_float(t),
        ValModel::Bool(b) => if b {
            true_text()
        } else {
            false_text()
        },
    }
}

/// `"key":value`.
pub open spec fn json_item(p: (Seq<u8>, ValModel)) -> Seq<u8> {
    seq![34u8] + json_escaped(p.0) + seq![34u8, 58u8] + json_value_text(p.1)
}

/// Comma-joined items.
pub open spec fn json_items(s: Seq<(Seq<u8>, ValModel)>) -> Seq<u8>
    decreases s.len(),
{
    if s.len() == 0 {
        Seq::empty()
    } else if s.len() == 1 {
        json_item(s[0])
    } else {
        json_item(s[0]) + seq![44u8] + json_items(s.skip(1))
    }
}

/// The JSON object a match's entries produce.
pub open spec fn json_object(en: Seq<(Seq<u8>, ValModel)>) -> Seq<u8> {
    seq![123u8] + json_items(sorted_acc(Seq::empty(), en)) + seq![125u8]
}

proof fn lemma_json_items_push(s: Seq<(Seq<u8>, ValModel)>, p: (Seq<u8>, ValModel))
    ensures
        json_items(s.push(p)) == if s.len() == 0 {
            json_item(p)
        } else {
            json_items(s) + seq![44u8] + json_items(seq![p])
        },
    decreases s.len(),
{
    if s.len() == 0 {
        assert(s.push(p).len() == 1);
        assert(s.push(p)[0] == p);
    } else {
        lemma_json_items_push(s.skip(1), p);
        assert(s.push(p).skip(1) =~= s.skip(1).push(p));
        assert(s.push(p)[0] == s[0]);
        assert(s.push(p).len() == s.len() + 1);
        if s.len() == 1 {
            assert(json_items(s.push(p)) == json_item(s[0]) + seq![44u8] + json_items(
                s.skip(1).push(p),
            ));
            assert(json_items(s.skip(1).push(p)) == json_item(p));
            assert(json_items(seq![p]) == json_item(p));
            assert(json_items(s) == json_item(s[0]));
        } else {
            assert(json_items(s.push(p)) == json_item(s[0]) + seq![44u8] + json_items(
                s.skip(1).push(p),
            ));
            assert(json_items(s.skip(1).push(p)) == json_items(s.skip(1)) + seq![44u8]
                + json_items(seq![p]));
            assert(json_item(s[0]) + seq![44u8] + (json_items(s.skip(1)) + seq![44u8]
                + json_items(seq![p])) =~= (json_item(s[0]) + seq![44u8] + json_items(s.skip(1)))
                + seq![44u8] + json_items(seq![p]));
        }
    }
}

/// View of owned entries.
pub open spec fn eview(s: Seq<(Vec<u8>, Value)>) -> Seq<(Seq<u8>, ValModel)> {
    s.map_values(|p: (Vec<u8>, Value)| (p.0@, p.1@))
}

/// A fresh copy of a value.
fn clone_value(v: &Value) -> (r: Value)
    ensures
        r@ == v@,
{
    match v {
        Value::Str(s) => Value::Str(copy_vec(s)),
        Value::Int(i) => Value::Int(*i),
        Value::UInt(u) => Value::UInt(*u),
        Value::Float(t) => Value::Float(copy_vec(t)),
        Value::Bool(b) => Value::Bool(*b),
    }
}

/// Inserts into the ordered map.
fn sorted_put_vec(acc: &mut Vec<(Vec<u8>, Value)>, k: Vec<u8>, v: Value)
    ensures
        eview(final(acc)@) == sorted_put(eview(old(acc)@), k@, v@),
{
    let ghost full = eview(acc@);
    let mut i: usize = 0;
    proof {
        assert(full.skip(0) =~= full);
        assert(full.take(0) =~= Seq::<(Seq<u8>, ValModel)>::empty());
    }
    while i < acc.len()
        invariant
            i <= acc@.len(),
            acc@ == old(acc)@,
            full == eview(acc@),
            sorted_put(full, k@, v@) == full.take(i as int) + sorted_put(
                full.skip(i as int),
                k@,
                v@,
            ),
        decreases acc@.len() - i,
    {
        let ghost tail = full.skip(i as int);
        proof {
            assert(tail[0] == full[i as int]);
            assert(tail.skip(1) =~= full.skip(i + 1));
        }
        if bytes_eq(acc[i].0.as_slice(), k.as_slice()) {
            acc[i] = (k, v);
            proof {
                assert(sorted_put(tail, k@, v@) == seq![(k@, v@)] + tail.skip(1));
                assert(eview(acc@) =~= full.take(i as int) + (seq![(k@, v@)] + full.skip(i + 1)));
            }
            return ;
        }
        if lex_lt(k.as_slice(), acc[i].0.as_slice()) {
            acc.insert(i, (k, v));
            proof {
                assert(sorted_put(tail, k@, v@) == seq![(k@, v@)] + tail);
                assert(eview(acc@) =~= full.take(i as int) + (seq![(k@, v@)] + full.skip(
                    i as int,
                )));
            }
            return ;
        }
        proof {
            assert(sorted_put(tail, k@, v@) == seq![tail[0]] + sorted_put(
                full.skip(i + 1),
                k@,
                v@,
            ));
            assert(full.take(i + 1) =~= full.take(i as int).push(full[i as int]));
            assert(full.take(i as int) + (seq![tail[0]] + sorted_put(full.skip(i + 1), k@, v@))
                =~= full.take(i + 1) + sorted_put(full.skip(i + 1), k@, v@));
        }
        i = i + 1;
    }
    proof {
        assert(full.skip(i as int) =~= Seq::<(Seq<u8>, ValModel)>::empty());
        assert(sorted_put(Seq::<(Seq<u8>, ValModel)>::empty(), k@, v@) == seq![(k@, v@)]);
    }
    acc.push((k, v));
    proof {
        assert(eview(acc@) =~= full.take(full.len() as int) + seq![(k@, v@)]);
        assert(full.take(full.len() as int) =~= full);
    }
}

/// Appends the escaped form of every byte of `s`.
fn push_escaped(out: &mut Vec<u8>, s: &[u8])
    ensures
        final(out)@ == old(out)@ + json_escaped(s@),
{
    let mut i: usize = 0;
    proof {
        assert(s@.skip(0) =~= s@);
    }
    while i < s.len()
        invariant
            i <= s@.len(),
            old(out)@ + json_escaped(s@) == out@ + json_escaped(s@.skip(i as int)),
        decreases s@.len() - i,
    {
        let b = s[i];
        let ghost tail = s@.skip(i as int);
        proof {
            assert(tail[0] == b);
            assert(tail.skip(1) =~= s@.skip(i + 1));
            assert(json_escaped(tail) == esc_byte(b) + json_escaped(s@.skip(i + 1)));
        }
        let ghost before = out@;
        if b == 34 {
            out.push(92);
            out.push(34);
        } else if b == 92 {
            out.push(92);
            out.push(92);
        } else if b == 8 {
            out.push(92);
            out.push(98);
        } else if b == 12 {
            out.push(92);
            out.push(102);
        } else if b == 10 {
            out.push(92);
            out.push(110);
        } else if b == 13 {
            out.push(92);
            out.push(114);
        } else if b == 9 {
            out.push(92);
            out.push(116);
        } else if b < 32 {
            let hi = b / 16;
            let lo = b % 16;
            out.push(92);
            out.push(117);
            out.push(48);
            out.push(48);
            out.push(if hi < 10 {
                48 + hi
            } else {
                87 + hi
            });
            out.push(if lo < 10 {
                48 + lo
            } else {
                87 + lo
            });
        } else {
            out.push(b);
        }
        proof {
            assert(out@ =~= before + esc_byte(b));
            assert((before + esc_byte(b)) + json_escaped(s@.skip(i + 1)) =~= before + (esc_byte(b)
                + json_escaped(s@.skip(i + 1))));
        }
        i = i + 1;
    }
    proof {
        assert(s@.skip(i as int) =~= Seq::<u8>::empty());
        assert(json_escaped(Seq::<u8>::empty()) == Seq::<u8>::empty());
        assert(out@ + Seq::<u8>::empty() =~= out@);
    }
}

/// The normalized JSON mantissa of `t[start..e]`, as owned bytes.
fn json_mantissa_vec(t: &[u8], start: usize, e: usize) -> (r: Vec<u8>)
    requires
        start <= e <= t@.len(),
    ensures
        r@ == json_mantissa(t@.subrange(start as int, e as int)),
{
    let ghost m = t@.subrange(start as int, e as int);
    let leading_dot = e > start && t[start] == 46;
    let trailing_dot = e > start && t[e - 1] == 46;
    let ghost m1: Seq<u8> = if leading_dot {
        seq![48u8] + m
    } else {
        m
    };
    let ghost m2: Seq<u8> = if trailing_dot {
        m1 + seq![48u8]
    } else {
        m1
    };
    proof {
        assert(m.len() > 0 && m[0] == 46 <==> leading_dot);
        if m.len() > 0 {
            assert(m1.last() == m.last());
        }
        assert(m1.len() > 0 && m1.last() == 46 <==> trailing_dot);
        assert(json_mantissa(m) == strip_zeros(m2));
    }
    let mut out: Vec<u8> = Vec::new();
    if leading_dot {
        // "0" before the bare dot; zero stripping stops at that dot
        out.push(48);
        push_all(&mut out, vstd::slice::slice_subrange(t, start, e));
        if trailing_dot {
            out.push(48);
        }
        proof {
            assert(m2[0] == 48 && m2[1] == 46);
            assert(strip_zeros(m2) == m2);
            assert(out@ =~= m2);
        }
    } else {
        // drop redundant leading zeros of the integer part
        let mut z: usize = 0;
        proof {
            assert(m2.skip(0) =~= m2);
        }
        while z < e - start && z + 1 < e - start && t[start + z] == 48 && t[start + z + 1] >= 48
            && t[start + z + 1] <= 57
            invariant
                0 <= z,
                start + z <= e <= t@.len(),
                m == t@.subrange(start as int, e as int),
                !(m.len() > 0 && m[0] == 46),
                m2 == (if trailing_dot {
                    m + seq![48u8]
                } else {
                    m
                }),
                trailing_dot == (m.len() > 0 && m.last() == 46),
                strip_zeros(m2) == strip_zeros(m2.skip(z as int)),
            decreases e - start - z,
        {
            proof {
                assert(m2.skip(z as int)[0] == t@[start + z]);
                assert(m2.skip(z as int)[1] == t@[start + z + 1]);
                assert(m2.skip(z as int).skip(1) =~= m2.skip(z + 1));
            }
            z = z + 1;
        }
        proof {
            // the scan stopped: what remains is kept whole
            if z < m.len() {
                assert(m2.skip(z as int)[0] == t@[start + z]);
                if z + 1 < m.len() {
                    assert(m2.skip(z as int)[1] == t@[start + z + 1]);
                    assert(!(m2.skip(z as int)[0] == 48 && is_digit(m2.skip(z as int)[1])));
                } else {
                    // last mantissa byte: a byte after it can only be the
                    // zero appended for a bare trailing dot
                    if trailing_dot {
                        assert(m2.skip(z as int)[0] == 46);
                    } else {
                        assert(m2.skip(z as int).len() == 1);
                    }
                }
            } else {
                assert(z == m.len());
                if trailing_dot {
                    assert(m2.skip(z as int) =~= seq![48u8]);
                } else {
                    assert(m2.skip(z as int) =~= Seq::<u8>::empty());
                }
            }
            assert(strip_zeros(m2.skip(z as int)) == m2.skip(z as int));
        }
        push_all(&mut out, vstd::slice::slice_subrange(t, start + z, e));
        if trailing_dot {
            out.push(48);
        }
        proof {
            assert(m2.skip(z as int) =~= t@.subrange(start + z, e as int) + (if trailing_dot {
                seq![48u8]
            } else {
                Seq::<u8>::empty()
            }));
            assert(out@ =~= m2.skip(z as int));
        }
    }
    out
}

/// Appends a captured float as a JSON number.
fn push_json_float(out: &mut Vec<u8>, t: &[u8])
    ensures
        final(out)@ == old(out)@ + json_float(t@),
{
    let ghost b = strip_sign(t@);
    let start: usize = if t.len() > 0 && (t[0] == 43 || t[0] == 45) {
        1
    } else {
        0
    };
    proof {
        assert(b =~= t@.subrange(start as int, t@.len() as int));
    }
    if t.len() > 0 && t[0] == 45 {
        out.push(45);
    }
    // the first exponent marker, of either case, bounds the mantissa
    let e1 = find_limited(t, start, t.len(), 101);
    let e2 = find_limited(t, start, t.len(), 69);
    let e = if e1 <= e2 {
        e1
    } else {
        e2
    };
    proof {
        assert(exp_pos(b) == e - start);
        assert(b.take(e - start) =~= t@.subrange(start as int, e as int));
        assert(b.skip(e - start) =~= t@.subrange(e as int, t@.len() as int));
    }
    let mv = json_mantissa_vec(t, start, e);
    push_all(out, mv.as_slice());
    push_all(out, vstd::slice::slice_subrange(t, e, t.len()));
    proof {
        assert(json_float(t@) == (if is_neg(t@) {
            seq![45u8]
        } else {
            Seq::<u8>::empty()
        }) + json_mantissa(b.take(exp_pos(b))) + b.skip(exp_pos(b)));
        assert(final(out)@ =~= old(out)@ + json_float(t@));
    }
}

/// Appends the JSON text of one value.
fn push_json_value(out: &mut Vec<u8>, v: &Value)
    ensures
        final(out)@ == old(out)@ + json_value_text(v@),
{
    match v {
        Value::Str(s) => {
            let ghost before = out@;
            out.push(34);
            push_escaped(out, s.as_slice());
            out.push(34);
            proof {
                assert(out@ =~= before + json_value_text(v@));
            }
        },
        Value::Float(t) => {
            push_json_float(out, t.as_slice());
        },
        _ => {
            let t = text_of_value(v);
            proof {
                assert(json_value_text(v@) == value_text(v@));
            }
            push_all(out, t.as_slice());
        },
    }
}

/// One line of the JSON pipeline: `None` exactly when the line does not
/// match; otherwise the object text of the captured entries.
pub fn jsonify_line(pattern: &Pattern, line: &[u8]) -> (r: Option<Vec<u8>>)
    ensures
        (match (r, match_spec(pattern@, line@)) {
            (Some(o), Some(en)) => o@ == json_object(en),
            (None, None) => true,
            _ => false,
        }),
{
    let result = match pattern.match_line(line) {
        Some(x) => x,
        None => {
            return None;
        },
    };
    let entries = result.values();
    let ghost en = result@;
    let mut obj: Vec<(Vec<u8>, Value)> = Vec::new();
    let mut i: usize = 0;
    proof {
        assert(en.skip(0) =~= en);
        assert(eview(obj@) =~= Seq::<(Seq<u8>, ValModel)>::empty());
    }
    while i < entries.len()
        invariant
            i <= entries@.len(),
            en == entries@.map_values(|p: (Vec<u8>, Value)| (p.0@, p.1@)),
            sorted_acc(eview(obj@), en.skip(i as int)) == sorted_acc(
                Seq::<(Seq<u8>, ValModel)>::empty(),
                en,
            ),
        decreases entries@.len() - i,
    {
        let p = &entries[i];
        proof {
            assert(en.skip(i as int)[0] == (p.0@, p.1@));
            assert(en.skip(i as int).skip(1) =~= en.skip(i + 1));
        }
        let k = copy_vec(&p.0);
        let v = clone_value(&p.1);
        sorted_put_vec(&mut obj, k, v);
        i = i + 1;
    }
    proof {
        assert(en.skip(i as int) =~= Seq::<(Seq<u8>, ValModel)>::empty());
        assert(sorted_acc(eview(obj@), Seq::<(Seq<u8>, ValModel)>::empty()) == eview(obj@));
    }
    let ghost items = eview(obj@);
    let mut out: Vec<u8> = Vec::new();
    out.push(123);
    let mut j: usize = 0;
    proof {
        assert(items.take(0) =~= Seq::<(Seq<u8>, ValModel)>::empty());
        assert(out@ =~= seq![123u8] + json_items(items.take(0)));
    }
    while j < obj.len()
        invariant
            j <= obj@.len(),
            items == eview(obj@),
            out@ == seq![123u8] + json_items(items.take(j as int)),
        decreases obj@.len() - j,
    {
        let ghost before = out@;
        if j > 0 {
            out.push(44);
        }
        let p = &obj[j];
        out.push(34);
        push_escaped(&mut out, p.0.as_slice());
        out.push(34);
        out.push(58);
        push_json_value(&mut out, &p.1);
        proof {
            let q = (p.0@, p.1@);
            assert(items[j as int] == q);
            assert(items.take(j + 1) =~= items.take(j as int).push(q));
            lemma_json_items_push(items.take(j as int), q);
            assert(json_items(seq![q]) == json_item(q));
            if j == 0 {
                assert(out@ =~= seq![123u8] + json_item(q));
            } else {
                assert(out@ =~= seq![123u8] + (json_items(items.take(j as int)) + seq![44u8]
                    + json_item(q)));
            }
        }
        j = j + 1;
    }
    out.push(125);
    proof {
        assert(items.take(j as int) =~= items);
        assert(out@ =~= seq![123u8] + json_items(sorted_acc(Seq::<(Seq<u8>, ValModel)>::empty(), en))
            + seq![125u8]);
    }
    Some(out)
}

} // verus!
