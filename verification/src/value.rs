//! Captured data: the tagged value union and the coercion of captured
//! text into a typed value, driven by a field's type hint.

use vstd::prelude::*;

verus! {

/// Target type selected by a field's `:hint` suffix.  An absent, empty or
/// unknown hint selects `Str`.
#[derive(Clone, Copy, PartialEq, Eq, Structural, Debug)]
pub enum Hint {
    Str,
    Int,
    UInt,
    Float,
    Bool,
}

/// One captured or synthesized datum.  `Float` keeps the captured text of a
/// well-formed decimal/exponential number: the engine only validates and
/// carries such text, it never does floating-point arithmetic.
#[derive(PartialEq, Eq, Debug)]
pub enum Value {
    Str(Vec<u8>),
    Int(i64),
    UInt(u64),
    Float(Vec<u8>),
    Bool(bool),
}

/// The mathematical shape of a [`Value`].
pub enum ValModel {
    Str(Seq<u8>),
    Int(int),
    UInt(int),
    Float(Seq<u8>),
    Bool(bool),
}

impl View for Value {
    type V = ValModel;

    open spec fn view(&self) -> ValModel {
        match self {
            Value::Str(v) => ValModel::Str(v@),
            Value::Int(i) => ValModel::Int(*i as int),
            Value::UInt(u) => ValModel::UInt(*u as int),
            Value::Float(v) => ValModel::Float(v@),
            Value::Bool(b) => ValModel::Bool(*b),
        }
    }
}

pub open spec fn is_digit(b: u8) -> bool {
    48 <= b <= 57
}

pub open spec fn all_digits(s: Seq<u8>) -> bool {
    forall|i: int| 0 <= i < s.len() ==> is_digit(#[trigger] s[i])
}

/// Numeric value of a run of decimal digit bytes.
pub open spec fn digits_val(s: Seq<u8>) -> int
    decreases s.len(),
{
    if s.len() == 0 {
        0
    } else {
        digits_val(s.drop_last()) * 10 + (s.last() - 48)
    }
}

pub open spec fn has_sign(s: Seq<u8>) -> bool {
    s.len() > 0 && (s[0] == 43 || s[0] == 45)
}

pub open spec fn strip_sign(s: Seq<u8>) -> Seq<u8> {
    if has_sign(s) {
        s.skip(1)
    } else {
        s
    }
}

pub open spec fn is_neg(s: Seq<u8>) -> bool {
    s.len() > 0 && s[0] == 45
}

/// An optional sign followed by at least one digit.
pub open spec fn valid_signed(s: Seq<u8>) -> bool {
    strip_sign(s).len() >= 1 && all_digits(strip_sign(s))
}

pub open spec fn signed_val(s: Seq<u8>) -> int {
    if is_neg(s) {
        -digits_val(strip_sign(s))
    } else {
        digits_val(strip_sign(s))
    }
}

/// Digits only: a sign already fails the unsigned coercion.
pub open spec fn valid_unsigned(s: Seq<u8>) -> bool {
    s.len() >= 1 && all_digits(s)
}

/// A split of a mantissa at a decimal point: digits on both sides, at least
/// one digit somewhere.
pub open spec fn is_dot_split(s: Seq<u8>, k: int) -> bool {
    0 <= k < s.len() && s[k] == 46 && all_digits(s.take(k)) && all_digits(s.skip(k + 1)) && (k >= 1
        || s.len() >= 2)
}

/// The mantissa of a float: `digits+ ('.' digits*)?` or `'.' digits+`.
pub open spec fn is_mantissa(s: Seq<u8>) -> bool {
    ||| (s.len() >= 1 && all_digits(s))
    ||| (exists|k: int| is_dot_split(s, k))
}

/// A split of a float at its exponent marker.
pub open spec fn is_exp_split(b: Seq<u8>, e: int) -> bool {
    0 <= e < b.len() && (b[e] == 101 || b[e] == 69) && is_mantissa(b.take(e)) && valid_signed(
        b.skip(e + 1),
    )
}

/// Decimal or exponential notation: signed mantissa, optional `e`/`E`
/// exponent with its own optional sign.
pub open spec fn is_float_text(s: Seq<u8>) -> bool {
    ||| is_mantissa(strip_sign(s))
    ||| (exists|e: int| is_exp_split(strip_sign(s), e))
}

pub open spec fn true_text() -> Seq<u8> {
    seq![116u8, 114u8, 117u8, 101u8]
}

pub open spec fn false_text() -> Seq<u8> {
    seq![102u8, 97u8, 108u8, 115u8, 101u8]
}

/// What a captured substring coerces to under a hint, if anything.
pub open spec fn coerced(h: Hint, s: Seq<u8>) -> Option<ValModel> {
    match h {
        Hint::Str => Some(ValModel::Str(s)),
        Hint::Int => if valid_signed(s) && i64::MIN <= signed_val(s) <= i64::MAX {
            Some(ValModel::Int(signed_val(s)))
        } else {
            None
        },
        Hint::UInt => if valid_unsigned(s) && digits_val(s) <= u64::MAX {
            Some(ValModel::UInt(digits_val(s)))
        } else {
            None
        },
        Hint::Float => if is_float_text(s) {
            Some(ValModel::Float(s))
        } else {
            None
        },
        Hint::Bool => if s == true_text() {
            Some(ValModel::Bool(true))
        } else if s == false_text() {
            Some(ValModel::Bool(false))
        } else {
            None
        },
    }
}

proof fn lemma_digits_val_nonneg(s: Seq<u8>)
    requires
        all_digits(s),
    ensures
        digits_val(s) >= 0,
    decreases s.len(),
{
    if s.len() > 0 {
        assert(all_digits(s.drop_last()));
        lemma_digits_val_nonneg(s.drop_last());
    }
}

proof fn lemma_digits_val_prefix_le(s: Seq<u8>, j: int)
    requires
        all_digits(s),
        0 <= j <= s.len(),
    ensures
        digits_val(s.take(j)) <= digits_val(s),
    decreases s.len() - j,
{
    if j < s.len() {
        lemma_digits_val_prefix_le(s, j + 1);
        assert(s.take(j + 1).drop_last() =~= s.take(j));
        assert(all_digits(s.take(j + 1)));
        assert(all_digits(s.take(j)));
        lemma_digits_val_nonneg(s.take(j));
        assert(digits_val(s.take(j + 1)) == digits_val(s.take(j)) * 10 + (s[j] - 48));
        assert(digits_val(s.take(j)) * 10 >= digits_val(s.take(j))) by (nonlinear_arith)
            requires
                digits_val(s.take(j)) >= 0,
        ;
    } else {
        assert(s.take(j) =~= s);
    }
}

/// Parses the digit run `s[from..]` as an unsigned 64-bit number.
/// Returns `None` when the run is empty, holds a non-digit, or overflows.
fn parse_digits(s: &[u8], from: usize) -> (r: Option<u64>)
    requires
        from <= s@.len(),
    ensures
        ({
            let d = s@.skip(from as int);
            match r {
                Some(v) => d.len() >= 1 && all_digits(d) && digits_val(d) == v,
                None => !(d.len() >= 1 && all_digits(d) && digits_val(d) <= u64::MAX),
            }
        }),
{
    let ghost d = s@.skip(from as int);
    if from == s.len() {
        return None;
    }
    let mut acc: u64 = 0;
    let mut i: usize = from;
    while i < s.len()
        invariant
            from <= i <= s@.len(),
            d == s@.skip(from as int),
            d.len() >= 1,
            all_digits(d.take(i - from)),
            digits_val(d.take(i - from)) == acc,
        decreases s@.len() - i,
    {
        let b = s[i];
        if b < 48 || b > 57 {
            assert(d[i - from] == b);
            assert(!all_digits(d));
            return None;
        }
        let dig = (b - 48) as u64;
        assert(d.take(i + 1 - from).drop_last() =~= d.take(i - from));
        assert(d.take(i + 1 - from).last() == b);
        let next = match acc.checked_mul(10) {
            Some(m) => m.checked_add(dig),
            None => None,
        };
        match next {
            Some(n) => {
                acc = n;
            },
            None => {
                proof {
                    // The prefix through position i already exceeds u64::MAX,
                    // and appending digits never shrinks the value.
                    assert(all_digits(d.take(i + 1 - from)));
                    assert(digits_val(d.take(i + 1 - from)) == acc * 10 + (b - 48));
                    assert(acc * 10 + (b - 48) > u64::MAX);
                    if all_digits(d) {
                        lemma_digits_val_prefix_le(d, i + 1 - from);
                    }
                }
                return None;
            },
        }
        i = i + 1;
    }
    assert(d.take(i - from) =~= d);
    Some(acc)
}

/// Signed base-10 parse with the range of `i64`.
pub fn parse_int(s: &[u8]) -> (r: Option<i64>)
    ensures
        (match r {
            Some(v) => coerced(Hint::Int, s@) == Some(ValModel::Int(v as int)),
            None => coerced(Hint::Int, s@) is None,
        }),
{
    let neg = s.len() > 0 && s[0] == 45;
    let signed = s.len() > 0 && (s[0] == 43 || s[0] == 45);
    let start: usize = if signed {
        1
    } else {
        0
    };
    assert(s@.skip(start as int) == strip_sign(s@));
    match parse_digits(s, start) {
        None => {
            proof {
                if valid_signed(s@) {
                    lemma_digits_val_nonneg(strip_sign(s@));
                }
            }
            None
        },
        Some(mag) => {
            proof {
                lemma_digits_val_nonneg(strip_sign(s@));
            }
            if neg {
                if mag <= 9223372036854775808u64 {
                    if mag == 9223372036854775808u64 {
                        Some(i64::MIN)
                    } else {
                        Some(-(mag as i64))
                    }
                } else {
                    None
                }
            } else {
                if mag <= 9223372036854775807u64 {
                    Some(mag as i64)
                } else {
                    None
                }
            }
        },
    }
}

/// Unsigned base-10 parse: any sign already fails.
pub fn parse_uint(s: &[u8]) -> (r: Option<u64>)
    ensures
        (match r {
            Some(v) => coerced(Hint::UInt, s@) == Some(ValModel::UInt(v as int)),
            None => coerced(Hint::UInt, s@) is None,
        }),
{
    match parse_digits(s, 0) {
        None => {
            proof {
                assert(s@.skip(0) =~= s@);
            }
            None
        },
        Some(v) => {
            proof {
                assert(s@.skip(0) =~= s@);
            }
            Some(v)
        },
    }
}

/// Checks that `s[lo..hi]` is a run of digits of length >= 1.
fn check_digits(s: &[u8], lo: usize, hi: usize) -> (r: bool)
    requires
        lo <= hi <= s@.len(),
    ensures
        r == (hi - lo >= 1 && all_digits(s@.subrange(lo as int, hi as int))),
{
    let ghost d = s@.subrange(lo as int, hi as int);
    if lo == hi {
        return false;
    }
    let mut i: usize = lo;
    while i < hi
        invariant
            lo <= i <= hi <= s@.len(),
            d == s@.subrange(lo as int, hi as int),
            forall|j: int| 0 <= j < i - lo ==> is_digit(#[trigger] d[j]),
        decreases hi - i,
    {
        let b = s[i];
        if b < 48 || b > 57 {
            assert(d[i - lo] == b);
            return false;
        }
        i = i + 1;
    }
    true
}

/// Checks that `s[lo..hi]` is an optionally signed run of digits.
fn check_signed_digits(s: &[u8], lo: usize, hi: usize) -> (r: bool)
    requires
        lo <= hi <= s@.len(),
    ensures
        r == valid_signed(s@.subrange(lo as int, hi as int)),
{
    let ghost part = s@.subrange(lo as int, hi as int);
    let start: usize = if lo < hi && (s[lo] == 43 || s[lo] == 45) {
        lo + 1
    } else {
        lo
    };
    proof {
        if lo < hi && (s[lo as int] == 43 || s[lo as int] == 45) {
            assert(part.skip(1) =~= s@.subrange(lo + 1, hi as int));
        }
        assert(strip_sign(part) =~= s@.subrange(start as int, hi as int));
    }
    check_digits(s, start, hi)
}

/// Checks that `s[lo..hi]` has the shape of an (unsigned) float mantissa.
fn check_mantissa(s: &[u8], lo: usize, hi: usize) -> (r: bool)
    requires
        lo <= hi <= s@.len(),
    ensures
        r == is_mantissa(s@.subrange(lo as int, hi as int)),
{
    let ghost part = s@.subrange(lo as int, hi as int);
    // find the first '.'
    let mut i: usize = lo;
    while i < hi && s[i] != 46
        invariant
            lo <= i <= hi <= s@.len(),
            part == s@.subrange(lo as int, hi as int),
            forall|j: int| 0 <= j < i - lo ==> #[trigger] part[j] != 46,
        decreases hi - i,
    {
        i = i + 1;
    }
    if i == hi {
        // no dot: digits only
        let r = check_digits(s, lo, hi);
        proof {
            if !r {
                assert forall|k: int| !is_dot_split(part, k) by {
                    if 0 <= k < part.len() {
                        assert(part[k] != 46);
                    }
                }
            }
        }
        r
    } else {
        // dot at i: digits before (possibly none when i == lo), digits after
        assert(part[i - lo] == 46);
        let ghost k0 = i - lo;
        let pre_ok = if i == lo {
            true
        } else {
            check_digits(s, lo, i)
        };
        let post_ok = if i + 1 == hi {
            // "digits+ '.'" is allowed, "." alone or '.' with nothing either side is not
            true
        } else {
            check_digits(s, i + 1, hi)
        };
        let shape_ok = if i == lo {
            hi - lo >= 2 && post_ok
        } else {
            pre_ok && (i + 1 == hi || post_ok)
        };
        proof {
            assert(part.take(k0) =~= s@.subrange(lo as int, i as int));
            assert(part.skip(k0 + 1) =~= s@.subrange(i + 1, hi as int));
            // the dot rules out the all-digits branch
            assert(!(part.len() >= 1 && all_digits(part)));
            if shape_ok {
                assert(all_digits(part.take(k0)));
                assert(all_digits(part.skip(k0 + 1)));
                assert(is_dot_split(part, k0));
                assert(is_mantissa(part));
            } else {
                // no other dot position can satisfy the shape: any later dot
                // has this dot inside its digit prefix
                assert forall|k: int| !is_dot_split(part, k) by {
                    if 0 <= k < part.len() && part[k] == 46 {
                        if k < k0 {
                            assert(part[k] != 46);
                        } else if k > k0 {
                            if all_digits(part.take(k)) {
                                assert(is_digit(part.take(k)[k0]));
                            }
                        }
                    }
                }
            }
        }
        shape_ok
    }
}

/// Checks the whole float grammar.
pub fn check_float(s: &[u8]) -> (r: bool)
    ensures
        r == is_float_text(s@),
{
    let ghost b = strip_sign(s@);
    let start: usize = if s.len() > 0 && (s[0] == 43 || s[0] == 45) {
        1
    } else {
        0
    };
    proof {
        assert(b =~= s@.subrange(start as int, s@.len() as int));
    }
    // find the first 'e' or 'E' at or after start
    let mut i: usize = start;
    while i < s.len() && s[i] != 101 && s[i] != 69
        invariant
            start <= i <= s@.len(),
            b == s@.subrange(start as int, s@.len() as int),
            forall|j: int| 0 <= j < i - start ==> #[trigger] b[j] != 101 && b[j] != 69,
        decreases s@.len() - i,
    {
        i = i + 1;
    }
    if i == s.len() {
        // no exponent marker anywhere
        let r = check_mantissa(s, start, s.len());
        proof {
            assert(s@.subrange(start as int, s@.len() as int) == b);
            if !r {
                assert forall|e: int| !is_exp_split(b, e) by {
                    if 0 <= e < b.len() {
                        assert(b[e] != 101 && b[e] != 69);
                    }
                }
            }
        }
        r
    } else {
        assert(b[i - start] == 101 || b[i - start] == 69);
        let ghost e0 = i - start;
        let mant_ok = check_mantissa(s, start, i);
        let exp_ok = check_signed_digits(s, i + 1, s.len());
        proof {
            assert(b.take(e0) =~= s@.subrange(start as int, i as int));
            assert(b.skip(e0 + 1) =~= s@.subrange(i + 1, s@.len() as int));
            // a mantissa holds only digits and a dot, so no earlier position
            // can carry the exponent marker, and no later one can leave a
            // digit-only exponent
            if mant_ok && exp_ok {
                assert(is_exp_split(b, e0));
                assert(is_float_text(s@));
            } else {
                if is_mantissa(b) {
                    assert(is_digit(b[e0]) || b[e0] == 46) by {
                        if all_digits(b) {
                            assert(is_digit(b[e0]));
                        } else {
                            let k = choose|k: int| is_dot_split(b, k);
                            if e0 < k {
                                assert(is_digit(b.take(k)[e0]));
                            } else if e0 > k {
                                assert(is_digit(b.skip(k + 1)[e0 - k - 1]));
                            }
                        }
                    }
                }
                assert forall|e: int| !is_exp_split(b, e) by {
                    if 0 <= e < b.len() && (b[e] == 101 || b[e] == 69) {
                        if e < e0 {
                            assert(b[e] != 101 && b[e] != 69);
                        } else if e > e0 {
                            if is_mantissa(b.take(e)) {
                                let t = b.take(e);
                                assert(t[e0] == b[e0]);
                                if all_digits(t) {
                                    assert(is_digit(t[e0]));
                                } else {
                                    let k = choose|k: int| is_dot_split(t, k);
                                    if e0 < k {
                                        assert(is_digit(t.take(k)[e0]));
                                    } else if e0 > k {
                                        assert(is_digit(t.skip(k + 1)[e0 - k - 1]));
                                    }
                                }
                            }
                        }
                    }
                }
            }
        }
        mant_ok && exp_ok
    }
}

/// Coerces a captured substring under a hint, as the matcher does per field.
pub fn coerce(h: Hint, cap: &[u8]) -> (r: Option<Value>)
    ensures
        (match r {
            Some(v) => coerced(h, cap@) == Some(v@),
            None => coerced(h, cap@) is None,
        }),
{
    match h {
        Hint::Str => Some(Value::Str(vstd::slice::slice_to_vec(cap))),
        Hint::Int => match parse_int(cap) {
            Some(v) => Some(Value::Int(v)),
            None => None,
        },
        Hint::UInt => match parse_uint(cap) {
            Some(v) => Some(Value::UInt(v)),
            None => None,
        },
        Hint::Float => if check_float(cap) {
            Some(Value::Float(vstd::slice::slice_to_vec(cap)))
        } else {
            None
        },
        Hint::Bool => {
            if cap.len() == 4 && cap[0] == 116 && cap[1] == 114 && cap[2] == 117 && cap[3] == 101 {
                assert(cap@ =~= true_text());
                Some(Value::Bool(true))
            } else if cap.len() == 5 && cap[0] == 102 && cap[1] == 97 && cap[2] == 108 && cap[3]
                == 115 && cap[4] == 101 {
                assert(cap@ =~= false_text());
                Some(Value::Bool(false))
            } else {
                proof {
                    if cap@ == true_text() {
                        assert(cap@.len() == 4);
                        assert(cap@[0] == 116 && cap@[1] == 114 && cap@[2] == 117 && cap@[3]
                            == 101);
                    }
                    if cap@ == false_text() {
                        assert(cap@.len() == 5);
                    }
                }
                None
            }
        },
    }
}

} // verus!
