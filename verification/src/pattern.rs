//! The pattern compiler: a brace-delimited template is scanned into an
//! ordered sequence of literal segments and field descriptors.
//!
//! Grammar: every `{` opens a field (there is no escape for a literal
//! brace); the field's content up to the first `}` is a name, optionally
//! followed by `:` and a type hint.  A `{` that is never closed is the one
//! compile-time error.  A field is "last" exactly when nothing at all
//! follows its closing brace; only that field may later capture whitespace.

use vstd::prelude::*;

use crate::bytes::{find_byte, find_limited, lemma_find_byte, sub_vec};
use crate::value::Hint;

verus! {

/// Mathematical shape of a field descriptor.
pub struct GField {
    pub name: Seq<u8>,
    pub hint: Hint,
    pub last: bool,
}

/// Mathematical shape of one segment.
pub enum GSeg {
    Lit(Seq<u8>),
    Field(GField),
}

/// A field descriptor: name (possibly empty, for an anonymous field),
/// resolved type hint, and whether the field closes the template.
#[derive(Debug)]
pub struct FieldSpec {
    pub name: Vec<u8>,
    pub hint: Hint,
    pub last: bool,
}

impl View for FieldSpec {
    type V = GField;

    open spec fn view(&self) -> GField {
        GField { name: self.name@, hint: self.hint, last: self.last }
    }
}

/// One compiled segment: literal text to match verbatim, or a field.
#[derive(Debug)]
pub enum Segment {
    Lit(Vec<u8>),
    Field(FieldSpec),
}

impl View for Segment {
    type V = GSeg;

    open spec fn view(&self) -> GSeg {
        match self {
            Segment::Lit(l) => GSeg::Lit(l@),
            Segment::Field(f) => GSeg::Field(f@),
        }
    }
}

/// Compile-time failure: the `{` at byte offset `pos` is never closed.
#[derive(Clone, Copy, PartialEq, Eq, Structural, Debug)]
pub struct GrammarError {
    pub pos: usize,
}

/// A compiled template.
#[derive(Debug)]
pub struct Pattern {
    pub segments: Vec<Segment>,
}

impl View for Pattern {
    type V = Seq<GSeg>;

    open spec fn view(&self) -> Seq<GSeg> {
        self.segments@.map_values(|s: Segment| s@)
    }
}

/// Resolution of a type-hint text.  Unknown hints fall back to `Str`,
/// matching the grammar's permissive stance.
pub open spec fn hint_of(t: Seq<u8>) -> Hint {
    if t == seq![100u8] {  // d
        Hint::Int
    } else if t == seq![117u8] {  // u
        Hint::UInt
    } else if t == seq![102u8] {  // f
        Hint::Float
    } else if t == seq![98u8] {  // b
        Hint::Bool
    } else {
        Hint::Str
    }
}

/// The compiled form of a template, or `Err(p)` with `p` the offset of an
/// unterminated `{`.
pub open spec fn compile_spec(s: Seq<u8>) -> Result<Seq<GSeg>, int>
    decreases s.len(),
    via compile_spec_dec
{
    if s.len() == 0 {
        Ok(Seq::empty())
    } else if s[0] == 123 {
        let close = find_byte(s.skip(1), 125);
        if close == s.len() - 1 {
            // no closing brace anywhere after this '{'
            Err(0)
        } else {
            let inner = s.skip(1).take(close);
            let rest = s.skip(2 + close);
            let colon = find_byte(inner, 58);
            let name = inner.take(colon);
            let hint = hint_of(
                if colon < inner.len() {
                    inner.skip(colon + 1)
                } else {
                    Seq::empty()
                },
            );
            let fld = GSeg::Field(GField { name, hint, last: rest.len() == 0 });
            match compile_spec(rest) {
                Ok(t) => Ok(seq![fld] + t),
                Err(p) => Err(2 + close + p),
            }
        }
    } else {
        let k = 1 + find_byte(s.skip(1), 123);
        let lit = s.take(k);
        match compile_spec(s.skip(k)) {
            Ok(t) => Ok(seq![GSeg::Lit(lit)] + t),
            Err(p) => Err(k + p),
        }
    }
}

#[via_fn]
proof fn compile_spec_dec(s: Seq<u8>) {
    if s.len() > 0 {
        if s[0] == 123 {
            lemma_find_byte(s.skip(1), 125);
        } else {
            lemma_find_byte(s.skip(1), 123);
        }
    }
}

/// Well-formedness of a segment at its position: literals are non-empty
/// and never adjacent, and the `last` mark sits exactly on a field that
/// ends the template.
pub open spec fn wf_seg_at(v: Seq<GSeg>, i: int) -> bool {
    match v[i] {
        GSeg::Lit(l) => l.len() >= 1 && (i + 1 < v.len() ==> v[i + 1] is Field),
        GSeg::Field(f) => f.last <==> i == v.len() - 1,
    }
}

impl Pattern {
    /// The structural invariant every compiled pattern satisfies.
    pub open spec fn wf(&self) -> bool {
        forall|i: int| 0 <= i < self@.len() ==> wf_seg_at(self@, i)
    }
}

proof fn lemma_compile_wf(s: Seq<u8>)
    ensures
        compile_spec(s) is Ok ==> ({
            let t = compile_spec(s)->Ok_0;
            &&& (forall|i: int| 0 <= i < t.len() ==> wf_seg_at(t, i))
            &&& (t.len() == 0 <==> s.len() == 0)
            &&& (s.len() > 0 && s[0] == 123 ==> t[0] is Field)
            &&& (s.len() > 0 && s[0] != 123 ==> t[0] is Lit)
        }),
    decreases s.len(),
{
    if s.len() == 0 {
    } else if s[0] == 123 {
        lemma_find_byte(s.skip(1), 125);
        let close = find_byte(s.skip(1), 125);
        if close != s.len() - 1 {
            let rest = s.skip(2 + close);
            lemma_compile_wf(rest);
            if compile_spec(s) is Ok {
                let t = compile_spec(s)->Ok_0;
                let t1 = compile_spec(rest)->Ok_0;
                assert forall|i: int| 0 <= i < t.len() implies wf_seg_at(t, i) by {
                    if i == 0 {
                        assert(t1.len() == 0 <==> rest.len() == 0);
                    } else {
                        assert(wf_seg_at(t1, i - 1));
                        assert(t[i] == t1[i - 1]);
                        if i < t.len() - 1 {
                            assert(t[i + 1] == t1[i]);
                        }
                    }
                }
            }
        }
    } else {
        lemma_find_byte(s.skip(1), 123);
        let k = 1 + find_byte(s.skip(1), 123);
        let rest = s.skip(k);
        lemma_compile_wf(rest);
        if compile_spec(s) is Ok {
            let t = compile_spec(s)->Ok_0;
            let t1 = compile_spec(rest)->Ok_0;
            assert forall|i: int| 0 <= i < t.len() implies wf_seg_at(t, i) by {
                if i == 0 {
                    assert(s.take(k).len() >= 1);
                    if t.len() > 1 {
                        assert(t[1] == t1[0]);
                        assert(rest.len() > 0);
                        if rest[0] != 123 {
                            // the literal ran to the first '{' or to the end
                            assert(s.skip(1)[k - 1] == s[k]);
                            assert(false);
                        }
                    }
                } else {
                    assert(wf_seg_at(t1, i - 1));
                    assert(t[i] == t1[i - 1]);
                    if i < t.len() - 1 {
                        assert(t[i + 1] == t1[i]);
                    }
                }
            }
        }
    }
}

/// Compiles a template.  Fails exactly when some `{` is never closed, and
/// then reports the first such `{`.
pub fn compile(spec: &[u8]) -> (r: Result<Pattern, GrammarError>)
    ensures
        (match r {
            Ok(p) => compile_spec(spec@) == Ok::<Seq<GSeg>, int>(p@) && p.wf(),
            Err(e) => compile_spec(spec@) == Err::<Seq<GSeg>, int>(e.pos as int) && e.pos
                < spec@.len(),
        }),
{
    let mut segs: Vec<Segment> = Vec::new();
    let mut pos: usize = 0;
    proof {
        assert(spec@.skip(0) =~= spec@);
        assert(segs@.map_values(|s: Segment| s@) =~= Seq::<GSeg>::empty());
        if compile_spec(spec@) is Ok {
            assert(Seq::<GSeg>::empty() + compile_spec(spec@)->Ok_0 =~= compile_spec(
                spec@,
            )->Ok_0);
        }
    }
    while pos < spec.len()
        invariant
            pos <= spec@.len(),
            compile_spec(spec@) == (match compile_spec(spec@.skip(pos as int)) {
                Ok(t) => Ok::<Seq<GSeg>, int>(segs@.map_values(|s: Segment| s@) + t),
                Err(p) => Err::<Seq<GSeg>, int>(pos + p),
            }),
        decreases spec@.len() - pos,
    {
        let ghost u = spec@.skip(pos as int);
        proof {
            assert(u.skip(1) =~= spec@.subrange(pos + 1, spec@.len() as int));
        }
        if spec[pos] == 123 {
            let close = find_limited(spec, pos + 1, spec.len(), 125);
            proof {
                lemma_find_byte(u.skip(1), 125);
            }
            if close == spec.len() {
                assert(compile_spec(u) == Err::<Seq<GSeg>, int>(0));
                return Err(GrammarError { pos });
            }
            let ghost close_rel = close - pos - 1;
            let ghost inner = u.skip(1).take(close_rel);
            proof {
                assert(inner =~= spec@.subrange(pos + 1, close as int));
            }
            let colon = find_limited(spec, pos + 1, close, 58);
            proof {
                lemma_find_byte(inner, 58);
                assert(inner.take(colon - pos - 1) =~= spec@.subrange(pos + 1, colon as int));
            }
            let name = sub_vec(spec, pos + 1, colon);
            let hint: Hint = if colon < close {
                proof {
                    assert(inner.skip(colon - pos - 1 + 1) =~= spec@.subrange(
                        colon + 1,
                        close as int,
                    ));
                }
                if close - colon == 2 {
                    let h = spec[colon + 1];
                    proof {
                        let t = spec@.subrange(colon + 1, close as int);
                        assert(t =~= seq![h]);
                        if h == 100 {
                            assert(t =~= seq![100u8]);
                        } else {
                            assert(t != seq![100u8]) by {
                                if t == seq![100u8] {
                                    assert(t[0] == 100u8);
                                }
                            }
                        }
                        if h == 117 {
                            assert(t =~= seq![117u8]);
                        } else {
                            assert(t != seq![117u8]) by {
                                if t == seq![117u8] {
                                    assert(t[0] == 117u8);
                                }
                            }
                        }
                        if h == 102 {
                            assert(t =~= seq![102u8]);
                        } else {
                            assert(t != seq![102u8]) by {
                                if t == seq![102u8] {
                                    assert(t[0] == 102u8);
                                }
                            }
                        }
                        if h == 98 {
                            assert(t =~= seq![98u8]);
                        } else {
                            assert(t != seq![98u8]) by {
                                if t == seq![98u8] {
                                    assert(t[0] == 98u8);
                                }
                            }
                        }
                    }
                    if h == 100 {
                        Hint::Int
                    } else if h == 117 {
                        Hint::UInt
                    } else if h == 102 {
                        Hint::Float
                    } else if h == 98 {
                        Hint::Bool
                    } else {
                        Hint::Str
                    }
                } else {
                    proof {
                        let t = spec@.subrange(colon + 1, close as int);
                        assert(t.len() != 1);
                        assert(t != seq![100u8] && t != seq![117u8] && t != seq![102u8] && t
                            != seq![98u8]) by {
                            assert(seq![100u8].len() == 1);
                            assert(seq![117u8].len() == 1);
                            assert(seq![102u8].len() == 1);
                            assert(seq![98u8].len() == 1);
                        }
                    }
                    Hint::Str
                }
            } else {
                proof {
                    let t = Seq::<u8>::empty();
                    assert(t != seq![100u8] && t != seq![117u8] && t != seq![102u8] && t
                        != seq![98u8]) by {
                        assert(seq![100u8].len() == 1);
                        assert(seq![117u8].len() == 1);
                        assert(seq![102u8].len() == 1);
                        assert(seq![98u8].len() == 1);
                    }
                }
                Hint::Str
            };
            let last = close + 1 == spec.len();
            let seg = Segment::Field(FieldSpec { name, hint, last });
            proof {
                assert(u.skip(2 + close_rel) =~= spec@.skip(close + 1));
                let fld = GSeg::Field(
                    GField {
                        name: inner.take(colon - pos - 1),
                        hint: hint_of(
                            if colon - pos - 1 < inner.len() {
                                inner.skip(colon - pos - 1 + 1)
                            } else {
                                Seq::empty()
                            },
                        ),
                        last: spec@.skip(close + 1).len() == 0,
                    },
                );
                assert(name@ == fld->Field_0.name);
                assert(hint == fld->Field_0.hint);
                assert(last == fld->Field_0.last);
                assert(seg@ == fld);
                let m = segs@.map_values(|s: Segment| s@);
                assert(segs@.push(seg).map_values(|s: Segment| s@) =~= m + seq![seg@]);
                assert forall|t: Seq<GSeg>| (m + seq![fld]) + t =~= m + (seq![fld] + t) by {}
            }
            segs.push(seg);
            pos = close + 1;
        } else {
            let k = find_limited(spec, pos + 1, spec.len(), 123);
            proof {
                lemma_find_byte(u.skip(1), 123);
                assert(u.take(k - pos) =~= spec@.subrange(pos as int, k as int));
                assert(u.skip(k - pos) =~= spec@.skip(k as int));
            }
            let lit = sub_vec(spec, pos, k);
            let seg = Segment::Lit(lit);
            proof {
                let m = segs@.map_values(|s: Segment| s@);
                assert(segs@.push(seg).map_values(|s: Segment| s@) =~= m + seq![seg@]);
                assert forall|t: Seq<GSeg>| (m + seq![seg@]) + t =~= m + (seq![seg@] + t) by {}
            }
            segs.push(seg);
            pos = k;
        }
    }
    proof {
        assert(spec@.skip(pos as int) =~= Seq::<u8>::empty());
        assert(compile_spec(spec@.skip(pos as int)) == Ok::<Seq<GSeg>, int>(Seq::empty()));
        assert(segs@.map_values(|s: Segment| s@) + Seq::<GSeg>::empty() =~= segs@.map_values(
            |s: Segment| s@,
        ));
        lemma_compile_wf(spec@);
    }
    Ok(Pattern { segments: segs })
}

} // verus!
