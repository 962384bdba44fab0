//! The round-trip law: a template of word fields separated by literal
//! text, used both to match a line and as the render template, gives the
//! line back exactly.

use vstd::prelude::*;

use crate::matcher::{best_k, field_fits, greedy_caps, match_spec, seg_match, entries_of};
use crate::pattern::{compile_spec, GField, GSeg};
use crate::render::{brace_wrap, render_spec, replace_spec, subst_entries, subst_extras, value_text};
use crate::value::{coerced, Hint, ValModel};

verus! {

/// The template text a segment stands for: its literal bytes, or its
/// placeholder `{name}` (a field written without a type hint).
pub open spec fn segs_text(segs: Seq<GSeg>) -> Seq<u8>
    decreases segs.len(),
{
    if segs.len() == 0 {
        Seq::empty()
    } else {
        (match segs[0] {
            GSeg::Lit(t) => t,
            GSeg::Field(f) => brace_wrap(f.name),
        }) + segs_text(segs.skip(1))
    }
}

/// A "plain" segment: literal text free of braces (as every compiled
/// literal is), or a named, untyped, non-last field whose name holds no
/// brace (as the grammar guarantees).
pub open spec fn plain_seg(g: GSeg) -> bool {
    match g {
        GSeg::Lit(t) => t.len() >= 1 && (forall|j: int| 0 <= j < t.len() ==> #[trigger] t[j] != 123),
        GSeg::Field(f) => f.hint == Hint::Str && !f.last && f.name.len() >= 1 && (forall|j: int|
            0 <= j < f.name.len() ==> #[trigger] f.name[j] != 123 && f.name[j] != 125),
    }
}

pub open spec fn plain_fields(segs: Seq<GSeg>) -> bool {
    forall|i: int| 0 <= i < segs.len() ==> plain_seg(#[trigger] segs[i])
}

/// The name of a field segment.
pub open spec fn seg_name(g: GSeg) -> Seq<u8> {
    match g {
        GSeg::Lit(_) => Seq::empty(),
        GSeg::Field(f) => f.name,
    }
}

/// No two fields share a name.
pub open spec fn distinct_names(segs: Seq<GSeg>) -> bool {
    forall|i: int, j: int|
        #![trigger seg_name(segs[i]), seg_name(segs[j])]
        0 <= i < j < segs.len() && segs[i] is Field && segs[j] is Field ==> seg_name(segs[i])
            != seg_name(segs[j])
}

/// No field of `segs` is named `n`.
pub open spec fn name_absent(segs: Seq<GSeg>, n: Seq<u8>) -> bool {
    forall|i: int|
        0 <= i < segs.len() && segs[i] is Field ==> seg_name(#[trigger] segs[i]) != n
}

/// No captured value contains an opening brace.  A capture that itself
/// looks like a placeholder (say, the line `{b} x` against `{a} {b}`)
/// would be substituted again by a later pass, and the law fails there.
pub open spec fn caps_brace_free(segs: Seq<GSeg>, l: Seq<u8>) -> bool {
    forall|i: int, j: int|
        0 <= i < greedy_caps(segs, l).len() && 0 <= j < greedy_caps(segs, l)[i].len()
            ==> #[trigger] greedy_caps(segs, l)[i][j] != 123
}

/// A brace-free prefix passes unchanged through a replacement whose
/// pattern starts with a brace.
proof fn lemma_replace_prefix(a: Seq<u8>, x: Seq<u8>, from: Seq<u8>, to: Seq<u8>)
    requires
        from.len() >= 1,
        from[0] == 123,
        forall|j: int| 0 <= j < a.len() ==> #[trigger] a[j] != 123,
    ensures
        replace_spec(a + x, from, to) == a + replace_spec(x, from, to),
    decreases a.len(),
{
    if a.len() == 0 {
        assert(a + x =~= x);
        assert(a + replace_spec(x, from, to) =~= replace_spec(x, from, to));
    } else {
        let s = a + x;
        if s.len() < from.len() {
            assert(x.len() < from.len());
            assert(replace_spec(s, from, to) == s);
            assert(replace_spec(x, from, to) == x);
        } else {
            assert(s[0] == a[0]);
            assert(s.take(from.len() as int) != from) by {
                if s.take(from.len() as int) == from {
                    assert(s.take(from.len() as int)[0] == from[0]);
                }
            }
            assert(s.skip(1) =~= a.skip(1) + x);
            lemma_replace_prefix(a.skip(1), x, from, to);
            assert(replace_spec(s, from, to) == seq![s[0]] + (a.skip(1) + replace_spec(
                x,
                from,
                to,
            )));
            assert(seq![s[0]] + (a.skip(1) + replace_spec(x, from, to)) =~= a + replace_spec(
                x,
                from,
                to,
            ));
        }
    }
}

/// A brace-free prefix passes unchanged through a whole entry pass.
proof fn lemma_subst_prefix(a: Seq<u8>, x: Seq<u8>, en: Seq<(Seq<u8>, ValModel)>)
    requires
        forall|j: int| 0 <= j < a.len() ==> #[trigger] a[j] != 123,
    ensures
        subst_entries(a + x, en) == a + subst_entries(x, en),
    decreases en.len(),
{
    if en.len() > 0 {
        let ph = brace_wrap(en[0].0);
        assert(ph[0] == 123);
        lemma_replace_prefix(a, x, ph, value_text(en[0].1));
        lemma_subst_prefix(a, replace_spec(x, ph, value_text(en[0].1)), en.skip(1));
    }
}

/// The text of segments whose fields are all named differently from `n`
/// is left unchanged by replacing `{n}`.
proof fn lemma_replace_absent(segs: Seq<GSeg>, n: Seq<u8>, c: Seq<u8>)
    requires
        plain_fields(segs),
        name_absent(segs, n),
        n.len() >= 1,
        forall|j: int| 0 <= j < n.len() ==> #[trigger] n[j] != 125,
    ensures
        replace_spec(segs_text(segs), brace_wrap(n), c) == segs_text(segs),
    decreases segs.len(),
{
    let from = brace_wrap(n);
    assert(from.len() == n.len() + 2);
    if segs.len() == 0 {
        assert(segs_text(segs) == Seq::<u8>::empty());
    } else {
        let rest = segs.skip(1);
        assert(plain_seg(segs[0]));
        assert forall|i: int| 0 <= i < rest.len() implies plain_seg(#[trigger] rest[i]) by {
            assert(rest[i] == segs[i + 1]);
        }
        assert forall|i: int|
            0 <= i < rest.len() && rest[i] is Field implies seg_name(#[trigger] rest[i]) != n by {
            assert(rest[i] == segs[i + 1]);
            assert(seg_name(segs[i + 1]) != n);
        }
        lemma_replace_absent(rest, n, c);
        match segs[0] {
            GSeg::Lit(t) => {
                lemma_replace_prefix(t, segs_text(rest), from, c);
            },
            GSeg::Field(f) => {
                let m = f.name;
                let s = segs_text(segs);
                assert(s =~= (seq![123u8] + m + seq![125u8]) + segs_text(rest));
                if s.len() < from.len() {
                    assert(replace_spec(s, from, c) == s);
                } else {
                    let lf = from.len() as int;
                    assert(s.take(lf) != from) by {
                        if s.take(lf) == from {
                            let ln = n.len() as int;
                            let lm = m.len() as int;
                            if ln < lm {
                                assert(from[ln + 1] == 125);
                                assert(s[ln + 1] == m[ln]);
                                assert(s.take(lf)[ln + 1] == s[ln + 1]);
                                assert(m[ln] != 125);
                            } else if ln == lm {
                                assert(n =~= m) by {
                                    assert forall|j: int| 0 <= j < ln implies n[j] == m[j] by {
                                        assert(from[j + 1] == n[j]);
                                        assert(s[j + 1] == m[j]);
                                        assert(s.take(lf)[j + 1] == s[j + 1]);
                                    }
                                }
                                assert(seg_name(segs[0]) != n);
                            } else {
                                assert(from[lm + 1] == n[lm]);
                                assert(s[lm + 1] == 125);
                                assert(s.take(lf)[lm + 1] == s[lm + 1]);
                                assert(n[lm] != 125);
                            }
                        }
                    }
                    assert(s[0] == 123);
                    assert(s.skip(1) =~= (m + seq![125u8]) + segs_text(rest));
                    assert forall|j: int| 0 <= j < (m + seq![125u8]).len() implies #[trigger] (m
                        + seq![125u8])[j] != 123 by {
                        if j < m.len() {
                            assert((m + seq![125u8])[j] == m[j]);
                        } else {
                            assert((m + seq![125u8])[j] == 125);
                        }
                    }
                    lemma_replace_prefix(m + seq![125u8], segs_text(rest), from, c);
                    assert(replace_spec(s, from, c) == seq![s[0]] + ((m + seq![125u8])
                        + segs_text(rest)));
                    assert(seq![s[0]] + ((m + seq![125u8]) + segs_text(rest)) =~= s);
                }
            },
        }
    }
}

/// The greedy search finds a working capture length whenever one exists.
proof fn lemma_best_k_found(f: GField, rest: Seq<GSeg>, l: Seq<u8>, k: int, k0: int)
    requires
        1 <= k0 <= k,
        field_fits(f, l.take(k0)),
        seg_match(rest, l.skip(k0)),
    ensures
        ({
            let b = best_k(f, rest, l, k);
            k0 <= b <= k && field_fits(f, l.take(b)) && seg_match(rest, l.skip(b))
        }),
    decreases k,
{
    if !(field_fits(f, l.take(k)) && seg_match(rest, l.skip(k))) {
        lemma_best_k_found(f, rest, l, k - 1, k0);
    }
}

/// Round trip.  A template whose fields are all word fields (non-last,
/// untyped, named, names distinct), matched against a line, re-renders
/// that line exactly from its own match result — provided no captured
/// value contains an opening brace.
///
/// The last two hypotheses go beyond the informal statement's own
/// proviso, and both are necessary: with a duplicated name only the
/// first capture is rendered back (the one placeholder is consumed by
/// the first entry's pass), and a word that itself spells a placeholder
/// — the line `{b} x` against `{a} {b}` — is substituted once more by a
/// later entry's pass.
pub proof fn lemma_round_trip(segs: Seq<GSeg>, l: Seq<u8>)
    requires
        plain_fields(segs),
        distinct_names(segs),
        seg_match(segs, l),
        caps_brace_free(segs, l),
    ensures
        match_spec(segs, l) is Some,
        render_spec(segs_text(segs), match_spec(segs, l)->Some_0, Seq::empty()) == l,
    decreases segs.len(),
{
    assert(subst_extras(segs_text(segs), Seq::empty()) == segs_text(segs));
    let caps = greedy_caps(segs, l);
    if segs.len() == 0 {
        assert(l =~= Seq::<u8>::empty());
        assert(entries_of(segs, caps) == Some(Seq::<(Seq<u8>, ValModel)>::empty()));
        assert(subst_entries(segs_text(segs), Seq::empty()) == segs_text(segs));
        assert(segs_text(segs) == Seq::<u8>::empty());
    } else {
        let rest = segs.skip(1);
        assert(plain_seg(segs[0]));
        assert forall|i: int| 0 <= i < rest.len() implies plain_seg(#[trigger] rest[i]) by {
            assert(rest[i] == segs[i + 1]);
        }
        assert forall|i: int, j: int|
            #![trigger seg_name(rest[i]), seg_name(rest[j])]
            0 <= i < j < rest.len() && rest[i] is Field && rest[j] is Field implies seg_name(
            rest[i]) != seg_name(rest[j]) by {
            assert(rest[i] == segs[i + 1]);
            assert(rest[j] == segs[j + 1]);
            assert(seg_name(segs[i + 1]) != seg_name(segs[j + 1]));
        }
        match segs[0] {
            GSeg::Lit(t) => {
                let l2 = l.skip(t.len() as int);
                assert(seg_match(rest, l2));
                assert(greedy_caps(segs, l) == greedy_caps(rest, l2));
                assert forall|i: int, j: int|
                    0 <= i < greedy_caps(rest, l2).len() && 0 <= j < greedy_caps(rest, l2)[i].len()
                    implies #[trigger] greedy_caps(rest, l2)[i][j] != 123 by {
                    assert(greedy_caps(segs, l)[i][j] != 123);
                }
                lemma_round_trip(rest, l2);
                assert(entries_of(segs, caps) == entries_of(rest, caps));
                let en = match_spec(segs, l)->Some_0;
                assert(en == match_spec(rest, l2)->Some_0);
                lemma_subst_prefix(t, segs_text(rest), en);
                assert(segs_text(segs) == t + segs_text(rest));
                assert(subst_entries(segs_text(segs), en) == t + subst_entries(
                    segs_text(rest),
                    en,
                ));
                assert(subst_entries(segs_text(rest), en) == l2);
                assert(t + l2 =~= l);
            },
            GSeg::Field(f) => {
                assert(f.hint == Hint::Str && !f.last && f.name.len() >= 1);
                let k0 = choose|k: int|
                    1 <= k <= l.len() && field_fits(f, l.take(k)) && seg_match(
                        rest,
                        #[trigger] l.skip(k),
                    );
                lemma_best_k_found(f, rest, l, l.len() as int, k0);
                let k = best_k(f, rest, l, l.len() as int);
                let c1 = l.take(k);
                let l2 = l.skip(k);
                assert(seg_match(rest, l2));
                assert(caps == seq![c1] + greedy_caps(rest, l2));
                assert(caps[0] == c1);
                assert forall|i: int, j: int|
                    0 <= i < greedy_caps(rest, l2).len() && 0 <= j < greedy_caps(rest, l2)[i].len()
                    implies #[trigger] greedy_caps(rest, l2)[i][j] != 123 by {
                    assert(caps[i + 1] == greedy_caps(rest, l2)[i]);
                    assert(caps[i + 1][j] != 123);
                }
                lemma_round_trip(rest, l2);
                // the head entry
                assert(coerced(f.hint, c1) == Some(ValModel::Str(c1)));
                assert(caps.skip(1) =~= greedy_caps(rest, l2));
                let en_rest = match_spec(rest, l2)->Some_0;
                assert(entries_of(rest, caps.skip(1)) == Some(en_rest));
                let en = seq![(f.name, ValModel::Str(c1))] + en_rest;
                assert(entries_of(segs, caps) == Some(en));
                assert(match_spec(segs, l)->Some_0 == en);
                // render: the head placeholder consumes itself, the rest
                // of the template is untouched by it
                let t = segs_text(segs);
                let ph = brace_wrap(f.name);
                assert(t == ph + segs_text(rest));
                assert(en[0] == (f.name, ValModel::Str(c1)));
                assert(en.skip(1) =~= en_rest);
                assert(value_text(ValModel::Str(c1)) == c1);
                // replace_spec(t, ph, c1) == c1 + segs_text(rest)
                assert(t.len() >= ph.len());
                assert(t.take(ph.len() as int) =~= ph);
                assert(t.skip(ph.len() as int) =~= segs_text(rest));
                assert(replace_spec(t, ph, c1) == c1 + replace_spec(segs_text(rest), ph, c1));
                assert forall|i: int|
                    0 <= i < rest.len() && rest[i] is Field implies seg_name(#[trigger] rest[i])
                    != f.name by {
                    assert(rest[i] == segs[i + 1]);
                    assert(seg_name(segs[0]) != seg_name(segs[i + 1]));
                }
                lemma_replace_absent(rest, f.name, c1);
                assert(replace_spec(t, ph, c1) == c1 + segs_text(rest));
                // caps are brace-free, so c1 passes through the rest pass
                assert forall|j: int| 0 <= j < c1.len() implies #[trigger] c1[j] != 123 by {
                    assert(caps[0][j] != 123);
                }
                lemma_subst_prefix(c1, segs_text(rest), en_rest);
                assert(subst_entries(t, en) == subst_entries(replace_spec(t, ph, c1), en_rest));
                assert(subst_entries(c1 + segs_text(rest), en_rest) == c1 + subst_entries(
                    segs_text(rest),
                    en_rest,
                ));
                assert(subst_entries(segs_text(rest), en_rest) == l2);
                assert(c1 + l2 =~= l);
            },
        }
    }
}

/// The law stated at the library boundary: for a compiled template whose
/// own text the pattern reproduces (a template written without type
/// hints), matching and re-rendering gives the line back.
pub proof fn lemma_compile_round_trip(spec: Seq<u8>, l: Seq<u8>)
    requires
        compile_spec(spec) is Ok,
        segs_text(compile_spec(spec)->Ok_0) == spec,
        plain_fields(compile_spec(spec)->Ok_0),
        distinct_names(compile_spec(spec)->Ok_0),
        seg_match(compile_spec(spec)->Ok_0, l),
        caps_brace_free(compile_spec(spec)->Ok_0, l),
    ensures
        match_spec(compile_spec(spec)->Ok_0, l) is Some,
        render_spec(spec, match_spec(compile_spec(spec)->Ok_0, l)->Some_0, Seq::empty()) == l,
{
    lemma_round_trip(compile_spec(spec)->Ok_0, l);
}

} // verus!
