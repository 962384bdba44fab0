//! The matcher: applies a compiled pattern to a full input line.
//!
//! Conceptually the pattern is an anchored expression: literal segments
//! must appear verbatim, a non-last field stands for one or more
//! non-whitespace bytes, the last field for one or more bytes of any kind.
//! Fields are greedy: each takes the longest capture that still lets the
//! remainder of the pattern match the remainder of the line, earlier
//! fields first.  After a structural match every capture is coerced per
//! its field's type hint; any coercion failure turns the whole line into
//! a non-match.  Absence of a match is a normal outcome, never an error.

use vstd::prelude::*;

use crate::bytes::{bytes_at, bytes_eq, copy_vec, is_ws, spec_is_ws, sub_vec};
use crate::pattern::{GSeg, GField, Pattern, Segment};
use crate::value::{coerce, coerced, ValModel, Value};

verus! {

/// Can `cap` be the text captured by field `f`?
pub open spec fn field_fits(f: GField, cap: Seq<u8>) -> bool {
    cap.len() >= 1 && (f.last || (forall|i: int|
        0 <= i < cap.len() ==> !spec_is_ws(#[trigger] cap[i])))
}

/// Structural match: the whole line can be split along the segments.
pub open spec fn seg_match(segs: Seq<GSeg>, line: Seq<u8>) -> bool
    decreases segs.len(),
{
    if segs.len() == 0 {
        line.len() == 0
    } else {
        match segs[0] {
            GSeg::Lit(l) => l.len() <= line.len() && line.take(l.len() as int) == l && seg_match(
                segs.skip(1),
                line.skip(l.len() as int),
            ),
            GSeg::Field(f) => exists|k: int|
                #![trigger line.skip(k)]
                1 <= k <= line.len() && field_fits(f, line.take(k)) && seg_match(
                    segs.skip(1),
                    line.skip(k),
                ),
        }
    }
}

/// The largest `k0 <= k` whose capture fits and lets the rest match, or 0.
pub open spec fn best_k(f: GField, rest: Seq<GSeg>, line: Seq<u8>, k: int) -> int
    decreases k,
{
    if k <= 0 {
        0
    } else if field_fits(f, line.take(k)) && seg_match(rest, line.skip(k)) {
        k
    } else {
        best_k(f, rest, line, k - 1)
    }
}

/// The captures of the greedy split, in field order.
pub open spec fn greedy_caps(segs: Seq<GSeg>, line: Seq<u8>) -> Seq<Seq<u8>>
    decreases segs.len(),
{
    if segs.len() == 0 {
        Seq::empty()
    } else {
        match segs[0] {
            GSeg::Lit(l) => greedy_caps(segs.skip(1), line.skip(l.len() as int)),
            GSeg::Field(f) => {
                let k = best_k(f, segs.skip(1), line, line.len() as int);
                seq![line.take(k)] + greedy_caps(segs.skip(1), line.skip(k))
            },
        }
    }
}

/// The entries a match produces from its captures: coercion per hint,
/// anonymous fields dropped from the result.
pub open spec fn entries_of(segs: Seq<GSeg>, caps: Seq<Seq<u8>>) -> Option<
    Seq<(Seq<u8>, ValModel)>,
>
    decreases segs.len(),
{
    if segs.len() == 0 {
        Some(Seq::empty())
    } else {
        match segs[0] {
            GSeg::Lit(_) => entries_of(segs.skip(1), caps),
            GSeg::Field(f) => {
                if caps.len() == 0 {
                    None
                } else {
                    match coerced(f.hint, caps[0]) {
                        None => None,
                        Some(v) => match entries_of(segs.skip(1), caps.skip(1)) {
                            None => None,
                            Some(t) => Some(
                                if f.name.len() == 0 {
                                    t
                                } else {
                                    seq![(f.name, v)] + t
                                },
                            ),
                        },
                    }
                }
            },
        }
    }
}

/// The complete meaning of matching `line` against `segs`: `None` for a
/// structural non-match or any failed coercion, otherwise the ordered
/// name/value entries of the greedy split.
pub open spec fn match_spec(segs: Seq<GSeg>, line: Seq<u8>) -> Option<Seq<(Seq<u8>, ValModel)>> {
    if seg_match(segs, line) {
        entries_of(segs, greedy_caps(segs, line))
    } else {
        None
    }
}

/// When everything in `(a, b]` fails, the search below `b` equals the
/// search below `a`.
proof fn lemma_best_k_range(f: GField, rest: Seq<GSeg>, line: Seq<u8>, a: int, b: int)
    requires
        0 <= a <= b,
        forall|kk: int|
            a < kk <= b ==> !(field_fits(f, line.take(kk)) && seg_match(
                rest,
                #[trigger] line.skip(kk),
            )),
    ensures
        best_k(f, rest, line, b) == best_k(f, rest, line, a),
    decreases b - a,
{
    if a < b {
        lemma_best_k_range(f, rest, line, a, b - 1);
    }
}

/// Recursive worker: matches segments `i..` against `line[pos..]` and
/// returns the greedy captures of that tail.
fn match_at(segs: &Vec<Segment>, i: usize, line: &[u8], pos: usize) -> (r: Option<Vec<Vec<u8>>>)
    requires
        i <= segs@.len(),
        pos <= line@.len(),
    ensures
        ({
            let gs = segs@.map_values(|s: Segment| s@).skip(i as int);
            let rem = line@.skip(pos as int);
            match r {
                Some(caps) => seg_match(gs, rem) && caps@.map_values(|c: Vec<u8>| c@)
                    == greedy_caps(gs, rem),
                None => !seg_match(gs, rem),
            }
        }),
    decreases segs@.len() - i,
{
    let ghost gs = segs@.map_values(|s: Segment| s@).skip(i as int);
    let ghost rem = line@.skip(pos as int);
    let llen = line.len();
    if i == segs.len() {
        proof {
            assert(gs =~= Seq::<GSeg>::empty());
        }
        if pos == line.len() {
            let caps: Vec<Vec<u8>> = Vec::new();
            proof {
                assert(rem =~= Seq::<u8>::empty());
                assert(caps@.map_values(|c: Vec<u8>| c@) =~= greedy_caps(gs, rem));
            }
            return Some(caps);
        } else {
            return None;
        }
    }
    proof {
        assert(gs[0] == segs@.map_values(|s: Segment| s@)[i as int]);
        assert(gs.skip(1) =~= segs@.map_values(|s: Segment| s@).skip(i + 1));
    }
    let seg = &segs[i];
    match seg {
        Segment::Lit(l) => {
            let n = l.len();
            if !bytes_at(line, pos, l.as_slice()) {
                proof {
                    if n <= rem.len() {
                        assert(line@.subrange(pos as int, pos + n) =~= rem.take(n as int));
                    }
                    assert(!seg_match(gs, rem));
                }
                return None;
            }
            proof {
                assert(line@.subrange(pos as int, pos + n) =~= rem.take(n as int));
                assert(rem.take(n as int) == l@);
                assert(pos + n <= llen);
            }
            let sub = match_at(segs, i + 1, line, pos + n);
            proof {
                assert(line@.skip(pos + n) =~= rem.skip(n as int));
            }
            match sub {
                Some(caps) => {
                    proof {
                        assert(seg_match(gs, rem));
                        assert(greedy_caps(gs, rem) == greedy_caps(gs.skip(1), rem.skip(n as int)));
                    }
                    Some(caps)
                },
                None => {
                    proof {
                        assert(!seg_match(gs, rem));
                    }
                    None
                },
            }
        },
        Segment::Field(f) => {
            let ghost gf = f@;
            // the longest capture this field could take from here
            let maxk: usize = if f.last {
                line.len() - pos
            } else {
                let mut j: usize = pos;
                while j < line.len() && !is_ws(line[j])
                    invariant
                        pos <= j <= line@.len(),
                        rem == line@.skip(pos as int),
                        forall|m: int| 0 <= m < j - pos ==> !spec_is_ws(#[trigger] rem[m]),
                    decreases line@.len() - j,
                {
                    j = j + 1;
                }
                j - pos
            };
            proof {
                // every capture within maxk fits; none beyond it can
                assert forall|kk: int| 1 <= kk <= maxk implies field_fits(gf, rem.take(kk)) by {
                    if !gf.last {
                        assert forall|m: int| 0 <= m < kk implies !spec_is_ws(
                            #[trigger] rem.take(kk)[m],
                        ) by {
                            assert(rem.take(kk)[m] == rem[m]);
                        }
                    }
                }
                assert forall|kk: int| maxk < kk <= rem.len() implies !field_fits(
                    gf,
                    rem.take(kk),
                ) by {
                    assert(!gf.last);
                    assert(spec_is_ws(rem[maxk as int]));
                    assert(rem.take(kk)[maxk as int] == rem[maxk as int]);
                }
            }
            if maxk == 0 {
                proof {
                    assert forall|kk: int| 1 <= kk <= rem.len() implies !(field_fits(
                        gf,
                        rem.take(kk),
                    ) && seg_match(gs.skip(1), #[trigger] rem.skip(kk))) by {}
                    assert(!seg_match(gs, rem));
                }
                return None;
            }
            let ni = i + 1;
            let mut k: usize = maxk;
            while k >= 1
                invariant
                    1 <= maxk <= rem.len(),
                    0 <= k <= maxk,
                    i < segs@.len(),
                    llen == line@.len(),
                    pos + maxk <= llen,
                    gs == segs@.map_values(|s: Segment| s@).skip(i as int),
                    rem == line@.skip(pos as int),
                    gs.len() >= 1,
                    gs[0] == GSeg::Field(gf),
                    ni == i + 1,
                    gs.skip(1) == segs@.map_values(|s: Segment| s@).skip(i + 1),
                    forall|kk: int| 1 <= kk <= maxk ==> field_fits(gf, rem.take(kk)),
                    forall|kk: int|
                        k < kk <= rem.len() ==> !(field_fits(gf, rem.take(kk)) && seg_match(
                            gs.skip(1),
                            #[trigger] rem.skip(kk),
                        )),
                decreases k,
            {
                let sub = match_at(segs, ni, line, pos + k);
                proof {
                    assert(line@.skip(pos + k) =~= rem.skip(k as int));
                }
                match sub {
                    Some(rest_caps) => {
                        proof {
                            assert(field_fits(gf, rem.take(k as int)));
                            assert(seg_match(gs.skip(1), rem.skip(k as int)));
                            assert(seg_match(gs, rem));
                            assert(best_k(gf, gs.skip(1), rem, k as int) == k);
                            lemma_best_k_range(gf, gs.skip(1), rem, k as int, rem.len() as int);
                            assert(best_k(gf, gs.skip(1), rem, rem.len() as int) == k);
                        }
                        let cap = sub_vec(line, pos, pos + k);
                        let mut caps: Vec<Vec<u8>> = Vec::new();
                        caps.push(cap);
                        let mut rc = rest_caps;
                        caps.append(&mut rc);
                        proof {
                            assert(cap@ =~= rem.take(k as int));
                            assert(caps@.map_values(|c: Vec<u8>| c@) =~= seq![rem.take(k as int)]
                                + greedy_caps(gs.skip(1), rem.skip(k as int)));
                            assert(greedy_caps(gs, rem) == seq![rem.take(k as int)] + greedy_caps(
                                gs.skip(1),
                                rem.skip(k as int),
                            ));
                        }
                        return Some(caps);
                    },
                    None => {},
                }
                k = k - 1;
            }
            proof {
                assert forall|kk: int| 1 <= kk <= rem.len() implies !(field_fits(gf, rem.take(kk))
                    && seg_match(gs.skip(1), #[trigger] rem.skip(kk))) by {}
                assert(!seg_match(gs, rem));
            }
            None
        },
    }
}

/// The result of one successful match: an ordered sequence of named,
/// typed entries, in field order; anonymous fields occupy no entry.
pub struct MatchResult {
    pub entries: Vec<(Vec<u8>, Value)>,
}

impl View for MatchResult {
    type V = Seq<(Seq<u8>, ValModel)>;

    open spec fn view(&self) -> Seq<(Seq<u8>, ValModel)> {
        self.entries@.map_values(|p: (Vec<u8>, Value)| (p.0@, p.1@))
    }
}

/// Lookup by name: the value of the *last* entry carrying `name`.
pub open spec fn lookup(entries: Seq<(Seq<u8>, ValModel)>, name: Seq<u8>) -> Option<ValModel>
    decreases entries.len(),
{
    if entries.len() == 0 {
        None
    } else if entries.last().0 == name {
        Some(entries.last().1)
    } else {
        lookup(entries.drop_last(), name)
    }
}

impl MatchResult {
    /// A result with no entries.
    pub fn new() -> (r: MatchResult)
        ensures
            r@ == Seq::<(Seq<u8>, ValModel)>::empty(),
    {
        let r = MatchResult { entries: Vec::new() };
        proof {
            assert(r@ =~= Seq::<(Seq<u8>, ValModel)>::empty());
        }
        r
    }

    /// The value of the last entry named `name`, if any.
    pub fn get(&self, name: &[u8]) -> (r: Option<&Value>)
        ensures
            (match r {
                Some(v) => lookup(self@, name@) == Some(v@),
                None => lookup(self@, name@) is None,
            }),
    {
        let mut i: usize = self.entries.len();
        proof {
            assert(self@.take(i as int) =~= self@);
        }
        while i >= 1
            invariant
                i <= self.entries@.len(),
                lookup(self@, name@) == lookup(self@.take(i as int), name@),
            decreases i,
        {
            let e = &self.entries[i - 1];
            if bytes_eq(e.0.as_slice(), name) {
                proof {
                    assert(self@.take(i as int).last() == (e.0@, e.1@));
                }
                return Some(&e.1);
            }
            proof {
                assert(self@.take(i as int).drop_last() =~= self@.take(i - 1));
            }
            i = i - 1;
        }
        proof {
            assert(self@.take(0) =~= Seq::<(Seq<u8>, ValModel)>::empty());
        }
        None
    }

    /// All entries, in insertion (= field) order.
    pub fn values(&self) -> (r: &Vec<(Vec<u8>, Value)>)
        ensures
            r@.map_values(|p: (Vec<u8>, Value)| (p.0@, p.1@)) == self@,
    {
        &self.entries
    }
}

impl Pattern {
    /// Matches a full line; `None` on a structural non-match or a failed
    /// coercion.
    pub fn match_line(&self, line: &[u8]) -> (r: Option<MatchResult>)
        ensures
            (match r {
                Some(res) => match_spec(self@, line@) == Some(res@),
                None => match_spec(self@, line@) is None,
            }),
    {
        proof {
            assert(self@ =~= self.segments@.map_values(|s: Segment| s@).skip(0));
            assert(line@.skip(0) =~= line@);
        }
        let caps = match match_at(&self.segments, 0, line, 0) {
            Some(c) => c,
            None => {
                return None;
            },
        };
        let ghost gcaps = caps@.map_values(|c: Vec<u8>| c@);
        proof {
            assert(seg_match(self@, line@));
            assert(gcaps == greedy_caps(self@, line@));
        }
        let mut out: Vec<(Vec<u8>, Value)> = Vec::new();
        let mut si: usize = 0;
        let mut ci: usize = 0;
        proof {
            assert(self@.skip(0) =~= self@);
            assert(gcaps.skip(0) =~= gcaps);
            assert(out@.map_values(|p: (Vec<u8>, Value)| (p.0@, p.1@)) =~= Seq::<(
                Seq<u8>,
                ValModel,
            )>::empty());
        }
        while si < self.segments.len()
            invariant
                si <= self.segments@.len(),
                ci <= caps@.len(),
                gcaps == caps@.map_values(|c: Vec<u8>| c@),
                seg_match(self@, line@),
                gcaps == greedy_caps(self@, line@),
                entries_of(self@, gcaps) == (match entries_of(self@.skip(si as int), gcaps.skip(ci as int)) {
                    None => None::<Seq<(Seq<u8>, ValModel)>>,
                    Some(t) => Some(out@.map_values(|p: (Vec<u8>, Value)| (p.0@, p.1@)) + t),
                }),
            decreases self.segments@.len() - si,
        {
            let ghost gtail = self@.skip(si as int);
            proof {
                assert(gtail[0] == self@[si as int]);
                assert(gtail.skip(1) =~= self@.skip(si + 1));
            }
            let seg = &self.segments[si];
            match seg {
                Segment::Lit(_) => {
                    si = si + 1;
                },
                Segment::Field(f) => {
                    if ci >= caps.len() {
                        proof {
                            assert(gcaps.skip(ci as int).len() == 0);
                            assert(entries_of(self@, gcaps) is None);
                        }
                        return None;
                    }
                    proof {
                        assert(gcaps.skip(ci as int)[0] == gcaps[ci as int]);
                        assert(gcaps.skip(ci as int).skip(1) =~= gcaps.skip(ci + 1));
                    }
                    let c = &caps[ci];
                    match coerce(f.hint, c.as_slice()) {
                        None => {
                            proof {
                                assert(entries_of(self@, gcaps) is None);
                            }
                            return None;
                        },
                        Some(v) => {
                            if f.name.len() > 0 {
                                let nm = copy_vec(&f.name);
                                let ghost old_out = out@.map_values(
                                    |p: (Vec<u8>, Value)| (p.0@, p.1@),
                                );
                                out.push((nm, v));
                                proof {
                                    assert(out@.map_values(|p: (Vec<u8>, Value)| (p.0@, p.1@))
                                        =~= old_out + seq![(f.name@, coerced(f@.hint, gcaps[ci as int])->Some_0)]);
                                    assert forall|t: Seq<(Seq<u8>, ValModel)>|
                                        (old_out + seq![(f.name@, coerced(f@.hint, gcaps[ci as int])->Some_0)]) + t =~= old_out + (seq![(f.name@, coerced(f@.hint, gcaps[ci as int])->Some_0)] + t) by {}
                                }
                            }
                            si = si + 1;
                            ci = ci + 1;
                        },
                    }
                },
            }
        }
        proof {
            assert(self@.skip(si as int) =~= Seq::<GSeg>::empty());
            assert(entries_of(self@.skip(si as int), gcaps.skip(ci as int)) == Some(Seq::<(
                Seq<u8>,
                ValModel,
            )>::empty()));
        }
        let res = MatchResult { entries: out };
        proof {
            assert(res@ + Seq::<(Seq<u8>, ValModel)>::empty() =~= res@);
        }
        Some(res)
    }
}

} // verus!
