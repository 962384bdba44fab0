//! Translation of a brace template into a regular-expression pattern and
//! its field names, for callers that hand the matching itself to a regex
//! engine.  Literal text is escaped so metacharacters match verbatim; a
//! field becomes a capture group: one-or-more non-whitespace for every
//! field but the final one, one-or-more of anything for the final one.
//! A `{` left unclosed is the one grammar error, as everywhere else.

use vstd::prelude::*;

use crate::bytes::{find_byte, find_limited, lemma_find_byte, sub_vec};
use crate::pattern::{compile, compile_spec, GrammarError, GSeg};

verus! {

/// The bytes that a regex engine treats specially in literal text.
pub open spec fn is_meta(b: u8) -> bool {
    b == 46 || b == 42 || b == 43 || b == 63 || b == 94 || b == 36 || b == 40 || b == 41 || b == 91
        || b == 93 || b == 124 || b == 92
}

/// `(.+)`: the final field may capture whitespace.
pub open spec fn last_field_regex() -> Seq<u8> {
    seq![40u8, 46u8, 43u8, 41u8]
}

/// `(\S+)`: every other field captures one word.
pub open spec fn word_field_regex() -> Seq<u8> {
    seq![40u8, 92u8, 83u8, 43u8, 41u8]
}

/// The regex text a grammatical template translates to.  (The unclosed
/// branch never governs an output: the translation refuses such
/// templates before it runs.)
pub open spec fn regex_of(s: Seq<u8>) -> Seq<u8>
    decreases s.len(),
    via regex_of_dec
{
    if s.len() == 0 {
        Seq::empty()
    } else if s[0] == 123 {
        let close = find_byte(s.skip(1), 125);
        if close == s.len() - 1 {
            last_field_regex()
        } else {
            let rest = s.skip(2 + close);
            (if rest.len() == 0 {
                last_field_regex()
            } else {
                word_field_regex()
            }) + regex_of(rest)
        }
    } else {
        (if is_meta(s[0]) {
            seq![92u8, s[0]]
        } else {
            seq![s[0]]
        }) + regex_of(s.skip(1))
    }
}

#[via_fn]
proof fn regex_of_dec(s: Seq<u8>) {
    if s.len() > 0 && s[0] == 123 {
        lemma_find_byte(s.skip(1), 125);
    }
}

/// The field names of a template, in capture order.
pub open spec fn fields_of(s: Seq<u8>) -> Seq<Seq<u8>>
    decreases s.len(),
    via fields_of_dec
{
    if s.len() == 0 {
        Seq::empty()
    } else if s[0] == 123 {
        let close = find_byte(s.skip(1), 125);
        if close == s.len() - 1 {
            seq![s.skip(1)]
        } else {
            seq![s.skip(1).take(close)] + fields_of(s.skip(2 + close))
        }
    } else {
        fields_of(s.skip(1))
    }
}

#[via_fn]
proof fn fields_of_dec(s: Seq<u8>) {
    if s.len() > 0 && s[0] == 123 {
        lemma_find_byte(s.skip(1), 125);
    }
}

/// Translates a template into an (unanchored) regex pattern and the field
/// names its capture groups bind, in order.  An unterminated `{` is a
/// grammar error, exactly as in [`compile`].
pub fn build_regex(pattern: &[u8]) -> (r: Result<(Vec<u8>, Vec<Vec<u8>>), GrammarError>)
    ensures
        (match r {
            Ok(p) => compile_spec(pattern@) is Ok && p.0@ == regex_of(pattern@)
                && p.1@.map_values(|f: Vec<u8>| f@) == fields_of(pattern@),
            Err(e) => compile_spec(pattern@) == Err::<Seq<GSeg>, int>(e.pos as int) && e.pos
                < pattern@.len(),
        }),
{
    // grammar gate: the translation serves only templates the compiler
    // accepts
    match compile(pattern) {
        Ok(_) => (),
        Err(e) => {
            return Err(e);
        },
    }
    let mut regex: Vec<u8> = Vec::new();
    let mut fields: Vec<Vec<u8>> = Vec::new();
    let mut pos: usize = 0;
    proof {
        assert(pattern@.skip(0) =~= pattern@);
        assert(regex@ =~= Seq::<u8>::empty());
        assert(fields@.map_values(|f: Vec<u8>| f@) =~= Seq::<Seq<u8>>::empty());
    }
    while pos < pattern.len()
        invariant
            pos <= pattern@.len(),
            regex_of(pattern@) == regex@ + regex_of(pattern@.skip(pos as int)),
            fields_of(pattern@) == fields@.map_values(|f: Vec<u8>| f@) + fields_of(
                pattern@.skip(pos as int),
            ),
        decreases pattern@.len() - pos,
    {
        let ghost u = pattern@.skip(pos as int);
        proof {
            assert(u.skip(1) =~= pattern@.subrange(pos + 1, pattern@.len() as int));
        }
        let b = pattern[pos];
        if b == 123 {
            let close = find_limited(pattern, pos + 1, pattern.len(), 125);
            proof {
                lemma_find_byte(u.skip(1), 125);
            }
            if close == pattern.len() {
                // unclosed field: name is everything after the brace
                let name = sub_vec(pattern, pos + 1, pattern.len());
                let ghost old_f = fields@.map_values(|f: Vec<u8>| f@);
                fields.push(name);
                regex.push(40);
                regex.push(46);
                regex.push(43);
                regex.push(41);
                proof {
                    assert(regex_of(u) == last_field_regex());
                    assert(fields_of(u) == seq![u.skip(1)]);
                    assert(fields@.map_values(|f: Vec<u8>| f@) =~= old_f + seq![u.skip(1)]);
                    assert(pattern@.skip(pattern@.len() as int) =~= Seq::<u8>::empty());
                    assert(regex_of(Seq::<u8>::empty()) == Seq::<u8>::empty());
                    assert(fields_of(Seq::<u8>::empty()) =~= Seq::<Seq<u8>>::empty());
                    assert(old_f + (seq![u.skip(1)] + Seq::<Seq<u8>>::empty()) =~= old_f + seq![
                        u.skip(1),
                    ]);
                    assert(regex_of(pattern@) =~= regex@ + Seq::<u8>::empty());
                }
                pos = pattern.len();
            } else {
                let ghost close_rel = close - pos - 1;
                let ghost rest = u.skip(2 + close_rel);
                proof {
                    assert(rest =~= pattern@.skip(close + 1));
                    assert(u.skip(1).take(close_rel) =~= pattern@.subrange(pos + 1, close as int));
                }
                let name = sub_vec(pattern, pos + 1, close);
                let ghost old_f = fields@.map_values(|f: Vec<u8>| f@);
                let ghost old_r = regex@;
                fields.push(name);
                let ghost piece: Seq<u8> = if rest.len() == 0 {
                    last_field_regex()
                } else {
                    word_field_regex()
                };
                if close + 1 == pattern.len() {
                    regex.push(40);
                    regex.push(46);
                    regex.push(43);
                    regex.push(41);
                } else {
                    regex.push(40);
                    regex.push(92);
                    regex.push(83);
                    regex.push(43);
                    regex.push(41);
                }
                proof {
                    assert(regex@ =~= old_r + piece);
                    assert(regex_of(u) == piece + regex_of(rest));
                    assert((old_r + piece) + regex_of(rest) =~= old_r + (piece + regex_of(rest)));
                    assert(fields_of(u) == seq![u.skip(1).take(close_rel)] + fields_of(rest));
                    assert(fields@.map_values(|f: Vec<u8>| f@) =~= old_f + seq![
                        u.skip(1).take(close_rel),
                    ]);
                    assert((old_f + seq![u.skip(1).take(close_rel)]) + fields_of(rest) =~= old_f + (
                    seq![u.skip(1).take(close_rel)] + fields_of(rest)));
                }
                pos = close + 1;
            }
        } else {
            let ghost old_r = regex@;
            let ghost piece: Seq<u8> = if is_meta(b) {
                seq![92u8, b]
            } else {
                seq![b]
            };
            if b == 46 || b == 42 || b == 43 || b == 63 || b == 94 || b == 36 || b == 40 || b == 41
                || b == 91 || b == 93 || b == 124 || b == 92 {
                regex.push(92);
                regex.push(b);
            } else {
                regex.push(b);
            }
            proof {
                assert(u[0] == b);
                assert(u.skip(1) =~= pattern@.skip(pos + 1));
                assert(regex@ =~= old_r + piece);
                assert(regex_of(u) == piece + regex_of(u.skip(1)));
                assert((old_r + piece) + regex_of(u.skip(1)) =~= old_r + (piece + regex_of(
                    u.skip(1),
                )));
                assert(fields_of(u) == fields_of(u.skip(1)));
            }
            pos = pos + 1;
        }
    }
    proof {
        assert(pattern@.skip(pos as int) =~= Seq::<u8>::empty());
        assert(regex_of(Seq::<u8>::empty()) == Seq::<u8>::empty());
        assert(fields_of(Seq::<u8>::empty()) =~= Seq::<Seq<u8>>::empty());
        assert(regex@ + Seq::<u8>::empty() =~= regex@);
        assert(fields@.map_values(|f: Vec<u8>| f@) + Seq::<Seq<u8>>::empty() =~= fields@.map_values(
            |f: Vec<u8>| f@,
        ));
    }
    Ok((regex, fields))
}

} // verus!
