//! Per-key rate limiting: extract a key from each line (or use one fixed
//! key), and let a line pass only when more than the configured interval
//! has elapsed since the last line that carried the same key.

use vstd::prelude::*;

use crate::bytes::{copy_vec, is_ws, spec_is_ws};
use crate::matcher::{lookup, match_spec};
use crate::pattern::Pattern;
use crate::value::{ValModel, Value};

verus! {

/// The line with its trailing whitespace removed.
pub open spec fn spec_trim_end(s: Seq<u8>) -> Seq<u8>
    decreases s.len(),
{
    if s.len() > 0 && spec_is_ws(s.last()) {
        spec_trim_end(s.drop_last())
    } else {
        s
    }
}

/// Length of the line once trailing whitespace is dropped.
pub fn trim_end_len(line: &[u8]) -> (r: usize)
    ensures
        r <= line@.len(),
        line@.take(r as int) == spec_trim_end(line@),
{
    let mut e: usize = line.len();
    proof {
        assert(line@.take(e as int) =~= line@);
    }
    while e > 0 && is_ws(line[e - 1])
        invariant
            e <= line@.len(),
            spec_trim_end(line@) == spec_trim_end(line@.take(e as int)),
        decreases e,
    {
        proof {
            assert(line@.take(e as int).last() == line@[e - 1]);
            assert(line@.take(e as int).drop_last() =~= line@.take(e - 1));
        }
        e = e - 1;
    }
    proof {
        if e > 0 {
            assert(line@.take(e as int).last() == line@[e - 1]);
            assert(!spec_is_ws(line@.take(e as int).last()));
        }
    }
    e
}

/// `fixed`, the key used when no key template is configured.
pub open spec fn fixed_key() -> Seq<u8> {
    seq![102u8, 105u8, 120u8, 101u8, 100u8]
}

/// `key`, the field a key template must capture.
pub open spec fn key_name() -> Seq<u8> {
    seq![107u8, 101u8, 121u8]
}

/// Extracts the rate-limiting key of a line: the fixed key when no
/// template is configured, else the `key` capture of the trimmed line.
/// `None` (drop the line) when the line does not match or captures no
/// string under `key`.
pub fn get_key(line: &[u8], parser: &Option<Pattern>) -> (r: Option<Vec<u8>>)
    ensures
        (match parser {
            None => (match r {
                Some(k) => k@ == fixed_key(),
                None => false,
            }),
            Some(p) => (match match_spec(p@, spec_trim_end(line@)) {
                None => r is None,
                Some(en) => (match lookup(en, key_name()) {
                    Some(ValModel::Str(s)) => (match r {
                        Some(k) => k@ == s,
                        None => false,
                    }),
                    _ => r is None,
                }),
            }),
        }),
{
    match parser {
        None => {
            let mut k: Vec<u8> = Vec::new();
            k.push(102);
            k.push(105);
            k.push(120);
            k.push(101);
            k.push(100);
            proof {
                assert(k@ =~= fixed_key());
            }
            Some(k)
        },
        Some(p) => {
            let e = trim_end_len(line);
            let trimmed = vstd::slice::slice_subrange(line, 0, e);
            proof {
                assert(line@.subrange(0, e as int) =~= line@.take(e as int));
            }
            let result = match p.match_line(trimmed) {
                Some(x) => x,
                None => {
                    return None;
                },
            };
            let mut kname: Vec<u8> = Vec::new();
            kname.push(107);
            kname.push(101);
            kname.push(121);
            proof {
                assert(kname@ =~= key_name());
            }
            match result.get(kname.as_slice()) {
                Some(Value::Str(s)) => Some(copy_vec(s)),
                _ => None,
            }
        },
    }
}

/// When was each key last let through, as an association sequence with
/// unique keys (front entry wins; there are no duplicates).
pub open spec fn key_time(s: Seq<(Seq<u8>, u64)>, k: Seq<u8>) -> Option<u64>
    decreases s.len(),
{
    if s.len() == 0 {
        None
    } else if s[0].0 == k {
        Some(s[0].1)
    } else {
        key_time(s.skip(1), k)
    }
}

/// The table with `k` now recorded at time `t`: updated in place when
/// present, appended when absent.
pub open spec fn set_key(s: Seq<(Seq<u8>, u64)>, k: Seq<u8>, t: u64) -> Seq<(Seq<u8>, u64)>
    decreases s.len(),
{
    if s.len() == 0 {
        seq![(k, t)]
    } else if s[0].0 == k {
        seq![(k, t)] + s.skip(1)
    } else {
        seq![s[0]] + set_key(s.skip(1), k, t)
    }
}

/// The per-key cooldown table.
pub struct RateLimiter {
    pub entries: Vec<(Vec<u8>, u64)>,
}

impl View for RateLimiter {
    type V = Seq<(Seq<u8>, u64)>;

    open spec fn view(&self) -> Seq<(Seq<u8>, u64)> {
        self.entries@.map_values(|p: (Vec<u8>, u64)| (p.0@, p.1))
    }
}

impl RateLimiter {
    /// Keys are recorded at most once.
    pub open spec fn wf(&self) -> bool {
        forall|i: int, j: int| 0 <= i < j < self@.len() ==> self@[i].0 != self@[j].0
    }

    /// An empty table: every key's first line passes.
    pub fn new() -> (r: RateLimiter)
        ensures
            r@ == Seq::<(Seq<u8>, u64)>::empty(),
            r.wf(),
    {
        let r = RateLimiter { entries: Vec::new() };
        proof {
            assert(r@ =~= Seq::<(Seq<u8>, u64)>::empty());
        }
        r
    }

    /// Should a line with this key pass at time `now`?  It passes when
    /// the key is unseen or strictly more than `interval` time units have
    /// elapsed since it last passed; a passing line re-stamps its key.
    pub fn check(&mut self, key: &[u8], now: u64, interval: u64) -> (pass: bool)
        requires
            old(self).wf(),
        ensures
            final(self).wf(),
            pass == (match key_time(old(self)@, key@) {
                None => true,
                Some(last) => now > last + interval,
            }),
            pass ==> final(self)@ == set_key(old(self)@, key@, now),
            !pass ==> final(self)@ == old(self)@,
    {
        let ghost full = self@;
        let mut i: usize = 0;
        proof {
            assert(full.skip(0) =~= full);
            assert(full.take(0) =~= Seq::<(Seq<u8>, u64)>::empty());
        }
        while i < self.entries.len()
            invariant
                i <= self.entries@.len(),
                full == self@,
                old(self)@ == self@,
                old(self).wf(),
                forall|j: int| 0 <= j < i ==> full[j].0 != key@,
                key_time(full, key@) == key_time(full.skip(i as int), key@),
                set_key(full, key@, now) == full.take(i as int) + set_key(
                    full.skip(i as int),
                    key@,
                    now,
                ),
            decreases self.entries@.len() - i,
        {
            let ghost tail = full.skip(i as int);
            proof {
                assert(tail[0] == full[i as int]);
                assert(tail.skip(1) =~= full.skip(i + 1));
            }
            if crate::bytes::bytes_eq(self.entries[i].0.as_slice(), key) {
                let last = self.entries[i].1;
                proof {
                    assert(key_time(full, key@) == Some(last));
                }
                let pass = now.saturating_sub(last) > interval;
                proof {
                    if now >= last {
                        assert(pass == (now > last + interval));
                    } else {
                        assert(now.saturating_sub(last) == 0);
                        assert(!pass);
                        assert(!(now > last + interval));
                    }
                }
                if pass {
                    let kcopy = vstd::slice::slice_to_vec(key);
                    self.entries[i] = (kcopy, now);
                    proof {
                        assert(set_key(tail, key@, now) == seq![(key@, now)] + tail.skip(1));
                        assert(self@ =~= full.take(i as int) + (seq![(key@, now)] + full.skip(
                            i + 1,
                        )));
                        assert(self@ == set_key(full, key@, now));
                        assert forall|a: int, b: int|
                            0 <= a < b < self@.len() implies self@[a].0 != self@[b].0 by {
                            assert(full[a].0 != full[b].0);
                            if a != i && b != i {
                                assert(self@[a].0 == full[a].0 && self@[b].0 == full[b].0);
                            } else if a == i {
                                assert(self@[a].0 == key@ && self@[b].0 == full[b].0);
                                assert(full[i as int].0 == key@);
                            } else {
                                assert(self@[b].0 == key@ && self@[a].0 == full[a].0);
                                assert(full[i as int].0 == key@);
                            }
                        }
                    }
                    return true;
                }
                return false;
            }
            proof {
                assert(full.take(i + 1) =~= full.take(i as int).push(full[i as int]));
                assert(set_key(tail, key@, now) == seq![tail[0]] + set_key(
                    full.skip(i + 1),
                    key@,
                    now,
                ));
                assert(full.take(i as int) + (seq![tail[0]] + set_key(full.skip(i + 1), key@, now))
                    =~= full.take(i + 1) + set_key(full.skip(i + 1), key@, now));
            }
            i = i + 1;
        }
        proof {
            assert(full.skip(i as int) =~= Seq::<(Seq<u8>, u64)>::empty());
            assert(key_time(full, key@) is None);
        }
        let kcopy = vstd::slice::slice_to_vec(key);
        self.entries.push((kcopy, now));
        proof {
            assert(set_key(Seq::<(Seq<u8>, u64)>::empty(), key@, now) == seq![(key@, now)]);
            assert(self@ =~= full.take(i as int) + seq![(key@, now)]);
            assert(self@ == set_key(full, key@, now));
            assert forall|a: int, b: int| 0 <= a < b < self@.len() implies self@[a].0
                != self@[b].0 by {
                if b < self@.len() - 1 {
                    assert(full[a].0 != full[b].0);
                } else {
                    assert(self@[a].0 == full[a].0);
                    assert(full[a].0 != key@);
                }
            }
        }
        true
    }
}

} // verus!
