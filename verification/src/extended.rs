//! The secondary profile-history store: a tag-free key space mapping
//! `(user_id, observed_millis)`, both big-endian, to an opaque profile
//! snapshot. No merge operator exists here; each observation is a single
//! entry, and writing the same key again replaces it.

use crate::ids::{push_u64_be, read_u64_be, u64_be, u64_from_be};
use crate::lookup::{spec_is_snowflake, spec_snowflake_millis};
use crate::order::{key_less, lemma_lex_trans, lemma_lex_trichotomy, lex_cmp, lex_lt, KeyOrder};
use vstd::pervasive::VecAdditionalExecFns;
use vstd::prelude::*;
use vstd::slice::slice_to_vec;

verus! {

/// The key bytes for one profile observation.
pub open spec fn profile_key(uid: u64, observed_millis: u64) -> Seq<u8> {
    u64_be(uid) + u64_be(observed_millis)
}

/// Where a new key belongs in the sorted pair sequence.
pub open spec fn profile_insert_pos(s: Seq<(Seq<u8>, Seq<u8>)>, k: Seq<u8>) -> int
    decreases s.len(),
{
    if s.len() == 0 || lex_lt(k, s[0].0) {
        0
    } else {
        1 + profile_insert_pos(s.drop_first(), k)
    }
}

proof fn lemma_profile_insert_pos_at(s: Seq<(Seq<u8>, Seq<u8>)>, k: Seq<u8>, i: int)
    requires
        0 <= i <= s.len(),
        forall|j: int| 0 <= j < i ==> lex_lt((#[trigger] s[j]).0, k),
        i < s.len() ==> lex_lt(k, s[i].0),
    ensures
        profile_insert_pos(s, k) == i,
    decreases i,
{
    if i == 0 {
        if s.len() > 0 {
            lemma_lex_trichotomy(k, s[0].0);
        }
    } else {
        lemma_lex_trichotomy(k, s[0].0);
        lemma_profile_insert_pos_at(s.drop_first(), k, i - 1);
    }
}

/// The `(observed_millis, snapshot)` rows held for one user, in time
/// order.
pub open spec fn profile_rows(ev: Seq<(Seq<u8>, Seq<u8>)>, uid: u64) -> Seq<(u64, Seq<u8>)>
    decreases ev.len(),
{
    if ev.len() == 0 {
        Seq::empty()
    } else {
        let head = if ev[0].0.len() == 16 && u64_from_be(ev[0].0.subrange(0, 8)) == uid {
            seq![(u64_from_be(ev[0].0.subrange(8, 16)), ev[0].1)]
        } else {
            Seq::<(u64, Seq<u8>)>::empty()
        };
        head + profile_rows(ev.drop_first(), uid)
    }
}

pub proof fn lemma_profile_rows_concat(
    s: Seq<(Seq<u8>, Seq<u8>)>,
    t: Seq<(Seq<u8>, Seq<u8>)>,
    uid: u64,
)
    ensures
        profile_rows(s + t, uid) == profile_rows(s, uid) + profile_rows(t, uid),
    decreases s.len(),
{
    if s.len() == 0 {
        assert(s + t =~= t);
        assert(profile_rows(s, uid) + profile_rows(t, uid) =~= profile_rows(t, uid));
    } else {
        lemma_profile_rows_concat(s.drop_first(), t, uid);
        assert((s + t).drop_first() =~= s.drop_first() + t);
        assert((s + t)[0] == s[0]);
        let head = if s[0].0.len() == 16 && u64_from_be(s[0].0.subrange(0, 8)) == uid {
            seq![(u64_from_be(s[0].0.subrange(8, 16)), s[0].1)]
        } else {
            Seq::<(u64, Seq<u8>)>::empty()
        };
        assert(head + (profile_rows(s.drop_first(), uid) + profile_rows(t, uid)) =~= (head
            + profile_rows(s.drop_first(), uid)) + profile_rows(t, uid));
    }
}

/// The profile-history store: pairs sorted by key, every key 16 bytes.
pub struct UserLookup {
    pub entries: Vec<(Vec<u8>, Vec<u8>)>,
}

impl UserLookup {
    /// The held pairs as byte sequences, in key order.
    pub open spec fn view_entries(self) -> Seq<(Seq<u8>, Seq<u8>)> {
        Seq::new(self.entries@.len(), |i: int| (self.entries@[i].0@, self.entries@[i].1@))
    }

    pub open spec fn wf(self) -> bool {
        let ev = self.view_entries();
        (forall|i: int, j: int|
            0 <= i < j < ev.len() ==> lex_lt((#[trigger] ev[i]).0, (#[trigger] ev[j]).0)) && (
        forall|i: int| 0 <= i < ev.len() ==> (#[trigger] ev[i]).0.len() == 16)
    }

    /// Opens an empty profile store.
    pub fn new() -> (r: UserLookup)
        ensures
            r.wf(),
            r.view_entries() == Seq::<(Seq<u8>, Seq<u8>)>::empty(),
    {
        let r = UserLookup { entries: Vec::new() };
        proof {
            assert(r.view_entries() =~= Seq::<(Seq<u8>, Seq<u8>)>::empty());
        }
        r
    }

    /// Writes one observation; the same `(user, observed)` key written
    /// again replaces the snapshot.
    pub fn put(&mut self, user_id: u64, observed_millis: u64, snapshot: &[u8])
        requires
            old(self).wf(),
        ensures
            final(self).wf(),
            ({
                let k = profile_key(user_id, observed_millis);
                let s = old(self).view_entries();
                let t = final(self).view_entries();
                if exists|i: int| 0 <= i < s.len() && (#[trigger] s[i]).0 == k {
                    t == s.update(
                        choose|i: int| 0 <= i < s.len() && (#[trigger] s[i]).0 == k,
                        (k, snapshot@),
                    )
                } else {
                    t == s.insert(profile_insert_pos(s, k), (k, snapshot@))
                }
            }),
    {
        let ghost ev = self.view_entries();
        let mut key: Vec<u8> = Vec::new();
        push_u64_be(&mut key, user_id);
        push_u64_be(&mut key, observed_millis);
        proof {
            assert(key@ =~= profile_key(user_id, observed_millis));
        }
        let mut i: usize = 0;
        while i < self.entries.len() && key_less(self.entries[i].0.as_slice(), key.as_slice())
            invariant
                i <= ev.len(),
                ev == self.view_entries(),
                ev.len() == self.entries@.len(),
                *old(self) == *self,
                key@ == profile_key(user_id, observed_millis),
                forall|j: int| 0 <= j < i ==> lex_lt((#[trigger] ev[j]).0, key@),
            decreases ev.len() - i,
        {
            i = i + 1;
        }
        let present = i < self.entries.len() && matches!(
            lex_cmp(self.entries[i].0.as_slice(), key.as_slice()),
            KeyOrder::Equal,
        );
        if present {
            proof {
                assert(ev[i as int].0 == key@);
                assert forall|j: int|
                    0 <= j < ev.len() && j != i implies (#[trigger] ev[j]).0 != key@ by {
                    if j < i {
                        lemma_lex_trichotomy(ev[j].0, key@);
                    } else {
                        lemma_lex_trichotomy(ev[i as int].0, ev[j].0);
                    }
                }
                let w = choose|w: int| 0 <= w < ev.len() && (#[trigger] ev[w]).0 == key@;
                assert(w == i);
            }
            let value = slice_to_vec(snapshot);
            self.entries.set(i, (key, value));
            proof {
                assert(self.view_entries() =~~= ev.update(i as int, (
                    profile_key(user_id, observed_millis),
                    snapshot@,
                )));
                let t = self.view_entries();
                assert forall|p: int, q: int| 0 <= p < q < t.len() implies lex_lt(
                    (#[trigger] t[p]).0,
                    (#[trigger] t[q]).0,
                ) by {
                    assert(ev[p].0 == t[p].0);
                    assert(ev[q].0 == t[q].0);
                }
                assert forall|p: int| 0 <= p < t.len() implies (#[trigger] t[p]).0.len() == 16 by {
                    if p != i {
                        assert(t[p] == ev[p]);
                    }
                }
            }
        } else {
            proof {
                assert forall|j: int| 0 <= j < ev.len() implies (#[trigger] ev[j]).0 != key@ by {
                    if j < i {
                        lemma_lex_trichotomy(ev[j].0, key@);
                    } else {
                        if i < ev.len() {
                            lemma_lex_trichotomy(key@, ev[i as int].0);
                            if j > i {
                                lemma_lex_trans(key@, ev[i as int].0, ev[j].0);
                            }
                        }
                        lemma_lex_trichotomy(key@, ev[j].0);
                    }
                }
                if i < ev.len() {
                    lemma_lex_trichotomy(key@, ev[i as int].0);
                }
                lemma_profile_insert_pos_at(ev, key@, i as int);
            }
            let value = slice_to_vec(snapshot);
            self.entries.insert(i, (key, value));
            proof {
                let k = profile_key(user_id, observed_millis);
                assert(self.view_entries() =~~= ev.insert(i as int, (k, snapshot@)));
                let t = self.view_entries();
                assert forall|p: int, q: int| 0 <= p < q < t.len() implies lex_lt(
                    (#[trigger] t[p]).0,
                    (#[trigger] t[q]).0,
                ) by {
                    if p < i && q > i {
                        assert(t[p] == ev[p]);
                        assert(t[q] == ev[q - 1]);
                    } else if p == i && q > i {
                        assert(t[q] == ev[q - 1]);
                        if q - 1 > i {
                            lemma_lex_trans(k, ev[i as int].0, ev[q - 1].0);
                        }
                    } else if p < i && q == i {
                        assert(t[p] == ev[p]);
                    } else if q < i {
                        assert(t[p] == ev[p] && t[q] == ev[q]);
                    } else if p > i {
                        assert(t[p] == ev[p - 1] && t[q] == ev[q - 1]);
                    }
                }
                assert forall|p: int| 0 <= p < t.len() implies (#[trigger] t[p]).0.len() == 16 by {
                    if p < i {
                        assert(t[p] == ev[p]);
                    } else if p > i {
                        assert(t[p] == ev[p - 1]);
                    }
                }
            }
        }
    }

    /// Prefix scan: every `(observed_millis, snapshot)` held for a user,
    /// in time order.
    pub fn lookup_user(&self, user_id: u64) -> (r: Vec<(u64, Vec<u8>)>)
        requires
            self.wf(),
        ensures
            r.deep_view() == profile_rows(self.view_entries(), user_id),
    {
        let ghost ev = self.view_entries();
        let mut out: Vec<(u64, Vec<u8>)> = Vec::new();
        let mut i: usize = 0;
        proof {
            assert(ev.take(0) =~= Seq::<(Seq<u8>, Seq<u8>)>::empty());
            assert(out.deep_view() =~= profile_rows(ev.take(0), user_id));
        }
        while i < self.entries.len()
            invariant
                i <= ev.len(),
                ev == self.view_entries(),
                self.wf(),
                ev.len() == self.entries@.len(),
                out.deep_view() == profile_rows(ev.take(i as int), user_id),
            decreases ev.len() - i,
        {
            let pair = &self.entries[i];
            proof {
                assert(ev[i as int] == (pair.0@, pair.1@));
            }
            if pair.0.len() == 16 {
                let uid = read_u64_be(pair.0.as_slice(), 0);
                proof {
                    assert(pair.0@.subrange(0, 8) =~= pair.0@.subrange(0int, 0int + 8));
                }
                if uid == user_id {
                    let observed = read_u64_be(pair.0.as_slice(), 8);
                    proof {
                        assert(pair.0@.subrange(8, 16) =~= pair.0@.subrange(8int, 8int + 8));
                    }
                    let snapshot = slice_to_vec(pair.1.as_slice());
                    out.push((observed, snapshot));
                }
            }
            proof {
                assert(ev.take(i as int + 1) =~= ev.take(i as int) + seq![ev[i as int]]);
                lemma_profile_rows_concat(ev.take(i as int), seq![ev[i as int]], user_id);
                reveal_with_fuel(profile_rows, 2);
                assert(seq![ev[i as int]].drop_first() =~= Seq::<(Seq<u8>, Seq<u8>)>::empty());
                assert(out.deep_view() =~~= profile_rows(ev.take(i as int + 1), user_id));
            }
            i = i + 1;
        }
        proof {
            assert(ev.take(ev.len() as int) =~= ev);
        }
        out
    }
}

/// The instant (in milliseconds) a snowflake status id encodes, when it
/// encodes one.
pub fn snowflake_to_timestamp_millis(value: u64) -> (r: Option<u64>)
    ensures
        r == (if spec_is_snowflake(value) {
            Option::Some(spec_snowflake_millis(value))
        } else {
            Option::<u64>::None
        }),
{
    if crate::lookup::is_snowflake(value) {
        Some(crate::lookup::snowflake_millis(value))
    } else {
        None
    }
}

} // verus!
