//! The ordered key-value store under the index.
//!
//! Keys are kept in strictly increasing byte order, every held pair obeys
//! the schema of its tag, and a write is always submitted as a merge: the
//! operator of `crate::merge` combines it with the value already held, so
//! no writer ever reads before writing.

use crate::full_status::{status_key_wf, status_value_wf};
use crate::ids::{run_ids, sorted_strict};
use crate::merge::{
    fs_all_consistent, fs_best, fs_collision_at, fs_first_clash_from, fs_merge_post,
    full_status_merge, lemma_fs_best_in_range, merge_cands, merge_latest_nonempty,
    merge_sorted_u64s, opt_bytes, opt_owned_bytes, run_set, union_ids, union_merge_post,
    MergeCollision,
};
use crate::order::{key_less, lemma_lex_trans, lemma_lex_trichotomy, lex_cmp, lex_lt, KeyOrder};
use crate::screen_name::screen_name_key_wf;
use crate::tag::Tag;
use crate::user::user_key_wf;
use vstd::pervasive::VecAdditionalExecFns;
use vstd::prelude::*;
use vstd::slice::slice_to_vec;
use vstd::utf8::valid_utf8;

verus! {

/// The schema each held pair obeys, selected by the key's leading tag.
pub open spec fn pair_wf(k: Seq<u8>, v: Seq<u8>) -> bool {
    k.len() >= 1 && if k[0] == Tag::User.spec_value() {
        user_key_wf(k) && v.len() > 0 && v.len() % 8 == 0 && sorted_strict(run_ids(v))
    } else if k[0] == Tag::ScreenName.spec_value() {
        screen_name_key_wf(k) && v.len() > 0 && v.len() % 8 == 0 && sorted_strict(run_ids(v))
    } else if k[0] == Tag::FullStatus.spec_value() {
        status_key_wf(k) && status_value_wf(v)
    } else if k[0] == Tag::ShortStatus.spec_value() {
        k.len() == 9 && v.len() == 8
    } else if k[0] == Tag::Delete.spec_value() {
        k.len() == 17 && (v.len() == 0 || v.len() == 8)
    } else if k[0] == Tag::CompletedFile.spec_value() {
        valid_utf8(k.skip(1)) && v.len() == 8
    } else {
        false
    }
}

/// What a submitted write must look like: as `pair_wf`, except that an id
/// run may be empty — merging an empty set is a no-op, and an empty set is
/// never stored.
pub open spec fn operand_wf(k: Seq<u8>, v: Seq<u8>) -> bool {
    k.len() >= 1 && if k[0] == Tag::User.spec_value() {
        user_key_wf(k) && v.len() % 8 == 0 && sorted_strict(run_ids(v))
    } else if k[0] == Tag::ScreenName.spec_value() {
        screen_name_key_wf(k) && v.len() % 8 == 0 && sorted_strict(run_ids(v))
    } else {
        pair_wf(k, v)
    }
}

/// The value held at the first pair whose key is `k`, if any.
pub open spec fn seq_find(s: Seq<(Seq<u8>, Seq<u8>)>, k: Seq<u8>) -> Option<Seq<u8>>
    decreases s.len(),
{
    if s.len() == 0 {
        Option::None
    } else if s[0].0 == k {
        Option::Some(s[0].1)
    } else {
        seq_find(s.drop_first(), k)
    }
}

/// The index of the first pair whose key is `k`, or `-1`.
pub open spec fn find_idx(s: Seq<(Seq<u8>, Seq<u8>)>, k: Seq<u8>) -> int
    decreases s.len(),
{
    if s.len() == 0 {
        -1
    } else if s[0].0 == k {
        0
    } else {
        let r = find_idx(s.drop_first(), k);
        if r < 0 {
            -1
        } else {
            r + 1
        }
    }
}

/// Where a new key belongs in the sorted pair sequence.
pub open spec fn insert_pos(s: Seq<(Seq<u8>, Seq<u8>)>, k: Seq<u8>) -> int
    decreases s.len(),
{
    if s.len() == 0 || lex_lt(k, s[0].0) {
        0
    } else {
        1 + insert_pos(s.drop_first(), k)
    }
}

pub proof fn lemma_find_idx_at(s: Seq<(Seq<u8>, Seq<u8>)>, k: Seq<u8>, i: int)
    requires
        0 <= i < s.len(),
        s[i].0 == k,
        forall|j: int| 0 <= j < i ==> (#[trigger] s[j]).0 != k,
    ensures
        find_idx(s, k) == i,
        seq_find(s, k) == Option::Some(s[i].1),
    decreases i,
{
    if i > 0 {
        lemma_find_idx_at(s.drop_first(), k, i - 1);
    }
}

pub proof fn lemma_find_idx_none(s: Seq<(Seq<u8>, Seq<u8>)>, k: Seq<u8>)
    requires
        forall|j: int| 0 <= j < s.len() ==> (#[trigger] s[j]).0 != k,
    ensures
        find_idx(s, k) == -1,
        seq_find(s, k) == Option::<Seq<u8>>::None,
    decreases s.len(),
{
    if s.len() > 0 {
        lemma_find_idx_none(s.drop_first(), k);
    }
}

/// A found value comes from a held pair with that key.
pub proof fn lemma_seq_find_pair(s: Seq<(Seq<u8>, Seq<u8>)>, k: Seq<u8>)
    requires
        seq_find(s, k) is Some,
    ensures
        exists|i: int|
            0 <= i < s.len() && (#[trigger] s[i]).0 == k && s[i].1 == seq_find(s, k)->0,
    decreases s.len(),
{
    if s.len() > 0 {
        if s[0].0 == k {
            assert(s[0].0 == k && s[0].1 == seq_find(s, k)->0);
        } else {
            lemma_seq_find_pair(s.drop_first(), k);
            let i = choose|i: int|
                0 <= i < s.drop_first().len() && (#[trigger] s.drop_first()[i]).0 == k
                    && s.drop_first()[i].1 == seq_find(s.drop_first(), k)->0;
            assert(s[i + 1] == s.drop_first()[i]);
        }
    }
}

pub proof fn lemma_insert_pos_at(s: Seq<(Seq<u8>, Seq<u8>)>, k: Seq<u8>, i: int)
    requires
        0 <= i <= s.len(),
        forall|j: int| 0 <= j < i ==> lex_lt((#[trigger] s[j]).0, k),
        i < s.len() ==> lex_lt(k, s[i].0),
    ensures
        insert_pos(s, k) == i,
    decreases i,
{
    if i == 0 {
        if s.len() > 0 {
            lemma_lex_trichotomy(k, s[0].0);
        }
    } else {
        lemma_lex_trichotomy(k, s[0].0);
        lemma_insert_pos_at(s.drop_first(), k, i - 1);
    }
}

/// What a single merge submission does to the held pairs: dispatched on the
/// key's tag, it unions id sets, keeps the freshest or the fullest value,
/// and reports a full-status collision while preserving what is held.
pub open spec fn merge_write_post(
    s: Seq<(Seq<u8>, Seq<u8>)>,
    k: Seq<u8>,
    v: Seq<u8>,
    t: Seq<(Seq<u8>, Seq<u8>)>,
    r: Option<MergeCollision>,
) -> bool {
    let tag = k[0];
    let i = find_idx(s, k);
    if i < 0 {
        if (tag == Tag::User.spec_value() || tag == Tag::ScreenName.spec_value()) && v.len() == 0 {
            t == s && r is None
        } else {
            t == s.insert(insert_pos(s, k), (k, v)) && r is None
        }
    } else {
        let old_v = s[i].1;
        if tag == Tag::User.spec_value() || tag == Tag::ScreenName.spec_value() {
            r is None && exists|w: Seq<u8>|
                #[trigger] union_merge_post(Option::Some(old_v), seq![v], Option::Some(w)) && t
                    == s.update(i, (k, w))
        } else if tag == Tag::FullStatus.spec_value() {
            let cs = merge_cands(Option::Some(old_v), seq![v]);
            if fs_all_consistent(cs) {
                t == s.update(i, (k, cs[fs_best(cs)])) && r is None
            } else {
                t == s && r == Option::Some(fs_collision_at(cs, fs_first_clash_from(cs, 0)))
            }
        } else if tag == Tag::Delete.spec_value() {
            let w = if v.len() > 0 {
                v
            } else {
                old_v
            };
            t == s.update(i, (k, w)) && r is None
        } else {
            t == s.update(i, (k, v)) && r is None
        }
    }
}

/// An in-memory replacement for the embedded store: pairs sorted by key,
/// every pair schema-well-formed, merges applied at write time.
pub struct Store {
    pub entries: Vec<(Vec<u8>, Vec<u8>)>,
}

impl Store {
    /// The held pairs as byte sequences, in key order.
    pub open spec fn view_entries(self) -> Seq<(Seq<u8>, Seq<u8>)> {
        Seq::new(self.entries@.len(), |i: int| (self.entries@[i].0@, self.entries@[i].1@))
    }

    /// Keys strictly ascending and every pair well formed.
    pub open spec fn wf(self) -> bool {
        let ev = self.view_entries();
        (forall|i: int, j: int|
            0 <= i < j < ev.len() ==> lex_lt((#[trigger] ev[i]).0, (#[trigger] ev[j]).0))
            && (forall|i: int|
            0 <= i < ev.len() ==> pair_wf((#[trigger] ev[i]).0, ev[i].1))
    }

    /// An empty store.
    pub fn new() -> (s: Store)
        ensures
            s.wf(),
            s.view_entries() == Seq::<(Seq<u8>, Seq<u8>)>::empty(),
    {
        let s = Store { entries: Vec::new() };
        proof {
            assert(s.view_entries() =~= Seq::<(Seq<u8>, Seq<u8>)>::empty());
        }
        s
    }

    /// Point lookup: the value held at `key`.
    pub fn get(&self, key: &[u8]) -> (r: Option<Vec<u8>>)
        requires
            self.wf(),
        ensures
            opt_owned_bytes(r) == seq_find(self.view_entries(), key@),
    {
        let ghost ev = self.view_entries();
        let mut i: usize = 0;
        while i < self.entries.len()
            invariant
                i <= ev.len(),
                ev == self.view_entries(),
                ev.len() == self.entries@.len(),
                forall|j: int| 0 <= j < i ==> (#[trigger] ev[j]).0 != key@,
            decreases ev.len() - i,
        {
            let c = lex_cmp(self.entries[i].0.as_slice(), key);
            if matches!(c, KeyOrder::Equal) {
                let out = slice_to_vec(self.entries[i].1.as_slice());
                proof {
                    lemma_find_idx_at(ev, key@, i as int);
                }
                return Some(out);
            }
            i = i + 1;
        }
        proof {
            lemma_find_idx_none(ev, key@);
        }
        None
    }

    /// Submits `(key, value)` as a merge, never as a plain put.
    pub fn merge_write(&mut self, key: &[u8], value: &[u8]) -> (r: Option<MergeCollision>)
        requires
            old(self).wf(),
            operand_wf(key@, value@),
        ensures
            final(self).wf(),
            merge_write_post(
                old(self).view_entries(),
                key@,
                value@,
                final(self).view_entries(),
                r,
            ),
    {
        let ghost ev = self.view_entries();
        let mut i: usize = 0;
        while i < self.entries.len() && key_less(self.entries[i].0.as_slice(), key)
            invariant
                i <= ev.len(),
                ev == self.view_entries(),
                ev.len() == self.entries@.len(),
                *old(self) == *self,
                forall|j: int| 0 <= j < i ==> lex_lt((#[trigger] ev[j]).0, key@),
            decreases ev.len() - i,
        {
            i = i + 1;
        }
        let present = i < self.entries.len() && matches!(
            lex_cmp(self.entries[i].0.as_slice(), key),
            KeyOrder::Equal,
        );
        if present {
            proof {
                assert(ev[i as int].0 == key@);
                assert forall|j: int| 0 <= j < i implies (#[trigger] ev[j]).0 != key@ by {
                    lemma_lex_trichotomy(ev[j].0, key@);
                }
                lemma_find_idx_at(ev, key@, i as int);
            }
            self.merge_at(i, key, value)
        } else {
            proof {
                assert forall|j: int| 0 <= j < ev.len() implies (#[trigger] ev[j]).0 != key@ by {
                    if j < i {
                        lemma_lex_trichotomy(ev[j].0, key@);
                    } else {
                        if i < ev.len() {
                            lemma_lex_trichotomy(key@, ev[i as int].0);
                            if j > i {
                                lemma_lex_trans(key@, ev[i as int].0, ev[j].0);
                            }
                        }
                        lemma_lex_trichotomy(key@, ev[j].0);
                    }
                }
                lemma_find_idx_none(ev, key@);
                if i < ev.len() {
                    lemma_lex_trichotomy(key@, ev[i as int].0);
                }
                lemma_insert_pos_at(ev, key@, i as int);
            }
            let tag = key[0];
            if (tag == 0 || tag == 1) && value.len() == 0 {
                return None;
            }
            let pair = (slice_to_vec(key), slice_to_vec(value));
            let ghost prev = self.view_entries();
            self.entries.insert(i, pair);
            proof {
                assert(self.view_entries() =~~= prev.insert(i as int, (key@, value@)));
                self.lemma_wf_after_insert(prev, i as int, key@, value@);
            }
            None
        }
    }

    /// Applies the tag's merge rule at an index already known to hold `key`.
    fn merge_at(&mut self, i: usize, key: &[u8], value: &[u8]) -> (r: Option<MergeCollision>)
        requires
            old(self).wf(),
            operand_wf(key@, value@),
            i < old(self).entries@.len(),
            old(self).view_entries()[i as int].0 == key@,
            find_idx(old(self).view_entries(), key@) == i,
        ensures
            final(self).wf(),
            merge_write_post(
                old(self).view_entries(),
                key@,
                value@,
                final(self).view_entries(),
                r,
            ),
    {
        let ghost ev = old(self).view_entries();
        let ghost old_v = ev[i as int].1;
        let old_value = slice_to_vec(self.entries[i].1.as_slice());
        let mut ops: Vec<Vec<u8>> = Vec::new();
        ops.push(slice_to_vec(value));
        proof {
            assert(ops.deep_view() =~~= seq![value@]);
            assert(pair_wf(ev[i as int].0, ev[i as int].1));
            assert(old_value@ == old_v);
        }
        let tag = key[0];
        if tag == 0 || tag == 1 {
            let merged = merge_sorted_u64s(Some(&old_value), &ops);
            proof {
                assert(old_v.len() >= 8);
                assert(run_ids(old_v).len() >= 1);
                assert(run_ids(old_v).contains(run_ids(old_v)[0]));
                assert(run_set(old_v).contains(run_ids(old_v)[0]));
                assert(union_ids(Option::Some(old_v), ops.deep_view()).contains(
                    run_ids(old_v)[0],
                ));
                assert(merged is Some);
            }
            let w = merged.unwrap();
            proof {
                assert(w@.len() > 0) by {
                    if w@.len() == 0 {
                        assert(run_ids(w@) =~= Seq::<u64>::empty());
                        assert(run_ids(w@).to_set() =~= Set::<u64>::empty());
                    }
                }
            }
            self.set_pair(i, key, w);
            proof {
                let t = self.view_entries();
                assert(t[i as int].1 == w@);
                assert(union_merge_post(Option::Some(old_v), seq![value@], Option::Some(w@)));
            }
            None
        } else if tag == 2 {
            proof {
                let cs = merge_cands(Option::Some(old_v), seq![value@]);
                assert(cs[0] == old_v);
                assert(cs[1] == value@);
                assert(forall|j: int| 0 <= j < cs.len() ==> status_value_wf(#[trigger] cs[j]));
            }
            let (merged, collision) = full_status_merge(Some(&old_value), &ops);
            match merged {
                Some(w) => {
                    proof {
                        let cs = merge_cands(Option::Some(old_v), seq![value@]);
                        lemma_fs_best_in_range(cs);
                        assert(w@ == cs[fs_best(cs)]);
                        assert(status_value_wf(w@));
                    }
                    self.set_pair(i, key, w);
                    None
                },
                None => collision,
            }
        } else if tag == 4 {
            let w = merge_latest_nonempty(Some(&old_value), &ops);
            proof {
                reveal_with_fuel(crate::merge::last_nonempty, 3);
                let cs = merge_cands(Option::Some(old_v), seq![value@]);
                assert(cs.last() =~= value@);
                assert(cs.drop_last() =~= seq![old_v]);
                assert(seq![old_v].last() =~= old_v);
                assert(seq![old_v].drop_last() =~= Seq::<Seq<u8>>::empty());
                if value@.len() == 0 && old_v.len() == 0 {
                    assert(old_v =~= Seq::<u8>::empty());
                }
            }
            self.set_pair(i, key, w);
            None
        } else {
            let w = slice_to_vec(value);
            self.set_pair(i, key, w);
            None
        }
    }

    /// Replaces the value at `i`, keeping the key; the pair must stay well
    /// formed.
    fn set_pair(&mut self, i: usize, key: &[u8], w: Vec<u8>)
        requires
            old(self).wf(),
            i < old(self).entries@.len(),
            old(self).view_entries()[i as int].0 == key@,
            pair_wf(key@, w@),
        ensures
            final(self).wf(),
            final(self).view_entries() == old(self).view_entries().update(
                i as int,
                (key@, w@),
            ),
    {
        let ghost ev = old(self).view_entries();
        let k = slice_to_vec(key);
        self.entries.set(i, (k, w));
        proof {
            assert(self.view_entries() =~~= ev.update(i as int, (key@, w@)));
            let t = self.view_entries();
            assert forall|p: int, q: int| 0 <= p < q < t.len() implies lex_lt(
                (#[trigger] t[p]).0,
                (#[trigger] t[q]).0,
            ) by {
                assert(ev[p].0 == t[p].0);
                assert(ev[q].0 == t[q].0);
            }
            assert forall|p: int| 0 <= p < t.len() implies pair_wf(
                (#[trigger] t[p]).0,
                t[p].1,
            ) by {
                if p != i {
                    assert(t[p] == ev[p]);
                }
            }
        }
    }

    /// Inserting a fresh key at its sorted position keeps the store well
    /// formed.
    proof fn lemma_wf_after_insert(
        self,
        prev: Seq<(Seq<u8>, Seq<u8>)>,
        i: int,
        k: Seq<u8>,
        v: Seq<u8>,
    )
        requires
            0 <= i <= prev.len(),
            self.view_entries() == prev.insert(i, (k, v)),
            pair_wf(k, v),
            forall|p: int, q: int|
                0 <= p < q < prev.len() ==> lex_lt((#[trigger] prev[p]).0, (#[trigger] prev[q]).0),
            forall|p: int| 0 <= p < prev.len() ==> pair_wf((#[trigger] prev[p]).0, prev[p].1),
            forall|j: int| 0 <= j < i ==> lex_lt((#[trigger] prev[j]).0, k),
            i < prev.len() ==> lex_lt(k, prev[i].0),
        ensures
            self.wf(),
    {
        let t = self.view_entries();
        assert forall|p: int, q: int| 0 <= p < q < t.len() implies lex_lt(
            (#[trigger] t[p]).0,
            (#[trigger] t[q]).0,
        ) by {
            if p < i && q > i {
                assert(t[p] == prev[p]);
                assert(t[q] == prev[q - 1]);
            } else if p == i && q > i {
                assert(t[q] == prev[q - 1]);
                if q - 1 > i {
                    lemma_lex_trans(k, prev[i].0, prev[q - 1].0);
                }
            } else if p < i && q == i {
                assert(t[p] == prev[p]);
            } else if q < i {
                assert(t[p] == prev[p] && t[q] == prev[q]);
            } else if p > i {
                assert(t[p] == prev[p - 1] && t[q] == prev[q - 1]);
            }
        }
        assert forall|p: int| 0 <= p < t.len() implies pair_wf((#[trigger] t[p]).0, t[p].1) by {
            if p < i {
                assert(t[p] == prev[p]);
            } else if p > i {
                assert(t[p] == prev[p - 1]);
            }
        }
    }
}

} // verus!
