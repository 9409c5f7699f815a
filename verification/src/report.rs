//! The cross-reference report: a two-hop expansion from one user's
//! statuses into a symmetric interaction graph.

use crate::full_status::{status_key, value_quoted, value_replied, value_retweeted};
use crate::ids::{sort_dedup, sorted_strict};
use crate::lookup::{
    md_matches, resolvable, store_timestamp, user_rows, Lookup, TweetMetadata,
};
use crate::store::seq_find;
use vstd::prelude::*;

verus! {

/// The value held for a key in a small association list, first match wins.
pub open spec fn km_find<V>(s: Seq<(u64, V)>, k: u64) -> Option<V>
    decreases s.len(),
{
    if s.len() == 0 {
        Option::None
    } else if s[0].0 == k {
        Option::Some(s[0].1)
    } else {
        km_find(s.drop_first(), k)
    }
}

/// Appending a fresh key binds it without disturbing the others.
pub proof fn lemma_km_find_push<V>(s: Seq<(u64, V)>, k: u64, v: V, q: u64)
    ensures
        km_find(s.push((k, v)), q) == (if km_find(s, q) is Some {
            km_find(s, q)
        } else if q == k {
            Option::Some(v)
        } else {
            Option::<V>::None
        }),
    decreases s.len(),
{
    if s.len() == 0 {
        assert(s.push((k, v)).drop_first() =~= s);
    } else {
        assert(s.push((k, v)).drop_first() =~= s.drop_first().push((k, v)));
        lemma_km_find_push(s.drop_first(), k, v, q);
    }
}

/// A bound value comes from an entry with that key.
pub proof fn lemma_km_find_pair<V>(s: Seq<(u64, V)>, k: u64)
    requires
        km_find(s, k) is Some,
    ensures
        exists|i: int|
            0 <= i < s.len() && (#[trigger] s[i]).0 == k && s[i].1 == km_find(s, k)->0,
    decreases s.len(),
{
    if s.len() > 0 {
        if s[0].0 == k {
            assert(s[0].0 == k && s[0].1 == km_find(s, k)->0);
        } else {
            lemma_km_find_pair(s.drop_first(), k);
            let i = choose|i: int|
                0 <= i < s.drop_first().len() && (#[trigger] s.drop_first()[i]).0 == k
                    && s.drop_first()[i].1 == km_find(s.drop_first(), k)->0;
            assert(s[i + 1] == s.drop_first()[i]);
        }
    }
}

/// A small map from ids to values, used for the transient per-report
/// state.
pub struct KeyMap<V> {
    pub entries: Vec<(u64, V)>,
}

impl<V> KeyMap<V> {
    pub fn new() -> (r: KeyMap<V>)
        ensures
            r.entries@ == Seq::<(u64, V)>::empty(),
    {
        KeyMap { entries: Vec::new() }
    }

    /// The value bound to `k`, if any.
    pub fn get(&self, k: u64) -> (r: Option<&V>)
        ensures
            (match r {
                Option::Some(v) => km_find(self.entries@, k) == Option::Some(*v),
                Option::None => km_find(self.entries@, k) is None,
            }),
    {
        let mut i: usize = 0;
        proof {
            assert(self.entries@.skip(0) =~= self.entries@);
        }
        while i < self.entries.len()
            invariant
                i <= self.entries@.len(),
                km_find(self.entries@, k) == km_find(self.entries@.skip(i as int), k),
            decreases self.entries@.len() - i,
        {
            proof {
                assert(self.entries@.skip(i as int)[0] == self.entries@[i as int]);
                assert(self.entries@.skip(i as int).drop_first() =~= self.entries@.skip(
                    i as int + 1,
                ));
            }
            if self.entries[i].0 == k {
                return Some(&self.entries[i].1);
            }
            i = i + 1;
        }
        proof {
            assert(self.entries@.skip(self.entries@.len() as int) =~= Seq::<(u64, V)>::empty());
        }
        None
    }

    /// Whether `k` is bound.
    pub fn contains(&self, k: u64) -> (r: bool)
        ensures
            r == (km_find(self.entries@, k) is Some),
    {
        self.get(k).is_some()
    }

    /// Binds a key not yet bound.
    pub fn insert_new(&mut self, k: u64, v: V)
        requires
            km_find(old(self).entries@, k) is None,
        ensures
            final(self).entries@ == old(self).entries@.push((k, v)),
    {
        self.entries.push((k, v));
    }
}

/// The pairs `(other_user_id, status_id)` a single resolved status adds to
/// each bucket, as spelled out by the bucketing rules. `db` is the
/// two-hop metadata map and `sid` the status under consideration.
pub open spec fn retweets_delta(
    db: Seq<(u64, TweetMetadata)>,
    target: u64,
    sid: u64,
) -> Set<(u64, u64)> {
    match km_find(db, sid) {
        Option::Some(TweetMetadata::Retweet { user_id, retweeted_id, .. }) => {
            match km_find(db, retweeted_id) {
                Option::Some(rm) => if user_id == target {
                    set![(rm.spec_user_id(), retweeted_id)]
                } else {
                    Set::empty()
                },
                Option::None => Set::empty(),
            }
        },
        _ => Set::empty(),
    }
}

pub open spec fn retweeted_by_delta(
    db: Seq<(u64, TweetMetadata)>,
    target: u64,
    sid: u64,
) -> Set<(u64, u64)> {
    match km_find(db, sid) {
        Option::Some(TweetMetadata::Retweet { user_id, retweeted_id, .. }) => {
            match km_find(db, retweeted_id) {
                Option::Some(rm) => if user_id != target && rm.spec_user_id() == target {
                    set![(user_id, retweeted_id)]
                } else {
                    Set::empty()
                },
                Option::None => Set::empty(),
            }
        },
        _ => Set::empty(),
    }
}

pub open spec fn replies_to_delta(
    db: Seq<(u64, TweetMetadata)>,
    target: u64,
    sid: u64,
) -> Set<(u64, u64)> {
    match km_find(db, sid) {
        Option::Some(TweetMetadata::Full { user_id, replied_to_id, .. }) => {
            if user_id == target {
                match replied_to_id {
                    Option::Some(rid) => match km_find(db, rid) {
                        Option::Some(rm) => set![(rm.spec_user_id(), rm.spec_status_id())],
                        Option::None => Set::empty(),
                    },
                    Option::None => Set::empty(),
                }
            } else {
                Set::empty()
            }
        },
        _ => Set::empty(),
    }
}

pub open spec fn quotes_delta(
    db: Seq<(u64, TweetMetadata)>,
    target: u64,
    sid: u64,
) -> Set<(u64, u64)> {
    match km_find(db, sid) {
        Option::Some(TweetMetadata::Full { user_id, quoted_id, .. }) => {
            if user_id == target {
                match quoted_id {
                    Option::Some(qid) => match km_find(db, qid) {
                        Option::Some(qm) => set![(qm.spec_user_id(), qm.spec_status_id())],
                        Option::None => Set::empty(),
                    },
                    Option::None => Set::empty(),
                }
            } else {
                Set::empty()
            }
        },
        _ => Set::empty(),
    }
}

pub open spec fn mentions_delta(
    db: Seq<(u64, TweetMetadata)>,
    target: u64,
    sid: u64,
) -> Set<(u64, u64)> {
    match km_find(db, sid) {
        Option::Some(TweetMetadata::Full { user_id, mentioned_user_ids, .. }) => {
            if user_id == target {
                Set::new(|pr: (u64, u64)| pr.1 == sid && mentioned_user_ids@.contains(pr.0))
            } else {
                Set::empty()
            }
        },
        _ => Set::empty(),
    }
}

pub open spec fn replied_to_by_delta(
    db: Seq<(u64, TweetMetadata)>,
    target: u64,
    sid: u64,
) -> Set<(u64, u64)> {
    match km_find(db, sid) {
        Option::Some(TweetMetadata::Full { user_id, replied_to_id, .. }) => {
            match replied_to_id {
                Option::Some(rid) => match km_find(db, rid) {
                    Option::Some(rm) => if rm.spec_user_id() == target {
                        set![(user_id, sid)]
                    } else {
                        Set::empty()
                    },
                    Option::None => Set::empty(),
                },
                Option::None => Set::empty(),
            }
        },
        _ => Set::empty(),
    }
}

/// A quoted-by edge is added for every quote whose quoted metadata
/// resolves, whoever wrote the quote.
pub open spec fn quoted_by_delta(
    db: Seq<(u64, TweetMetadata)>,
    target: u64,
    sid: u64,
) -> Set<(u64, u64)> {
    match km_find(db, sid) {
        Option::Some(TweetMetadata::Full { user_id, quoted_id, .. }) => {
            match quoted_id {
                Option::Some(qid) => match km_find(db, qid) {
                    Option::Some(_) => set![(user_id, sid)],
                    Option::None => Set::empty(),
                },
                Option::None => Set::empty(),
            }
        },
        _ => Set::empty(),
    }
}

pub open spec fn mentioned_by_delta(
    db: Seq<(u64, TweetMetadata)>,
    target: u64,
    sid: u64,
) -> Set<(u64, u64)> {
    match km_find(db, sid) {
        Option::Some(TweetMetadata::Full { user_id, mentioned_user_ids, .. }) => {
            if mentioned_user_ids@.contains(target) {
                set![(user_id, sid)]
            } else {
                Set::empty()
            }
        },
        _ => Set::empty(),
    }
}

/// The status ids a metadata record points at: its retweeted, replied-to,
/// and quoted edges.
pub open spec fn md_edges(m: TweetMetadata) -> Set<u64> {
    match m {
        TweetMetadata::Retweet { retweeted_id, .. } => set![retweeted_id],
        TweetMetadata::Full { replied_to_id, quoted_id, .. } => (match replied_to_id {
            Option::Some(r) => set![r],
            Option::None => Set::<u64>::empty(),
        }) + (match quoted_id {
            Option::Some(q) => set![q],
            Option::None => Set::<u64>::empty(),
        }),
        TweetMetadata::Short { .. } => Set::empty(),
    }
}

/// Whether the full record held for `s` points at `x`.
pub open spec fn store_edge_of(ev: Seq<(Seq<u8>, Seq<u8>)>, s: u64, x: u64) -> bool {
    match seq_find(ev, status_key(s)) {
        Option::Some(v) => value_retweeted(v) == Option::Some(x) || value_replied(v)
            == Option::Some(x) || value_quoted(v) == Option::Some(x),
        Option::None => false,
    }
}

/// Matching metadata has exactly the store's edges.
pub proof fn lemma_md_matches_edges(
    ev: Seq<(Seq<u8>, Seq<u8>)>,
    s: u64,
    m: TweetMetadata,
)
    requires
        md_matches(ev, s, m),
    ensures
        forall|x: u64| #[trigger] md_edges(m).contains(x) <==> store_edge_of(ev, s, x),
{
}

/// A metadata table a report was built against: everything bound in it
/// matches the store, every resolvable seed id is bound, and so is every
/// resolvable edge target of a bound seed.
pub open spec fn report_table_ok(
    ev: Seq<(Seq<u8>, Seq<u8>)>,
    rows: Seq<(Seq<char>, Seq<u64>)>,
    dbs: Seq<(u64, TweetMetadata)>,
) -> bool {
    &&& forall|x: u64| #[trigger] km_find(dbs, x) is Some ==> md_matches(ev, x, km_find(dbs, x)->0)
    &&& forall|x: u64|
        all_ids(rows).contains(x) && resolvable(ev, x) ==> #[trigger] km_find(dbs, x) is Some
    &&& forall|s: u64, x: u64|
        km_find(dbs, s) is Some && all_ids(rows).contains(s) && #[trigger] store_edge_of(ev, s, x)
            && resolvable(ev, x) ==> km_find(dbs, x) is Some
}

/// What one expanded bucket holds, relative to a metadata table: a row for
/// exactly the user ids that the delta rule pairs with some status and the
/// store can name, carrying exactly the paired status ids.
pub open spec fn bucket_matches(
    ev: Seq<(Seq<u8>, Seq<u8>)>,
    dbs: Seq<(u64, TweetMetadata)>,
    target: u64,
    sids: Seq<u64>,
    b: Seq<(u64, (String, Vec<u64>))>,
    f: spec_fn(Seq<(u64, TweetMetadata)>, u64, u64) -> Set<(u64, u64)>,
) -> bool {
    &&& forall|p: int, sid: u64|
        #![trigger b[p].1.1@.contains(sid)]
        0 <= p < b.len() ==> (b[p].1.1@.contains(sid) <==> delta_fold(
            dbs,
            target,
            sids,
            f,
        ).contains((b[p].0, sid)))
    &&& forall|u: u64|
        #![trigger user_rows(ev, u)]
        (exists|p: int| 0 <= p < b.len() && (#[trigger] b[p]).0 == u) <==> ((exists|sid: u64|
            #[trigger] delta_fold(dbs, target, sids, f).contains((u, sid))) && user_rows(
            ev,
            u,
        ).len() > 0)
}

/// The bucketing rule of each bucket, as a value the fold can take.
pub open spec fn retweets_rule() -> spec_fn(Seq<(u64, TweetMetadata)>, u64, u64) -> Set<
    (u64, u64),
> {
    |d: Seq<(u64, TweetMetadata)>, t: u64, s: u64| retweets_delta(d, t, s)
}

pub open spec fn retweeted_by_rule() -> spec_fn(Seq<(u64, TweetMetadata)>, u64, u64) -> Set<
    (u64, u64),
> {
    |d: Seq<(u64, TweetMetadata)>, t: u64, s: u64| retweeted_by_delta(d, t, s)
}

pub open spec fn replies_to_rule() -> spec_fn(Seq<(u64, TweetMetadata)>, u64, u64) -> Set<
    (u64, u64),
> {
    |d: Seq<(u64, TweetMetadata)>, t: u64, s: u64| replies_to_delta(d, t, s)
}

pub open spec fn quotes_rule() -> spec_fn(Seq<(u64, TweetMetadata)>, u64, u64) -> Set<
    (u64, u64),
> {
    |d: Seq<(u64, TweetMetadata)>, t: u64, s: u64| quotes_delta(d, t, s)
}

pub open spec fn mentions_rule() -> spec_fn(Seq<(u64, TweetMetadata)>, u64, u64) -> Set<
    (u64, u64),
> {
    |d: Seq<(u64, TweetMetadata)>, t: u64, s: u64| mentions_delta(d, t, s)
}

pub open spec fn replied_to_by_rule() -> spec_fn(Seq<(u64, TweetMetadata)>, u64, u64) -> Set<
    (u64, u64),
> {
    |d: Seq<(u64, TweetMetadata)>, t: u64, s: u64| replied_to_by_delta(d, t, s)
}

pub open spec fn quoted_by_rule() -> spec_fn(Seq<(u64, TweetMetadata)>, u64, u64) -> Set<
    (u64, u64),
> {
    |d: Seq<(u64, TweetMetadata)>, t: u64, s: u64| quoted_by_delta(d, t, s)
}

pub open spec fn mentioned_by_rule() -> spec_fn(Seq<(u64, TweetMetadata)>, u64, u64) -> Set<
    (u64, u64),
> {
    |d: Seq<(u64, TweetMetadata)>, t: u64, s: u64| mentioned_by_delta(d, t, s)
}

/// The bucket pairs accumulated by applying one delta rule to each status
/// id in turn, against a fixed metadata table.
pub open spec fn delta_fold(
    db: Seq<(u64, TweetMetadata)>,
    target: u64,
    sids: Seq<u64>,
    f: spec_fn(Seq<(u64, TweetMetadata)>, u64, u64) -> Set<(u64, u64)>,
) -> Set<(u64, u64)>
    decreases sids.len(),
{
    if sids.len() == 0 {
        Set::empty()
    } else {
        f(db, target, sids[0]) + delta_fold(db, target, sids.drop_first(), f)
    }
}

pub proof fn lemma_delta_fold_concat(
    db: Seq<(u64, TweetMetadata)>,
    target: u64,
    s: Seq<u64>,
    t: Seq<u64>,
    f: spec_fn(Seq<(u64, TweetMetadata)>, u64, u64) -> Set<(u64, u64)>,
)
    ensures
        delta_fold(db, target, s + t, f) == delta_fold(db, target, s, f) + delta_fold(
            db,
            target,
            t,
            f,
        ),
    decreases s.len(),
{
    if s.len() == 0 {
        assert(s + t =~= t);
        assert(delta_fold(db, target, s, f) + delta_fold(db, target, t, f) =~= delta_fold(
            db,
            target,
            t,
            f,
        ));
    } else {
        lemma_delta_fold_concat(db, target, s.drop_first(), t, f);
        assert((s + t).drop_first() =~= s.drop_first() + t);
        assert((s + t)[0] == s[0]);
        assert(f(db, target, s[0]) + (delta_fold(db, target, s.drop_first(), f) + delta_fold(
            db,
            target,
            t,
            f,
        )) =~= (f(db, target, s[0]) + delta_fold(db, target, s.drop_first(), f)) + delta_fold(
            db,
            target,
            t,
            f,
        ));
    }
}

/// Extending the processed ids by one extends the fold by that id's delta.
pub proof fn lemma_delta_fold_push(
    db: Seq<(u64, TweetMetadata)>,
    target: u64,
    s: Seq<u64>,
    x: u64,
    f: spec_fn(Seq<(u64, TweetMetadata)>, u64, u64) -> Set<(u64, u64)>,
)
    ensures
        delta_fold(db, target, s.push(x), f) == delta_fold(db, target, s, f) + f(db, target, x),
{
    lemma_delta_fold_concat(db, target, s, seq![x], f);
    assert(s.push(x) =~= s + seq![x]);
    assert(seq![x].drop_first() =~= Seq::<u64>::empty());
    reveal_with_fuel(delta_fold, 2);
    assert(delta_fold(db, target, seq![x], f) =~= f(db, target, x));
}

/// A bucket never holds the same pair twice.
pub open spec fn distinct_pairs(s: Seq<(u64, u64)>) -> bool {
    forall|i: int, j: int| 0 <= i < j < s.len() ==> s[i] != s[j]
}

/// Adds a pair to a bucket unless it is already there.
fn insert_pair(bucket: &mut Vec<(u64, u64)>, pr: (u64, u64))
    requires
        distinct_pairs(old(bucket)@),
    ensures
        distinct_pairs(final(bucket)@),
        final(bucket)@.to_set() == old(bucket)@.to_set().insert(pr),
{
    let mut i: usize = 0;
    while i < bucket.len()
        invariant
            i <= bucket@.len(),
            bucket@ == old(bucket)@,
            distinct_pairs(bucket@),
            forall|j: int| 0 <= j < i ==> bucket@[j] != pr,
        decreases bucket@.len() - i,
    {
        if bucket[i].0 == pr.0 && bucket[i].1 == pr.1 {
            proof {
                assert(bucket@[i as int] == pr);
                assert(bucket@.contains(pr));
                assert(bucket@.to_set().insert(pr) =~= bucket@.to_set());
            }
            return ;
        }
        i = i + 1;
    }
    let ghost prev = bucket@;
    bucket.push(pr);
    proof {
        assert(forall|j: int| 0 <= j < prev.len() ==> prev[j] != pr);
        assert forall|p: int, q: int|
            0 <= p < q < bucket@.len() implies bucket@[p] != bucket@[q] by {
            if q < prev.len() {
                assert(bucket@[p] == prev[p] && bucket@[q] == prev[q]);
            } else {
                assert(bucket@[q] == pr && bucket@[p] == prev[p]);
            }
        }
        assert forall|x: (u64, u64)| #[trigger] bucket@.contains(x) implies (prev.contains(x) || x
            == pr) by {
            let j = choose|j: int| 0 <= j < bucket@.len() && bucket@[j] == x;
            if j < prev.len() {
                assert(prev[j] == x);
            }
        }
        assert forall|x: (u64, u64)| prev.contains(x) || x == pr implies #[trigger] bucket@.contains(
            x,
        ) by {
            if x == pr {
                assert(bucket@[prev.len() as int] == pr);
            } else {
                let j = choose|j: int| 0 <= j < prev.len() && prev[j] == x;
                assert(bucket@[j] == x);
            }
        }
        assert(bucket@.to_set() =~= prev.to_set().insert(pr));
    }
}

/// Appending one element extends a sequence's membership by exactly it.
pub proof fn lemma_contains_push<T>(s: Seq<T>, x: T, y: T)
    ensures
        s.push(x).contains(y) <==> (s.contains(y) || x == y),
{
    if s.contains(y) {
        let w = choose|w: int| 0 <= w < s.len() && s[w] == y;
        assert(s.push(x)[w] == y);
    }
    if x == y {
        assert(s.push(x)[s.len() as int] == y);
    }
    if s.push(x).contains(y) {
        let w = choose|w: int| 0 <= w < s.push(x).len() && s.push(x)[w] == y;
        if w < s.len() {
            assert(s[w] == y);
        }
    }
}

/// The first component of every pair of a bucket, in order.
pub open spec fn firsts_seq(s: Seq<(u64, u64)>) -> Seq<u64> {
    s.map_values(|pr: (u64, u64)| pr.0)
}

/// The user ids appearing as the first component of a bucket's pairs.
pub open spec fn firsts(s: Seq<(u64, u64)>) -> Set<u64> {
    firsts_seq(s).to_set()
}

/// Appends the first component of every pair of a bucket.
fn push_firsts(acc: &mut Vec<u64>, bucket: &Vec<(u64, u64)>)
    ensures
        final(acc)@ == old(acc)@ + firsts_seq(bucket@),
{
    let ghost base = acc@;
    let mut j: usize = 0;
    proof {
        assert(acc@ =~= base + firsts_seq(bucket@.take(0)));
    }
    while j < bucket.len()
        invariant
            j <= bucket@.len(),
            acc@ == base + firsts_seq(bucket@.take(j as int)),
        decreases bucket@.len() - j,
    {
        acc.push(bucket[j].0);
        proof {
            assert(acc@ =~= base + firsts_seq(bucket@.take(j as int + 1)));
        }
        j = j + 1;
    }
    proof {
        assert(bucket@.take(bucket@.len() as int) =~= bucket@);
    }
}

/// The eight symmetric buckets of `(other_user_id, status_id)` pairs.
pub struct UserRelations {
    pub retweets: Vec<(u64, u64)>,
    pub replies_to: Vec<(u64, u64)>,
    pub quotes: Vec<(u64, u64)>,
    pub mentions: Vec<(u64, u64)>,
    pub retweeted_by: Vec<(u64, u64)>,
    pub replied_to_by: Vec<(u64, u64)>,
    pub quoted_by: Vec<(u64, u64)>,
    pub mentioned_by: Vec<(u64, u64)>,
}

impl UserRelations {
    pub open spec fn wf(self) -> bool {
        distinct_pairs(self.retweets@) && distinct_pairs(self.replies_to@) && distinct_pairs(
            self.quotes@,
        ) && distinct_pairs(self.mentions@) && distinct_pairs(self.retweeted_by@)
            && distinct_pairs(self.replied_to_by@) && distinct_pairs(self.quoted_by@)
            && distinct_pairs(self.mentioned_by@)
    }

    pub fn new() -> (r: UserRelations)
        ensures
            r.wf(),
            r.retweets@.len() == 0 && r.replies_to@.len() == 0 && r.quotes@.len() == 0
                && r.mentions@.len() == 0 && r.retweeted_by@.len() == 0 && r.replied_to_by@.len()
                == 0 && r.quoted_by@.len() == 0 && r.mentioned_by@.len() == 0,
    {
        UserRelations {
            retweets: Vec::new(),
            replies_to: Vec::new(),
            quotes: Vec::new(),
            mentions: Vec::new(),
            retweeted_by: Vec::new(),
            replied_to_by: Vec::new(),
            quoted_by: Vec::new(),
            mentioned_by: Vec::new(),
        }
    }

    /// Buckets the edges one resolved status contributes, exactly as the
    /// deltas spell them out: outgoing edges when the target wrote the
    /// status, incoming edges when the target is on the other end, and a
    /// quoted-by edge for every resolved quote.
    pub fn add(&mut self, target_user_id: u64, db: &KeyMap<TweetMetadata>, status_id: u64)
        requires
            old(self).wf(),
        ensures
            final(self).wf(),
            final(self).retweets@.to_set() == old(self).retweets@.to_set() + retweets_delta(
                db.entries@,
                target_user_id,
                status_id,
            ),
            final(self).retweeted_by@.to_set() == old(self).retweeted_by@.to_set()
                + retweeted_by_delta(db.entries@, target_user_id, status_id),
            final(self).replies_to@.to_set() == old(self).replies_to@.to_set() + replies_to_delta(
                db.entries@,
                target_user_id,
                status_id,
            ),
            final(self).quotes@.to_set() == old(self).quotes@.to_set() + quotes_delta(
                db.entries@,
                target_user_id,
                status_id,
            ),
            final(self).mentions@.to_set() == old(self).mentions@.to_set() + mentions_delta(
                db.entries@,
                target_user_id,
                status_id,
            ),
            final(self).replied_to_by@.to_set() == old(self).replied_to_by@.to_set()
                + replied_to_by_delta(db.entries@, target_user_id, status_id),
            final(self).quoted_by@.to_set() == old(self).quoted_by@.to_set() + quoted_by_delta(
                db.entries@,
                target_user_id,
                status_id,
            ),
            final(self).mentioned_by@.to_set() == old(self).mentioned_by@.to_set()
                + mentioned_by_delta(db.entries@, target_user_id, status_id),
    {
        let md = db.get(status_id);
        match md {
            Option::Some(TweetMetadata::Retweet { user_id, retweeted_id, .. }) => {
                let author = *user_id;
                let rid = *retweeted_id;
                match db.get(rid) {
                    Option::Some(rm) => {
                        if author == target_user_id {
                            insert_pair(&mut self.retweets, (rm.user_id(), rid));
                        } else if rm.user_id() == target_user_id {
                            insert_pair(&mut self.retweeted_by, (author, rid));
                        }
                    },
                    Option::None => {},
                }
            },
            Option::Some(TweetMetadata::Full {
                user_id,
                replied_to_id,
                quoted_id,
                mentioned_user_ids,
                ..
            }) => {
                let author = *user_id;
                let replied = *replied_to_id;
                let quoted = *quoted_id;
                if author == target_user_id {
                    if let Option::Some(rid) = replied {
                        if let Option::Some(rm) = db.get(rid) {
                            insert_pair(&mut self.replies_to, (rm.user_id(), rm.status_id()));
                        }
                    }
                    if let Option::Some(qid) = quoted {
                        if let Option::Some(qm) = db.get(qid) {
                            insert_pair(&mut self.quotes, (qm.user_id(), qm.status_id()));
                        }
                    }
                    let ghost mset = mentions_delta(db.entries@, target_user_id, status_id);
                    let ghost snap = *self;
                    let mut mi: usize = 0;
                    proof {
                        assert(self.mentions@.to_set() =~= old(self).mentions@.to_set() + Set::new(
                            |pr: (u64, u64)|
                                pr.1 == status_id && mentioned_user_ids@.take(0).contains(pr.0),
                        ));
                    }
                    while mi < mentioned_user_ids.len()
                        invariant
                            mi <= mentioned_user_ids@.len(),
                            distinct_pairs(self.mentions@),
                            self.retweets == snap.retweets,
                            self.replies_to == snap.replies_to,
                            self.quotes == snap.quotes,
                            self.retweeted_by == snap.retweeted_by,
                            self.replied_to_by == snap.replied_to_by,
                            self.quoted_by == snap.quoted_by,
                            self.mentioned_by == snap.mentioned_by,
                            self.mentions@.to_set() == old(self).mentions@.to_set() + Set::new(
                                |pr: (u64, u64)|
                                    pr.1 == status_id && mentioned_user_ids@.take(
                                        mi as int,
                                    ).contains(pr.0),
                            ),
                        decreases mentioned_user_ids@.len() - mi,
                    {
                        let m = mentioned_user_ids[mi];
                        insert_pair(&mut self.mentions, (m, status_id));
                        proof {
                            let before = Set::new(
                                |pr: (u64, u64)|
                                    pr.1 == status_id && mentioned_user_ids@.take(
                                        mi as int,
                                    ).contains(pr.0),
                            );
                            let after = Set::new(
                                |pr: (u64, u64)|
                                    pr.1 == status_id && mentioned_user_ids@.take(
                                        mi as int + 1,
                                    ).contains(pr.0),
                            );
                            assert(mentioned_user_ids@.take(mi as int + 1) =~= mentioned_user_ids@
                                .take(mi as int).push(m));
                            assert forall|pr: (u64, u64)| #[trigger] after.contains(pr) implies (
                            before.contains(pr) || pr == (m, status_id)) by {
                                let w = choose|w: int|
                                    0 <= w < mi + 1 && #[trigger] mentioned_user_ids@.take(
                                        mi as int + 1,
                                    )[w] == pr.0;
                                if w < mi {
                                    assert(mentioned_user_ids@.take(mi as int)[w] == pr.0);
                                }
                            }
                            assert forall|pr: (u64, u64)|
                                before.contains(pr) || pr == (m, status_id) implies #[trigger] after
                                .contains(pr) by {
                                if pr == (m, status_id) {
                                    assert(mentioned_user_ids@.take(mi as int + 1)[mi as int]
                                        == pr.0);
                                } else {
                                    let w = choose|w: int|
                                        0 <= w < mi && #[trigger] mentioned_user_ids@.take(
                                            mi as int,
                                        )[w] == pr.0;
                                    assert(mentioned_user_ids@.take(mi as int + 1)[w] == pr.0);
                                }
                            }
                            assert(after =~= before.insert((m, status_id)));
                            assert(self.mentions@.to_set() =~= old(self).mentions@.to_set()
                                + after);
                        }
                        mi = mi + 1;
                    }
                    proof {
                        assert(mentioned_user_ids@.take(mentioned_user_ids@.len() as int)
                            =~= mentioned_user_ids@);
                        assert(self.mentions@.to_set() =~= old(self).mentions@.to_set() + mset);
                    }
                }
                if let Option::Some(rid) = replied {
                    if let Option::Some(rm) = db.get(rid) {
                        if rm.user_id() == target_user_id {
                            insert_pair(&mut self.replied_to_by, (author, status_id));
                        }
                    }
                }
                if let Option::Some(qid) = quoted {
                    if db.get(qid).is_some() {
                        insert_pair(&mut self.quoted_by, (author, status_id));
                    }
                }
                let mut found_target = false;
                let mut ki: usize = 0;
                while ki < mentioned_user_ids.len()
                    invariant
                        ki <= mentioned_user_ids@.len(),
                        found_target == mentioned_user_ids@.take(ki as int).contains(
                            target_user_id,
                        ),
                    decreases mentioned_user_ids@.len() - ki,
                {
                    proof {
                        assert(mentioned_user_ids@.take(ki as int + 1) =~= mentioned_user_ids@.take(
                            ki as int,
                        ).push(mentioned_user_ids@[ki as int]));
                    }
                    if mentioned_user_ids[ki] == target_user_id {
                        found_target = true;
                        proof {
                            assert(mentioned_user_ids@.take(ki as int + 1)[ki as int]
                                == target_user_id);
                        }
                    }
                    ki = ki + 1;
                }
                proof {
                    assert(mentioned_user_ids@.take(mentioned_user_ids@.len() as int)
                        =~= mentioned_user_ids@);
                }
                if found_target {
                    insert_pair(&mut self.mentioned_by, (author, status_id));
                }
            },
            _ => {},
        }
        proof {
            let d = db.entries@;
            let t = target_user_id;
            let s = status_id;
            assert(self.retweets@.to_set() =~= old(self).retweets@.to_set() + retweets_delta(
                d,
                t,
                s,
            ));
            assert(self.retweeted_by@.to_set() =~= old(self).retweeted_by@.to_set()
                + retweeted_by_delta(d, t, s));
            assert(self.replies_to@.to_set() =~= old(self).replies_to@.to_set()
                + replies_to_delta(d, t, s));
            assert(self.quotes@.to_set() =~= old(self).quotes@.to_set() + quotes_delta(d, t, s));
            assert(self.mentions@.to_set() =~= old(self).mentions@.to_set() + mentions_delta(
                d,
                t,
                s,
            ));
            assert(self.replied_to_by@.to_set() =~= old(self).replied_to_by@.to_set()
                + replied_to_by_delta(d, t, s));
            assert(self.quoted_by@.to_set() =~= old(self).quoted_by@.to_set() + quoted_by_delta(
                d,
                t,
                s,
            ));
            assert(self.mentioned_by@.to_set() =~= old(self).mentioned_by@.to_set()
                + mentioned_by_delta(d, t, s));
        }
    }

    /// The user ids referenced by any bucket.
    pub open spec fn spec_user_ids(self) -> Set<u64> {
        firsts(self.retweets@) + firsts(self.replies_to@) + firsts(self.quotes@) + firsts(
            self.mentions@,
        ) + firsts(self.retweeted_by@) + firsts(self.replied_to_by@) + firsts(self.quoted_by@)
            + firsts(self.mentioned_by@)
    }

    /// Every user id referenced by any bucket, ascending and deduplicated.
    pub fn user_ids(&self) -> (r: Vec<u64>)
        ensures
            sorted_strict(r@),
            r@.to_set() == self.spec_user_ids(),
    {
        let mut acc: Vec<u64> = Vec::new();
        push_firsts(&mut acc, &self.retweets);
        push_firsts(&mut acc, &self.replies_to);
        push_firsts(&mut acc, &self.quotes);
        push_firsts(&mut acc, &self.mentions);
        push_firsts(&mut acc, &self.retweeted_by);
        push_firsts(&mut acc, &self.replied_to_by);
        push_firsts(&mut acc, &self.quoted_by);
        push_firsts(&mut acc, &self.mentioned_by);
        let r = sort_dedup(&acc);
        proof {
            let s1 = firsts_seq(self.retweets@);
            let s2 = firsts_seq(self.replies_to@);
            let s3 = firsts_seq(self.quotes@);
            let s4 = firsts_seq(self.mentions@);
            let s5 = firsts_seq(self.retweeted_by@);
            let s6 = firsts_seq(self.replied_to_by@);
            let s7 = firsts_seq(self.quoted_by@);
            let s8 = firsts_seq(self.mentioned_by@);
            let e = Seq::<u64>::empty();
            vstd::seq_lib::seq_to_set_distributes_over_add(e, s1);
            vstd::seq_lib::seq_to_set_distributes_over_add(e + s1, s2);
            vstd::seq_lib::seq_to_set_distributes_over_add((e + s1) + s2, s3);
            vstd::seq_lib::seq_to_set_distributes_over_add(((e + s1) + s2) + s3, s4);
            vstd::seq_lib::seq_to_set_distributes_over_add((((e + s1) + s2) + s3) + s4, s5);
            vstd::seq_lib::seq_to_set_distributes_over_add(
                ((((e + s1) + s2) + s3) + s4) + s5,
                s6,
            );
            vstd::seq_lib::seq_to_set_distributes_over_add(
                (((((e + s1) + s2) + s3) + s4) + s5) + s6,
                s7,
            );
            vstd::seq_lib::seq_to_set_distributes_over_add(
                ((((((e + s1) + s2) + s3) + s4) + s5) + s6) + s7,
                s8,
            );
            assert(e.to_set() =~= Set::<u64>::empty());
            assert(acc@.to_set() =~= self.spec_user_ids());
        }
        r
    }

    /// Expands one bucket into rows `(other_user_id, (screen_name, sorted
    /// status ids))`, ascending by user id; an id missing from the name map
    /// is dropped.
    pub fn expand(user_db: &KeyMap<String>, batch: &Vec<(u64, u64)>) -> (r: Vec<
        (u64, (String, Vec<u64>)),
    >)
        ensures
            forall|p: int, q: int| 0 <= p < q < r@.len() ==> r@[p].0 < r@[q].0,
            forall|p: int|
                0 <= p < r@.len() ==> km_find(user_db.entries@, (#[trigger] r@[p]).0)
                    == Option::Some(r@[p].1.0),
            forall|p: int|
                0 <= p < r@.len() ==> sorted_strict((#[trigger] r@[p]).1.1@) && (forall|sid: u64|
                    r@[p].1.1@.contains(sid) <==> batch@.contains((r@[p].0, sid))),
            forall|u: u64|
                (exists|p: int| 0 <= p < r@.len() && (#[trigger] r@[p]).0 == u) <==> (firsts(
                    batch@,
                ).contains(u) && km_find(user_db.entries@, u) is Some),
    {
        let mut acc: Vec<u64> = Vec::new();
        push_firsts(&mut acc, &batch);
        let uids = sort_dedup(&acc);
        proof {
            assert(Seq::<u64>::empty() + firsts_seq(batch@) =~= firsts_seq(batch@));
            assert(acc@.to_set() =~= firsts(batch@));
        }
        let mut out: Vec<(u64, (String, Vec<u64>))> = Vec::new();
        let mut i: usize = 0;
        proof {
            assert(uids@.take(0) =~= Seq::<u64>::empty());
        }
        while i < uids.len()
            invariant
                i <= uids@.len(),
                sorted_strict(uids@),
                uids@.to_set() == firsts(batch@),
                forall|p: int, q: int| 0 <= p < q < out@.len() ==> out@[p].0 < out@[q].0,
                forall|p: int|
                    0 <= p < out@.len() ==> uids@.take(i as int).contains((#[trigger] out@[p]).0),
                forall|p: int|
                    0 <= p < out@.len() ==> km_find(user_db.entries@, (#[trigger] out@[p]).0)
                        == Option::Some(out@[p].1.0),
                forall|p: int|
                    0 <= p < out@.len() ==> sorted_strict((#[trigger] out@[p]).1.1@) && (forall|
                        sid: u64,
                    |
                        out@[p].1.1@.contains(sid) <==> batch@.contains((out@[p].0, sid))),
                forall|u: u64|
                    (exists|p: int| 0 <= p < out@.len() && (#[trigger] out@[p]).0 == u) <==> (uids@
                        .take(i as int).contains(u) && km_find(user_db.entries@, u) is Some),
            decreases uids@.len() - i,
        {
            let u = uids[i];
            proof {
                assert(uids@.take(i as int + 1) =~= uids@.take(i as int).push(u));
            }
            match user_db.get(u) {
                Option::Some(name) => {
                    let mut ids: Vec<u64> = Vec::new();
                    let mut j: usize = 0;
                    proof {
                        assert(batch@.take(0) =~= Seq::<(u64, u64)>::empty());
                        assert(ids@ =~= ids_for(batch@.take(0), u));
                    }
                    while j < batch.len()
                        invariant
                            j <= batch@.len(),
                            ids@ == ids_for(batch@.take(j as int), u),
                        decreases batch@.len() - j,
                    {
                        let pr = &batch[j];
                        if pr.0 == u {
                            ids.push(pr.1);
                        }
                        proof {
                            assert(batch@.take(j as int + 1) =~= batch@.take(j as int) + seq![
                                batch@[j as int],
                            ]);
                            lemma_ids_for_concat(
                                batch@.take(j as int),
                                seq![batch@[j as int]],
                                u,
                            );
                            reveal_with_fuel(ids_for, 2);
                            assert(seq![batch@[j as int]].drop_first() =~= Seq::<
                                (u64, u64),
                            >::empty());
                            assert(ids@ =~= ids_for(batch@.take(j as int + 1), u));
                        }
                        j = j + 1;
                    }
                    proof {
                        assert(batch@.take(batch@.len() as int) =~= batch@);
                    }
                    let sorted_ids = sort_dedup(&ids);
                    let ghost prev_out = out@;
                    out.push((u, (name.clone(), sorted_ids)));
                    proof {
                        lemma_ids_for_contains(batch@, u);
                        assert forall|p: int, q: int|
                            0 <= p < q < out@.len() implies out@[p].0 < out@[q].0 by {
                            if q < prev_out.len() {
                                assert(out@[p] == prev_out[p] && out@[q] == prev_out[q]);
                            } else {
                                assert(out@[p] == prev_out[p]);
                                assert(uids@.take(i as int).contains(prev_out[p].0));
                                let m = choose|m: int|
                                    0 <= m < i && #[trigger] uids@.take(i as int)[m]
                                        == prev_out[p].0;
                                assert(uids@[m] == prev_out[p].0);
                                assert(uids@[m] < uids@[i as int]);
                            }
                        }
                        assert forall|sid: u64|
                            out@[out@.len() - 1].1.1@.contains(sid) <==> batch@.contains(
                                (u, sid),
                            ) by {
                            assert(sorted_ids@.to_set().contains(sid) == ids@.to_set().contains(
                                sid,
                            ));
                        }
                        assert forall|u2: u64|
                            (exists|p: int|
                                0 <= p < out@.len() && (#[trigger] out@[p]).0 == u2) <==> (uids@
                                .take(i as int + 1).contains(u2) && km_find(
                                user_db.entries@,
                                u2,
                            ) is Some) by {
                            lemma_contains_push(uids@.take(i as int), u, u2);
                            if u2 == u {
                                assert(out@[out@.len() - 1].0 == u);
                            } else {
                                if exists|p: int|
                                    0 <= p < out@.len() && (#[trigger] out@[p]).0 == u2 {
                                    let p = choose|p: int|
                                        0 <= p < out@.len() && (#[trigger] out@[p]).0 == u2;
                                    assert(prev_out[p].0 == u2);
                                    assert(exists|p2: int|
                                        0 <= p2 < prev_out.len() && (#[trigger] prev_out[p2]).0
                                            == u2);
                                }
                                if exists|p: int|
                                    0 <= p < prev_out.len() && (#[trigger] prev_out[p]).0 == u2 {
                                    let p = choose|p: int|
                                        0 <= p < prev_out.len() && (#[trigger] prev_out[p]).0
                                            == u2;
                                    assert(out@[p].0 == u2);
                                }
                            }
                        }
                    }
                },
                Option::None => {
                    proof {
                        assert forall|u2: u64|
                            (exists|p: int|
                                0 <= p < out@.len() && (#[trigger] out@[p]).0 == u2) <==> (uids@
                                .take(i as int + 1).contains(u2) && km_find(
                                user_db.entries@,
                                u2,
                            ) is Some) by {
                            lemma_contains_push(uids@.take(i as int), u, u2);
                        }
                    }
                },
            }
            proof {
                assert forall|p: int|
                    0 <= p < out@.len() implies uids@.take(i as int + 1).contains(
                    (#[trigger] out@[p]).0,
                ) by {
                    lemma_contains_push(uids@.take(i as int), u, out@[p].0);
                }
            }
            i = i + 1;
        }
        proof {
            assert(uids@.take(uids@.len() as int) =~= uids@);
            assert forall|u: u64|
                (exists|p: int| 0 <= p < out@.len() && (#[trigger] out@[p]).0 == u) <==> (firsts(
                    batch@,
                ).contains(u) && km_find(user_db.entries@, u) is Some) by {
                if firsts(batch@).contains(u) {
                    assert(uids@.to_set().contains(u));
                    assert(uids@.contains(u));
                }
                if uids@.contains(u) {
                    assert(uids@.to_set().contains(u));
                }
            }
        }
        out
    }
}

/// The seed status ids of a report: every id of every row, in order.
pub open spec fn all_ids(rows: Seq<(Seq<char>, Seq<u64>)>) -> Seq<u64>
    decreases rows.len(),
{
    if rows.len() == 0 {
        Seq::empty()
    } else {
        rows[0].1 + all_ids(rows.drop_first())
    }
}

pub proof fn lemma_all_ids_concat(s: Seq<(Seq<char>, Seq<u64>)>, t: Seq<(Seq<char>, Seq<u64>)>)
    ensures
        all_ids(s + t) == all_ids(s) + all_ids(t),
    decreases s.len(),
{
    if s.len() == 0 {
        assert(s + t =~= t);
        assert(all_ids(s) + all_ids(t) =~= all_ids(t));
    } else {
        lemma_all_ids_concat(s.drop_first(), t);
        assert((s + t).drop_first() =~= s.drop_first() + t);
        assert((s + t)[0] == s[0]);
        assert(s[0].1 + (all_ids(s.drop_first()) + all_ids(t)) =~= (s[0].1 + all_ids(
            s.drop_first(),
        )) + all_ids(t));
    }
}

/// Every id of every row is among the seed ids.
pub proof fn lemma_all_ids_contains(rows: Seq<(Seq<char>, Seq<u64>)>, i: int, x: u64)
    requires
        0 <= i < rows.len(),
        rows[i].1.contains(x),
    ensures
        all_ids(rows).contains(x),
    decreases i,
{
    if i == 0 {
        let w = choose|w: int| 0 <= w < rows[0].1.len() && rows[0].1[w] == x;
        assert(all_ids(rows)[w] == x);
    } else {
        assert(rows.drop_first()[i - 1] == rows[i]);
        lemma_all_ids_contains(rows.drop_first(), i - 1, x);
        let w = choose|w: int|
            0 <= w < all_ids(rows.drop_first()).len() && all_ids(rows.drop_first())[w] == x;
        assert(all_ids(rows)[rows[0].1.len() + w] == x);
    }
}

/// The ids in `ids` for which the store holds no record, in order.
pub open spec fn unresolved(ev: Seq<(Seq<u8>, Seq<u8>)>, ids: Seq<u64>) -> Seq<u64>
    decreases ids.len(),
{
    if ids.len() == 0 {
        Seq::empty()
    } else {
        (if resolvable(ev, ids[0]) {
            Seq::<u64>::empty()
        } else {
            seq![ids[0]]
        }) + unresolved(ev, ids.drop_first())
    }
}

pub proof fn lemma_unresolved_concat(ev: Seq<(Seq<u8>, Seq<u8>)>, s: Seq<u64>, t: Seq<u64>)
    ensures
        unresolved(ev, s + t) == unresolved(ev, s) + unresolved(ev, t),
    decreases s.len(),
{
    if s.len() == 0 {
        assert(s + t =~= t);
        assert(unresolved(ev, s) + unresolved(ev, t) =~= unresolved(ev, t));
    } else {
        lemma_unresolved_concat(ev, s.drop_first(), t);
        assert((s + t).drop_first() =~= s.drop_first() + t);
        assert((s + t)[0] == s[0]);
        let head = if resolvable(ev, s[0]) {
            Seq::<u64>::empty()
        } else {
            seq![s[0]]
        };
        assert(head + (unresolved(ev, s.drop_first()) + unresolved(ev, t)) =~= (head + unresolved(
            ev,
            s.drop_first(),
        )) + unresolved(ev, t));
    }
}

/// The unresolved ids of every row in order: what a report lists under
/// `not_found`.
pub open spec fn unresolved_rows(
    ev: Seq<(Seq<u8>, Seq<u8>)>,
    rows: Seq<(Seq<char>, Seq<u64>)>,
) -> Seq<u64>
    decreases rows.len(),
{
    if rows.len() == 0 {
        Seq::empty()
    } else {
        unresolved(ev, rows[0].1) + unresolved_rows(ev, rows.drop_first())
    }
}

pub proof fn lemma_unresolved_rows_concat(
    ev: Seq<(Seq<u8>, Seq<u8>)>,
    s: Seq<(Seq<char>, Seq<u64>)>,
    t: Seq<(Seq<char>, Seq<u64>)>,
)
    ensures
        unresolved_rows(ev, s + t) == unresolved_rows(ev, s) + unresolved_rows(ev, t),
    decreases s.len(),
{
    if s.len() == 0 {
        assert(s + t =~= t);
        assert(unresolved_rows(ev, s) + unresolved_rows(ev, t) =~= unresolved_rows(ev, t));
    } else {
        lemma_unresolved_rows_concat(ev, s.drop_first(), t);
        assert((s + t).drop_first() =~= s.drop_first() + t);
        assert((s + t)[0] == s[0]);
        assert(unresolved(ev, s[0].1) + (unresolved_rows(ev, s.drop_first()) + unresolved_rows(
            ev,
            t,
        )) =~= (unresolved(ev, s[0].1) + unresolved_rows(ev, s.drop_first())) + unresolved_rows(
            ev,
            t,
        ));
    }
}

/// How many of the ids the store can resolve.
pub open spec fn resolved_count(ev: Seq<(Seq<u8>, Seq<u8>)>, ids: Seq<u64>) -> int
    decreases ids.len(),
{
    if ids.len() == 0 {
        0
    } else {
        (if resolvable(ev, ids[0]) {
            1int
        } else {
            0int
        }) + resolved_count(ev, ids.drop_first())
    }
}

pub proof fn lemma_resolved_count_step(ev: Seq<(Seq<u8>, Seq<u8>)>, ids: Seq<u64>, j: int)
    requires
        0 <= j < ids.len(),
    ensures
        resolved_count(ev, ids.take(j + 1)) == resolved_count(ev, ids.take(j)) + (if resolvable(
            ev,
            ids[j],
        ) {
            1int
        } else {
            0int
        }),
        0 <= resolved_count(ev, ids.take(j)) <= j,
    decreases j,
{
    if j == 0 {
        assert(ids.take(1).drop_first() =~= ids.take(0));
        assert(ids.take(1)[0] == ids[0]);
    } else {
        lemma_resolved_count_step(ev, ids.drop_first(), j - 1);
        assert(ids.take(j + 1).drop_first() =~= ids.drop_first().take(j));
        assert(ids.take(j).drop_first() =~= ids.drop_first().take(j - 1));
        assert(ids.take(j + 1)[0] == ids[0]);
        assert(ids.take(j)[0] == ids[0]);
        assert(ids.drop_first()[j - 1] == ids[j]);
    }
}

/// The timestamps the store can attach to the ids, in order.
pub open spec fn row_timestamps(ev: Seq<(Seq<u8>, Seq<u8>)>, ids: Seq<u64>) -> Seq<u64>
    decreases ids.len(),
{
    if ids.len() == 0 {
        Seq::empty()
    } else {
        (if resolvable(ev, ids[0]) && store_timestamp(ev, ids[0]) is Some {
            seq![store_timestamp(ev, ids[0])->0]
        } else {
            Seq::<u64>::empty()
        }) + row_timestamps(ev, ids.drop_first())
    }
}

pub proof fn lemma_row_timestamps_concat(ev: Seq<(Seq<u8>, Seq<u8>)>, s: Seq<u64>, t: Seq<u64>)
    ensures
        row_timestamps(ev, s + t) == row_timestamps(ev, s) + row_timestamps(ev, t),
    decreases s.len(),
{
    if s.len() == 0 {
        assert(s + t =~= t);
        assert(row_timestamps(ev, s) + row_timestamps(ev, t) =~= row_timestamps(ev, t));
    } else {
        lemma_row_timestamps_concat(ev, s.drop_first(), t);
        assert((s + t).drop_first() =~= s.drop_first() + t);
        assert((s + t)[0] == s[0]);
        let head = if resolvable(ev, s[0]) && store_timestamp(ev, s[0]) is Some {
            seq![store_timestamp(ev, s[0])->0]
        } else {
            Seq::<u64>::empty()
        };
        assert(head + (row_timestamps(ev, s.drop_first()) + row_timestamps(ev, t)) =~= (head
            + row_timestamps(ev, s.drop_first())) + row_timestamps(ev, t));
    }
}

/// The smallest value of a non-empty sequence.
pub open spec fn seq_min(s: Seq<u64>) -> u64
    recommends
        s.len() > 0,
    decreases s.len(),
{
    if s.len() <= 1 {
        s[0]
    } else if s.last() < seq_min(s.drop_last()) {
        s.last()
    } else {
        seq_min(s.drop_last())
    }
}

/// The largest value of a non-empty sequence.
pub open spec fn seq_max(s: Seq<u64>) -> u64
    recommends
        s.len() > 0,
    decreases s.len(),
{
    if s.len() <= 1 {
        s[0]
    } else if s.last() > seq_max(s.drop_last()) {
        s.last()
    } else {
        seq_max(s.drop_last())
    }
}

/// The status ids a bucket pairs with one user id, in order.
pub open spec fn ids_for(batch: Seq<(u64, u64)>, u: u64) -> Seq<u64>
    decreases batch.len(),
{
    if batch.len() == 0 {
        Seq::empty()
    } else {
        (if batch[0].0 == u {
            seq![batch[0].1]
        } else {
            Seq::<u64>::empty()
        }) + ids_for(batch.drop_first(), u)
    }
}

pub proof fn lemma_ids_for_concat(s: Seq<(u64, u64)>, t: Seq<(u64, u64)>, u: u64)
    ensures
        ids_for(s + t, u) == ids_for(s, u) + ids_for(t, u),
    decreases s.len(),
{
    if s.len() == 0 {
        assert(s + t =~= t);
        assert(ids_for(s, u) + ids_for(t, u) =~= ids_for(t, u));
    } else {
        lemma_ids_for_concat(s.drop_first(), t, u);
        assert((s + t).drop_first() =~= s.drop_first() + t);
        assert((s + t)[0] == s[0]);
        let head = if s[0].0 == u {
            seq![s[0].1]
        } else {
            Seq::<u64>::empty()
        };
        assert(head + (ids_for(s.drop_first(), u) + ids_for(t, u)) =~= (head + ids_for(
            s.drop_first(),
            u,
        )) + ids_for(t, u));
    }
}

/// A bucket pairs `u` with `sid` exactly when the extracted ids hold `sid`.
pub proof fn lemma_ids_for_contains(batch: Seq<(u64, u64)>, u: u64)
    ensures
        forall|sid: u64| ids_for(batch, u).contains(sid) <==> batch.contains((u, sid)),
    decreases batch.len(),
{
    if batch.len() > 0 {
        lemma_ids_for_contains(batch.drop_first(), u);
        assert forall|sid: u64| #[trigger] ids_for(batch, u).contains(sid) implies batch.contains(
            (u, sid),
        ) by {
            let w = choose|w: int|
                0 <= w < ids_for(batch, u).len() && ids_for(batch, u)[w] == sid;
            if batch[0].0 == u && w == 0 {
                assert(batch[0] == (u, sid));
            } else {
                let off = if batch[0].0 == u {
                    1int
                } else {
                    0int
                };
                assert(ids_for(batch.drop_first(), u)[w - off] == sid);
                assert(ids_for(batch.drop_first(), u).contains(sid));
                assert(batch.drop_first().contains((u, sid)));
                let m = choose|m: int|
                    0 <= m < batch.drop_first().len() && batch.drop_first()[m] == (u, sid);
                assert(batch[m + 1] == (u, sid));
            }
        }
        assert forall|sid: u64| #[trigger] batch.contains((u, sid)) implies ids_for(
            batch,
            u,
        ).contains(sid) by {
            let m = choose|m: int| 0 <= m < batch.len() && batch[m] == (u, sid);
            if m == 0 {
                assert(ids_for(batch, u)[0] == sid);
            } else {
                assert(batch.drop_first()[m - 1] == (u, sid));
                assert(batch.drop_first().contains((u, sid)));
                assert(ids_for(batch.drop_first(), u).contains(sid));
                let w = choose|w: int|
                    0 <= w < ids_for(batch.drop_first(), u).len() && ids_for(
                        batch.drop_first(),
                        u,
                    )[w] == sid;
                let off = if batch[0].0 == u {
                    1int
                } else {
                    0int
                };
                assert(ids_for(batch, u)[w + off] == sid);
            }
        }
    }
}

/// Carries one expanded bucket's contract over to the fold of its delta
/// rule, given that the bucket's backing pairs are exactly the fold and
/// that the name map resolves exactly the users the store can name.
proof fn lemma_bucket_glue(
    ev: Seq<(Seq<u8>, Seq<u8>)>,
    dbs: Seq<(u64, TweetMetadata)>,
    target: u64,
    sids: Seq<u64>,
    batch: Seq<(u64, u64)>,
    b: Seq<(u64, (String, Vec<u64>))>,
    user_db_entries: Seq<(u64, String)>,
    f: spec_fn(Seq<(u64, TweetMetadata)>, u64, u64) -> Set<(u64, u64)>,
)
    requires
        batch.to_set() == delta_fold(dbs, target, sids, f),
        forall|p: int|
            0 <= p < b.len() ==> (forall|sid: u64|
                (#[trigger] b[p]).1.1@.contains(sid) <==> batch.contains((b[p].0, sid))),
        forall|u: u64|
            (exists|p: int| 0 <= p < b.len() && (#[trigger] b[p]).0 == u) <==> (firsts(
                batch,
            ).contains(u) && km_find(user_db_entries, u) is Some),
        forall|u: u64|
            firsts(batch).contains(u) ==> (km_find(user_db_entries, u) is Some <==> user_rows(
                ev,
                u,
            ).len() > 0),
    ensures
        bucket_matches(ev, dbs, target, sids, b, f),
{
    let fold = delta_fold(dbs, target, sids, f);
    assert forall|p: int, sid: u64|
        #![trigger b[p].1.1@.contains(sid)]
        0 <= p < b.len() implies (b[p].1.1@.contains(sid) <==> fold.contains(
        (b[p].0, sid),
    )) by {
        assert(batch.contains((b[p].0, sid)) == batch.to_set().contains((b[p].0, sid)));
    }
    assert forall|u: u64|
        #![trigger user_rows(ev, u)]
        (exists|p: int| 0 <= p < b.len() && (#[trigger] b[p]).0 == u) <==> ((exists|sid: u64|
            #[trigger] fold.contains((u, sid))) && user_rows(ev, u).len() > 0) by {
        if firsts(batch).contains(u) {
            assert(firsts_seq(batch).contains(u));
            let i = choose|i: int|
                0 <= i < firsts_seq(batch).len() && firsts_seq(batch)[i] == u;
            assert(batch[i].0 == u);
            assert(batch.contains(batch[i]));
            assert(batch.to_set().contains(batch[i]));
            assert(fold.contains((u, batch[i].1)));
        }
        if exists|sid: u64| #[trigger] fold.contains((u, sid)) {
            let sid = choose|sid: u64| #[trigger] fold.contains((u, sid));
            assert(batch.to_set().contains((u, sid)));
            assert(batch.contains((u, sid)));
            let i = choose|i: int| 0 <= i < batch.len() && batch[i] == (u, sid);
            assert(firsts_seq(batch)[i] == u);
            assert(firsts_seq(batch).contains(u));
            assert(firsts(batch).contains(u));
        }
    }
}

/// What a report guarantees of one expanded bucket: rows ascend by user
/// id, every id list is strictly ascending, and every screen name is the
/// one the store best attests for that user.
pub open spec fn bucket_rows_wf(
    ev: Seq<(Seq<u8>, Seq<u8>)>,
    b: Seq<(u64, (String, Vec<u64>))>,
) -> bool {
    (forall|p: int, q: int| 0 <= p < q < b.len() ==> b[p].0 < b[q].0) && (forall|p: int|
        0 <= p < b.len() ==> {
            let rows = user_rows(ev, (#[trigger] b[p]).0);
            rows.len() > 0 && b[p].1.0@ == rows[crate::lookup::Lookup::best_user_row(rows)].0
                && sorted_strict(b[p].1.1@)
        })
}

/// The cross-linked interaction report for one user.
pub struct UserReport {
    pub screen_name_dates: Vec<(String, (Option<(u64, u64)>, usize))>,
    pub retweets: Vec<(u64, (String, Vec<u64>))>,
    pub replies_to: Vec<(u64, (String, Vec<u64>))>,
    pub quotes: Vec<(u64, (String, Vec<u64>))>,
    pub mentions: Vec<(u64, (String, Vec<u64>))>,
    pub retweeted_by: Vec<(u64, (String, Vec<u64>))>,
    pub replied_to_by: Vec<(u64, (String, Vec<u64>))>,
    pub quoted_by: Vec<(u64, (String, Vec<u64>))>,
    pub mentioned_by: Vec<(u64, (String, Vec<u64>))>,
    pub not_found: Vec<u64>,
}

/// Builds the two-hop interaction report for `user_id`: the date rollup
/// per screen name, the eight expanded buckets, and the seed ids the store
/// could not resolve.
pub fn generate_user_report(lookup: &Lookup, user_id: u64) -> (r: UserReport)
    requires
        lookup.wf(),
    ensures
        ({
            let ev = lookup.view_entries();
            let rows = user_rows(ev, user_id);
            &&& r.not_found@ == unresolved_rows(ev, rows)
            &&& r.screen_name_dates@.len() == rows.len()
            &&& (forall|p: int|
                0 <= p < rows.len() ==> (#[trigger] r.screen_name_dates@[p]).0@ == rows[p].0)
            &&& (forall|p: int|
                0 <= p < rows.len() ==> (#[trigger] r.screen_name_dates@[p]).1.1
                    == resolved_count(ev, rows[p].1))
            &&& (forall|p: int|
                0 <= p < rows.len() ==> {
                    let tss = row_timestamps(ev, (#[trigger] rows[p]).1);
                    if tss.len() == 0 {
                        r.screen_name_dates@[p].1.0 is None
                    } else {
                        r.screen_name_dates@[p].1.0 == Option::Some(
                            (seq_min(tss), seq_max(tss)),
                        )
                    }
                })
            &&& bucket_rows_wf(ev, r.retweets@)
            &&& bucket_rows_wf(ev, r.replies_to@)
            &&& bucket_rows_wf(ev, r.quotes@)
            &&& bucket_rows_wf(ev, r.mentions@)
            &&& bucket_rows_wf(ev, r.retweeted_by@)
            &&& bucket_rows_wf(ev, r.replied_to_by@)
            &&& bucket_rows_wf(ev, r.quoted_by@)
            &&& bucket_rows_wf(ev, r.mentioned_by@)
            &&& (exists|dbs: Seq<(u64, TweetMetadata)>|
                {
                    &&& #[trigger] report_table_ok(ev, rows, dbs)
                &&& bucket_matches(ev, dbs, user_id, all_ids(rows), r.retweets@, retweets_rule())
                &&& bucket_matches(ev, dbs, user_id, all_ids(rows), r.replies_to@, replies_to_rule())
                &&& bucket_matches(ev, dbs, user_id, all_ids(rows), r.quotes@, quotes_rule())
                &&& bucket_matches(ev, dbs, user_id, all_ids(rows), r.mentions@, mentions_rule())
                &&& bucket_matches(ev, dbs, user_id, all_ids(rows), r.retweeted_by@, retweeted_by_rule())
                &&& bucket_matches(ev, dbs, user_id, all_ids(rows), r.replied_to_by@, replied_to_by_rule())
                &&& bucket_matches(ev, dbs, user_id, all_ids(rows), r.quoted_by@, quoted_by_rule())
                &&& bucket_matches(ev, dbs, user_id, all_ids(rows), r.mentioned_by@, mentioned_by_rule())
                })
        }),
{
    let ghost ev = lookup.view_entries();
    let ghost rows = user_rows(ev, user_id);
    let by_screen_name = lookup.lookup_user(user_id);

    // Seed: the union of every row's status ids.
    let mut seed_acc: Vec<u64> = Vec::new();
    let mut ri: usize = 0;
    proof {
        assert(rows.take(0) =~= Seq::<(Seq<char>, Seq<u64>)>::empty());
        assert(seed_acc@ =~= all_ids(rows.take(0)));
    }
    while ri < by_screen_name.len()
        invariant
            ri <= rows.len(),
            by_screen_name.deep_view() == rows,
            by_screen_name@.len() == rows.len(),
            seed_acc@ == all_ids(rows.take(ri as int)),
        decreases rows.len() - ri,
    {
        let row = &by_screen_name[ri];
        proof {
            assert(by_screen_name.deep_view()[ri as int] == by_screen_name@[
                ri as int].deep_view());
            assert(row.1@ =~= rows[ri as int].1);
        }
        let mut ji: usize = 0;
        let ghost base = seed_acc@;
        while ji < row.1.len()
            invariant
                ji <= row.1@.len(),
                seed_acc@ == base + row.1@.take(ji as int),
            decreases row.1@.len() - ji,
        {
            seed_acc.push(row.1[ji]);
            proof {
                assert(seed_acc@ =~= base + row.1@.take(ji as int + 1));
            }
            ji = ji + 1;
        }
        proof {
            assert(row.1@.take(row.1@.len() as int) =~= row.1@);
            assert(rows.take(ri as int + 1) =~= rows.take(ri as int) + seq![rows[ri as int]]);
            lemma_all_ids_concat(rows.take(ri as int), seq![rows[ri as int]]);
            reveal_with_fuel(all_ids, 2);
            assert(seq![rows[ri as int]].drop_first() =~= Seq::<(Seq<char>, Seq<u64>)>::empty());
            assert(all_ids(seq![rows[ri as int]]) =~= rows[ri as int].1);
            assert(seed_acc@ =~= all_ids(rows.take(ri as int + 1)));
        }
        ri = ri + 1;
    }
    proof {
        assert(rows.take(rows.len() as int) =~= rows);
    }
    let seeds = sort_dedup(&seed_acc);

    // First hop: fetch the metadata of every seed id.
    let mut db: KeyMap<TweetMetadata> = KeyMap::new();
    let mut k: usize = 0;
    while k < seeds.len()
        invariant
            k <= seeds@.len(),
            sorted_strict(seeds@),
            lookup.wf(),
            ev == lookup.view_entries(),
            forall|s: u64|
                #[trigger] km_find(db.entries@, s) is Some ==> md_matches(
                    ev,
                    s,
                    km_find(db.entries@, s)->0,
                ),
            forall|s: u64|
                #[trigger] km_find(db.entries@, s) is Some <==> (seeds@.take(k as int).contains(s)
                    && resolvable(ev, s)),
        decreases seeds@.len() - k,
    {
        let sid = seeds[k];
        proof {
            if seeds@.take(k as int).contains(sid) {
                let m = choose|m: int|
                    0 <= m < k && #[trigger] seeds@.take(k as int)[m] == sid;
                assert(seeds@[m] == sid && seeds@[m] < seeds@[k as int]);
            }
            assert(seeds@.take(k as int + 1) =~= seeds@.take(k as int).push(sid));
        }
        match lookup.lookup_tweet_metadata(sid) {
            Option::Some(m) => {
                let ghost prev = db.entries@;
                db.insert_new(sid, m);
                proof {
                    assert forall|s: u64| #[trigger] km_find(db.entries@, s) is Some <==> (seeds@
                        .take(k as int + 1).contains(s) && resolvable(ev, s)) by {
                        lemma_km_find_push(prev, sid, m, s);
                        lemma_contains_push(seeds@.take(k as int), sid, s);
                    }
                    assert forall|s: u64| #[trigger] km_find(db.entries@, s) is Some implies
                        md_matches(ev, s, km_find(db.entries@, s)->0) by {
                        lemma_km_find_push(prev, sid, m, s);
                    }
                }
            },
            Option::None => {
                proof {
                    assert forall|s: u64| #[trigger] km_find(db.entries@, s) is Some <==> (seeds@
                        .take(k as int + 1).contains(s) && resolvable(ev, s)) by {
                        lemma_contains_push(seeds@.take(k as int), sid, s);
                    }
                }
            },
        }
        k = k + 1;
    }
    proof {
        assert(seeds@.take(seeds@.len() as int) =~= seeds@);
    }

    // Second hop: collect every edge target of the seed metadata, then
    // fetch those not yet known.
    let ghost firsthop = db.entries@;
    let mut edges: Vec<u64> = Vec::new();
    let mut e: usize = 0;
    while e < db.entries.len()
        invariant
            e <= db.entries@.len(),
            firsthop == db.entries@,
            forall|e9: int, x: u64|
                0 <= e9 < e && #[trigger] md_edges(db.entries@[e9].1).contains(x)
                    ==> edges@.contains(x),
        decreases db.entries@.len() - e,
    {
        let mut cur: Vec<u64> = Vec::new();
        match &db.entries[e].1 {
            TweetMetadata::Retweet { retweeted_id, .. } => {
                cur.push(*retweeted_id);
            },
            TweetMetadata::Full { replied_to_id, quoted_id, .. } => {
                if let Option::Some(rid) = replied_to_id {
                    cur.push(*rid);
                }
                if let Option::Some(qid) = quoted_id {
                    cur.push(*qid);
                }
            },
            TweetMetadata::Short { .. } => {},
        }
        proof {
            assert forall|x: u64| #[trigger] md_edges(db.entries@[e as int].1).contains(
                x,
            ) implies cur@.contains(x) by {
                match db.entries@[e as int].1 {
                    TweetMetadata::Retweet { .. } => {
                        assert(cur@[0] == x);
                    },
                    TweetMetadata::Full { replied_to_id, quoted_id, .. } => {
                        if replied_to_id == Option::Some(x) {
                            assert(cur@[0] == x);
                        } else {
                            assert(quoted_id == Option::Some(x));
                            assert(cur@[cur@.len() - 1] == x);
                        }
                    },
                    TweetMetadata::Short { .. } => {},
                }
            }
        }
        let mut j: usize = 0;
        while j < cur.len()
            invariant
                j <= cur@.len(),
                firsthop == db.entries@,
                e < db.entries@.len(),
                forall|e9: int, x: u64|
                    0 <= e9 < e && #[trigger] md_edges(db.entries@[e9].1).contains(x)
                        ==> edges@.contains(x),
                forall|x: u64| cur@.take(j as int).contains(x) ==> #[trigger] edges@.contains(x),
            decreases cur@.len() - j,
        {
            let ghost prev_edges = edges@;
            edges.push(cur[j]);
            proof {
                assert(cur@.take(j as int + 1) =~= cur@.take(j as int).push(cur@[j as int]));
                assert forall|x: u64| prev_edges.contains(x) implies #[trigger] edges@.contains(
                    x,
                ) by {
                    lemma_contains_push(prev_edges, cur@[j as int], x);
                }
                assert(edges@[edges@.len() - 1] == cur@[j as int]);
                assert forall|x: u64| cur@.take(j as int + 1).contains(x) implies #[trigger] edges@
                    .contains(x) by {
                    lemma_contains_push(cur@.take(j as int), cur@[j as int], x);
                }
            }
            j = j + 1;
        }
        proof {
            assert(cur@.take(cur@.len() as int) =~= cur@);
        }
        e = e + 1;
    }
    let mut e2: usize = 0;
    while e2 < edges.len()
        invariant
            e2 <= edges@.len(),
            lookup.wf(),
            ev == lookup.view_entries(),
            forall|s: u64|
                #[trigger] km_find(firsthop, s) is Some ==> km_find(db.entries@, s) == km_find(
                    firsthop,
                    s,
                ),
            forall|s: u64|
                #[trigger] km_find(db.entries@, s) is Some ==> md_matches(
                    ev,
                    s,
                    km_find(db.entries@, s)->0,
                ),
            forall|s: u64|
                seeds@.contains(s) ==> (#[trigger] km_find(db.entries@, s) is Some <==> resolvable(
                    ev,
                    s,
                )),
            forall|x: u64|
                edges@.take(e2 as int).contains(x) && resolvable(ev, x) ==> #[trigger] km_find(
                    db.entries@,
                    x,
                ) is Some,
        decreases edges@.len() - e2,
    {
        let eid = edges[e2];
        proof {
            assert(edges@.take(e2 as int + 1) =~= edges@.take(e2 as int).push(eid));
        }
        if !db.contains(eid) {
            match lookup.lookup_tweet_metadata(eid) {
                Option::Some(m) => {
                    let ghost prev = db.entries@;
                    db.insert_new(eid, m);
                    proof {
                        assert forall|s: u64| #[trigger] km_find(firsthop, s) is Some implies
                            km_find(db.entries@, s) == km_find(firsthop, s) by {
                            lemma_km_find_push(prev, eid, m, s);
                        }
                        assert forall|s: u64| #[trigger] km_find(db.entries@, s) is Some implies
                            md_matches(ev, s, km_find(db.entries@, s)->0) by {
                            lemma_km_find_push(prev, eid, m, s);
                        }
                        assert forall|s: u64| seeds@.contains(s) implies (#[trigger] km_find(
                            db.entries@,
                            s,
                        ) is Some <==> resolvable(ev, s)) by {
                            lemma_km_find_push(prev, eid, m, s);
                        }
                        assert forall|x: u64|
                            edges@.take(e2 as int + 1).contains(x) && resolvable(
                                ev,
                                x,
                            ) implies #[trigger] km_find(db.entries@, x) is Some by {
                            lemma_km_find_push(prev, eid, m, x);
                            lemma_contains_push(edges@.take(e2 as int), eid, x);
                        }
                    }
                },
                Option::None => {
                    proof {
                        assert forall|x: u64|
                            edges@.take(e2 as int + 1).contains(x) && resolvable(
                                ev,
                                x,
                            ) implies #[trigger] km_find(db.entries@, x) is Some by {
                            lemma_contains_push(edges@.take(e2 as int), eid, x);
                        }
                    }
                },
            }
        } else {
            proof {
                assert forall|x: u64|
                    edges@.take(e2 as int + 1).contains(x) && resolvable(
                        ev,
                        x,
                    ) implies #[trigger] km_find(db.entries@, x) is Some by {
                    lemma_contains_push(edges@.take(e2 as int), eid, x);
                }
            }
        }
        e2 = e2 + 1;
    }
    proof {
        assert(edges@.take(edges@.len() as int) =~= edges@);
    }

    // Date rollup and relation extraction, row by row.
    let ghost dbs = db.entries@;
    let mut relations = UserRelations::new();
    let mut screen_name_dates: Vec<(String, (Option<(u64, u64)>, usize))> = Vec::new();
    let mut not_found: Vec<u64> = Vec::new();
    let mut ri2: usize = 0;
    proof {
        assert(rows.take(0) =~= Seq::<(Seq<char>, Seq<u64>)>::empty());
        assert(not_found@ =~= unresolved_rows(ev, rows.take(0)));
        assert(all_ids(rows.take(0)) =~= Seq::<u64>::empty());
        assert(relations.retweets@.to_set() =~= delta_fold(dbs, user_id, all_ids(rows.take(0)), retweets_rule()));
        assert(relations.replies_to@.to_set() =~= delta_fold(dbs, user_id, all_ids(rows.take(0)), replies_to_rule()));
        assert(relations.quotes@.to_set() =~= delta_fold(dbs, user_id, all_ids(rows.take(0)), quotes_rule()));
        assert(relations.mentions@.to_set() =~= delta_fold(dbs, user_id, all_ids(rows.take(0)), mentions_rule()));
        assert(relations.retweeted_by@.to_set() =~= delta_fold(dbs, user_id, all_ids(rows.take(0)), retweeted_by_rule()));
        assert(relations.replied_to_by@.to_set() =~= delta_fold(dbs, user_id, all_ids(rows.take(0)), replied_to_by_rule()));
        assert(relations.quoted_by@.to_set() =~= delta_fold(dbs, user_id, all_ids(rows.take(0)), quoted_by_rule()));
        assert(relations.mentioned_by@.to_set() =~= delta_fold(dbs, user_id, all_ids(rows.take(0)), mentioned_by_rule()));
    }
    proof {
        assert forall|x: u64| all_ids(rows).contains(x) implies seeds@.contains(x) by {
            assert(seed_acc@.to_set().contains(x));
            assert(seeds@.to_set().contains(x));
        }
    }
    while ri2 < by_screen_name.len()
        invariant
            ri2 <= rows.len(),
            by_screen_name.deep_view() == rows,
            by_screen_name@.len() == rows.len(),
            lookup.wf(),
            ev == lookup.view_entries(),
            rows == user_rows(ev, user_id),
            forall|s: u64|
                #[trigger] km_find(db.entries@, s) is Some ==> md_matches(
                    ev,
                    s,
                    km_find(db.entries@, s)->0,
                ),
            forall|s: u64|
                seeds@.contains(s) ==> (#[trigger] km_find(db.entries@, s) is Some <==> resolvable(
                    ev,
                    s,
                )),
            forall|x: u64| all_ids(rows).contains(x) ==> seeds@.contains(x),
            relations.wf(),
            dbs == db.entries@,
            relations.retweets@.to_set() == delta_fold(
                dbs,
                user_id,
                all_ids(rows.take(ri2 as int)),
                retweets_rule(),
            ),
            relations.replies_to@.to_set() == delta_fold(
                dbs,
                user_id,
                all_ids(rows.take(ri2 as int)),
                replies_to_rule(),
            ),
            relations.quotes@.to_set() == delta_fold(
                dbs,
                user_id,
                all_ids(rows.take(ri2 as int)),
                quotes_rule(),
            ),
            relations.mentions@.to_set() == delta_fold(
                dbs,
                user_id,
                all_ids(rows.take(ri2 as int)),
                mentions_rule(),
            ),
            relations.retweeted_by@.to_set() == delta_fold(
                dbs,
                user_id,
                all_ids(rows.take(ri2 as int)),
                retweeted_by_rule(),
            ),
            relations.replied_to_by@.to_set() == delta_fold(
                dbs,
                user_id,
                all_ids(rows.take(ri2 as int)),
                replied_to_by_rule(),
            ),
            relations.quoted_by@.to_set() == delta_fold(
                dbs,
                user_id,
                all_ids(rows.take(ri2 as int)),
                quoted_by_rule(),
            ),
            relations.mentioned_by@.to_set() == delta_fold(
                dbs,
                user_id,
                all_ids(rows.take(ri2 as int)),
                mentioned_by_rule(),
            ),
            screen_name_dates@.len() == ri2,
            forall|p: int|
                0 <= p < ri2 ==> (#[trigger] screen_name_dates@[p]).0@ == rows[p].0,
            forall|p: int|
                0 <= p < ri2 ==> (#[trigger] screen_name_dates@[p]).1.1 == resolved_count(
                    ev,
                    rows[p].1,
                ),
            forall|p: int|
                0 <= p < ri2 ==> {
                    let tss = row_timestamps(ev, (#[trigger] rows[p]).1);
                    if tss.len() == 0 {
                        screen_name_dates@[p].1.0 is None
                    } else {
                        screen_name_dates@[p].1.0 == Option::Some((seq_min(tss), seq_max(tss)))
                    }
                },
            not_found@ == unresolved_rows(ev, rows.take(ri2 as int)),
        decreases rows.len() - ri2,
    {
        let row = &by_screen_name[ri2];
        let ghost ids = rows[ri2 as int].1;
        proof {
            assert(by_screen_name.deep_view()[ri2 as int] == by_screen_name@[
                ri2 as int].deep_view());
            assert(row.1@ =~= ids);
        }
        let mut count: usize = 0;
        let mut first: Option<u64> = None;
        let mut last: Option<u64> = None;
        let ghost nf_base = not_found@;
        let mut ji: usize = 0;
        proof {
            assert(ids.take(0) =~= Seq::<u64>::empty());
            assert(not_found@ =~= nf_base + unresolved(ev, ids.take(0)));
            assert(all_ids(rows.take(ri2 as int)) + ids.take(0) =~= all_ids(
                rows.take(ri2 as int),
            ));
        }
        while ji < row.1.len()
            invariant
                ji <= ids.len(),
                row.1@ == ids,
                lookup.wf(),
                ev == lookup.view_entries(),
                relations.wf(),
                count == resolved_count(ev, ids.take(ji as int)),
                count <= ji,
                not_found@ == nf_base + unresolved(ev, ids.take(ji as int)),
                ({
                    let tss = row_timestamps(ev, ids.take(ji as int));
                    if tss.len() == 0 {
                        first is None && last is None
                    } else {
                        first == Option::Some(seq_min(tss)) && last == Option::Some(seq_max(tss))
                    }
                }),
                forall|s: u64|
                    #[trigger] km_find(db.entries@, s) is Some ==> md_matches(
                        ev,
                        s,
                        km_find(db.entries@, s)->0,
                    ),
                forall|s: u64|
                    seeds@.contains(s) ==> (#[trigger] km_find(db.entries@, s) is Some
                        <==> resolvable(ev, s)),
                forall|x: u64| all_ids(rows).contains(x) ==> seeds@.contains(x),
                rows == user_rows(ev, user_id),
                0 <= ri2 < rows.len(),
                ids == rows[ri2 as int].1,
                dbs == db.entries@,
                relations.retweets@.to_set() == delta_fold(
                    dbs,
                    user_id,
                    all_ids(rows.take(ri2 as int)) + ids.take(ji as int),
                    retweets_rule(),
                ),
                relations.replies_to@.to_set() == delta_fold(
                    dbs,
                    user_id,
                    all_ids(rows.take(ri2 as int)) + ids.take(ji as int),
                    replies_to_rule(),
                ),
                relations.quotes@.to_set() == delta_fold(
                    dbs,
                    user_id,
                    all_ids(rows.take(ri2 as int)) + ids.take(ji as int),
                    quotes_rule(),
                ),
                relations.mentions@.to_set() == delta_fold(
                    dbs,
                    user_id,
                    all_ids(rows.take(ri2 as int)) + ids.take(ji as int),
                    mentions_rule(),
                ),
                relations.retweeted_by@.to_set() == delta_fold(
                    dbs,
                    user_id,
                    all_ids(rows.take(ri2 as int)) + ids.take(ji as int),
                    retweeted_by_rule(),
                ),
                relations.replied_to_by@.to_set() == delta_fold(
                    dbs,
                    user_id,
                    all_ids(rows.take(ri2 as int)) + ids.take(ji as int),
                    replied_to_by_rule(),
                ),
                relations.quoted_by@.to_set() == delta_fold(
                    dbs,
                    user_id,
                    all_ids(rows.take(ri2 as int)) + ids.take(ji as int),
                    quoted_by_rule(),
                ),
                relations.mentioned_by@.to_set() == delta_fold(
                    dbs,
                    user_id,
                    all_ids(rows.take(ri2 as int)) + ids.take(ji as int),
                    mentioned_by_rule(),
                ),
            decreases ids.len() - ji,
        {
            let sid = row.1[ji];
            proof {
                assert(ids[ji as int] == sid);
                assert(ids.contains(sid));
                lemma_all_ids_contains(rows, ri2 as int, sid);
                assert(seeds@.contains(sid));
                assert(ids.take(ji as int + 1) =~= ids.take(ji as int) + seq![sid]);
                assert(all_ids(rows.take(ri2 as int)) + ids.take(ji as int + 1) =~= (all_ids(
                    rows.take(ri2 as int),
                ) + ids.take(ji as int)).push(sid));
                lemma_resolved_count_step(ev, ids, ji as int);
                lemma_unresolved_concat(ev, ids.take(ji as int), seq![sid]);
                lemma_row_timestamps_concat(ev, ids.take(ji as int), seq![sid]);
                reveal_with_fuel(unresolved, 2);
                reveal_with_fuel(row_timestamps, 2);
                assert(seq![sid].drop_first() =~= Seq::<u64>::empty());
            }
            match db.get(sid) {
                Option::Some(md) => {
                    proof {
                        assert(md_matches(ev, sid, *md));
                        crate::lookup::lemma_md_matches_timestamp(ev, sid, *md);
                        assert(unresolved(ev, seq![sid]) =~= Seq::<u64>::empty());
                        assert(not_found@ =~= nf_base + unresolved(ev, ids.take(ji as int + 1)));
                    }
                    count = count + 1;
                    let ts_opt = md.timestamp();
                    if let Option::Some(ts) = ts_opt {
                        let ghost tss = row_timestamps(ev, ids.take(ji as int));
                        proof {
                            assert(row_timestamps(ev, seq![sid]) =~= seq![ts]);
                            assert(row_timestamps(ev, ids.take(ji as int + 1)) =~= tss.push(ts));
                            assert(tss.push(ts).drop_last() =~= tss);
                        }
                        let nf2: u64 = match first {
                            Option::Some(f) => if ts < f {
                                ts
                            } else {
                                f
                            },
                            Option::None => ts,
                        };
                        let nl2: u64 = match last {
                            Option::Some(l) => if ts > l {
                                ts
                            } else {
                                l
                            },
                            Option::None => ts,
                        };
                        first = Some(nf2);
                        last = Some(nl2);
                    } else {
                        proof {
                            assert(row_timestamps(ev, seq![sid]) =~= Seq::<u64>::empty());
                            assert(row_timestamps(ev, ids.take(ji as int + 1))
                                =~= row_timestamps(ev, ids.take(ji as int)));
                        }
                    }
                    relations.add(user_id, &db, sid);
                    proof {
                        lemma_delta_fold_push(
                            dbs,
                            user_id,
                            all_ids(rows.take(ri2 as int)) + ids.take(ji as int),
                            sid,
                            retweets_rule(),
                        );
                        assert(retweets_rule()(dbs, user_id, sid) == retweets_delta(dbs, user_id, sid));
                        assert(relations.retweets@.to_set() =~= delta_fold(
                            dbs,
                            user_id,
                            all_ids(rows.take(ri2 as int)) + ids.take(ji as int + 1),
                            retweets_rule(),
                        ));
                        lemma_delta_fold_push(
                            dbs,
                            user_id,
                            all_ids(rows.take(ri2 as int)) + ids.take(ji as int),
                            sid,
                            replies_to_rule(),
                        );
                        assert(replies_to_rule()(dbs, user_id, sid) == replies_to_delta(dbs, user_id, sid));
                        assert(relations.replies_to@.to_set() =~= delta_fold(
                            dbs,
                            user_id,
                            all_ids(rows.take(ri2 as int)) + ids.take(ji as int + 1),
                            replies_to_rule(),
                        ));
                        lemma_delta_fold_push(
                            dbs,
                            user_id,
                            all_ids(rows.take(ri2 as int)) + ids.take(ji as int),
                            sid,
                            quotes_rule(),
                        );
                        assert(quotes_rule()(dbs, user_id, sid) == quotes_delta(dbs, user_id, sid));
                        assert(relations.quotes@.to_set() =~= delta_fold(
                            dbs,
                            user_id,
                            all_ids(rows.take(ri2 as int)) + ids.take(ji as int + 1),
                            quotes_rule(),
                        ));
                        lemma_delta_fold_push(
                            dbs,
                            user_id,
                            all_ids(rows.take(ri2 as int)) + ids.take(ji as int),
                            sid,
                            mentions_rule(),
                        );
                        assert(mentions_rule()(dbs, user_id, sid) == mentions_delta(dbs, user_id, sid));
                        assert(relations.mentions@.to_set() =~= delta_fold(
                            dbs,
                            user_id,
                            all_ids(rows.take(ri2 as int)) + ids.take(ji as int + 1),
                            mentions_rule(),
                        ));
                        lemma_delta_fold_push(
                            dbs,
                            user_id,
                            all_ids(rows.take(ri2 as int)) + ids.take(ji as int),
                            sid,
                            retweeted_by_rule(),
                        );
                        assert(retweeted_by_rule()(dbs, user_id, sid) == retweeted_by_delta(dbs, user_id, sid));
                        assert(relations.retweeted_by@.to_set() =~= delta_fold(
                            dbs,
                            user_id,
                            all_ids(rows.take(ri2 as int)) + ids.take(ji as int + 1),
                            retweeted_by_rule(),
                        ));
                        lemma_delta_fold_push(
                            dbs,
                            user_id,
                            all_ids(rows.take(ri2 as int)) + ids.take(ji as int),
                            sid,
                            replied_to_by_rule(),
                        );
                        assert(replied_to_by_rule()(dbs, user_id, sid) == replied_to_by_delta(dbs, user_id, sid));
                        assert(relations.replied_to_by@.to_set() =~= delta_fold(
                            dbs,
                            user_id,
                            all_ids(rows.take(ri2 as int)) + ids.take(ji as int + 1),
                            replied_to_by_rule(),
                        ));
                        lemma_delta_fold_push(
                            dbs,
                            user_id,
                            all_ids(rows.take(ri2 as int)) + ids.take(ji as int),
                            sid,
                            quoted_by_rule(),
                        );
                        assert(quoted_by_rule()(dbs, user_id, sid) == quoted_by_delta(dbs, user_id, sid));
                        assert(relations.quoted_by@.to_set() =~= delta_fold(
                            dbs,
                            user_id,
                            all_ids(rows.take(ri2 as int)) + ids.take(ji as int + 1),
                            quoted_by_rule(),
                        ));
                        lemma_delta_fold_push(
                            dbs,
                            user_id,
                            all_ids(rows.take(ri2 as int)) + ids.take(ji as int),
                            sid,
                            mentioned_by_rule(),
                        );
                        assert(mentioned_by_rule()(dbs, user_id, sid) == mentioned_by_delta(dbs, user_id, sid));
                        assert(relations.mentioned_by@.to_set() =~= delta_fold(
                            dbs,
                            user_id,
                            all_ids(rows.take(ri2 as int)) + ids.take(ji as int + 1),
                            mentioned_by_rule(),
                        ));
                    }
                },
                Option::None => {
                    proof {
                        assert(!resolvable(ev, sid));
                        assert(unresolved(ev, seq![sid]) =~= seq![sid]);
                        assert(row_timestamps(ev, seq![sid]) =~= Seq::<u64>::empty());
                        assert(row_timestamps(ev, ids.take(ji as int + 1)) =~= row_timestamps(
                            ev,
                            ids.take(ji as int),
                        ));
                    }
                    not_found.push(sid);
                    proof {
                        assert(not_found@ =~= nf_base + unresolved(ev, ids.take(ji as int + 1)));
                        assert(km_find(dbs, sid) is None);
                        lemma_delta_fold_push(
                            dbs,
                            user_id,
                            all_ids(rows.take(ri2 as int)) + ids.take(ji as int),
                            sid,
                            retweets_rule(),
                        );
                        assert(retweets_rule()(dbs, user_id, sid) =~= Set::<(u64, u64)>::empty());
                        assert(relations.retweets@.to_set() =~= delta_fold(
                            dbs,
                            user_id,
                            all_ids(rows.take(ri2 as int)) + ids.take(ji as int + 1),
                            retweets_rule(),
                        ));
                        lemma_delta_fold_push(
                            dbs,
                            user_id,
                            all_ids(rows.take(ri2 as int)) + ids.take(ji as int),
                            sid,
                            replies_to_rule(),
                        );
                        assert(replies_to_rule()(dbs, user_id, sid) =~= Set::<(u64, u64)>::empty());
                        assert(relations.replies_to@.to_set() =~= delta_fold(
                            dbs,
                            user_id,
                            all_ids(rows.take(ri2 as int)) + ids.take(ji as int + 1),
                            replies_to_rule(),
                        ));
                        lemma_delta_fold_push(
                            dbs,
                            user_id,
                            all_ids(rows.take(ri2 as int)) + ids.take(ji as int),
                            sid,
                            quotes_rule(),
                        );
                        assert(quotes_rule()(dbs, user_id, sid) =~= Set::<(u64, u64)>::empty());
                        assert(relations.quotes@.to_set() =~= delta_fold(
                            dbs,
                            user_id,
                            all_ids(rows.take(ri2 as int)) + ids.take(ji as int + 1),
                            quotes_rule(),
                        ));
                        lemma_delta_fold_push(
                            dbs,
                            user_id,
                            all_ids(rows.take(ri2 as int)) + ids.take(ji as int),
                            sid,
                            mentions_rule(),
                        );
                        assert(mentions_rule()(dbs, user_id, sid) =~= Set::<(u64, u64)>::empty());
                        assert(relations.mentions@.to_set() =~= delta_fold(
                            dbs,
                            user_id,
                            all_ids(rows.take(ri2 as int)) + ids.take(ji as int + 1),
                            mentions_rule(),
                        ));
                        lemma_delta_fold_push(
                            dbs,
                            user_id,
                            all_ids(rows.take(ri2 as int)) + ids.take(ji as int),
                            sid,
                            retweeted_by_rule(),
                        );
                        assert(retweeted_by_rule()(dbs, user_id, sid) =~= Set::<(u64, u64)>::empty());
                        assert(relations.retweeted_by@.to_set() =~= delta_fold(
                            dbs,
                            user_id,
                            all_ids(rows.take(ri2 as int)) + ids.take(ji as int + 1),
                            retweeted_by_rule(),
                        ));
                        lemma_delta_fold_push(
                            dbs,
                            user_id,
                            all_ids(rows.take(ri2 as int)) + ids.take(ji as int),
                            sid,
                            replied_to_by_rule(),
                        );
                        assert(replied_to_by_rule()(dbs, user_id, sid) =~= Set::<(u64, u64)>::empty());
                        assert(relations.replied_to_by@.to_set() =~= delta_fold(
                            dbs,
                            user_id,
                            all_ids(rows.take(ri2 as int)) + ids.take(ji as int + 1),
                            replied_to_by_rule(),
                        ));
                        lemma_delta_fold_push(
                            dbs,
                            user_id,
                            all_ids(rows.take(ri2 as int)) + ids.take(ji as int),
                            sid,
                            quoted_by_rule(),
                        );
                        assert(quoted_by_rule()(dbs, user_id, sid) =~= Set::<(u64, u64)>::empty());
                        assert(relations.quoted_by@.to_set() =~= delta_fold(
                            dbs,
                            user_id,
                            all_ids(rows.take(ri2 as int)) + ids.take(ji as int + 1),
                            quoted_by_rule(),
                        ));
                        lemma_delta_fold_push(
                            dbs,
                            user_id,
                            all_ids(rows.take(ri2 as int)) + ids.take(ji as int),
                            sid,
                            mentioned_by_rule(),
                        );
                        assert(mentioned_by_rule()(dbs, user_id, sid) =~= Set::<(u64, u64)>::empty());
                        assert(relations.mentioned_by@.to_set() =~= delta_fold(
                            dbs,
                            user_id,
                            all_ids(rows.take(ri2 as int)) + ids.take(ji as int + 1),
                            mentioned_by_rule(),
                        ));
                    }
                },
            }
            ji = ji + 1;
        }
        proof {
            assert(ids.take(ids.len() as int) =~= ids);
            assert(rows.take(ri2 as int + 1) =~= rows.take(ri2 as int) + seq![rows[ri2 as int]]);
            lemma_unresolved_rows_concat(ev, rows.take(ri2 as int), seq![rows[ri2 as int]]);
            reveal_with_fuel(unresolved_rows, 2);
            assert(seq![rows[ri2 as int]].drop_first() =~= Seq::<(Seq<char>, Seq<u64>)>::empty());
            assert(not_found@ =~= unresolved_rows(ev, rows.take(ri2 as int + 1)));
            lemma_all_ids_concat(rows.take(ri2 as int), seq![rows[ri2 as int]]);
            reveal_with_fuel(all_ids, 2);
            assert(all_ids(seq![rows[ri2 as int]]) =~= ids);
            assert(all_ids(rows.take(ri2 as int + 1)) =~= all_ids(rows.take(ri2 as int)) + ids);
        }
        let dates: Option<(u64, u64)> = match (first, last) {
            (Option::Some(f), Option::Some(l)) => Some((f, l)),
            _ => None,
        };
        let name = row.0.clone();
        screen_name_dates.push((name, (dates, count)));
        ri2 = ri2 + 1;
    }
    proof {
        assert(rows.take(rows.len() as int) =~= rows);
    }

    // Screen-name resolution for every referenced user id.
    let uidv = relations.user_ids();
    let mut user_db: KeyMap<String> = KeyMap::new();
    let mut k2: usize = 0;
    while k2 < uidv.len()
        invariant
            k2 <= uidv@.len(),
            sorted_strict(uidv@),
            lookup.wf(),
            ev == lookup.view_entries(),
            rows == user_rows(ev, user_id),
            forall|u: u64| #[trigger] km_find(user_db.entries@, u) is Some ==> uidv@.take(
                k2 as int,
            ).contains(u),
            forall|u: u64|
                uidv@.take(k2 as int).contains(u) ==> (#[trigger] km_find(
                    user_db.entries@,
                    u,
                ) is Some <==> user_rows(ev, u).len() > 0),
            forall|u: u64|
                #[trigger] km_find(user_db.entries@, u) is Some ==> {
                    let urows = user_rows(ev, u);
                    urows.len() > 0 && km_find(user_db.entries@, u)->0@ == urows[
                        crate::lookup::Lookup::best_user_row(urows)].0
                },
        decreases uidv@.len() - k2,
    {
        let u = uidv[k2];
        proof {
            if km_find(user_db.entries@, u) is Some {
                let m = choose|m: int| 0 <= m < k2 && #[trigger] uidv@.take(k2 as int)[m] == u;
                assert(uidv@[m] == u && uidv@[m] < uidv@[k2 as int]);
            }
            assert(uidv@.take(k2 as int + 1) =~= uidv@.take(k2 as int).push(u));
        }
        match lookup.lookup_user_screen_name(u) {
            Option::Some(name) => {
                let ghost prev = user_db.entries@;
                user_db.insert_new(u, name);
                proof {
                    assert forall|u2: u64| #[trigger] km_find(
                        user_db.entries@,
                        u2,
                    ) is Some implies uidv@.take(k2 as int + 1).contains(u2) by {
                        lemma_km_find_push(prev, u, name, u2);
                        lemma_contains_push(uidv@.take(k2 as int), u, u2);
                    }
                    assert forall|u2: u64| #[trigger] km_find(user_db.entries@, u2) is Some implies {
                        let urows = user_rows(ev, u2);
                        urows.len() > 0 && km_find(user_db.entries@, u2)->0@ == urows[
                            crate::lookup::Lookup::best_user_row(urows)].0
                    } by {
                        lemma_km_find_push(prev, u, name, u2);
                    }
                    assert forall|u2: u64| uidv@.take(k2 as int + 1).contains(u2) implies (
                    #[trigger] km_find(user_db.entries@, u2) is Some <==> user_rows(
                        ev,
                        u2,
                    ).len() > 0) by {
                        lemma_km_find_push(prev, u, name, u2);
                        lemma_contains_push(uidv@.take(k2 as int), u, u2);
                    }
                }
            },
            Option::None => {
                proof {
                    assert forall|u2: u64| #[trigger] km_find(
                        user_db.entries@,
                        u2,
                    ) is Some implies uidv@.take(k2 as int + 1).contains(u2) by {
                        lemma_contains_push(uidv@.take(k2 as int), u, u2);
                    }
                    assert forall|u2: u64| uidv@.take(k2 as int + 1).contains(u2) implies (
                    #[trigger] km_find(user_db.entries@, u2) is Some <==> user_rows(
                        ev,
                        u2,
                    ).len() > 0) by {
                        lemma_contains_push(uidv@.take(k2 as int), u, u2);
                        if u2 == u {
                            if km_find(user_db.entries@, u2) is Some {
                                let w = choose|w: int|
                                    0 <= w < k2 && #[trigger] uidv@.take(k2 as int)[w] == u;
                                assert(uidv@[w] == u && uidv@[w] < uidv@[k2 as int]);
                            }
                        }
                    }
                }
            },
        }
        k2 = k2 + 1;
    }
    proof {
        assert(uidv@.take(uidv@.len() as int) =~= uidv@);
    }

    // Emit: expand each bucket into `user_id -> (screen_name, status_ids)`.
    let retweets = UserRelations::expand(&user_db, &relations.retweets);
    let replies_to = UserRelations::expand(&user_db, &relations.replies_to);
    let quotes = UserRelations::expand(&user_db, &relations.quotes);
    let mentions = UserRelations::expand(&user_db, &relations.mentions);
    let retweeted_by = UserRelations::expand(&user_db, &relations.retweeted_by);
    let replied_to_by = UserRelations::expand(&user_db, &relations.replied_to_by);
    let quoted_by = UserRelations::expand(&user_db, &relations.quoted_by);
    let mentioned_by = UserRelations::expand(&user_db, &relations.mentioned_by);
    proof {
        assert(bucket_rows_wf(ev, retweets@));
        assert(bucket_rows_wf(ev, replies_to@));
        assert(bucket_rows_wf(ev, quotes@));
        assert(bucket_rows_wf(ev, mentions@));
        assert(bucket_rows_wf(ev, retweeted_by@));
        assert(bucket_rows_wf(ev, replied_to_by@));
        assert(bucket_rows_wf(ev, quoted_by@));
        assert(bucket_rows_wf(ev, mentioned_by@));
        // The metadata table the buckets were folded against is sound,
        // complete on the seeds, and closed under the seeds' edges.
        assert(all_ids(rows.take(rows.len() as int)) =~= all_ids(rows));
        assert forall|x: u64|
            all_ids(rows).contains(x) && resolvable(ev, x) implies #[trigger] km_find(
            dbs,
            x,
        ) is Some by {
            assert(seeds@.contains(x));
        }
        assert forall|s: u64, x: u64|
            km_find(dbs, s) is Some && all_ids(rows).contains(s) && #[trigger] store_edge_of(
                ev,
                s,
                x,
            ) && resolvable(ev, x) implies km_find(dbs, x) is Some by {
            let m = km_find(dbs, s)->0;
            crate::lookup::lemma_md_matches_timestamp(ev, s, m);
            assert(seeds@.contains(s));
            assert(km_find(firsthop, s) is Some);
            assert(km_find(dbs, s) == km_find(firsthop, s));
            lemma_km_find_pair(firsthop, s);
            let i = choose|i: int|
                0 <= i < firsthop.len() && (#[trigger] firsthop[i]).0 == s && firsthop[i].1
                    == km_find(firsthop, s)->0;
            lemma_md_matches_edges(ev, s, firsthop[i].1);
            assert(md_edges(firsthop[i].1).contains(x));
            assert(edges@.contains(x));
        }
        assert(report_table_ok(ev, rows, dbs));
        assert forall|u: u64|
            firsts(relations.retweets@).contains(u) implies (km_find(user_db.entries@, u) is Some
            <==> user_rows(ev, u).len() > 0) by {
            assert(relations.spec_user_ids().contains(u));
            assert(uidv@.to_set().contains(u));
            assert(uidv@.contains(u));
        }
        lemma_bucket_glue(
            ev,
            dbs,
            user_id,
            all_ids(rows),
            relations.retweets@,
            retweets@,
            user_db.entries@,
            retweets_rule(),
        );
        assert forall|u: u64|
            firsts(relations.replies_to@).contains(u) implies (km_find(user_db.entries@, u) is Some
            <==> user_rows(ev, u).len() > 0) by {
            assert(relations.spec_user_ids().contains(u));
            assert(uidv@.to_set().contains(u));
            assert(uidv@.contains(u));
        }
        lemma_bucket_glue(
            ev,
            dbs,
            user_id,
            all_ids(rows),
            relations.replies_to@,
            replies_to@,
            user_db.entries@,
            replies_to_rule(),
        );
        assert forall|u: u64|
            firsts(relations.quotes@).contains(u) implies (km_find(user_db.entries@, u) is Some
            <==> user_rows(ev, u).len() > 0) by {
            assert(relations.spec_user_ids().contains(u));
            assert(uidv@.to_set().contains(u));
            assert(uidv@.contains(u));
        }
        lemma_bucket_glue(
            ev,
            dbs,
            user_id,
            all_ids(rows),
            relations.quotes@,
            quotes@,
            user_db.entries@,
            quotes_rule(),
        );
        assert forall|u: u64|
            firsts(relations.mentions@).contains(u) implies (km_find(user_db.entries@, u) is Some
            <==> user_rows(ev, u).len() > 0) by {
            assert(relations.spec_user_ids().contains(u));
            assert(uidv@.to_set().contains(u));
            assert(uidv@.contains(u));
        }
        lemma_bucket_glue(
            ev,
            dbs,
            user_id,
            all_ids(rows),
            relations.mentions@,
            mentions@,
            user_db.entries@,
            mentions_rule(),
        );
        assert forall|u: u64|
            firsts(relations.retweeted_by@).contains(u) implies (km_find(user_db.entries@, u) is Some
            <==> user_rows(ev, u).len() > 0) by {
            assert(relations.spec_user_ids().contains(u));
            assert(uidv@.to_set().contains(u));
            assert(uidv@.contains(u));
        }
        lemma_bucket_glue(
            ev,
            dbs,
            user_id,
            all_ids(rows),
            relations.retweeted_by@,
            retweeted_by@,
            user_db.entries@,
            retweeted_by_rule(),
        );
        assert forall|u: u64|
            firsts(relations.replied_to_by@).contains(u) implies (km_find(user_db.entries@, u) is Some
            <==> user_rows(ev, u).len() > 0) by {
            assert(relations.spec_user_ids().contains(u));
            assert(uidv@.to_set().contains(u));
            assert(uidv@.contains(u));
        }
        lemma_bucket_glue(
            ev,
            dbs,
            user_id,
            all_ids(rows),
            relations.replied_to_by@,
            replied_to_by@,
            user_db.entries@,
            replied_to_by_rule(),
        );
        assert forall|u: u64|
            firsts(relations.quoted_by@).contains(u) implies (km_find(user_db.entries@, u) is Some
            <==> user_rows(ev, u).len() > 0) by {
            assert(relations.spec_user_ids().contains(u));
            assert(uidv@.to_set().contains(u));
            assert(uidv@.contains(u));
        }
        lemma_bucket_glue(
            ev,
            dbs,
            user_id,
            all_ids(rows),
            relations.quoted_by@,
            quoted_by@,
            user_db.entries@,
            quoted_by_rule(),
        );
        assert forall|u: u64|
            firsts(relations.mentioned_by@).contains(u) implies (km_find(user_db.entries@, u) is Some
            <==> user_rows(ev, u).len() > 0) by {
            assert(relations.spec_user_ids().contains(u));
            assert(uidv@.to_set().contains(u));
            assert(uidv@.contains(u));
        }
        lemma_bucket_glue(
            ev,
            dbs,
            user_id,
            all_ids(rows),
            relations.mentioned_by@,
            mentioned_by@,
            user_db.entries@,
            mentioned_by_rule(),
        );
        assert(report_table_ok(ev, rows, dbs) && {
            &&& bucket_matches(ev, dbs, user_id, all_ids(rows), retweets@, retweets_rule())
            &&& bucket_matches(ev, dbs, user_id, all_ids(rows), replies_to@, replies_to_rule())
            &&& bucket_matches(ev, dbs, user_id, all_ids(rows), quotes@, quotes_rule())
            &&& bucket_matches(ev, dbs, user_id, all_ids(rows), mentions@, mentions_rule())
            &&& bucket_matches(ev, dbs, user_id, all_ids(rows), retweeted_by@, retweeted_by_rule())
            &&& bucket_matches(ev, dbs, user_id, all_ids(rows), replied_to_by@, replied_to_by_rule())
            &&& bucket_matches(ev, dbs, user_id, all_ids(rows), quoted_by@, quoted_by_rule())
            &&& bucket_matches(ev, dbs, user_id, all_ids(rows), mentioned_by@, mentioned_by_rule())
        });
    }
    UserReport {
        screen_name_dates,
        retweets,
        replies_to,
        quotes,
        mentions,
        retweeted_by,
        replied_to_by,
        quoted_by,
        mentioned_by,
        not_found,
    }
}

} // verus!
