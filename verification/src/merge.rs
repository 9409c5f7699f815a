//! The associative merge operator that combines multiple writes to one key.
//!
//! Dispatched on the key's tag: user and screen-name values merge by
//! sorted-u64 set union, full-status values merge by a consistency-checked
//! single-value rule, deletes keep the latest non-empty value, and the
//! remaining kinds keep the latest value.

use crate::full_status::{status_value_wf, value_subtag, value_ts, value_uid};
use crate::ids::{
    decode_u64_run, encode_u64_run, lemma_run_bytes_round_trip, lemma_run_round_trip,
    lemma_sorted_strict_unique, lemma_u64_run_len, read_u64_be, run_ids, sort_dedup, sorted_strict,
};
use vstd::prelude::*;
use vstd::slice::slice_to_vec;

verus! {

/// A disagreement found while merging full-status writes to one key.
#[derive(Debug, PartialEq, Eq, Structural, Clone, Copy)]
pub enum MergeCollision {
    UserId { previous: u64, update: u64 },
    Timestamp { previous: u64, update: u64 },
    Subtag { previous: u8, update: u8 },
}

/// The ids a run contributes to a union: none when it is malformed.
pub open spec fn run_set(b: Seq<u8>) -> Set<u64> {
    if b.len() % 8 == 0 {
        run_ids(b).to_set()
    } else {
        Set::empty()
    }
}

/// The ids contributed by a sequence of runs.
pub open spec fn ops_union(ops: Seq<Seq<u8>>) -> Set<u64>
    decreases ops.len(),
{
    if ops.len() == 0 {
        Set::empty()
    } else {
        run_set(ops[0]) + ops_union(ops.drop_first())
    }
}

/// The ids contributed by the existing value and every operand.
pub open spec fn union_ids(existing: Option<Seq<u8>>, ops: Seq<Seq<u8>>) -> Set<u64> {
    (match existing {
        Option::None => Set::empty(),
        Option::Some(b) => run_set(b),
    }) + ops_union(ops)
}

/// What the set-union merge promises of its result: `None` exactly when the
/// union is empty, else the sorted deduplicated encoding of the union.
pub open spec fn union_merge_post(
    existing: Option<Seq<u8>>,
    ops: Seq<Seq<u8>>,
    r: Option<Seq<u8>>,
) -> bool {
    match r {
        Option::None => union_ids(existing, ops) == Set::<u64>::empty(),
        Option::Some(v) => union_ids(existing, ops) != Set::<u64>::empty() && v.len() % 8 == 0
            && sorted_strict(run_ids(v)) && run_ids(v).to_set() == union_ids(existing, ops),
    }
}

/// The view of an optional borrowed value.
pub open spec fn opt_bytes(o: Option<&Vec<u8>>) -> Option<Seq<u8>> {
    match o {
        Option::None => Option::None,
        Option::Some(v) => Option::Some(v@),
    }
}

/// The view of an optional owned value.
pub open spec fn opt_owned_bytes(o: Option<Vec<u8>>) -> Option<Seq<u8>> {
    match o {
        Option::None => Option::None,
        Option::Some(v) => Option::Some(v@),
    }
}

/// Sorted-u64 set union of the existing value and all operands. A run whose
/// length is not a multiple of 8 is skipped; the merge never fails.
pub fn merge_sorted_u64s(existing: Option<&Vec<u8>>, operands: &Vec<Vec<u8>>) -> (r: Option<
    Vec<u8>,
>)
    ensures
        union_merge_post(opt_bytes(existing), operands.deep_view(), opt_owned_bytes(r)),
{
    let mut acc: Vec<u64> = Vec::new();
    if let Option::Some(bytes) = existing {
        if bytes.len() % 8 == 0 {
            let mut ids = decode_u64_run(bytes.as_slice());
            acc.append(&mut ids);
        }
    }
    proof {
        assert(acc@.to_set() =~= (match opt_bytes(existing) {
            Option::None => Set::<u64>::empty(),
            Option::Some(b) => run_set(b),
        }));
    }
    let ghost base: Set<u64> = acc@.to_set();
    let mut i: usize = 0;
    proof {
        assert(operands.deep_view().take(0) =~= Seq::<Seq<u8>>::empty());
        assert(base + ops_union(operands.deep_view().take(0)) =~= base);
    }
    while i < operands.len()
        invariant
            i <= operands@.len(),
            acc@.to_set() == base + ops_union(operands.deep_view().take(i as int)),
        decreases operands@.len() - i,
    {
        let op = &operands[i];
        let ghost prev_acc = acc@;
        if op.len() % 8 == 0 {
            let mut ids = decode_u64_run(op.as_slice());
            proof {
                assert(ids@.to_set() == run_set(op@));
            }
            acc.append(&mut ids);
        }
        proof {
            let ops = operands.deep_view();
            assert(ops[i as int] =~= op@);
            lemma_ops_union_take_step(ops, i as int);
            if op@.len() % 8 == 0 {
                vstd::seq_lib::seq_to_set_distributes_over_add(prev_acc, run_ids(op@));
            }
            assert(acc@.to_set() =~= base + ops_union(ops.take(i as int + 1)));
        }
        i = i + 1;
    }
    proof {
        assert(operands.deep_view().take(operands@.len() as int) =~= operands.deep_view());
    }
    let sorted = sort_dedup(&acc);
    if sorted.len() == 0 {
        proof {
            assert(sorted@.to_set() =~= Set::<u64>::empty());
            assert(union_ids(opt_bytes(existing), operands.deep_view()) =~= Set::<u64>::empty());
        }
        None
    } else {
        let out = encode_u64_run(&sorted);
        proof {
            lemma_run_round_trip(sorted@);
            lemma_u64_run_len(sorted@);
            assert(sorted@.to_set().contains(sorted@[0]));
        }
        Some(out)
    }
}

/// Extending a run sequence by one element grows its union by that run's
/// ids.
pub proof fn lemma_ops_union_take_step(ops: Seq<Seq<u8>>, i: int)
    requires
        0 <= i < ops.len(),
    ensures
        ops_union(ops.take(i + 1)) == ops_union(ops.take(i)) + run_set(ops[i]),
{
    reveal_with_fuel(ops_union, 2);
    lemma_ops_union_concat(ops.take(i), seq![ops[i]]);
    assert(ops.take(i + 1) =~= ops.take(i) + seq![ops[i]]);
    assert(seq![ops[i]].drop_first() =~= Seq::<Seq<u8>>::empty());
    assert(ops_union(seq![ops[i]]) =~= run_set(ops[i]));
    assert(ops_union(ops.take(i)) + run_set(ops[i]) =~= ops_union(ops.take(i)) + ops_union(
        seq![ops[i]],
    ));
}

/// The union over concatenated operand sequences is the union of the two
/// unions.
pub proof fn lemma_ops_union_concat(s: Seq<Seq<u8>>, t: Seq<Seq<u8>>)
    ensures
        ops_union(s + t) == ops_union(s) + ops_union(t),
    decreases s.len(),
{
    if s.len() == 0 {
        assert(s + t =~= t);
        assert(ops_union(s) + ops_union(t) =~= ops_union(t));
    } else {
        lemma_ops_union_concat(s.drop_first(), t);
        assert((s + t).drop_first() =~= s.drop_first() + t);
        assert(run_set(s[0]) + (ops_union(s.drop_first()) + ops_union(t)) =~= (run_set(s[0])
            + ops_union(s.drop_first())) + ops_union(t));
    }
}

/// The candidate values of a single-value merge: the existing value first,
/// then the operands in submission order.
pub open spec fn merge_cands(existing: Option<Seq<u8>>, ops: Seq<Seq<u8>>) -> Seq<Seq<u8>> {
    match existing {
        Option::None => ops,
        Option::Some(v) => seq![v] + ops,
    }
}

/// Two full-status values agree on the fields that may never change.
pub open spec fn fs_consistent(a: Seq<u8>, b: Seq<u8>) -> bool {
    value_uid(a) == value_uid(b) && value_ts(a) == value_ts(b) && value_subtag(a) == value_subtag(b)
}

/// Every candidate agrees with the first.
pub open spec fn fs_all_consistent(cs: Seq<Seq<u8>>) -> bool {
    forall|i: int| 0 <= i < cs.len() ==> fs_consistent(cs[0], #[trigger] cs[i])
}

/// The index of the candidate with the largest value (hence the largest
/// mention set, since consistent candidates share a subtag); the earliest
/// wins a tie.
pub open spec fn fs_best(cs: Seq<Seq<u8>>) -> int
    decreases cs.len(),
{
    if cs.len() <= 1 {
        0
    } else {
        let b = fs_best(cs.drop_last());
        if cs.last().len() > cs[b].len() {
            cs.len() - 1
        } else {
            b
        }
    }
}

pub proof fn lemma_fs_best_in_range(cs: Seq<Seq<u8>>)
    requires
        cs.len() > 0,
    ensures
        0 <= fs_best(cs) < cs.len(),
        forall|j: int| 0 <= j < cs.len() ==> #[trigger] cs[j].len() <= cs[fs_best(cs)].len(),
    decreases cs.len(),
{
    if cs.len() > 1 {
        lemma_fs_best_in_range(cs.drop_last());
        let b = fs_best(cs.drop_last());
        assert forall|j: int| 0 <= j < cs.len() implies #[trigger] cs[j].len() <= cs[fs_best(
            cs,
        )].len() by {
            if j < cs.len() - 1 {
                assert(cs.drop_last()[j] == cs[j]);
                assert(cs.drop_last()[b] == cs[b]);
            }
        }
    }
}

/// A verified byte-for-byte copy.
fn dup_bytes(v: &Vec<u8>) -> (r: Vec<u8>)
    ensures
        r@ == v@,
{
    slice_to_vec(v.as_slice())
}

/// The first candidate index that disagrees with the first candidate,
/// scanning from `i`; the length when all agree.
pub open spec fn fs_first_clash_from(cs: Seq<Seq<u8>>, i: int) -> int
    decreases cs.len() - i,
{
    if i < 0 || i >= cs.len() {
        cs.len() as int
    } else if !fs_consistent(cs[0], cs[i]) {
        i
    } else {
        fs_first_clash_from(cs, i + 1)
    }
}

/// The collision report for a disagreement between the first candidate and
/// the one at `i`: the user id is checked first, then the timestamp, then
/// the subtag.
pub open spec fn fs_collision_at(cs: Seq<Seq<u8>>, i: int) -> MergeCollision {
    if value_uid(cs[i]) != value_uid(cs[0]) {
        MergeCollision::UserId { previous: value_uid(cs[0]), update: value_uid(cs[i]) }
    } else if value_ts(cs[i]) != value_ts(cs[0]) {
        MergeCollision::Timestamp { previous: value_ts(cs[0]), update: value_ts(cs[i]) }
    } else {
        MergeCollision::Subtag { previous: value_subtag(cs[0]), update: value_subtag(cs[i]) }
    }
}

/// What the full-status merge promises: when every candidate agrees on
/// author, timestamp, and subtag, the candidate with the most mentions is
/// kept; on the first disagreement no value is produced (the store keeps
/// what it has) and the collision is reported.
pub open spec fn fs_merge_post(
    existing: Option<Seq<u8>>,
    ops: Seq<Seq<u8>>,
    r: (Option<Seq<u8>>, Option<MergeCollision>),
) -> bool {
    let cs = merge_cands(existing, ops);
    if fs_all_consistent(cs) {
        r.0 == Option::Some(cs[fs_best(cs)]) && r.1 is None
    } else {
        r.0 is None && r.1 == Option::Some(fs_collision_at(cs, fs_first_clash_from(cs, 0)))
    }
}

/// Consistency-checked single-value merge for full-status records.
pub fn full_status_merge(existing: Option<&Vec<u8>>, operands: &Vec<Vec<u8>>) -> (r: (
    Option<Vec<u8>>,
    Option<MergeCollision>,
))
    requires
        operands@.len() > 0,
        forall|i: int|
            0 <= i < merge_cands(opt_bytes(existing), operands.deep_view()).len()
                ==> status_value_wf(
                #[trigger] merge_cands(opt_bytes(existing), operands.deep_view())[i],
            ),
    ensures
        fs_merge_post(opt_bytes(existing), operands.deep_view(), (opt_owned_bytes(r.0), r.1)),
{
    let ghost cs = merge_cands(opt_bytes(existing), operands.deep_view());
    let mut all: Vec<Vec<u8>> = Vec::new();
    if let Option::Some(v) = existing {
        let copy = dup_bytes(v);
        all.push(copy);
    }
    proof {
        assert(all.deep_view() =~~= cs.take(all@.len() as int));
    }
    let mut k: usize = 0;
    while k < operands.len()
        invariant
            k <= operands@.len(),
            cs == merge_cands(opt_bytes(existing), operands.deep_view()),
            all.deep_view() == cs.take(
                all@.len() as int,
            ),
            all@.len() == k + (if opt_bytes(existing) is Some {
                1int
            } else {
                0int
            }),
        decreases operands@.len() - k,
    {
        let copy = dup_bytes(&operands[k]);
        all.push(copy);
        proof {
            assert(all.deep_view() =~~= cs.take(all@.len() as int));
        }
        k = k + 1;
    }
    proof {
        assert(cs.take(all@.len() as int) =~= cs);
        assert(cs[0] == all.deep_view()[0]);
        assert(all.deep_view()[0] == all@[0].deep_view());
        assert(all@[0].deep_view() =~= all@[0]@);
        assert(status_value_wf(all@[0]@));
    }
    let first = &all[0];
    let uid0 = read_value_uid(first);
    let ts0 = read_value_ts(first);
    let st0 = first[0];
    let mut best: usize = 0;
    let mut i: usize = 1;
    while i < all.len()
        invariant
            1 <= i <= all@.len(),
            cs == merge_cands(opt_bytes(existing), operands.deep_view()),
            all@.len() == cs.len(),
            all.deep_view() == cs,
            forall|j: int|
                0 <= j < cs.len() ==> status_value_wf(#[trigger] cs[j]),
            uid0 == value_uid(cs[0]),
            ts0 == value_ts(cs[0]),
            st0 == value_subtag(cs[0]),
            forall|j: int| 0 <= j < i ==> fs_consistent(cs[0], #[trigger] cs[j]),
            best == fs_best(cs.take(i as int)),
            best < i,
        decreases all@.len() - i,
    {
        let cand = &all[i];
        proof {
            assert(all.deep_view()[i as int] == all@[i as int].deep_view());
            assert(all@[i as int].deep_view() =~= all@[i as int]@);
            assert(cand@ == cs[i as int]);
        }
        let uid_i = read_value_uid(cand);
        let ts_i = read_value_ts(cand);
        let st_i = cand[0];
        if uid_i != uid0 {
            proof {
                lemma_fs_first_clash_found(cs, i as int);
            }
            return (None, Some(MergeCollision::UserId { previous: uid0, update: uid_i }));
        }
        if ts_i != ts0 {
            proof {
                lemma_fs_first_clash_found(cs, i as int);
            }
            return (None, Some(MergeCollision::Timestamp { previous: ts0, update: ts_i }));
        }
        if st_i != st0 {
            proof {
                lemma_fs_first_clash_found(cs, i as int);
            }
            return (None, Some(MergeCollision::Subtag { previous: st0, update: st_i }));
        }
        proof {
            assert(all.deep_view()[best as int] == all@[best as int].deep_view());
            assert(all@[best as int].deep_view() =~= all@[best as int]@);
            assert(all@[best as int]@ == cs[best as int]);
        }
        if cand.len() > all[best].len() {
            best = i;
        }
        proof {
            assert(cs.take(i as int + 1).drop_last() =~= cs.take(i as int));
            assert(cs.take(i as int + 1).last() == cs[i as int]);
        }
        i = i + 1;
    }
    proof {
        assert(cs.take(cs.len() as int) =~= cs);
        assert(fs_all_consistent(cs));
        lemma_fs_best_in_range(cs);
        assert(all.deep_view()[best as int] == all@[best as int].deep_view());
        assert(all@[best as int].deep_view() =~= all@[best as int]@);
        assert(all@[best as int]@ == cs[best as int]);
    }
    let out = dup_bytes(&all[best]);
    (Some(out), None)
}

/// A clash at `i`, with everything before consistent, is the first clash.
proof fn lemma_fs_first_clash_found(cs: Seq<Seq<u8>>, i: int)
    requires
        0 <= i < cs.len(),
        !fs_consistent(cs[0], cs[i]),
        forall|j: int| 0 <= j < i ==> fs_consistent(cs[0], #[trigger] cs[j]),
    ensures
        !fs_all_consistent(cs),
        fs_first_clash_from(cs, 0) == i,
{
    lemma_fs_first_clash_step(cs, 0, i);
}

proof fn lemma_fs_first_clash_step(cs: Seq<Seq<u8>>, k: int, i: int)
    requires
        0 <= k <= i < cs.len(),
        !fs_consistent(cs[0], cs[i]),
        forall|j: int| k <= j < i ==> fs_consistent(cs[0], #[trigger] cs[j]),
    ensures
        fs_first_clash_from(cs, k) == i,
    decreases i - k,
{
    if k < i {
        lemma_fs_first_clash_step(cs, k + 1, i);
    }
}

/// The author's user id read straight from value bytes.
fn read_value_uid(v: &Vec<u8>) -> (r: u64)
    requires
        status_value_wf(v@),
    ensures
        r == value_uid(v@),
{
    let r = read_u64_be(v.as_slice(), 1);
    proof {
        assert(v@.subrange(1, 9) =~= v@.subrange(1int, 1int + 8));
    }
    r
}

/// The millisecond timestamp read straight from value bytes.
fn read_value_ts(v: &Vec<u8>) -> (r: u64)
    requires
        status_value_wf(v@),
    ensures
        r == value_ts(v@),
{
    let r = read_u64_be(v.as_slice(), 9);
    proof {
        assert(v@.subrange(9, 17) =~= v@.subrange(9int, 9int + 8));
    }
    r
}

/// The latest value among the candidates, newest last.
pub fn merge_latest(existing: Option<&Vec<u8>>, operands: &Vec<Vec<u8>>) -> (r: Option<Vec<u8>>)
    ensures
        opt_owned_bytes(r) == (if operands@.len() > 0 {
            Option::Some(operands.deep_view().last())
        } else {
            opt_bytes(existing)
        }),
{
    if operands.len() > 0 {
        let out = dup_bytes(&operands[operands.len() - 1]);
        proof {
            assert(operands.deep_view().last() =~= operands@[operands@.len() - 1]@);
        }
        Some(out)
    } else {
        match existing {
            Option::Some(v) => Some(dup_bytes(v)),
            Option::None => None,
        }
    }
}

/// The latest non-empty candidate, or `None` when every candidate is empty.
pub open spec fn last_nonempty(cs: Seq<Seq<u8>>) -> Option<Seq<u8>>
    decreases cs.len(),
{
    if cs.len() == 0 {
        Option::None
    } else if cs.last().len() > 0 {
        Option::Some(cs.last())
    } else {
        last_nonempty(cs.drop_last())
    }
}

/// The latest non-empty candidate wins; when all are empty, the result is
/// the empty value (a delete without a timestamp).
pub fn merge_latest_nonempty(existing: Option<&Vec<u8>>, operands: &Vec<Vec<u8>>) -> (r: Vec<u8>)
    ensures
        r@ == (match last_nonempty(merge_cands(opt_bytes(existing), operands.deep_view())) {
            Option::Some(v) => v,
            Option::None => Seq::<u8>::empty(),
        }),
{
    let ghost cs = merge_cands(opt_bytes(existing), operands.deep_view());
    let ghost offset: int = if opt_bytes(existing) is Some {
        1int
    } else {
        0int
    };
    let mut j: usize = operands.len();
    proof {
        assert(cs.take(j + offset) =~= cs);
    }
    while j > 0
        invariant
            j <= operands@.len(),
            offset == (if opt_bytes(existing) is Some {
                1int
            } else {
                0int
            }),
            cs == merge_cands(opt_bytes(existing), operands.deep_view()),
            last_nonempty(cs) == last_nonempty(cs.take(j + offset)),
        decreases j,
    {
        j = j - 1;
        let op = &operands[j];
        proof {
            assert(operands.deep_view()[j as int] =~= op@);
            assert(cs.take(j + offset + 1).last() =~= op@);
            assert(cs.take(j + offset + 1).drop_last() =~= cs.take(j + offset));
        }
        if op.len() > 0 {
            return dup_bytes(op);
        }
    }
    if let Option::Some(v) = existing {
        proof {
            reveal_with_fuel(last_nonempty, 3);
            assert(cs.take(1).last() =~= v@);
            assert(cs.take(1).drop_last() =~= cs.take(0));
            assert(cs.take(0) =~= Seq::<Seq<u8>>::empty());
        }
        if v.len() > 0 {
            return dup_bytes(v);
        }
        proof {
            assert(last_nonempty(cs.take(1)) == last_nonempty(Seq::<Seq<u8>>::empty()));
        }
    }
    proof {
        reveal_with_fuel(last_nonempty, 2);
        assert(cs.take(0) =~= Seq::<Seq<u8>>::empty());
    }
    Vec::new()
}

/// The set-union merge has exactly one acceptable result: any two values
/// meeting its contract over the same inputs are byte-identical.
pub proof fn lemma_union_merge_deterministic(
    existing: Option<Seq<u8>>,
    ops: Seq<Seq<u8>>,
    r1: Option<Seq<u8>>,
    r2: Option<Seq<u8>>,
)
    requires
        union_merge_post(existing, ops, r1),
        union_merge_post(existing, ops, r2),
    ensures
        r1 == r2,
{
    if r1 is Some && r2 is Some {
        let v1 = r1->0;
        let v2 = r2->0;
        lemma_sorted_strict_unique(run_ids(v1), run_ids(v2));
        lemma_run_bytes_round_trip(v1);
        lemma_run_bytes_round_trip(v2);
    }
}

/// Removing the run at `i` removes exactly its contribution.
proof fn lemma_ops_union_remove(ops: Seq<Seq<u8>>, i: int)
    requires
        0 <= i < ops.len(),
    ensures
        ops_union(ops) == run_set(ops[i]) + ops_union(ops.remove(i)),
    decreases ops.len(),
{
    if i == 0 {
        assert(ops.remove(0) =~= ops.drop_first());
    } else {
        lemma_ops_union_remove(ops.drop_first(), i - 1);
        assert(ops.remove(i).drop_first() =~= ops.drop_first().remove(i - 1));
        assert(ops.remove(i)[0] == ops[0]);
        assert(run_set(ops[0]) + (run_set(ops[i]) + ops_union(ops.drop_first().remove(i - 1))) =~= (
        run_set(ops[i]) + (run_set(ops[0]) + ops_union(ops.drop_first().remove(i - 1)))));
    }
}

/// The union does not depend on the order of the operands: any permutation
/// contributes the same set.
pub proof fn lemma_ops_union_permutation(ops1: Seq<Seq<u8>>, ops2: Seq<Seq<u8>>)
    requires
        ops1.to_multiset() == ops2.to_multiset(),
    ensures
        ops_union(ops1) == ops_union(ops2),
    decreases ops1.len(),
{
    broadcast use vstd::seq_lib::group_to_multiset_ensures;

    if ops1.len() == 0 {
        assert(ops2.to_multiset().len() == 0);
        assert(ops2 =~= Seq::<Seq<u8>>::empty());
    } else {
        let x = ops1[0];
        assert(ops1.to_multiset().contains(x));
        assert(ops2.to_multiset().contains(x));
        assert(ops2.contains(x));
        let i = choose|i: int| 0 <= i < ops2.len() && ops2[i] == x;
        lemma_ops_union_remove(ops2, i);
        assert(ops1.remove(0).to_multiset() == ops1.to_multiset().remove(x));
        assert(ops2.remove(i).to_multiset() == ops2.to_multiset().remove(x));
        assert(ops1.remove(0) =~= ops1.drop_first());
        lemma_ops_union_permutation(ops1.drop_first(), ops2.remove(i));
    }
}

/// The set-union merge is commutative in result: permuting the operands
/// leaves the resulting byte sequence identical.
pub proof fn lemma_union_merge_commutative(
    existing: Option<Seq<u8>>,
    ops1: Seq<Seq<u8>>,
    ops2: Seq<Seq<u8>>,
    r1: Option<Seq<u8>>,
    r2: Option<Seq<u8>>,
)
    requires
        ops1.to_multiset() == ops2.to_multiset(),
        union_merge_post(existing, ops1, r1),
        union_merge_post(existing, ops2, r2),
    ensures
        r1 == r2,
{
    lemma_ops_union_permutation(ops1, ops2);
    lemma_union_merge_deterministic(existing, ops1, r1, r2);
}

/// The set-union merge is associative in result: merging the first batch,
/// then the second on top of it, meets the contract of merging the whole.
pub proof fn lemma_union_merge_associative(
    existing: Option<Seq<u8>>,
    ops1: Seq<Seq<u8>>,
    ops2: Seq<Seq<u8>>,
    r1: Option<Seq<u8>>,
    r2: Option<Seq<u8>>,
)
    requires
        union_merge_post(existing, ops1, r1),
        union_merge_post(r1, ops2, r2),
    ensures
        union_merge_post(existing, ops1 + ops2, r2),
{
    lemma_ops_union_concat(ops1, ops2);
    if r1 is Some {
        let v = r1->0;
        lemma_run_bytes_round_trip(v);
        assert(run_set(v) == union_ids(existing, ops1));
    }
    assert(union_ids(existing, ops1 + ops2) =~= union_ids(r1, ops2));
}

} // verus!
