//! Big-endian encoding of 64-bit ids and of runs of ids.
//!
//! Every multi-byte integer on disk is big-endian, so lexicographic byte
//! order coincides with numeric order. Sets of ids are stored as a run of
//! 8-byte groups, sorted ascending and deduplicated.

use vstd::prelude::*;

verus! {

/// The 8 bytes of `x`, most significant first.
pub open spec fn u64_be(x: u64) -> Seq<u8> {
    seq![
        (x >> 56) as u8,
        (x >> 48) as u8,
        (x >> 40) as u8,
        (x >> 32) as u8,
        (x >> 24) as u8,
        (x >> 16) as u8,
        (x >> 8) as u8,
        x as u8,
    ]
}

/// The value whose big-endian bytes are `s` (meaningful when `s` has 8 bytes).
pub open spec fn u64_from_be(s: Seq<u8>) -> u64
    recommends
        s.len() == 8,
{
    ((s[0] as u64) << 56) | ((s[1] as u64) << 48) | ((s[2] as u64) << 40) | ((s[3] as u64) << 32)
        | ((s[4] as u64) << 24) | ((s[5] as u64) << 16) | ((s[6] as u64) << 8) | (s[7] as u64)
}

/// Decoding the big-endian bytes of `x` gives back `x`.
pub proof fn lemma_u64_be_round_trip(x: u64)
    ensures
        u64_from_be(u64_be(x)) == x,
{
    assert((((x >> 56) as u8) as u64) << 56 | (((x >> 48) as u8) as u64) << 48 | (((x
        >> 40) as u8) as u64) << 40 | (((x >> 32) as u8) as u64) << 32 | (((x
        >> 24) as u8) as u64) << 24 | (((x >> 16) as u8) as u64) << 16 | (((x
        >> 8) as u8) as u64) << 8 | ((x as u8) as u64) == x) by (bit_vector);
}

/// Re-encoding the value read from 8 bytes gives back those bytes.
pub proof fn lemma_u64_be_bytes_round_trip(s: Seq<u8>)
    requires
        s.len() == 8,
    ensures
        u64_be(u64_from_be(s)) == s,
{
    let b0 = s[0];
    let b1 = s[1];
    let b2 = s[2];
    let b3 = s[3];
    let b4 = s[4];
    let b5 = s[5];
    let b6 = s[6];
    let b7 = s[7];
    let x = u64_from_be(s);
    assert((x >> 56) as u8 == b0 && (x >> 48) as u8 == b1 && (x >> 40) as u8 == b2 && (x
        >> 32) as u8 == b3 && (x >> 24) as u8 == b4 && (x >> 16) as u8 == b5 && (x >> 8) as u8 == b6
        && x as u8 == b7) by (bit_vector)
        requires
            x == ((b0 as u64) << 56) | ((b1 as u64) << 48) | ((b2 as u64) << 40) | ((b3 as u64)
                << 32) | ((b4 as u64) << 24) | ((b5 as u64) << 16) | ((b6 as u64) << 8) | (
            b7 as u64),
    ;
    assert(u64_be(x) =~= s);
}

/// The concatenated big-endian bytes of every id in `ids`, in order.
pub open spec fn u64_run(ids: Seq<u64>) -> Seq<u8>
    decreases ids.len(),
{
    if ids.len() == 0 {
        Seq::empty()
    } else {
        u64_be(ids[0]) + u64_run(ids.drop_first())
    }
}

/// The ids read off a run of 8-byte groups (trailing partial group ignored).
pub open spec fn run_ids(b: Seq<u8>) -> Seq<u64>
    decreases b.len(),
{
    if b.len() < 8 {
        Seq::empty()
    } else {
        seq![u64_from_be(b.take(8))] + run_ids(b.skip(8))
    }
}

pub proof fn lemma_run_ids_len(b: Seq<u8>)
    requires
        b.len() % 8 == 0,
    ensures
        run_ids(b).len() == b.len() / 8,
    decreases b.len(),
{
    if b.len() >= 8 {
        lemma_run_ids_len(b.skip(8));
    }
}

pub proof fn lemma_u64_run_len(ids: Seq<u64>)
    ensures
        u64_run(ids).len() == 8 * ids.len(),
    decreases ids.len(),
{
    if ids.len() > 0 {
        lemma_u64_run_len(ids.drop_first());
    }
}

/// Encoding distributes over concatenation of id sequences.
pub proof fn lemma_u64_run_concat(s: Seq<u64>, t: Seq<u64>)
    ensures
        u64_run(s + t) == u64_run(s) + u64_run(t),
    decreases s.len(),
{
    if s.len() == 0 {
        assert(s + t =~= t);
        assert(u64_run(s) + u64_run(t) =~= u64_run(t));
    } else {
        lemma_u64_run_concat(s.drop_first(), t);
        assert((s + t).drop_first() =~= s.drop_first() + t);
        assert(u64_be(s[0]) + (u64_run(s.drop_first()) + u64_run(t)) =~= (u64_be(s[0]) + u64_run(
            s.drop_first(),
        )) + u64_run(t));
    }
}

/// Reading distributes over concatenation at an 8-byte boundary.
pub proof fn lemma_run_ids_concat(s: Seq<u8>, t: Seq<u8>)
    requires
        s.len() % 8 == 0,
    ensures
        run_ids(s + t) == run_ids(s) + run_ids(t),
    decreases s.len(),
{
    if s.len() == 0 {
        assert(s + t =~= t);
        assert(run_ids(s) + run_ids(t) =~= run_ids(t));
    } else {
        assert(s.len() >= 8);
        lemma_run_ids_concat(s.skip(8), t);
        assert((s + t).take(8) =~= s.take(8));
        assert((s + t).skip(8) =~= s.skip(8) + t);
        assert(seq![u64_from_be(s.take(8))] + (run_ids(s.skip(8)) + run_ids(t)) =~= (seq![
            u64_from_be(s.take(8)),
        ] + run_ids(s.skip(8))) + run_ids(t));
    }
}

/// Reading back an encoded run yields the original ids.
pub proof fn lemma_run_round_trip(ids: Seq<u64>)
    ensures
        run_ids(u64_run(ids)) == ids,
    decreases ids.len(),
{
    if ids.len() == 0 {
        assert(run_ids(u64_run(ids)) =~= ids);
    } else {
        let b = u64_run(ids);
        lemma_u64_run_len(ids.drop_first());
        assert(b.take(8) =~= u64_be(ids[0]));
        assert(b.skip(8) =~= u64_run(ids.drop_first()));
        lemma_u64_be_round_trip(ids[0]);
        lemma_run_round_trip(ids.drop_first());
        assert(run_ids(u64_run(ids)) =~= ids);
    }
}

/// Re-encoding the ids read off a whole run yields the original bytes.
pub proof fn lemma_run_bytes_round_trip(b: Seq<u8>)
    requires
        b.len() % 8 == 0,
    ensures
        u64_run(run_ids(b)) == b,
    decreases b.len(),
{
    if b.len() == 0 {
        assert(u64_run(run_ids(b)) =~= b);
    } else {
        assert(b.len() >= 8);
        lemma_u64_be_bytes_round_trip(b.take(8));
        lemma_run_bytes_round_trip(b.skip(8));
        let r = run_ids(b);
        assert(r.drop_first() =~= run_ids(b.skip(8)));
        assert(u64_run(r) =~= b.take(8) + b.skip(8));
        assert(b.take(8) + b.skip(8) =~= b);
    }
}

pub proof fn lemma_u64_run_singleton(x: u64)
    ensures
        u64_run(seq![x]) == u64_be(x),
{
    reveal_with_fuel(u64_run, 2);
    assert(seq![x].drop_first() =~= Seq::<u64>::empty());
    assert(u64_run(seq![x]) =~= u64_be(x));
}

pub proof fn lemma_run_ids_singleton(chunk: Seq<u8>)
    requires
        chunk.len() == 8,
    ensures
        run_ids(chunk) == seq![u64_from_be(chunk)],
{
    reveal_with_fuel(run_ids, 2);
    assert(chunk.take(8) =~= chunk);
    assert(chunk.skip(8) =~= Seq::<u8>::empty());
    assert(run_ids(chunk) =~= seq![u64_from_be(chunk)]);
}

/// Strictly ascending: sorted with no duplicates.
pub open spec fn sorted_strict(s: Seq<u64>) -> bool {
    forall|i: int, j: int| 0 <= i < j < s.len() ==> s[i] < s[j]
}

/// Two strictly ascending sequences over the same set of ids are identical.
pub proof fn lemma_sorted_strict_unique(a: Seq<u64>, b: Seq<u64>)
    requires
        sorted_strict(a),
        sorted_strict(b),
        a.to_set() == b.to_set(),
    ensures
        a == b,
    decreases a.len(),
{
    if a.len() == 0 {
        if b.len() > 0 {
            assert(b.to_set().contains(b[0]));
            assert(a.contains(b[0]));
        }
        assert(a =~= b);
    } else if b.len() == 0 {
        assert(a.to_set().contains(a[0]));
        assert(b.contains(a[0]));
    } else {
        // The heads are the respective minima, hence equal.
        assert(a.to_set().contains(a[0]));
        assert(b.to_set().contains(b[0]));
        assert(a.contains(b[0]));
        assert(b.contains(a[0]));
        let ia = choose|i: int| 0 <= i < a.len() && a[i] == b[0];
        let ib = choose|i: int| 0 <= i < b.len() && b[i] == a[0];
        assert(a[0] <= a[ia]);
        assert(b[0] <= b[ib]);
        assert(a[0] == b[0]);
        assert(forall|x: u64| a.drop_first().contains(x) ==> #[trigger] a.contains(x));
        assert(forall|x: u64| b.drop_first().contains(x) ==> #[trigger] b.contains(x));
        assert forall|x: u64| #[trigger] a.drop_first().contains(x) implies b.drop_first().contains(
            x,
        ) by {
            let i = choose|i: int| 0 <= i < a.drop_first().len() && a.drop_first()[i] == x;
            assert(a[i + 1] == x);
            assert(x > a[0]);
            assert(a.to_set().contains(x));
            assert(b.to_set().contains(x));
            assert(b.contains(x));
            let j = choose|j: int| 0 <= j < b.len() && b[j] == x;
            assert(j != 0);
            assert(b.drop_first()[j - 1] == x);
        }
        assert forall|x: u64| #[trigger] b.drop_first().contains(x) implies a.drop_first().contains(
            x,
        ) by {
            let i = choose|i: int| 0 <= i < b.drop_first().len() && b.drop_first()[i] == x;
            assert(b[i + 1] == x);
            assert(x > b[0]);
            assert(b.to_set().contains(x));
            assert(a.to_set().contains(x));
            assert(a.contains(x));
            let j = choose|j: int| 0 <= j < a.len() && a[j] == x;
            assert(j != 0);
            assert(a.drop_first()[j - 1] == x);
        }
        assert(a.drop_first().to_set() =~= b.drop_first().to_set());
        lemma_sorted_strict_unique(a.drop_first(), b.drop_first());
        assert(a =~= seq![a[0]] + a.drop_first());
        assert(b =~= seq![b[0]] + b.drop_first());
    }
}

/// Appends the big-endian bytes of `x`.
pub fn push_u64_be(out: &mut Vec<u8>, x: u64)
    ensures
        final(out)@ == old(out)@ + u64_be(x),
{
    out.push((x >> 56) as u8);
    out.push((x >> 48) as u8);
    out.push((x >> 40) as u8);
    out.push((x >> 32) as u8);
    out.push((x >> 24) as u8);
    out.push((x >> 16) as u8);
    out.push((x >> 8) as u8);
    out.push(x as u8);
    proof {
        assert(out@ =~= old(out)@ + u64_be(x));
    }
}

/// Reads the big-endian value of the 8 bytes at `off`.
pub fn read_u64_be(b: &[u8], off: usize) -> (x: u64)
    requires
        off + 8 <= b@.len(),
    ensures
        x == u64_from_be(b@.subrange(off as int, off as int + 8)),
{
    let x = ((b[off] as u64) << 56) | ((b[off + 1] as u64) << 48) | ((b[off + 2] as u64) << 40) | ((
    b[off + 3] as u64) << 32) | ((b[off + 4] as u64) << 24) | ((b[off + 5] as u64) << 16) | ((b[off
        + 6] as u64) << 8) | (b[off + 7] as u64);
    proof {
        let s = b@.subrange(off as int, off as int + 8);
        assert(s[0] == b@[off as int]);
        assert(s[1] == b@[off as int + 1]);
        assert(s[2] == b@[off as int + 2]);
        assert(s[3] == b@[off as int + 3]);
        assert(s[4] == b@[off as int + 4]);
        assert(s[5] == b@[off as int + 5]);
        assert(s[6] == b@[off as int + 6]);
        assert(s[7] == b@[off as int + 7]);
    }
    x
}

/// Encodes the ids as a run of big-endian 8-byte groups, in order.
pub fn encode_u64_run(ids: &Vec<u64>) -> (r: Vec<u8>)
    ensures
        r@ == u64_run(ids@),
{
    let mut out: Vec<u8> = Vec::new();
    let mut i: usize = 0;
    proof {
        assert(ids@.take(0) =~= Seq::<u64>::empty());
    }
    while i < ids.len()
        invariant
            i <= ids@.len(),
            out@ == u64_run(ids@.take(i as int)),
        decreases ids@.len() - i,
    {
        push_u64_be(&mut out, ids[i]);
        proof {
            assert(ids@.take(i as int + 1) =~= ids@.take(i as int) + seq![ids@[i as int]]);
            lemma_u64_run_concat(ids@.take(i as int), seq![ids@[i as int]]);
            lemma_u64_run_singleton(ids@[i as int]);
        }
        i = i + 1;
    }
    proof {
        assert(ids@.take(ids@.len() as int) =~= ids@);
    }
    out
}

/// Decodes a whole run of 8-byte groups into its ids.
pub fn decode_u64_run(b: &[u8]) -> (r: Vec<u64>)
    requires
        b@.len() % 8 == 0,
    ensures
        r@ == run_ids(b@),
{
    let mut out: Vec<u64> = Vec::new();
    let mut off: usize = 0;
    proof {
        assert(b@.take(0) =~= Seq::<u8>::empty());
    }
    while off < b.len()
        invariant
            off <= b@.len(),
            off % 8 == 0,
            b@.len() % 8 == 0,
            out@ == run_ids(b@.take(off as int)),
        decreases b@.len() - off,
    {
        assert(off + 8 <= b@.len());
        let x = read_u64_be(b, off);
        out.push(x);
        proof {
            let chunk = b@.subrange(off as int, off as int + 8);
            assert(b@.take(off as int + 8) =~= b@.take(off as int) + chunk);
            lemma_run_ids_concat(b@.take(off as int), chunk);
            lemma_run_ids_singleton(chunk);
        }
        off = off + 8;
    }
    proof {
        assert(b@.take(b@.len() as int) =~= b@);
    }
    out
}

/// Sorts ascending and removes duplicates; the result holds exactly the ids
/// of the input.
pub fn sort_dedup(ids: &Vec<u64>) -> (r: Vec<u64>)
    ensures
        sorted_strict(r@),
        r@.to_set() == ids@.to_set(),
{
    let mut out: Vec<u64> = Vec::new();
    let mut i: usize = 0;
    while i < ids.len()
        invariant
            i <= ids@.len(),
            sorted_strict(out@),
            forall|x: u64| out@.contains(x) <==> ids@.take(i as int).contains(x),
        decreases ids@.len() - i,
    {
        let x = ids[i];
        insert_sorted(&mut out, x);
        proof {
            assert forall|y: u64| ids@.take(i as int + 1).contains(y) implies out@.contains(y) by {
                if y != x {
                    let j = choose|j: int|
                        0 <= j < ids@.take(i as int + 1).len() && #[trigger] ids@.take(
                            i as int + 1,
                        )[j] == y;
                    assert(ids@.take(i as int)[j] == y);
                }
            }
            assert forall|y: u64| out@.contains(y) implies ids@.take(i as int + 1).contains(y) by {
                if y == x {
                    assert(ids@.take(i as int + 1)[i as int] == x);
                } else {
                    let j = choose|j: int|
                        0 <= j < ids@.take(i as int).len() && #[trigger] ids@.take(i as int)[j]
                            == y;
                    assert(ids@.take(i as int + 1)[j] == y);
                }
            }
        }
        i = i + 1;
    }
    proof {
        assert(ids@.take(ids@.len() as int) =~= ids@);
        assert(out@.to_set() =~= ids@.to_set());
    }
    out
}

/// Inserts `x` into a strictly ascending vector, keeping it strictly
/// ascending; no change when `x` is already present.
pub fn insert_sorted(out: &mut Vec<u64>, x: u64)
    requires
        sorted_strict(old(out)@),
    ensures
        sorted_strict(final(out)@),
        forall|y: u64| final(out)@.contains(y) <==> (old(out)@.contains(y) || y == x),
{
    let mut j: usize = 0;
    while j < out.len() && out[j] < x
        invariant
            j <= out@.len(),
            sorted_strict(out@),
            out@ == old(out)@,
            forall|k: int| 0 <= k < j ==> out@[k] < x,
        decreases out@.len() - j,
    {
        j = j + 1;
    }
    if j < out.len() && out[j] == x {
        proof {
            assert(out@.contains(x));
        }
        return ;
    }
    let ghost prev = out@;
    out.insert(j, x);
    proof {
        assert(out@ =~= prev.take(j as int) + seq![x] + prev.skip(j as int));
        assert forall|p: int, q: int| 0 <= p < q < out@.len() implies out@[p] < out@[q] by {
            if p < j && q > j {
                assert(out@[p] == prev[p]);
                assert(out@[q] == prev[q - 1]);
            } else if p == j && q > j {
                assert(out@[q] == prev[q - 1]);
                assert(prev[q - 1] >= prev[j as int]);
                assert(prev[j as int] != x);
            } else if p < j && q == j {
                assert(out@[p] == prev[p]);
            } else if q < j {
                assert(out@[p] == prev[p] && out@[q] == prev[q]);
            } else if p > j {
                assert(out@[p] == prev[p - 1] && out@[q] == prev[q - 1]);
            }
        }
        assert forall|y: u64| out@.contains(y) implies (prev.contains(y) || y == x) by {
            let k = choose|k: int| 0 <= k < out@.len() && out@[k] == y;
            if k < j {
                assert(prev[k] == y);
            } else if k > j {
                assert(prev[k - 1] == y);
            }
        }
        assert forall|y: u64| prev.contains(y) || y == x implies out@.contains(y) by {
            if y == x {
                assert(out@[j as int] == x);
            } else {
                let k = choose|k: int| 0 <= k < prev.len() && prev[k] == y;
                if k < j {
                    assert(out@[k] == y);
                } else {
                    assert(out@[k + 1] == y);
                }
            }
        }
        assert(out@[j as int] == x);
        assert(out@.contains(x));
        assert(forall|y: u64| #[trigger] out@.contains(y) <==> (prev.contains(y) || y == x));
    }
}

} // verus!
