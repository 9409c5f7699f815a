//! The typed read/write façade over the store.
//!
//! Writers submit entries as merges; readers perform point lookups and
//! range scans and reconstruct typed results from the raw bytes.

use crate::error::Error;
use crate::full_status::{
    status_key, value_mentions, value_quoted, value_replied, value_retweeted, value_subtag,
    value_ts, value_uid, FullStatusEntry,
};
use crate::ids::{
    decode_u64_run, push_u64_be, read_u64_be, run_ids, sorted_strict, u64_be, u64_from_be,
};
use crate::merge::MergeCollision;
use crate::screen_name::{screen_name_key, ScreenNameEntry};
use crate::store::{merge_write_post, pair_wf, seq_find, Store};
use crate::tag::Tag;
use crate::text::{lower_of, lowercase, utf8_to_string};
use crate::user::{user_key_name, user_key_uid, UserEntry};
use vstd::prelude::*;
use vstd::slice::slice_subrange;
use vstd::string::{StrSliceExecFns, StringExecFns};

verus! {

/// The smallest status id that carries its creation time in its upper bits.
pub const FIRST_SNOWFLAKE: u64 = 250000000000000;

/// The epoch (in milliseconds) that snowflake ids count from.
pub const SNOWFLAKE_EPOCH_MILLIS: u64 = 1288834974657;

/// Whether a status id is a snowflake, i.e. encodes its own timestamp.
pub open spec fn spec_is_snowflake(value: u64) -> bool {
    value >= FIRST_SNOWFLAKE
}

#[verifier::when_used_as_spec(spec_is_snowflake)]
pub fn is_snowflake(value: u64) -> (r: bool)
    ensures
        r == spec_is_snowflake(value),
{
    value >= FIRST_SNOWFLAKE
}

/// The millisecond timestamp a snowflake id encodes.
pub open spec fn spec_snowflake_millis(value: u64) -> u64 {
    ((value >> 22) + SNOWFLAKE_EPOCH_MILLIS) as u64
}

/// Derives the millisecond timestamp from a snowflake id.
pub fn snowflake_millis(value: u64) -> (r: u64)
    ensures
        r == spec_snowflake_millis(value),
{
    proof {
        assert(value >> 22 <= 0x3ff_ffff_ffffu64) by (bit_vector);
    }
    (value >> 22) + SNOWFLAKE_EPOCH_MILLIS
}

/// The key bytes for a short status record.
pub open spec fn short_status_key(sid: u64) -> Seq<u8> {
    seq![Tag::ShortStatus.spec_value()] + u64_be(sid)
}

/// The key bytes for a delete record.
pub open spec fn delete_key(uid: u64, sid: u64) -> Seq<u8> {
    seq![Tag::Delete.spec_value()] + u64_be(uid) + u64_be(sid)
}

/// The key bytes for a completed-file record.
pub open spec fn completed_file_key(archive: Seq<char>, file: Seq<char>) -> Seq<u8> {
    seq![Tag::CompletedFile.spec_value()] + vstd::utf8::encode_utf8(
        archive + seq!['|'] + file,
    )
}

/// The recorded context of a status id, reconstructed from the store.
#[derive(Debug, PartialEq, Eq)]
pub enum TweetMetadata {
    Short { status_id: u64, user_id: u64 },
    Full {
        status_id: u64,
        timestamp: u64,
        user_id: u64,
        replied_to_id: Option<u64>,
        quoted_id: Option<u64>,
        mentioned_user_ids: Vec<u64>,
    },
    Retweet { status_id: u64, timestamp: u64, user_id: u64, retweeted_id: u64 },
}

impl TweetMetadata {
    /// The status id common to every variant.
    pub open spec fn spec_status_id(&self) -> u64 {
        match self {
            TweetMetadata::Short { status_id, .. } => *status_id,
            TweetMetadata::Full { status_id, .. } => *status_id,
            TweetMetadata::Retweet { status_id, .. } => *status_id,
        }
    }

    #[verifier::when_used_as_spec(spec_status_id)]
    pub fn status_id(&self) -> (r: u64)
        ensures
            r == self.spec_status_id(),
    {
        match self {
            TweetMetadata::Short { status_id, .. } => *status_id,
            TweetMetadata::Full { status_id, .. } => *status_id,
            TweetMetadata::Retweet { status_id, .. } => *status_id,
        }
    }

    /// The author's user id common to every variant.
    pub open spec fn spec_user_id(&self) -> u64 {
        match self {
            TweetMetadata::Short { user_id, .. } => *user_id,
            TweetMetadata::Full { user_id, .. } => *user_id,
            TweetMetadata::Retweet { user_id, .. } => *user_id,
        }
    }

    #[verifier::when_used_as_spec(spec_user_id)]
    pub fn user_id(&self) -> (r: u64)
        ensures
            r == self.spec_user_id(),
    {
        match self {
            TweetMetadata::Short { user_id, .. } => *user_id,
            TweetMetadata::Full { user_id, .. } => *user_id,
            TweetMetadata::Retweet { user_id, .. } => *user_id,
        }
    }

    /// The millisecond timestamp: stored for full and retweet records, and
    /// derived from the id for a short record exactly when the id is a
    /// snowflake.
    pub open spec fn spec_timestamp(&self) -> Option<u64> {
        match self {
            TweetMetadata::Short { status_id, .. } => {
                if spec_is_snowflake(*status_id) {
                    Option::Some(spec_snowflake_millis(*status_id))
                } else {
                    Option::None
                }
            },
            TweetMetadata::Full { timestamp, .. } => Option::Some(*timestamp),
            TweetMetadata::Retweet { timestamp, .. } => Option::Some(*timestamp),
        }
    }

    #[verifier::when_used_as_spec(spec_timestamp)]
    pub fn timestamp(&self) -> (r: Option<u64>)
        ensures
            r == self.spec_timestamp(),
    {
        match self {
            TweetMetadata::Short { status_id, .. } => {
                if is_snowflake(*status_id) {
                    Some(snowflake_millis(*status_id))
                } else {
                    None
                }
            },
            TweetMetadata::Full { timestamp, .. } => Some(*timestamp),
            TweetMetadata::Retweet { timestamp, .. } => Some(*timestamp),
        }
    }
}

/// The `(screen_name, status_ids)` rows a user scan yields: exactly the
/// pairs whose key carries the user tag and the requested id, in key order.
pub open spec fn user_rows(ev: Seq<(Seq<u8>, Seq<u8>)>, uid: u64) -> Seq<(Seq<char>, Seq<u64>)>
    decreases ev.len(),
{
    if ev.len() == 0 {
        Seq::empty()
    } else {
        let head = if ev[0].0.len() >= 9 && ev[0].0[0] == Tag::User.spec_value() && user_key_uid(
            ev[0].0,
        ) == uid {
            seq![(user_key_name(ev[0].0), run_ids(ev[0].1))]
        } else {
            Seq::<(Seq<char>, Seq<u64>)>::empty()
        };
        head + user_rows(ev.drop_first(), uid)
    }
}

pub proof fn lemma_user_rows_concat(s: Seq<(Seq<u8>, Seq<u8>)>, t: Seq<(Seq<u8>, Seq<u8>)>, uid: u64)
    ensures
        user_rows(s + t, uid) == user_rows(s, uid) + user_rows(t, uid),
    decreases s.len(),
{
    if s.len() == 0 {
        assert(s + t =~= t);
        assert(user_rows(s, uid) + user_rows(t, uid) =~= user_rows(t, uid));
    } else {
        lemma_user_rows_concat(s.drop_first(), t, uid);
        assert((s + t).drop_first() =~= s.drop_first() + t);
        assert((s + t)[0] == s[0]);
        let head = if s[0].0.len() >= 9 && s[0].0[0] == Tag::User.spec_value() && user_key_uid(
            s[0].0,
        ) == uid {
            seq![(user_key_name(s[0].0), run_ids(s[0].1))]
        } else {
            Seq::<(Seq<char>, Seq<u64>)>::empty()
        };
        assert(head + (user_rows(s.drop_first(), uid) + user_rows(t, uid)) =~= (head + user_rows(
            s.drop_first(),
            uid,
        )) + user_rows(t, uid));
    }
}

/// Every row of a user scan comes from a held pair with the user tag and
/// the requested user id: the scan never strays into other ids or tags.
pub proof fn lemma_user_rows_from_store(ev: Seq<(Seq<u8>, Seq<u8>)>, uid: u64, j: int)
    requires
        0 <= j < user_rows(ev, uid).len(),
    ensures
        exists|i: int|
            0 <= i < ev.len() && (#[trigger] ev[i]).0.len() >= 9 && ev[i].0[0]
                == Tag::User.spec_value() && user_key_uid(ev[i].0) == uid && user_rows(ev, uid)[j]
                == (user_key_name(ev[i].0), run_ids(ev[i].1)),
    decreases ev.len(),
{
    if ev.len() > 0 {
        let matched = ev[0].0.len() >= 9 && ev[0].0[0] == Tag::User.spec_value() && user_key_uid(
            ev[0].0,
        ) == uid;
        if matched && j == 0 {
            assert(ev[0].0.len() >= 9 && ev[0].0[0] == Tag::User.spec_value() && user_key_uid(
                ev[0].0,
            ) == uid && user_rows(ev, uid)[0] == (user_key_name(ev[0].0), run_ids(ev[0].1)));
        } else {
            let j2 = if matched {
                j - 1
            } else {
                j
            };
            lemma_user_rows_from_store(ev.drop_first(), uid, j2);
            let i2 = choose|i: int|
                0 <= i < ev.drop_first().len() && (#[trigger] ev.drop_first()[i]).0.len() >= 9
                    && ev.drop_first()[i].0[0] == Tag::User.spec_value() && user_key_uid(
                    ev.drop_first()[i].0,
                ) == uid && user_rows(ev.drop_first(), uid)[j2] == (
                user_key_name(ev.drop_first()[i].0),
                run_ids(ev.drop_first()[i].1),
                );
            assert(ev[i2 + 1] == ev.drop_first()[i2]);
        }
    }
}

/// The `(status_id, deleted_at)` rows a delete scan yields for a user.
pub open spec fn delete_rows(ev: Seq<(Seq<u8>, Seq<u8>)>, uid: u64) -> Seq<(u64, Option<u64>)>
    decreases ev.len(),
{
    if ev.len() == 0 {
        Seq::empty()
    } else {
        let head = if ev[0].0.len() == 17 && ev[0].0[0] == Tag::Delete.spec_value() && u64_from_be(
            ev[0].0.subrange(1, 9),
        ) == uid {
            seq![
                (
                    u64_from_be(ev[0].0.subrange(9, 17)),
                    if ev[0].1.len() == 8 {
                        Option::Some(u64_from_be(ev[0].1))
                    } else {
                        Option::<u64>::None
                    },
                ),
            ]
        } else {
            Seq::<(u64, Option<u64>)>::empty()
        };
        head + delete_rows(ev.drop_first(), uid)
    }
}

pub proof fn lemma_delete_rows_concat(
    s: Seq<(Seq<u8>, Seq<u8>)>,
    t: Seq<(Seq<u8>, Seq<u8>)>,
    uid: u64,
)
    ensures
        delete_rows(s + t, uid) == delete_rows(s, uid) + delete_rows(t, uid),
    decreases s.len(),
{
    if s.len() == 0 {
        assert(s + t =~= t);
        assert(delete_rows(s, uid) + delete_rows(t, uid) =~= delete_rows(t, uid));
    } else {
        lemma_delete_rows_concat(s.drop_first(), t, uid);
        assert((s + t).drop_first() =~= s.drop_first() + t);
        assert((s + t)[0] == s[0]);
        let head = if s[0].0.len() == 17 && s[0].0[0] == Tag::Delete.spec_value() && u64_from_be(
            s[0].0.subrange(1, 9),
        ) == uid {
            seq![
                (
                    u64_from_be(s[0].0.subrange(9, 17)),
                    if s[0].1.len() == 8 {
                        Option::Some(u64_from_be(s[0].1))
                    } else {
                        Option::<u64>::None
                    },
                ),
            ]
        } else {
            Seq::<(u64, Option<u64>)>::empty()
        };
        assert(head + (delete_rows(s.drop_first(), uid) + delete_rows(t, uid)) =~= (head
            + delete_rows(s.drop_first(), uid)) + delete_rows(t, uid));
    }
}

/// The id field of every key with the given tag, in key order.
pub open spec fn tag_ids(ev: Seq<(Seq<u8>, Seq<u8>)>, tag: u8) -> Seq<u64>
    decreases ev.len(),
{
    if ev.len() == 0 {
        Seq::empty()
    } else {
        let head = if ev[0].0.len() >= 9 && ev[0].0[0] == tag {
            seq![u64_from_be(ev[0].0.subrange(1, 9))]
        } else {
            Seq::<u64>::empty()
        };
        head + tag_ids(ev.drop_first(), tag)
    }
}

pub proof fn lemma_tag_ids_concat(s: Seq<(Seq<u8>, Seq<u8>)>, t: Seq<(Seq<u8>, Seq<u8>)>, tag: u8)
    ensures
        tag_ids(s + t, tag) == tag_ids(s, tag) + tag_ids(t, tag),
    decreases s.len(),
{
    if s.len() == 0 {
        assert(s + t =~= t);
        assert(tag_ids(s, tag) + tag_ids(t, tag) =~= tag_ids(t, tag));
    } else {
        lemma_tag_ids_concat(s.drop_first(), t, tag);
        assert((s + t).drop_first() =~= s.drop_first() + t);
        assert((s + t)[0] == s[0]);
        let head = if s[0].0.len() >= 9 && s[0].0[0] == tag {
            seq![u64_from_be(s[0].0.subrange(1, 9))]
        } else {
            Seq::<u64>::empty()
        };
        assert(head + (tag_ids(s.drop_first(), tag) + tag_ids(t, tag)) =~= (head + tag_ids(
            s.drop_first(),
            tag,
        )) + tag_ids(t, tag));
    }
}

/// How many keys carry the given tag.
pub open spec fn tag_count(ev: Seq<(Seq<u8>, Seq<u8>)>, tag: u8) -> int
    decreases ev.len(),
{
    if ev.len() == 0 {
        0
    } else {
        (if ev[0].0.len() >= 1 && ev[0].0[0] == tag {
            1int
        } else {
            0int
        }) + tag_count(ev.drop_first(), tag)
    }
}

pub proof fn lemma_tag_count_step(ev: Seq<(Seq<u8>, Seq<u8>)>, tag: u8, i: int)
    requires
        0 <= i < ev.len(),
    ensures
        tag_count(ev.take(i + 1), tag) == tag_count(ev.take(i), tag) + (if ev[i].0.len() >= 1
            && ev[i].0[0] == tag {
            1int
        } else {
            0int
        }),
    decreases i,
{
    if i == 0 {
        assert(ev.take(1).drop_first() =~= ev.take(0));
        assert(ev.take(1)[0] == ev[0]);
    } else {
        lemma_tag_count_step(ev.drop_first(), tag, i - 1);
        assert(ev.take(i + 1).drop_first() =~= ev.drop_first().take(i));
        assert(ev.take(i).drop_first() =~= ev.drop_first().take(i - 1));
        assert(ev.take(i + 1)[0] == ev[0]);
        assert(ev.take(i)[0] == ev[0]);
        assert(ev.drop_first()[i - 1] == ev[i]);
    }
}

/// The total number of status ids recorded across every user entry.
pub open spec fn appearance_sum(ev: Seq<(Seq<u8>, Seq<u8>)>) -> int
    decreases ev.len(),
{
    if ev.len() == 0 {
        0
    } else {
        (if ev[0].0.len() >= 1 && ev[0].0[0] == Tag::User.spec_value() {
            run_ids(ev[0].1).len() as int
        } else {
            0int
        }) + appearance_sum(ev.drop_first())
    }
}

pub proof fn lemma_appearance_sum_step(ev: Seq<(Seq<u8>, Seq<u8>)>, i: int)
    requires
        0 <= i < ev.len(),
    ensures
        appearance_sum(ev.take(i + 1)) == appearance_sum(ev.take(i)) + (if ev[i].0.len() >= 1
            && ev[i].0[0] == Tag::User.spec_value() {
            run_ids(ev[i].1).len() as int
        } else {
            0int
        }),
    decreases i,
{
    if i == 0 {
        assert(ev.take(1).drop_first() =~= ev.take(0));
        assert(ev.take(1)[0] == ev[0]);
    } else {
        lemma_appearance_sum_step(ev.drop_first(), i - 1);
        assert(ev.take(i + 1).drop_first() =~= ev.drop_first().take(i));
        assert(ev.take(i).drop_first() =~= ev.drop_first().take(i - 1));
        assert(ev.take(i + 1)[0] == ev[0]);
        assert(ev.take(i)[0] == ev[0]);
        assert(ev.drop_first()[i - 1] == ev[i]);
    }
}

/// How many distinct values a sequence holds.
pub open spec fn distinct_count(s: Seq<u64>) -> int
    decreases s.len(),
{
    if s.len() == 0 {
        0
    } else {
        distinct_count(s.drop_last()) + (if s.drop_last().contains(s.last()) {
            0int
        } else {
            1int
        })
    }
}

pub proof fn lemma_distinct_count_bound(s: Seq<u64>)
    ensures
        0 <= distinct_count(s) <= s.len(),
    decreases s.len(),
{
    if s.len() > 0 {
        lemma_distinct_count_bound(s.drop_last());
    }
}

/// How many separator characters a name holds.
pub open spec fn pipe_count(s: Seq<char>) -> int
    decreases s.len(),
{
    if s.len() == 0 {
        0
    } else {
        (if s[0] == '|' {
            1int
        } else {
            0int
        }) + pipe_count(s.drop_first())
    }
}

/// The position of the first separator character.
pub open spec fn first_pipe(s: Seq<char>) -> int
    decreases s.len(),
{
    if s.len() == 0 {
        0
    } else if s[0] == '|' {
        0
    } else {
        1 + first_pipe(s.drop_first())
    }
}

pub proof fn lemma_pipe_count_step(s: Seq<char>, j: int)
    requires
        0 <= j < s.len(),
    ensures
        pipe_count(s.take(j + 1)) == pipe_count(s.take(j)) + (if s[j] == '|' {
            1int
        } else {
            0int
        }),
    decreases j,
{
    if j == 0 {
        assert(s.take(1).drop_first() =~= s.take(0));
        assert(s.take(1)[0] == s[0]);
    } else {
        lemma_pipe_count_step(s.drop_first(), j - 1);
        assert(s.take(j + 1).drop_first() =~= s.drop_first().take(j));
        assert(s.take(j).drop_first() =~= s.drop_first().take(j - 1));
        assert(s.take(j + 1)[0] == s[0]);
        assert(s.take(j)[0] == s[0]);
        assert(s.drop_first()[j - 1] == s[j]);
    }
}

pub proof fn lemma_pipe_count_zero(s: Seq<char>)
    requires
        forall|m: int| 0 <= m < s.len() ==> s[m] != '|',
    ensures
        pipe_count(s) == 0,
    decreases s.len(),
{
    if s.len() > 0 {
        assert(forall|m: int|
            0 <= m < s.drop_first().len() ==> #[trigger] s.drop_first()[m] == s[m + 1]);
        lemma_pipe_count_zero(s.drop_first());
    }
}

pub proof fn lemma_first_pipe_at(s: Seq<char>, p: int)
    requires
        0 <= p < s.len(),
        s[p] == '|',
        forall|m: int| 0 <= m < p ==> s[m] != '|',
    ensures
        first_pipe(s) == p,
    decreases p,
{
    if p > 0 {
        assert(forall|m: int|
            0 <= m < p - 1 ==> #[trigger] s.drop_first()[m] == s[m + 1]);
        lemma_first_pipe_at(s.drop_first(), p - 1);
    }
}

/// The name a completed-file key carries after its tag byte.
pub open spec fn completed_name(k: Seq<u8>) -> Seq<char> {
    vstd::utf8::decode_utf8(k.skip(1))
}

/// Every completed-file key splits into exactly two parts.
pub open spec fn completed_ok(ev: Seq<(Seq<u8>, Seq<u8>)>) -> bool
    decreases ev.len(),
{
    if ev.len() == 0 {
        true
    } else {
        ((ev[0].0.len() >= 1 && ev[0].0[0] == Tag::CompletedFile.spec_value()) ==> pipe_count(
            completed_name(ev[0].0),
        ) == 1) && completed_ok(ev.drop_first())
    }
}

/// The `(archive, file, status_count)` rows of the completed-file scan.
pub open spec fn completed_rows(ev: Seq<(Seq<u8>, Seq<u8>)>) -> Seq<(Seq<char>, Seq<char>, u64)>
    decreases ev.len(),
{
    if ev.len() == 0 {
        Seq::empty()
    } else {
        let head = if ev[0].0.len() >= 1 && ev[0].0[0] == Tag::CompletedFile.spec_value()
            && pipe_count(completed_name(ev[0].0)) == 1 {
            let name = completed_name(ev[0].0);
            let p = first_pipe(name);
            seq![(name.take(p), name.skip(p + 1), u64_from_be(ev[0].1))]
        } else {
            Seq::<(Seq<char>, Seq<char>, u64)>::empty()
        };
        head + completed_rows(ev.drop_first())
    }
}

/// The name of the first completed-file key that does not split into
/// exactly two parts.
pub open spec fn first_bad_completed(ev: Seq<(Seq<u8>, Seq<u8>)>) -> Seq<char>
    decreases ev.len(),
{
    if ev.len() == 0 {
        Seq::empty()
    } else if ev[0].0.len() >= 1 && ev[0].0[0] == Tag::CompletedFile.spec_value() && pipe_count(
        completed_name(ev[0].0),
    ) != 1 {
        completed_name(ev[0].0)
    } else {
        first_bad_completed(ev.drop_first())
    }
}

pub proof fn lemma_completed_rows_concat(s: Seq<(Seq<u8>, Seq<u8>)>, t: Seq<(Seq<u8>, Seq<u8>)>)
    ensures
        completed_rows(s + t) == completed_rows(s) + completed_rows(t),
        completed_ok(s + t) == (completed_ok(s) && completed_ok(t)),
    decreases s.len(),
{
    if s.len() == 0 {
        assert(s + t =~= t);
        assert(completed_rows(s) + completed_rows(t) =~= completed_rows(t));
    } else {
        lemma_completed_rows_concat(s.drop_first(), t);
        assert((s + t).drop_first() =~= s.drop_first() + t);
        assert((s + t)[0] == s[0]);
        let head = if s[0].0.len() >= 1 && s[0].0[0] == Tag::CompletedFile.spec_value()
            && pipe_count(completed_name(s[0].0)) == 1 {
            let name = completed_name(s[0].0);
            let p = first_pipe(name);
            seq![(name.take(p), name.skip(p + 1), u64_from_be(s[0].1))]
        } else {
            Seq::<(Seq<char>, Seq<char>, u64)>::empty()
        };
        assert(head + (completed_rows(s.drop_first()) + completed_rows(t)) =~= (head
            + completed_rows(s.drop_first())) + completed_rows(t));
    }
}

/// A key that fails the split, after a clean prefix, decides the scan: it
/// fails, and the failing name is this key's.
pub proof fn lemma_completed_bad_at(ev: Seq<(Seq<u8>, Seq<u8>)>, i: int)
    requires
        0 <= i < ev.len(),
        completed_ok(ev.take(i)),
        ev[i].0.len() >= 1,
        ev[i].0[0] == Tag::CompletedFile.spec_value(),
        pipe_count(completed_name(ev[i].0)) != 1,
    ensures
        !completed_ok(ev),
        first_bad_completed(ev) == completed_name(ev[i].0),
    decreases i,
{
    if i == 0 {
    } else {
        assert(ev.take(i)[0] == ev[0]);
        assert(ev.take(i).drop_first() =~= ev.drop_first().take(i - 1));
        assert(ev.drop_first()[i - 1] == ev[i]);
        lemma_completed_bad_at(ev.drop_first(), i - 1);
    }
}

/// Counts over every record kind, from one full scan.
#[derive(Debug, PartialEq, Eq)]
pub struct Stats {
    pub pair_count: usize,
    pub user_id_count: usize,
    pub appearance_count: u128,
    pub screen_name_count: usize,
    pub full_status_count: usize,
    pub short_status_count: usize,
    pub delete_count: usize,
    pub completed_file_count: usize,
}

/// Whether any record (full or short) is held for a status id.
pub open spec fn resolvable(ev: Seq<(Seq<u8>, Seq<u8>)>, sid: u64) -> bool {
    seq_find(ev, status_key(sid)) is Some || seq_find(ev, short_status_key(sid)) is Some
}

/// The metadata the read layer reconstructs for a status id: the full
/// record is preferred, the short record is the fallback.
pub open spec fn md_matches(ev: Seq<(Seq<u8>, Seq<u8>)>, sid: u64, m: TweetMetadata) -> bool {
    match seq_find(ev, status_key(sid)) {
        Option::Some(v) => {
            if value_subtag(v) == 4 {
                m == (TweetMetadata::Retweet {
                    status_id: sid,
                    timestamp: value_ts(v),
                    user_id: value_uid(v),
                    retweeted_id: value_retweeted(v)->0,
                })
            } else {
                m matches TweetMetadata::Full {
                    status_id: s2,
                    timestamp: t2,
                    user_id: u2,
                    replied_to_id: rp,
                    quoted_id: q2,
                    mentioned_user_ids: mv,
                } && s2 == sid && t2 == value_ts(v) && u2 == value_uid(v) && rp == value_replied(v)
                    && q2 == value_quoted(v) && mv@ == value_mentions(v)
            }
        },
        Option::None => match seq_find(ev, short_status_key(sid)) {
            Option::Some(v) => m == (TweetMetadata::Short { status_id: sid, user_id: u64_from_be(v) }),
            Option::None => false,
        },
    }
}

/// The timestamp the read layer can attach to a status id, in milliseconds.
pub open spec fn store_timestamp(ev: Seq<(Seq<u8>, Seq<u8>)>, sid: u64) -> Option<u64> {
    match seq_find(ev, status_key(sid)) {
        Option::Some(v) => Option::Some(value_ts(v)),
        Option::None => match seq_find(ev, short_status_key(sid)) {
            Option::Some(_) => if spec_is_snowflake(sid) {
                Option::Some(spec_snowflake_millis(sid))
            } else {
                Option::None
            },
            Option::None => Option::None,
        },
    }
}

/// Whatever metadata matches a status id carries that id, and its
/// timestamp is the one the store determines.
pub proof fn lemma_md_matches_timestamp(ev: Seq<(Seq<u8>, Seq<u8>)>, sid: u64, m: TweetMetadata)
    requires
        md_matches(ev, sid, m),
    ensures
        m.spec_status_id() == sid,
        m.spec_timestamp() == store_timestamp(ev, sid),
        resolvable(ev, sid),
{
}

/// The index backed by the ordered store.
pub struct Lookup {
    pub store: Store,
}

impl Lookup {
    /// The held pairs, in key order.
    pub open spec fn view_entries(self) -> Seq<(Seq<u8>, Seq<u8>)> {
        self.store.view_entries()
    }

    pub open spec fn wf(self) -> bool {
        self.store.wf()
    }

    /// Opens an empty index.
    pub fn new() -> (r: Lookup)
        ensures
            r.wf(),
            r.view_entries() == Seq::<(Seq<u8>, Seq<u8>)>::empty(),
    {
        Lookup { store: Store::new() }
    }

    /// The number of keys held.
    pub fn get_estimated_key_count(&self) -> (r: u64)
        requires
            self.wf(),
        ensures
            r == self.view_entries().len(),
    {
        self.store.entries.len() as u64
    }

    /// Submits a user entry as a merge.
    pub fn put_user_entry(&mut self, e: &UserEntry)
        requires
            old(self).wf(),
            e.wf(),
            sorted_strict(run_ids(e.value@)),
        ensures
            final(self).wf(),
            merge_write_post(
                old(self).view_entries(),
                e.key@,
                e.value@,
                final(self).view_entries(),
                Option::None,
            ),
    {
        let r = self.store.merge_write(e.key.as_slice(), e.value.as_slice());
        proof {
            assert(r is None);
        }
    }

    /// Submits a screen-name entry as a merge.
    pub fn put_screen_name_entry(&mut self, e: &ScreenNameEntry)
        requires
            old(self).wf(),
            e.wf(),
            sorted_strict(run_ids(e.value@)),
        ensures
            final(self).wf(),
            merge_write_post(
                old(self).view_entries(),
                e.key@,
                e.value@,
                final(self).view_entries(),
                Option::None,
            ),
    {
        let r = self.store.merge_write(e.key.as_slice(), e.value.as_slice());
        proof {
            assert(r is None);
        }
    }

    /// Submits a full-status entry as a merge; a write that disagrees with
    /// what is held on author, timestamp, or subtag reports the collision
    /// and leaves the store unchanged.
    pub fn put_full_status_entry(&mut self, e: &FullStatusEntry) -> (r: Result<(), Error>)
        requires
            old(self).wf(),
            e.wf(),
        ensures
            final(self).wf(),
            ({
                let c = match r {
                    Result::Ok(_) => Option::<MergeCollision>::None,
                    Result::Err(Error::Collision(col)) => Option::Some(col),
                    Result::Err(_) => Option::None,
                };
                merge_write_post(
                    old(self).view_entries(),
                    e.key@,
                    e.value@,
                    final(self).view_entries(),
                    c,
                ) && (r is Err ==> r matches Result::Err(Error::Collision(_)))
            }),
    {
        let r = self.store.merge_write(e.key.as_slice(), e.value.as_slice());
        match r {
            Some(col) => Err(Error::Collision(col)),
            None => Ok(()),
        }
    }

    /// Records that only `(status_id, user_id)` is known for a status.
    pub fn put_short_status_entry(&mut self, status_id: u64, user_id: u64)
        requires
            old(self).wf(),
        ensures
            final(self).wf(),
            merge_write_post(
                old(self).view_entries(),
                short_status_key(status_id),
                u64_be(user_id),
                final(self).view_entries(),
                Option::None,
            ),
    {
        let mut key: Vec<u8> = Vec::new();
        key.push(Tag::ShortStatus.value());
        push_u64_be(&mut key, status_id);
        let mut value: Vec<u8> = Vec::new();
        push_u64_be(&mut value, user_id);
        proof {
            assert(key@ =~= short_status_key(status_id));
            assert(value@ =~= u64_be(user_id));
        }
        let r = self.store.merge_write(key.as_slice(), value.as_slice());
        proof {
            assert(r is None);
        }
    }

    /// Records a deletion notice, optionally timestamped.
    pub fn put_delete_entry(&mut self, user_id: u64, status_id: u64, timestamp_millis: Option<u64>)
        requires
            old(self).wf(),
        ensures
            final(self).wf(),
            merge_write_post(
                old(self).view_entries(),
                delete_key(user_id, status_id),
                (match timestamp_millis {
                    Option::Some(ts) => u64_be(ts),
                    Option::None => Seq::<u8>::empty(),
                }),
                final(self).view_entries(),
                Option::None,
            ),
    {
        let mut key: Vec<u8> = Vec::new();
        key.push(Tag::Delete.value());
        push_u64_be(&mut key, user_id);
        push_u64_be(&mut key, status_id);
        let mut value: Vec<u8> = Vec::new();
        if let Option::Some(ts) = timestamp_millis {
            push_u64_be(&mut value, ts);
        }
        proof {
            assert(key@ =~= delete_key(user_id, status_id));
            match timestamp_millis {
                Option::Some(ts) => assert(value@ =~= u64_be(ts)),
                Option::None => assert(value@ =~= Seq::<u8>::empty()),
            }
        }
        let r = self.store.merge_write(key.as_slice(), value.as_slice());
        proof {
            assert(r is None);
        }
    }

    /// Records that `archive|file` was fully processed and produced
    /// `status_count` statuses; the latest write for a file wins.
    pub fn put_completed_file_entry(&mut self, archive: &str, file: &str, status_count: u64)
        requires
            old(self).wf(),
        ensures
            final(self).wf(),
            merge_write_post(
                old(self).view_entries(),
                completed_file_key(archive@, file@),
                u64_be(status_count),
                final(self).view_entries(),
                Option::None,
            ),
    {
        let mut combined = String::from_str(archive);
        combined.append("|");
        combined.append(file);
        proof {
            reveal_strlit("|");
            assert("|"@ =~= seq!['|']);
            assert(combined@ =~= archive@ + seq!['|'] + file@);
        }
        let mut key: Vec<u8> = Vec::new();
        key.push(Tag::CompletedFile.value());
        key.extend_from_slice(combined.as_str().as_bytes());
        let mut value: Vec<u8> = Vec::new();
        push_u64_be(&mut value, status_count);
        proof {
            assert(key@ =~= completed_file_key(archive@, file@));
            assert(value@ =~= u64_be(status_count));
            assert(key@.skip(1) =~= vstd::utf8::encode_utf8(archive@ + seq!['|'] + file@));
            vstd::utf8::encode_utf8_valid_utf8(archive@ + seq!['|'] + file@);
        }
        let r = self.store.merge_write(key.as_slice(), value.as_slice());
        proof {
            assert(r is None);
        }
    }

    /// Point lookup of the user ids ever observed under a screen name; the
    /// name is lower-cased first. An absent name yields no ids.
    pub fn lookup_screen_name(&self, screen_name: &str) -> (r: Vec<u64>)
        requires
            self.wf(),
        ensures
            r@ == (match seq_find(
                self.view_entries(),
                screen_name_key(lower_of(screen_name@)),
            ) {
                Option::Some(v) => run_ids(v),
                Option::None => Seq::<u64>::empty(),
            }),
    {
        let lowered = lowercase(screen_name);
        let mut key: Vec<u8> = Vec::new();
        key.push(Tag::ScreenName.value());
        key.extend_from_slice(lowered.as_str().as_bytes());
        proof {
            assert(key@ =~= screen_name_key(lower_of(screen_name@)));
        }
        match self.store.get(key.as_slice()) {
            Some(v) => {
                proof {
                    crate::store::lemma_seq_find_pair(self.view_entries(), key@);
                }
                decode_u64_run(v.as_slice())
            },
            None => Vec::new(),
        }
    }

    /// Prefix scan: every `(screen_name, status_ids)` recorded for a user
    /// id, in the store's key order (sorted by screen-name bytes).
    pub fn lookup_user(&self, user_id: u64) -> (r: Vec<(String, Vec<u64>)>)
        requires
            self.wf(),
        ensures
            r.deep_view() == user_rows(self.view_entries(), user_id),
    {
        let ghost ev = self.view_entries();
        let mut out: Vec<(String, Vec<u64>)> = Vec::new();
        let mut i: usize = 0;
        proof {
            assert(ev.take(0) =~= Seq::<(Seq<u8>, Seq<u8>)>::empty());
            assert(out.deep_view() =~= user_rows(ev.take(0), user_id));
        }
        while i < self.store.entries.len()
            invariant
                i <= ev.len(),
                ev == self.view_entries(),
                self.wf(),
                ev.len() == self.store.entries@.len(),
                out.deep_view() == user_rows(ev.take(i as int), user_id),
            decreases ev.len() - i,
        {
            let pair = &self.store.entries[i];
            proof {
                assert(ev[i as int] == (pair.0@, pair.1@));
                assert(pair_wf(ev[i as int].0, ev[i as int].1));
            }
            if pair.0.len() >= 9 && pair.0[0] == Tag::User.value() {
                let uid = read_u64_be(pair.0.as_slice(), 1);
                proof {
                    assert(pair.0@.subrange(1, 9) =~= pair.0@.subrange(1int, 1int + 8));
                }
                if uid == user_id {
                    let suffix = slice_subrange(pair.0.as_slice(), 9, pair.0.len());
                    proof {
                        assert(suffix@ =~= pair.0@.skip(9));
                    }
                    let name = utf8_to_string(suffix).unwrap();
                    let ids = decode_u64_run(pair.1.as_slice());
                    out.push((name, ids));
                }
            }
            proof {
                assert(ev.take(i as int + 1) =~= ev.take(i as int) + seq![ev[i as int]]);
                lemma_user_rows_concat(ev.take(i as int), seq![ev[i as int]], user_id);
                reveal_with_fuel(user_rows, 2);
                assert(seq![ev[i as int]].drop_first() =~= Seq::<(Seq<u8>, Seq<u8>)>::empty());
                assert(out.deep_view() =~~= user_rows(ev.take(i as int + 1), user_id));
            }
            i = i + 1;
        }
        proof {
            assert(ev.take(ev.len() as int) =~= ev);
        }
        out
    }

    /// The index of the row with the most status ids; the earliest wins a
    /// tie.
    pub open spec fn best_user_row(rows: Seq<(Seq<char>, Seq<u64>)>) -> int
        decreases rows.len(),
    {
        if rows.len() <= 1 {
            0
        } else {
            let b = Self::best_user_row(rows.drop_last());
            if rows.last().1.len() > rows[b].1.len() {
                rows.len() - 1
            } else {
                b
            }
        }
    }

    /// The screen name a user is best known by: the one attested by the
    /// most statuses, the earliest recorded winning a tie.
    pub fn lookup_user_screen_name(&self, user_id: u64) -> (r: Option<String>)
        requires
            self.wf(),
        ensures
            ({
                let rows = user_rows(self.view_entries(), user_id);
                if rows.len() == 0 {
                    r is None
                } else {
                    r matches Option::Some(name) && name@ == rows[Self::best_user_row(rows)].0
                }
            }),
    {
        let ghost rows = user_rows(self.view_entries(), user_id);
        let by_screen_name = self.lookup_user(user_id);
        if by_screen_name.len() == 0 {
            proof {
                assert(rows.len() == 0);
            }
            return None;
        }
        let mut best: usize = 0;
        let mut i: usize = 1;
        while i < by_screen_name.len()
            invariant
                1 <= i <= by_screen_name@.len(),
                by_screen_name.deep_view() == rows,
                by_screen_name@.len() == rows.len(),
                best < i,
                best == Self::best_user_row(rows.take(i as int)),
            decreases by_screen_name@.len() - i,
        {
            proof {
                assert(by_screen_name.deep_view()[i as int] == by_screen_name@[
                    i as int].deep_view());
                assert(by_screen_name.deep_view()[best as int] == by_screen_name@[
                    best as int].deep_view());
                assert(rows.take(i as int + 1).drop_last() =~= rows.take(i as int));
                assert(rows.take(i as int + 1).last() == rows[i as int]);
            }
            if by_screen_name[i].1.len() > by_screen_name[best].1.len() {
                best = i;
            }
            i = i + 1;
        }
        proof {
            assert(rows.take(rows.len() as int) =~= rows);
            assert(by_screen_name.deep_view()[best as int] == by_screen_name@[
                best as int].deep_view());
        }
        let (name, _) = &by_screen_name[best];
        Some(name.clone())
    }

    /// The recorded context of a status id: the full record when one is
    /// held, else the short record, else nothing.
    pub fn lookup_tweet_metadata(&self, status_id: u64) -> (r: Option<TweetMetadata>)
        requires
            self.wf(),
        ensures
            r is Some <==> resolvable(self.view_entries(), status_id),
            r matches Option::Some(m) ==> md_matches(self.view_entries(), status_id, m),
    {
        let mut key: Vec<u8> = Vec::new();
        key.push(Tag::FullStatus.value());
        push_u64_be(&mut key, status_id);
        proof {
            assert(key@ =~= status_key(status_id));
        }
        match self.store.get(key.as_slice()) {
            Some(v) => {
                proof {
                    crate::store::lemma_seq_find_pair(self.view_entries(), key@);
                }
                let e = FullStatusEntry::raw(key.as_slice(), v.as_slice());
                let subtag = e.value[0];
                if subtag == 4 {
                    let retweeted = e.get_retweeted_status_id().unwrap();
                    Some(
                        TweetMetadata::Retweet {
                            status_id,
                            timestamp: e.get_timestamp(),
                            user_id: e.get_user_id(),
                            retweeted_id: retweeted,
                        },
                    )
                } else {
                    Some(
                        TweetMetadata::Full {
                            status_id,
                            timestamp: e.get_timestamp(),
                            user_id: e.get_user_id(),
                            replied_to_id: e.get_replied_to_status_id(),
                            quoted_id: e.get_quoted_status_id(),
                            mentioned_user_ids: e.get_mentioned_user_ids(),
                        },
                    )
                }
            },
            None => {
                let mut skey: Vec<u8> = Vec::new();
                skey.push(Tag::ShortStatus.value());
                push_u64_be(&mut skey, status_id);
                proof {
                    assert(skey@ =~= short_status_key(status_id));
                }
                match self.store.get(skey.as_slice()) {
                    Some(v) => {
                        proof {
                            crate::store::lemma_seq_find_pair(self.view_entries(), skey@);
                        }
                        let uid = read_u64_be(v.as_slice(), 0);
                        proof {
                            assert(v@.subrange(0, 8) =~= v@);
                        }
                        Some(TweetMetadata::Short { status_id, user_id: uid })
                    },
                    None => None,
                }
            },
        }
    }

    /// Prefix scan: every deletion notice recorded for a user, as
    /// `(status_id, deleted_at_millis)`, in key order.
    pub fn lookup_deletes(&self, user_id: u64) -> (r: Vec<(u64, Option<u64>)>)
        requires
            self.wf(),
        ensures
            r@ == delete_rows(self.view_entries(), user_id),
    {
        let ghost ev = self.view_entries();
        let mut out: Vec<(u64, Option<u64>)> = Vec::new();
        let mut i: usize = 0;
        proof {
            assert(ev.take(0) =~= Seq::<(Seq<u8>, Seq<u8>)>::empty());
            assert(out@ =~= delete_rows(ev.take(0), user_id));
        }
        while i < self.store.entries.len()
            invariant
                i <= ev.len(),
                ev == self.view_entries(),
                self.wf(),
                ev.len() == self.store.entries@.len(),
                out@ == delete_rows(ev.take(i as int), user_id),
            decreases ev.len() - i,
        {
            let pair = &self.store.entries[i];
            proof {
                assert(ev[i as int] == (pair.0@, pair.1@));
                assert(pair_wf(ev[i as int].0, ev[i as int].1));
            }
            if pair.0.len() == 17 && pair.0[0] == Tag::Delete.value() {
                let uid = read_u64_be(pair.0.as_slice(), 1);
                proof {
                    assert(pair.0@.subrange(1, 9) =~= pair.0@.subrange(1int, 1int + 8));
                }
                if uid == user_id {
                    let sid = read_u64_be(pair.0.as_slice(), 9);
                    proof {
                        assert(pair.0@.subrange(9, 17) =~= pair.0@.subrange(9int, 9int + 8));
                    }
                    let ts = if pair.1.len() == 8 {
                        let t = read_u64_be(pair.1.as_slice(), 0);
                        proof {
                            assert(pair.1@.subrange(0, 8) =~= pair.1@);
                        }
                        Some(t)
                    } else {
                        None
                    };
                    out.push((sid, ts));
                }
            }
            proof {
                assert(ev.take(i as int + 1) =~= ev.take(i as int) + seq![ev[i as int]]);
                lemma_delete_rows_concat(ev.take(i as int), seq![ev[i as int]], user_id);
                reveal_with_fuel(delete_rows, 2);
                assert(seq![ev[i as int]].drop_first() =~= Seq::<(Seq<u8>, Seq<u8>)>::empty());
                assert(out@ =~= delete_rows(ev.take(i as int + 1), user_id));
            }
            i = i + 1;
        }
        proof {
            assert(ev.take(ev.len() as int) =~= ev);
        }
        out
    }

    /// The id field of every key with the given tag, in key order.
    fn ids_for_tag(&self, tag: u8) -> (r: Vec<u64>)
        requires
            self.wf(),
        ensures
            r@ == tag_ids(self.view_entries(), tag),
    {
        let ghost ev = self.view_entries();
        let mut out: Vec<u64> = Vec::new();
        let mut i: usize = 0;
        proof {
            assert(ev.take(0) =~= Seq::<(Seq<u8>, Seq<u8>)>::empty());
            assert(out@ =~= tag_ids(ev.take(0), tag));
        }
        while i < self.store.entries.len()
            invariant
                i <= ev.len(),
                ev == self.view_entries(),
                ev.len() == self.store.entries@.len(),
                out@ == tag_ids(ev.take(i as int), tag),
            decreases ev.len() - i,
        {
            let pair = &self.store.entries[i];
            proof {
                assert(ev[i as int] == (pair.0@, pair.1@));
            }
            if pair.0.len() >= 9 && pair.0[0] == tag {
                let id = read_u64_be(pair.0.as_slice(), 1);
                proof {
                    assert(pair.0@.subrange(1, 9) =~= pair.0@.subrange(1int, 1int + 8));
                }
                out.push(id);
            }
            proof {
                assert(ev.take(i as int + 1) =~= ev.take(i as int) + seq![ev[i as int]]);
                lemma_tag_ids_concat(ev.take(i as int), seq![ev[i as int]], tag);
                reveal_with_fuel(tag_ids, 2);
                assert(seq![ev[i as int]].drop_first() =~= Seq::<(Seq<u8>, Seq<u8>)>::empty());
                assert(out@ =~= tag_ids(ev.take(i as int + 1), tag));
            }
            i = i + 1;
        }
        proof {
            assert(ev.take(ev.len() as int) =~= ev);
        }
        out
    }

    /// The user id of every user entry, in key order.
    pub fn get_user_ids(&self) -> (r: Vec<u64>)
        requires
            self.wf(),
        ensures
            r@ == tag_ids(self.view_entries(), Tag::User.spec_value()),
    {
        self.ids_for_tag(Tag::User.value())
    }

    /// The status id of every full-status entry, in key order.
    pub fn get_full_status_ids(&self) -> (r: Vec<u64>)
        requires
            self.wf(),
        ensures
            r@ == tag_ids(self.view_entries(), Tag::FullStatus.spec_value()),
    {
        self.ids_for_tag(Tag::FullStatus.value())
    }

    /// The status id of every short-status entry, in key order.
    pub fn get_short_status_ids(&self) -> (r: Vec<u64>)
        requires
            self.wf(),
        ensures
            r@ == tag_ids(self.view_entries(), Tag::ShortStatus.spec_value()),
    {
        self.ids_for_tag(Tag::ShortStatus.value())
    }

    /// The user id of every delete entry, in key order.
    pub fn get_delete_ids(&self) -> (r: Vec<u64>)
        requires
            self.wf(),
        ensures
            r@ == tag_ids(self.view_entries(), Tag::Delete.spec_value()),
    {
        self.ids_for_tag(Tag::Delete.value())
    }

    /// The completed-file records, each key split on its one `|` separator
    /// into `(archive, file)`; a key with no separator or more than one
    /// surfaces `UnexpectedKey` naming the first such key.
    pub fn get_completed_files(&self) -> (r: Result<Vec<(String, String, u64)>, Error>)
        requires
            self.wf(),
        ensures
            completed_ok(self.view_entries()) ==> (r matches Result::Ok(rows)
                && rows.deep_view() == completed_rows(self.view_entries())),
            !completed_ok(self.view_entries()) ==> (r matches Result::Err(Error::UnexpectedKey(s))
                && s@ == first_bad_completed(self.view_entries())),
    {
        let ghost ev = self.view_entries();
        let mut out: Vec<(String, String, u64)> = Vec::new();
        let mut i: usize = 0;
        proof {
            assert(ev.take(0) =~= Seq::<(Seq<u8>, Seq<u8>)>::empty());
            assert(out.deep_view() =~= completed_rows(ev.take(0)));
        }
        while i < self.store.entries.len()
            invariant
                i <= ev.len(),
                ev == self.view_entries(),
                self.wf(),
                ev.len() == self.store.entries@.len(),
                completed_ok(ev.take(i as int)),
                out.deep_view() == completed_rows(ev.take(i as int)),
            decreases ev.len() - i,
        {
            let pair = &self.store.entries[i];
            proof {
                assert(ev[i as int] == (pair.0@, pair.1@));
                assert(pair_wf(ev[i as int].0, ev[i as int].1));
            }
            if pair.0.len() >= 1 && pair.0[0] == Tag::CompletedFile.value() {
                let suffix = slice_subrange(pair.0.as_slice(), 1, pair.0.len());
                proof {
                    assert(suffix@ =~= pair.0@.skip(1));
                }
                let name = utf8_to_string(suffix).unwrap();
                let n = name.as_str().unicode_len();
                let mut pcount: usize = 0;
                let mut p: usize = 0;
                let mut found = false;
                let mut j: usize = 0;
                proof {
                    assert(name@.take(0) =~= Seq::<char>::empty());
                }
                while j < n
                    invariant
                        j <= n,
                        n == name@.len(),
                        pcount == pipe_count(name@.take(j as int)),
                        pcount <= j,
                        found ==> p < j && name@[p as int] == '|' && (forall|m: int|
                            0 <= m < p ==> name@[m] != '|'),
                        !found ==> forall|m: int| 0 <= m < j ==> name@[m] != '|',
                    decreases n - j,
                {
                    proof {
                        lemma_pipe_count_step(name@, j as int);
                    }
                    let c = name.as_str().get_char(j);
                    if c == '|' {
                        if !found {
                            p = j;
                            found = true;
                        }
                        pcount = pcount + 1;
                    }
                    j = j + 1;
                }
                proof {
                    assert(name@.take(name@.len() as int) =~= name@);
                }
                if pcount != 1 {
                    proof {
                        lemma_completed_bad_at(ev, i as int);
                    }
                    return Err(Error::UnexpectedKey(name));
                }
                proof {
                    if !found {
                        lemma_pipe_count_zero(name@);
                    }
                    assert(found);
                    lemma_first_pipe_at(name@, p as int);
                }
                let archive = name.as_str().substring_char(0, p);
                let file = name.as_str().substring_char(p + 1, n);
                let count = read_u64_be(pair.1.as_slice(), 0);
                proof {
                    assert(pair.1@.subrange(0, 8) =~= pair.1@);
                    assert(archive@ =~= completed_name(ev[i as int].0).take(p as int));
                    assert(file@ =~= completed_name(ev[i as int].0).skip(p as int + 1));
                }
                let archive_owned = String::from_str(archive);
                let file_owned = String::from_str(file);
                out.push((archive_owned, file_owned, count));
            }
            proof {
                assert(ev.take(i as int + 1) =~= ev.take(i as int) + seq![ev[i as int]]);
                lemma_completed_rows_concat(ev.take(i as int), seq![ev[i as int]]);
                reveal_with_fuel(completed_rows, 2);
                reveal_with_fuel(completed_ok, 2);
                assert(seq![ev[i as int]].drop_first() =~= Seq::<(Seq<u8>, Seq<u8>)>::empty());
                assert(out.deep_view() =~~= completed_rows(ev.take(i as int + 1)));
            }
            i = i + 1;
        }
        proof {
            assert(ev.take(ev.len() as int) =~= ev);
        }
        Ok(out)
    }

    /// One full scan counting every record kind. `pair_count` is the number
    /// of user entries, `user_id_count` the distinct user ids among them,
    /// and `appearance_count` the total number of status ids they record;
    /// each delete entry counts once.
    pub fn get_stats(&self) -> (r: Stats)
        requires
            self.wf(),
        ensures
            r.pair_count == tag_count(self.view_entries(), Tag::User.spec_value()),
            r.user_id_count == distinct_count(
                tag_ids(self.view_entries(), Tag::User.spec_value()),
            ),
            r.appearance_count == appearance_sum(self.view_entries()),
            r.screen_name_count == tag_count(self.view_entries(), Tag::ScreenName.spec_value()),
            r.full_status_count == tag_count(self.view_entries(), Tag::FullStatus.spec_value()),
            r.short_status_count == tag_count(self.view_entries(), Tag::ShortStatus.spec_value()),
            r.delete_count == tag_count(self.view_entries(), Tag::Delete.spec_value()),
            r.completed_file_count == tag_count(
                self.view_entries(),
                Tag::CompletedFile.spec_value(),
            ),
    {
        let ghost ev = self.view_entries();
        let mut pair_count: usize = 0;
        let mut appearance_count: u128 = 0;
        let mut screen_name_count: usize = 0;
        let mut full_status_count: usize = 0;
        let mut short_status_count: usize = 0;
        let mut delete_count: usize = 0;
        let mut completed_file_count: usize = 0;
        let mut i: usize = 0;
        proof {
            assert(ev.take(0) =~= Seq::<(Seq<u8>, Seq<u8>)>::empty());
        }
        while i < self.store.entries.len()
            invariant
                i <= ev.len(),
                ev == self.view_entries(),
                self.wf(),
                ev.len() == self.store.entries@.len(),
                pair_count == tag_count(ev.take(i as int), Tag::User.spec_value()),
                appearance_count == appearance_sum(ev.take(i as int)),
                appearance_count <= (i as u128) * 0x2000_0000_0000_0000u128,
                screen_name_count == tag_count(ev.take(i as int), Tag::ScreenName.spec_value()),
                full_status_count == tag_count(ev.take(i as int), Tag::FullStatus.spec_value()),
                short_status_count == tag_count(ev.take(i as int), Tag::ShortStatus.spec_value()),
                delete_count == tag_count(ev.take(i as int), Tag::Delete.spec_value()),
                completed_file_count == tag_count(
                    ev.take(i as int),
                    Tag::CompletedFile.spec_value(),
                ),
                pair_count <= i && screen_name_count <= i && full_status_count <= i
                    && short_status_count <= i && delete_count <= i && completed_file_count <= i,
            decreases ev.len() - i,
        {
            let pair = &self.store.entries[i];
            proof {
                assert(ev[i as int] == (pair.0@, pair.1@));
                assert(pair_wf(ev[i as int].0, ev[i as int].1));
                lemma_tag_count_step(ev, Tag::User.spec_value(), i as int);
                lemma_tag_count_step(ev, Tag::ScreenName.spec_value(), i as int);
                lemma_tag_count_step(ev, Tag::FullStatus.spec_value(), i as int);
                lemma_tag_count_step(ev, Tag::ShortStatus.spec_value(), i as int);
                lemma_tag_count_step(ev, Tag::Delete.spec_value(), i as int);
                lemma_tag_count_step(ev, Tag::CompletedFile.spec_value(), i as int);
                lemma_appearance_sum_step(ev, i as int);
            }
            let tag = pair.0[0];
            if tag == 0 {
                pair_count = pair_count + 1;
                let vlen: usize = pair.1.len();
                proof {
                    crate::ids::lemma_run_ids_len(pair.1@);
                    assert((vlen as u128) / 8 <= 0x2000_0000_0000_0000u128);
                }
                appearance_count = appearance_count + (vlen as u128) / 8;
            } else if tag == 1 {
                screen_name_count = screen_name_count + 1;
            } else if tag == 2 {
                full_status_count = full_status_count + 1;
            } else if tag == 3 {
                short_status_count = short_status_count + 1;
            } else if tag == 4 {
                delete_count = delete_count + 1;
            } else {
                completed_file_count = completed_file_count + 1;
                proof {
                    assert(tag == 16);
                }
            }
            i = i + 1;
        }
        proof {
            assert(ev.take(ev.len() as int) =~= ev);
        }
        let uids = self.get_user_ids();
        let ghost uid_seq = tag_ids(ev, Tag::User.spec_value());
        let mut user_id_count: usize = 0;
        let mut j: usize = 0;
        proof {
            assert(uid_seq.take(0) =~= Seq::<u64>::empty());
            lemma_distinct_count_bound(uid_seq.take(0));
        }
        while j < uids.len()
            invariant
                j <= uids@.len(),
                uids@ == uid_seq,
                user_id_count == distinct_count(uid_seq.take(j as int)),
                user_id_count <= j,
            decreases uids@.len() - j,
        {
            let x = uids[j];
            let mut seen = false;
            let mut m: usize = 0;
            while m < j
                invariant
                    m <= j,
                    j < uids@.len(),
                    uids@[j as int] == x,
                    seen == uid_seq.take(j as int).take(m as int).contains(x),
                    uids@ == uid_seq,
                decreases j - m,
            {
                proof {
                    assert(uid_seq.take(j as int).take(m as int + 1) =~= uid_seq.take(
                        j as int,
                    ).take(m as int).push(uid_seq[m as int]));
                }
                if uids[m] == x {
                    seen = true;
                    proof {
                        assert(uid_seq.take(j as int).take(m as int + 1)[m as int] == x);
                    }
                }
                proof {
                    if !seen {
                        assert(!uid_seq.take(j as int).take(m as int + 1).contains(x)) by {
                            if uid_seq.take(j as int).take(m as int + 1).contains(x) {
                                let w = choose|w: int|
                                    0 <= w < m + 1 && #[trigger] uid_seq.take(j as int).take(
                                        m as int + 1,
                                    )[w] == x;
                                if w < m {
                                    assert(uid_seq.take(j as int).take(m as int)[w] == x);
                                }
                            }
                        }
                    }
                }
                m = m + 1;
            }
            proof {
                assert(uid_seq.take(j as int).take(j as int) =~= uid_seq.take(j as int));
                assert(uid_seq.take(j as int + 1).drop_last() =~= uid_seq.take(j as int));
                assert(uid_seq.take(j as int + 1).last() == uid_seq[j as int]);
            }
            if !seen {
                user_id_count = user_id_count + 1;
            }
            j = j + 1;
        }
        proof {
            assert(uid_seq.take(uid_seq.len() as int) =~= uid_seq);
        }
        Stats {
            pair_count,
            user_id_count,
            appearance_count,
            screen_name_count,
            full_status_count,
            short_status_count,
            delete_count,
            completed_file_count,
        }
    }
}

} // verus!
