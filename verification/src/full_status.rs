//! Status metadata with timestamp and edges.
//!
//! Key = tag `2`, then the status id big-endian. The value layout is
//! selected by its leading subtag byte: `0` plain tweet, `1` reply, `2`
//! quote, `3` reply and quote, `4` retweet. Every layout starts with the
//! author's user id and the millisecond timestamp; subtags `0..=3` end with
//! a run of mentioned user ids, while a retweet value is exactly 25 bytes.

use crate::ids::{
    decode_u64_run, encode_u64_run, lemma_run_round_trip, lemma_u64_run_len, push_u64_be,
    read_u64_be, run_ids, u64_be, u64_from_be, u64_run, lemma_u64_be_round_trip,
};
use crate::tag::Tag;
use vstd::prelude::*;
use vstd::slice::{slice_subrange, slice_to_vec};

verus! {

/// The key bytes for status id `sid`.
pub open spec fn status_key(sid: u64) -> Seq<u8> {
    seq![Tag::FullStatus.spec_value()] + u64_be(sid)
}

/// A structurally well-formed full-status key.
pub open spec fn status_key_wf(k: Seq<u8>) -> bool {
    k.len() == 9 && k[0] == Tag::FullStatus.spec_value()
}

/// The status id field of a full-status key.
pub open spec fn status_key_sid(k: Seq<u8>) -> u64 {
    u64_from_be(k.subrange(1, 9))
}

pub proof fn lemma_status_key_round_trip(sid: u64)
    ensures
        status_key_wf(status_key(sid)),
        status_key_sid(status_key(sid)) == sid,
{
    assert(status_key(sid).subrange(1, 9) =~= u64_be(sid));
    lemma_u64_be_round_trip(sid);
}

/// The subtag for a tweet with the given optional edges.
pub open spec fn tweet_subtag(replied: Option<u64>, quoted: Option<u64>) -> u8 {
    match (replied, quoted) {
        (Option::None, Option::None) => 0,
        (Option::Some(_), Option::None) => 1,
        (Option::None, Option::Some(_)) => 2,
        (Option::Some(_), Option::Some(_)) => 3,
    }
}

/// The big-endian bytes of an optional id: empty when absent.
pub open spec fn opt_u64_be(o: Option<u64>) -> Seq<u8> {
    match o {
        Option::None => Seq::empty(),
        Option::Some(x) => u64_be(x),
    }
}

/// The value bytes of a tweet (subtags `0..=3`).
pub open spec fn tweet_value(
    uid: u64,
    ts: u64,
    replied: Option<u64>,
    quoted: Option<u64>,
    mentions: Seq<u64>,
) -> Seq<u8> {
    seq![tweet_subtag(replied, quoted)] + u64_be(uid) + u64_be(ts) + opt_u64_be(replied)
        + opt_u64_be(quoted) + u64_run(mentions)
}

/// The value bytes of a retweet (subtag `4`).
pub open spec fn retweet_value(uid: u64, ts: u64, retweeted: u64) -> Seq<u8> {
    seq![4u8] + u64_be(uid) + u64_be(ts) + u64_be(retweeted)
}

/// The value length respects its subtag's grammar.
pub open spec fn status_value_wf(v: Seq<u8>) -> bool {
    v.len() >= 17 && if v[0] == 0 {
        (v.len() - 17) % 8 == 0
    } else if v[0] == 1 || v[0] == 2 {
        v.len() >= 25 && (v.len() - 25) % 8 == 0
    } else if v[0] == 3 {
        v.len() >= 33 && (v.len() - 33) % 8 == 0
    } else if v[0] == 4 {
        v.len() == 25
    } else {
        false
    }
}

/// The subtag byte of a value.
pub open spec fn value_subtag(v: Seq<u8>) -> u8 {
    v[0]
}

/// The author's user id.
pub open spec fn value_uid(v: Seq<u8>) -> u64 {
    u64_from_be(v.subrange(1, 9))
}

/// The millisecond timestamp.
pub open spec fn value_ts(v: Seq<u8>) -> u64 {
    u64_from_be(v.subrange(9, 17))
}

/// The replied-to status id, when the subtag says one follows.
pub open spec fn value_replied(v: Seq<u8>) -> Option<u64> {
    if v[0] == 1 || v[0] == 3 {
        Option::Some(u64_from_be(v.subrange(17, 25)))
    } else {
        Option::None
    }
}

/// The quoted status id, when the subtag says one follows.
pub open spec fn value_quoted(v: Seq<u8>) -> Option<u64> {
    if v[0] == 2 {
        Option::Some(u64_from_be(v.subrange(17, 25)))
    } else if v[0] == 3 {
        Option::Some(u64_from_be(v.subrange(25, 33)))
    } else {
        Option::None
    }
}

/// The retweeted status id, for subtag `4` only.
pub open spec fn value_retweeted(v: Seq<u8>) -> Option<u64> {
    if v[0] == 4 {
        Option::Some(u64_from_be(v.subrange(17, 25)))
    } else {
        Option::None
    }
}

/// Where the run of mentioned user ids starts.
pub open spec fn value_mentions_offset(v: Seq<u8>) -> int {
    if v[0] == 0 {
        17
    } else if v[0] == 1 || v[0] == 2 {
        25
    } else {
        33
    }
}

/// The mentioned user ids; a retweet carries none.
pub open spec fn value_mentions(v: Seq<u8>) -> Seq<u64> {
    if v[0] == 4 {
        Seq::empty()
    } else {
        run_ids(v.skip(value_mentions_offset(v)))
    }
}

/// Building a tweet value and reading it back recovers every field; the
/// retweeted edge reads as absent.
pub proof fn lemma_tweet_value_round_trip(
    uid: u64,
    ts: u64,
    replied: Option<u64>,
    quoted: Option<u64>,
    mentions: Seq<u64>,
)
    ensures
        status_value_wf(tweet_value(uid, ts, replied, quoted, mentions)),
        value_subtag(tweet_value(uid, ts, replied, quoted, mentions)) == tweet_subtag(
            replied,
            quoted,
        ),
        value_uid(tweet_value(uid, ts, replied, quoted, mentions)) == uid,
        value_ts(tweet_value(uid, ts, replied, quoted, mentions)) == ts,
        value_replied(tweet_value(uid, ts, replied, quoted, mentions)) == replied,
        value_quoted(tweet_value(uid, ts, replied, quoted, mentions)) == quoted,
        value_retweeted(tweet_value(uid, ts, replied, quoted, mentions)) == Option::<u64>::None,
        value_mentions(tweet_value(uid, ts, replied, quoted, mentions)) == mentions,
{
    let v = tweet_value(uid, ts, replied, quoted, mentions);
    lemma_u64_run_len(mentions);
    lemma_u64_be_round_trip(uid);
    lemma_u64_be_round_trip(ts);
    assert(v.subrange(1, 9) =~= u64_be(uid));
    assert(v.subrange(9, 17) =~= u64_be(ts));
    if replied is Some {
        lemma_u64_be_round_trip(replied->0);
        assert(v.subrange(17, 25) =~= u64_be(replied->0));
    }
    if quoted is Some {
        lemma_u64_be_round_trip(quoted->0);
        if replied is Some {
            assert(v.subrange(25, 33) =~= u64_be(quoted->0));
        } else {
            assert(v.subrange(17, 25) =~= u64_be(quoted->0));
        }
    }
    assert(v.skip(value_mentions_offset(v)) =~= u64_run(mentions));
    lemma_run_round_trip(mentions);
}

/// Building a retweet value and reading it back recovers every field; the
/// reply and quote edges and the mentions read as absent.
pub proof fn lemma_retweet_value_round_trip(uid: u64, ts: u64, retweeted: u64)
    ensures
        status_value_wf(retweet_value(uid, ts, retweeted)),
        value_subtag(retweet_value(uid, ts, retweeted)) == 4,
        value_uid(retweet_value(uid, ts, retweeted)) == uid,
        value_ts(retweet_value(uid, ts, retweeted)) == ts,
        value_retweeted(retweet_value(uid, ts, retweeted)) == Option::Some(retweeted),
        value_replied(retweet_value(uid, ts, retweeted)) == Option::<u64>::None,
        value_quoted(retweet_value(uid, ts, retweeted)) == Option::<u64>::None,
        value_mentions(retweet_value(uid, ts, retweeted)) == Seq::<u64>::empty(),
{
    let v = retweet_value(uid, ts, retweeted);
    lemma_u64_be_round_trip(uid);
    lemma_u64_be_round_trip(ts);
    lemma_u64_be_round_trip(retweeted);
    assert(v.subrange(1, 9) =~= u64_be(uid));
    assert(v.subrange(9, 17) =~= u64_be(ts));
    assert(v.subrange(17, 25) =~= u64_be(retweeted));
}

/// Status metadata held as its raw key and value bytes.
#[derive(Debug, PartialEq, Eq)]
pub struct FullStatusEntry {
    pub key: Vec<u8>,
    pub value: Vec<u8>,
}

impl FullStatusEntry {
    /// Structural well-formedness of both halves.
    pub open spec fn wf(self) -> bool {
        status_key_wf(self.key@) && status_value_wf(self.value@)
    }

    fn make_key(status_id: u64) -> (key: Vec<u8>)
        ensures
            key@ == status_key(status_id),
    {
        let mut key: Vec<u8> = Vec::new();
        key.push(Tag::FullStatus.value());
        push_u64_be(&mut key, status_id);
        proof {
            assert(key@ =~= status_key(status_id));
        }
        key
    }

    /// Builds a tweet, reply, quote, or reply-and-quote record; the subtag
    /// follows from which edges are present. Mentions are stored in the
    /// order given.
    pub fn new_tweet(
        status_id: u64,
        user_id: u64,
        timestamp_millis: u64,
        replied_to_status_id: Option<u64>,
        quoted_status_id: Option<u64>,
        mentioned_user_ids: &Vec<u64>,
    ) -> (e: FullStatusEntry)
        ensures
            e.wf(),
            e.key@ == status_key(status_id),
            e.value@ == tweet_value(
                user_id,
                timestamp_millis,
                replied_to_status_id,
                quoted_status_id,
                mentioned_user_ids@,
            ),
    {
        let key = Self::make_key(status_id);
        let subtag: u8 = match (replied_to_status_id, quoted_status_id) {
            (Option::None, Option::None) => 0,
            (Option::Some(_), Option::None) => 1,
            (Option::None, Option::Some(_)) => 2,
            (Option::Some(_), Option::Some(_)) => 3,
        };
        let mut value: Vec<u8> = Vec::new();
        value.push(subtag);
        push_u64_be(&mut value, user_id);
        push_u64_be(&mut value, timestamp_millis);
        if let Option::Some(id) = replied_to_status_id {
            push_u64_be(&mut value, id);
        }
        if let Option::Some(id) = quoted_status_id {
            push_u64_be(&mut value, id);
        }
        let mentions = encode_u64_run(mentioned_user_ids);
        value.extend_from_slice(mentions.as_slice());
        proof {
            assert(value@ =~= tweet_value(
                user_id,
                timestamp_millis,
                replied_to_status_id,
                quoted_status_id,
                mentioned_user_ids@,
            ));
            lemma_tweet_value_round_trip(
                user_id,
                timestamp_millis,
                replied_to_status_id,
                quoted_status_id,
                mentioned_user_ids@,
            );
            lemma_status_key_round_trip(status_id);
        }
        FullStatusEntry { key, value }
    }

    /// Builds a retweet record.
    pub fn new_retweet(
        status_id: u64,
        user_id: u64,
        timestamp_millis: u64,
        retweeted_status_id: u64,
    ) -> (e: FullStatusEntry)
        ensures
            e.wf(),
            e.key@ == status_key(status_id),
            e.value@ == retweet_value(user_id, timestamp_millis, retweeted_status_id),
    {
        let key = Self::make_key(status_id);
        let mut value: Vec<u8> = Vec::new();
        value.push(4u8);
        push_u64_be(&mut value, user_id);
        push_u64_be(&mut value, timestamp_millis);
        push_u64_be(&mut value, retweeted_status_id);
        proof {
            assert(value@ =~= retweet_value(user_id, timestamp_millis, retweeted_status_id));
            lemma_retweet_value_round_trip(user_id, timestamp_millis, retweeted_status_id);
            lemma_status_key_round_trip(status_id);
        }
        FullStatusEntry { key, value }
    }

    /// Adopts raw bytes from the store without checking them.
    pub fn raw(key: &[u8], value: &[u8]) -> (e: FullStatusEntry)
        ensures
            e.key@ == key@,
            e.value@ == value@,
    {
        FullStatusEntry { key: slice_to_vec(key), value: slice_to_vec(value) }
    }

    /// Structural check used when adopting bytes from the store.
    pub fn validate(&self) -> (r: bool)
        ensures
            r == self.wf(),
    {
        if self.key.len() != 9 || self.key[0] != Tag::FullStatus.value() {
            return false;
        }
        if self.value.len() < 17 {
            return false;
        }
        let subtag = self.value[0];
        if subtag == 0 {
            (self.value.len() - 17) % 8 == 0
        } else if subtag == 1 || subtag == 2 {
            self.value.len() >= 25 && (self.value.len() - 25) % 8 == 0
        } else if subtag == 3 {
            self.value.len() >= 33 && (self.value.len() - 33) % 8 == 0
        } else if subtag == 4 {
            self.value.len() == 25
        } else {
            false
        }
    }

    /// Parses raw bytes, returning the entry only when it is well formed.
    pub fn parse(key: &[u8], value: &[u8]) -> (r: Option<FullStatusEntry>)
        ensures
            r matches Some(e) ==> e.wf() && e.key@ == key@ && e.value@ == value@,
            r is Some <==> status_key_wf(key@) && status_value_wf(value@),
    {
        let e = Self::raw(key, value);
        if e.validate() {
            Some(e)
        } else {
            None
        }
    }

    /// The status id field of the key.
    pub fn get_status_id(&self) -> (r: u64)
        requires
            self.wf(),
        ensures
            r == status_key_sid(self.key@),
    {
        let r = read_u64_be(self.key.as_slice(), 1);
        proof {
            assert(self.key@.subrange(1, 9) =~= self.key@.subrange(1int, 1int + 8));
        }
        r
    }

    /// The author's user id.
    pub fn get_user_id(&self) -> (r: u64)
        requires
            self.wf(),
        ensures
            r == value_uid(self.value@),
    {
        let r = read_u64_be(self.value.as_slice(), 1);
        proof {
            assert(self.value@.subrange(1, 9) =~= self.value@.subrange(1int, 1int + 8));
        }
        r
    }

    /// The millisecond timestamp.
    pub fn get_timestamp(&self) -> (r: u64)
        requires
            self.wf(),
        ensures
            r == value_ts(self.value@),
    {
        let r = read_u64_be(self.value.as_slice(), 9);
        proof {
            assert(self.value@.subrange(9, 17) =~= self.value@.subrange(9int, 9int + 8));
        }
        r
    }

    /// The retweeted status id, for a retweet record only.
    pub fn get_retweeted_status_id(&self) -> (r: Option<u64>)
        requires
            self.wf(),
        ensures
            r == value_retweeted(self.value@),
    {
        if self.value[0] == 4 {
            let r = read_u64_be(self.value.as_slice(), 17);
            proof {
                assert(self.value@.subrange(17, 25) =~= self.value@.subrange(17int, 17int + 8));
            }
            Some(r)
        } else {
            None
        }
    }

    /// The replied-to status id, when present.
    pub fn get_replied_to_status_id(&self) -> (r: Option<u64>)
        requires
            self.wf(),
        ensures
            r == value_replied(self.value@),
    {
        let subtag = self.value[0];
        if subtag == 1 || subtag == 3 {
            let r = read_u64_be(self.value.as_slice(), 17);
            proof {
                assert(self.value@.subrange(17, 25) =~= self.value@.subrange(17int, 17int + 8));
            }
            Some(r)
        } else {
            None
        }
    }

    /// The quoted status id, when present.
    pub fn get_quoted_status_id(&self) -> (r: Option<u64>)
        requires
            self.wf(),
        ensures
            r == value_quoted(self.value@),
    {
        let subtag = self.value[0];
        if subtag == 2 {
            let r = read_u64_be(self.value.as_slice(), 17);
            proof {
                assert(self.value@.subrange(17, 25) =~= self.value@.subrange(17int, 17int + 8));
            }
            Some(r)
        } else if subtag == 3 {
            let r = read_u64_be(self.value.as_slice(), 25);
            proof {
                assert(self.value@.subrange(25, 33) =~= self.value@.subrange(25int, 25int + 8));
            }
            Some(r)
        } else {
            None
        }
    }

    /// The mentioned user ids, in their stored order; a retweet has none.
    pub fn get_mentioned_user_ids(&self) -> (r: Vec<u64>)
        requires
            self.wf(),
        ensures
            r@ == value_mentions(self.value@),
    {
        let subtag = self.value[0];
        if subtag == 4 {
            let r: Vec<u64> = Vec::new();
            r
        } else {
            let offset: usize = if subtag == 0 {
                17
            } else if subtag == 1 || subtag == 2 {
                25
            } else {
                33
            };
            let rest = slice_subrange(self.value.as_slice(), offset, self.value.len());
            proof {
                assert(rest@ =~= self.value@.skip(value_mentions_offset(self.value@)));
            }
            decode_u64_run(rest)
        }
    }
}

} // verus!
