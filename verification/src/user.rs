//! The record that a user id appeared under a screen name in a set of
//! statuses.
//!
//! Key = tag `0`, then the user id big-endian, then the screen name UTF-8.
//! Value = sorted deduplicated run of big-endian status ids.

use crate::ids::{
    decode_u64_run, encode_u64_run, lemma_run_round_trip, lemma_u64_be_round_trip,
    lemma_u64_run_len, push_u64_be, read_u64_be, run_ids, sort_dedup, sorted_strict, u64_be,
    u64_from_be, u64_run,
};
use crate::tag::Tag;
use crate::text::utf8_to_string;
use vstd::prelude::*;
use vstd::slice::{slice_subrange, slice_to_vec};
use vstd::utf8::{decode_utf8, encode_utf8, encode_utf8_decode_utf8, encode_utf8_valid_utf8,
    valid_utf8};

verus! {

/// The key bytes for user id `uid` under screen name `name`.
pub open spec fn user_key(uid: u64, name: Seq<char>) -> Seq<u8> {
    seq![Tag::User.spec_value()] + u64_be(uid) + encode_utf8(name)
}

/// A structurally well-formed user key.
pub open spec fn user_key_wf(k: Seq<u8>) -> bool {
    k.len() >= 9 && k[0] == Tag::User.spec_value() && valid_utf8(k.skip(9))
}

/// The user id field of a user key.
pub open spec fn user_key_uid(k: Seq<u8>) -> u64 {
    u64_from_be(k.subrange(1, 9))
}

/// The screen name carried after the id field of a user key.
pub open spec fn user_key_name(k: Seq<u8>) -> Seq<char> {
    decode_utf8(k.skip(9))
}

/// Building a user key and reading it back recovers both fields.
pub proof fn lemma_user_key_round_trip(uid: u64, name: Seq<char>)
    ensures
        user_key_wf(user_key(uid, name)),
        user_key_uid(user_key(uid, name)) == uid,
        user_key_name(user_key(uid, name)) == name,
{
    let k = user_key(uid, name);
    assert(k.subrange(1, 9) =~= u64_be(uid));
    assert(k.skip(9) =~= encode_utf8(name));
    lemma_u64_be_round_trip(uid);
    encode_utf8_valid_utf8(name);
    encode_utf8_decode_utf8(name);
}

/// The full round trip of a user entry: for any inputs, encoding as
/// `new` does and reading back as the getters do recovers the user id,
/// the screen name, and the status ids sorted ascending and deduplicated,
/// and the entry is structurally valid.
pub proof fn lemma_user_entry_round_trip(uid: u64, name: Seq<char>, ids: Seq<u64>, s: Seq<u64>)
    requires
        sorted_strict(s),
        s.to_set() == ids.to_set(),
    ensures
        user_key_wf(user_key(uid, name)),
        user_key_uid(user_key(uid, name)) == uid,
        user_key_name(user_key(uid, name)) == name,
        u64_run(s).len() % 8 == 0,
        run_ids(u64_run(s)) == s,
{
    lemma_user_key_round_trip(uid, name);
    lemma_u64_run_len(s);
    lemma_run_round_trip(s);
}

/// An observation that `user_id` appeared under `screen_name` in the
/// statuses whose ids are in the value.
#[derive(Debug, PartialEq, Eq)]
pub struct UserEntry {
    pub key: Vec<u8>,
    pub value: Vec<u8>,
}

impl UserEntry {
    /// Structural well-formedness: the key parses and the value is a whole
    /// run of 8-byte ids.
    pub open spec fn wf(self) -> bool {
        user_key_wf(self.key@) && self.value@.len() % 8 == 0
    }

    /// Builds the entry for `(user_id, screen_name)` with the given status
    /// ids, sorted and deduplicated.
    pub fn new(user_id: u64, screen_name: &str, status_ids: &Vec<u64>) -> (e: UserEntry)
        ensures
            e.wf(),
            e.key@ == user_key(user_id, screen_name@),
            sorted_strict(run_ids(e.value@)),
            run_ids(e.value@).to_set() == status_ids@.to_set(),
    {
        let mut key: Vec<u8> = Vec::new();
        key.push(Tag::User.value());
        push_u64_be(&mut key, user_id);
        key.extend_from_slice(screen_name.as_bytes());
        proof {
            assert(key@ =~= user_key(user_id, screen_name@));
        }
        let ids = sort_dedup(status_ids);
        let value = encode_u64_run(&ids);
        proof {
            lemma_run_round_trip(ids@);
            lemma_u64_run_len(ids@);
            lemma_user_key_round_trip(user_id, screen_name@);
        }
        UserEntry { key, value }
    }

    /// Adopts raw bytes from the store without checking them.
    pub fn raw(key: &[u8], value: &[u8]) -> (e: UserEntry)
        ensures
            e.key@ == key@,
            e.value@ == value@,
    {
        UserEntry { key: slice_to_vec(key), value: slice_to_vec(value) }
    }

    /// Structural check used when adopting bytes from the store.
    pub fn validate(&self) -> (r: bool)
        ensures
            r == self.wf(),
    {
        if self.key.len() < 9 {
            return false;
        }
        if self.key[0] != Tag::User.value() {
            return false;
        }
        let suffix = slice_subrange(self.key.as_slice(), 9, self.key.len());
        proof {
            assert(suffix@ =~= self.key@.skip(9));
        }
        if utf8_to_string(suffix).is_none() {
            return false;
        }
        self.value.len() % 8 == 0
    }

    /// Parses raw bytes, returning the entry only when it is well formed.
    pub fn parse(key: &[u8], value: &[u8]) -> (r: Option<UserEntry>)
        ensures
            r matches Some(e) ==> e.wf() && e.key@ == key@ && e.value@ == value@,
            r is Some <==> user_key_wf(key@) && value@.len() % 8 == 0,
    {
        let e = Self::raw(key, value);
        if e.validate() {
            Some(e)
        } else {
            None
        }
    }

    /// The user id field of the key.
    pub fn get_user_id(&self) -> (r: u64)
        requires
            self.wf(),
        ensures
            r == user_key_uid(self.key@),
    {
        let r = read_u64_be(self.key.as_slice(), 1);
        proof {
            assert(self.key@.subrange(1, 9) =~= self.key@.subrange(1int, 1int + 8));
        }
        r
    }

    /// The screen name carried in the key.
    pub fn get_screen_name(&self) -> (r: String)
        requires
            self.wf(),
        ensures
            r@ == user_key_name(self.key@),
    {
        let suffix = slice_subrange(self.key.as_slice(), 9, self.key.len());
        proof {
            assert(suffix@ =~= self.key@.skip(9));
        }
        utf8_to_string(suffix).unwrap()
    }

    /// The status ids stored in the value, in their stored order.
    pub fn get_status_ids(&self) -> (r: Vec<u64>)
        requires
            self.wf(),
        ensures
            r@ == run_ids(self.value@),
    {
        decode_u64_run(self.value.as_slice())
    }
}

} // verus!
