//! The inverse index from a lower-cased screen name to the user ids ever
//! observed using it.
//!
//! Key = tag `1`, then the lower-cased screen name UTF-8.
//! Value = sorted deduplicated run of big-endian user ids.

use crate::ids::{
    decode_u64_run, encode_u64_run, lemma_run_round_trip, lemma_u64_run_len, run_ids, sort_dedup,
    sorted_strict, u64_run,
};
use crate::tag::Tag;
use crate::text::{lower_of, lowercase, utf8_to_string};
use vstd::prelude::*;
use vstd::slice::{slice_subrange, slice_to_vec};
use vstd::utf8::{decode_utf8, encode_utf8, encode_utf8_decode_utf8, encode_utf8_valid_utf8,
    valid_utf8};

verus! {

/// The key bytes for an already lower-cased screen name.
pub open spec fn screen_name_key(name: Seq<char>) -> Seq<u8> {
    seq![Tag::ScreenName.spec_value()] + encode_utf8(name)
}

/// A structurally well-formed screen-name key.
pub open spec fn screen_name_key_wf(k: Seq<u8>) -> bool {
    k.len() >= 1 && k[0] == Tag::ScreenName.spec_value() && valid_utf8(k.skip(1))
}

/// The screen name carried after the tag byte.
pub open spec fn screen_name_key_name(k: Seq<u8>) -> Seq<char> {
    decode_utf8(k.skip(1))
}

/// Building a screen-name key and reading it back recovers the name.
pub proof fn lemma_screen_name_key_round_trip(name: Seq<char>)
    ensures
        screen_name_key_wf(screen_name_key(name)),
        screen_name_key_name(screen_name_key(name)) == name,
{
    let k = screen_name_key(name);
    assert(k.skip(1) =~= encode_utf8(name));
    encode_utf8_valid_utf8(name);
    encode_utf8_decode_utf8(name);
}

/// The full round trip of a screen-name entry: for any inputs, encoding
/// as `new` does and reading back as the getters do recovers the
/// lower-cased screen name and the user ids sorted ascending and
/// deduplicated, and the entry is structurally valid.
pub proof fn lemma_screen_name_entry_round_trip(name: Seq<char>, uids: Seq<u64>, s: Seq<u64>)
    requires
        sorted_strict(s),
        s.to_set() == uids.to_set(),
    ensures
        screen_name_key_wf(screen_name_key(lower_of(name))),
        screen_name_key_name(screen_name_key(lower_of(name))) == lower_of(name),
        u64_run(s).len() % 8 == 0,
        run_ids(u64_run(s)) == s,
{
    lemma_screen_name_key_round_trip(lower_of(name));
    lemma_u64_run_len(s);
    lemma_run_round_trip(s);
}

/// The record that a lower-cased screen name has been worn by a set of
/// user ids.
#[derive(Debug, PartialEq, Eq)]
pub struct ScreenNameEntry {
    pub key: Vec<u8>,
    pub value: Vec<u8>,
}

impl ScreenNameEntry {
    /// Structural well-formedness: the key parses and the value is a whole
    /// run of 8-byte ids.
    pub open spec fn wf(self) -> bool {
        screen_name_key_wf(self.key@) && self.value@.len() % 8 == 0
    }

    /// Builds the entry for `screen_name`, lower-cased, with the given user
    /// ids, sorted and deduplicated.
    pub fn new(screen_name: &str, user_ids: &Vec<u64>) -> (e: ScreenNameEntry)
        ensures
            e.wf(),
            e.key@ == screen_name_key(lower_of(screen_name@)),
            sorted_strict(run_ids(e.value@)),
            run_ids(e.value@).to_set() == user_ids@.to_set(),
    {
        let lowered = lowercase(screen_name);
        let mut key: Vec<u8> = Vec::new();
        key.push(Tag::ScreenName.value());
        key.extend_from_slice(lowered.as_str().as_bytes());
        proof {
            assert(key@ =~= screen_name_key(lower_of(screen_name@)));
        }
        let ids = sort_dedup(user_ids);
        let value = encode_u64_run(&ids);
        proof {
            lemma_run_round_trip(ids@);
            lemma_u64_run_len(ids@);
            lemma_screen_name_key_round_trip(lower_of(screen_name@));
        }
        ScreenNameEntry { key, value }
    }

    /// Adopts raw bytes from the store without checking them.
    pub fn raw(key: &[u8], value: &[u8]) -> (e: ScreenNameEntry)
        ensures
            e.key@ == key@,
            e.value@ == value@,
    {
        ScreenNameEntry { key: slice_to_vec(key), value: slice_to_vec(value) }
    }

    /// Structural check used when adopting bytes from the store.
    pub fn validate(&self) -> (r: bool)
        ensures
            r == self.wf(),
    {
        if self.key.len() < 1 {
            return false;
        }
        if self.key[0] != Tag::ScreenName.value() {
            return false;
        }
        let suffix = slice_subrange(self.key.as_slice(), 1, self.key.len());
        proof {
            assert(suffix@ =~= self.key@.skip(1));
        }
        if utf8_to_string(suffix).is_none() {
            return false;
        }
        self.value.len() % 8 == 0
    }

    /// Parses raw bytes, returning the entry only when it is well formed.
    pub fn parse(key: &[u8], value: &[u8]) -> (r: Option<ScreenNameEntry>)
        ensures
            r matches Some(e) ==> e.wf() && e.key@ == key@ && e.value@ == value@,
            r is Some <==> screen_name_key_wf(key@) && value@.len() % 8 == 0,
    {
        let e = Self::raw(key, value);
        if e.validate() {
            Some(e)
        } else {
            None
        }
    }

    /// The screen name carried in the key.
    pub fn get_screen_name(&self) -> (r: String)
        requires
            self.wf(),
        ensures
            r@ == screen_name_key_name(self.key@),
    {
        let suffix = slice_subrange(self.key.as_slice(), 1, self.key.len());
        proof {
            assert(suffix@ =~= self.key@.skip(1));
        }
        utf8_to_string(suffix).unwrap()
    }

    /// The user ids stored in the value, in their stored order.
    pub fn get_user_ids(&self) -> (r: Vec<u64>)
        requires
            self.wf(),
        ensures
            r@ == run_ids(self.value@),
    {
        decode_u64_run(self.value.as_slice())
    }
}

} // verus!
