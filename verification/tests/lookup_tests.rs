use memory_lol::error::Error;
use memory_lol::extended::UserLookup;
use memory_lol::full_status::FullStatusEntry;
use memory_lol::lookup::{Lookup, TweetMetadata};
use memory_lol::screen_name::ScreenNameEntry;
use memory_lol::user::UserEntry;

#[test]
fn screen_name_point_lookup() {
    let mut db = Lookup::new();
    let entry = ScreenNameEntry::new("genflynn", &vec![240454812u64]);
    db.put_screen_name_entry(&entry);
    assert_eq!(db.lookup_screen_name("GenFlynn"), vec![240454812]);
    assert_eq!(db.lookup_screen_name("someoneelse"), Vec::<u64>::new());
}

#[test]
fn user_scan_stays_inside_the_prefix() {
    let mut db = Lookup::new();
    db.put_user_entry(&UserEntry::new(42, "alice", &vec![10u64, 11]));
    db.put_user_entry(&UserEntry::new(42, "alice2", &vec![12u64]));
    db.put_user_entry(&UserEntry::new(43, "bob", &vec![99u64]));
    let result = db.lookup_user(42);
    assert_eq!(result.len(), 2);
    assert_eq!(result[0].0, "alice");
    assert_eq!(result[0].1, vec![10, 11]);
    assert_eq!(result[1].0, "alice2");
    assert_eq!(result[1].1, vec![12]);
}

#[test]
fn user_scan_ignores_other_tags_with_same_id() {
    let mut db = Lookup::new();
    db.put_user_entry(&UserEntry::new(42, "alice", &vec![10u64]));
    db.put_screen_name_entry(&ScreenNameEntry::new("alice", &vec![42u64]));
    db.put_short_status_entry(42, 1);
    db.put_delete_entry(42, 5, None);
    db.put_full_status_entry(&FullStatusEntry::new_retweet(42, 1, 1_000, 2)).unwrap();
    db.put_completed_file_entry("archive", "file", 3);
    let result = db.lookup_user(42);
    assert_eq!(result.len(), 1);
    assert_eq!(result[0].0, "alice");
}

#[test]
fn full_status_reply_metadata() {
    let mut db = Lookup::new();
    let entry = FullStatusEntry::new_tweet(
        500,
        7,
        1_600_000_000_000,
        Some(400),
        None,
        &vec![8u64, 9],
    );
    db.put_full_status_entry(&entry).unwrap();
    let md = db.lookup_tweet_metadata(500).unwrap();
    match md {
        TweetMetadata::Full {
            status_id,
            timestamp,
            user_id,
            replied_to_id,
            quoted_id,
            mentioned_user_ids,
        } => {
            assert_eq!(status_id, 500);
            assert_eq!(timestamp, 1_600_000_000_000);
            assert_eq!(user_id, 7);
            assert_eq!(replied_to_id, Some(400));
            assert_eq!(quoted_id, None);
            assert_eq!(mentioned_user_ids, vec![8, 9]);
        },
        other => panic!("expected a full record, got {:?}", other),
    }
}

#[test]
fn snowflake_short_status_has_a_timestamp() {
    let mut db = Lookup::new();
    let sid: u64 = 1_288_834_974_657u64 << 22;
    db.put_short_status_entry(sid, 1);
    let md = db.lookup_tweet_metadata(sid).unwrap();
    assert_eq!(md.status_id(), sid);
    assert_eq!(md.user_id(), 1);
    assert_eq!(md.timestamp(), Some((sid >> 22) + 1_288_834_974_657));
}

#[test]
fn small_short_status_has_no_timestamp() {
    let mut db = Lookup::new();
    db.put_short_status_entry(1000, 1);
    let md = db.lookup_tweet_metadata(1000).unwrap();
    assert_eq!(md.timestamp(), None);
}

#[test]
fn full_record_preferred_over_short() {
    let mut db = Lookup::new();
    db.put_short_status_entry(500, 7);
    db.put_full_status_entry(&FullStatusEntry::new_retweet(500, 7, 1_000, 400)).unwrap();
    match db.lookup_tweet_metadata(500).unwrap() {
        TweetMetadata::Retweet { retweeted_id, .. } => assert_eq!(retweeted_id, 400),
        other => panic!("expected the full record, got {:?}", other),
    }
}

#[test]
fn merge_union_through_the_store() {
    let mut db = Lookup::new();
    db.put_user_entry(&UserEntry::new(5, "u", &vec![1u64, 3, 5]));
    db.put_user_entry(&UserEntry::new(5, "u", &vec![2u64, 3, 4]));
    let result = db.lookup_user(5);
    assert_eq!(result.len(), 1);
    assert_eq!(result[0].0, "u");
    assert_eq!(result[0].1, vec![1, 2, 3, 4, 5]);
}

#[test]
fn empty_id_set_is_not_stored() {
    let mut db = Lookup::new();
    db.put_user_entry(&UserEntry::new(5, "u", &Vec::new()));
    assert_eq!(db.lookup_user(5).len(), 0);
    assert_eq!(db.get_estimated_key_count(), 0);
}

#[test]
fn full_status_collision_keeps_the_first_write() {
    let mut db = Lookup::new();
    db.put_full_status_entry(&FullStatusEntry::new_tweet(500, 7, 1_000, None, None, &Vec::new()))
        .unwrap();
    let err = db
        .put_full_status_entry(&FullStatusEntry::new_tweet(500, 8, 1_000, None, None, &Vec::new()))
        .unwrap_err();
    match err {
        Error::Collision(memory_lol::merge::MergeCollision::UserId { previous, update }) => {
            assert_eq!(previous, 7);
            assert_eq!(update, 8);
        },
        other => panic!("expected a user-id collision, got {:?}", other),
    }
    let md = db.lookup_tweet_metadata(500).unwrap();
    assert_eq!(md.user_id(), 7);
}

#[test]
fn lookup_user_screen_name_most_attested_wins() {
    let mut db = Lookup::new();
    db.put_user_entry(&UserEntry::new(9, "first", &vec![1u64]));
    db.put_user_entry(&UserEntry::new(9, "second", &vec![2u64, 3]));
    assert_eq!(db.lookup_user_screen_name(9), Some("second".to_string()));
}

#[test]
fn lookup_user_screen_name_tie_first_wins() {
    let mut db = Lookup::new();
    db.put_user_entry(&UserEntry::new(9, "alpha", &vec![1u64]));
    db.put_user_entry(&UserEntry::new(9, "beta", &vec![2u64]));
    assert_eq!(db.lookup_user_screen_name(9), Some("alpha".to_string()));
    assert_eq!(db.lookup_user_screen_name(10), None);
}

#[test]
fn deletes_scan() {
    let mut db = Lookup::new();
    db.put_delete_entry(7, 100, Some(1_500_000_000_000));
    db.put_delete_entry(7, 101, None);
    db.put_delete_entry(8, 102, None);
    assert_eq!(
        db.lookup_deletes(7),
        vec![(100, Some(1_500_000_000_000)), (101, None)],
    );
    assert_eq!(db.lookup_deletes(9), Vec::<(u64, Option<u64>)>::new());
}

#[test]
fn delete_merge_latest_nonempty_timestamp_wins() {
    let mut db = Lookup::new();
    db.put_delete_entry(7, 100, Some(1_000));
    db.put_delete_entry(7, 100, None);
    assert_eq!(db.lookup_deletes(7), vec![(100, Some(1_000))]);
    db.put_delete_entry(7, 100, Some(2_000));
    assert_eq!(db.lookup_deletes(7), vec![(100, Some(2_000))]);
}

#[test]
fn completed_files() {
    let mut db = Lookup::new();
    db.put_completed_file_entry("archive-a.zip", "2021-01-01.bz2", 17);
    db.put_completed_file_entry("archive-a.zip", "2021-01-02.bz2", 4);
    let files = db.get_completed_files().unwrap();
    assert_eq!(
        files,
        vec![
            ("archive-a.zip".to_string(), "2021-01-01.bz2".to_string(), 17),
            ("archive-a.zip".to_string(), "2021-01-02.bz2".to_string(), 4),
        ],
    );
}

#[test]
fn completed_file_latest_count_wins() {
    let mut db = Lookup::new();
    db.put_completed_file_entry("a", "f", 1);
    db.put_completed_file_entry("a", "f", 9);
    assert_eq!(db.get_completed_files().unwrap(), vec![("a".to_string(), "f".to_string(), 9)]);
}

#[test]
fn completed_file_without_separator_is_unexpected() {
    let mut db = Lookup::new();
    let key = vec![16u8, b'a'];
    let value = vec![0u8, 0, 0, 0, 0, 0, 0, 1];
    assert!(db.store.merge_write(&key, &value).is_none());
    match db.get_completed_files() {
        Err(Error::UnexpectedKey(s)) => assert_eq!(s, "a"),
        other => panic!("expected an unexpected-key error, got {:?}", other),
    }
}

#[test]
fn stats_count_every_kind() {
    let mut db = Lookup::new();
    db.put_user_entry(&UserEntry::new(1, "a", &vec![10u64, 11]));
    db.put_user_entry(&UserEntry::new(1, "b", &vec![12u64]));
    db.put_user_entry(&UserEntry::new(2, "c", &vec![13u64]));
    db.put_screen_name_entry(&ScreenNameEntry::new("a", &vec![1u64]));
    db.put_full_status_entry(&FullStatusEntry::new_retweet(500, 1, 1_000, 400)).unwrap();
    db.put_short_status_entry(501, 2);
    db.put_delete_entry(1, 502, None);
    db.put_completed_file_entry("a", "f", 1);
    let stats = db.get_stats();
    assert_eq!(stats.pair_count, 3);
    assert_eq!(stats.user_id_count, 2);
    assert_eq!(stats.appearance_count, 4);
    assert_eq!(stats.screen_name_count, 1);
    assert_eq!(stats.full_status_count, 1);
    assert_eq!(stats.short_status_count, 1);
    assert_eq!(stats.delete_count, 1);
    assert_eq!(stats.completed_file_count, 1);
}

#[test]
fn dump_ids_by_tag() {
    let mut db = Lookup::new();
    db.put_user_entry(&UserEntry::new(3, "a", &vec![1u64]));
    db.put_user_entry(&UserEntry::new(1, "b", &vec![2u64]));
    db.put_full_status_entry(&FullStatusEntry::new_retweet(500, 1, 1_000, 400)).unwrap();
    db.put_short_status_entry(501, 2);
    db.put_delete_entry(9, 502, None);
    assert_eq!(db.get_user_ids(), vec![1, 3]);
    assert_eq!(db.get_full_status_ids(), vec![500]);
    assert_eq!(db.get_short_status_ids(), vec![501]);
    assert_eq!(db.get_delete_ids(), vec![9]);
}

#[test]
fn absent_status_has_no_metadata() {
    let db = Lookup::new();
    assert!(db.lookup_tweet_metadata(12345).is_none());
}

#[test]
fn largest_id_round_trips_through_the_store() {
    let mut db = Lookup::new();
    db.put_user_entry(&UserEntry::new(u64::MAX, "edge", &vec![u64::MAX, 0]));
    let result = db.lookup_user(u64::MAX);
    assert_eq!(result, vec![("edge".to_string(), vec![0, u64::MAX])]);
}

#[test]
fn screen_name_union_through_the_store() {
    let mut db = Lookup::new();
    db.put_screen_name_entry(&ScreenNameEntry::new("Dup", &vec![3u64, 1]));
    db.put_screen_name_entry(&ScreenNameEntry::new("dup", &vec![2u64, 3]));
    assert_eq!(db.lookup_screen_name("DUP"), vec![1, 2, 3]);
}

#[test]
fn completed_file_with_two_separators_is_unexpected() {
    let mut db = Lookup::new();
    db.put_completed_file_entry("a|b", "f", 1);
    match db.get_completed_files() {
        Err(Error::UnexpectedKey(s)) => assert_eq!(s, "a|b|f"),
        other => panic!("expected an unexpected-key error, got {:?}", other),
    }
}

#[test]
fn stats_on_an_empty_store_are_zero() {
    let db = Lookup::new();
    let stats = db.get_stats();
    assert_eq!(stats.pair_count, 0);
    assert_eq!(stats.user_id_count, 0);
    assert_eq!(stats.appearance_count, 0);
    assert_eq!(stats.completed_file_count, 0);
}

#[test]
fn profile_store_history_in_time_order() {
    let mut db = UserLookup::new();
    db.put(7, 2_000, &[2, 2]);
    db.put(7, 1_000, &[1]);
    db.put(8, 1_500, &[3]);
    assert_eq!(db.lookup_user(7), vec![(1_000, vec![1]), (2_000, vec![2, 2])]);
    assert_eq!(db.lookup_user(9), Vec::<(u64, Vec<u8>)>::new());
}

#[test]
fn profile_store_rewrite_replaces_snapshot() {
    let mut db = UserLookup::new();
    db.put(7, 1_000, &[1]);
    db.put(7, 1_000, &[9, 9]);
    assert_eq!(db.lookup_user(7), vec![(1_000, vec![9, 9])]);
}
