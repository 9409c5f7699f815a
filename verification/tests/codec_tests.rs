use memory_lol::full_status::FullStatusEntry;
use memory_lol::merge::{merge_sorted_u64s, MergeCollision};
use memory_lol::screen_name::ScreenNameEntry;
use memory_lol::user::UserEntry;

#[test]
fn user_entry_round_trip() {
    let ids = vec![30u64, 10, 20, 10];
    let entry = UserEntry::new(42, "Alice", &ids);
    assert!(entry.validate());
    assert_eq!(entry.get_user_id(), 42);
    assert_eq!(entry.get_screen_name(), "Alice");
    assert_eq!(entry.get_status_ids(), vec![10, 20, 30]);
}

#[test]
fn user_entry_unicode_screen_name() {
    let ids = vec![1u64];
    let entry = UserEntry::new(7, "Ωmega_\u{00e9}", &ids);
    assert!(entry.validate());
    assert_eq!(entry.get_screen_name(), "Ωmega_\u{00e9}");
}

#[test]
fn user_entry_parse_rejects_bad_tag() {
    let ids = vec![1u64];
    let entry = UserEntry::new(42, "a", &ids);
    assert!(UserEntry::parse(&entry.key, &entry.value).is_some());
    let mut bad_key = entry.key.clone();
    bad_key[0] = 9;
    assert!(UserEntry::parse(&bad_key, &entry.value).is_none());
    let mut bad_value = entry.value.clone();
    bad_value.push(0);
    assert!(UserEntry::parse(&entry.key, &bad_value).is_none());
}

#[test]
fn screen_name_entry_round_trip() {
    let uids = vec![240454812u64];
    let entry = ScreenNameEntry::new("GenFlynn", &uids);
    assert!(entry.validate());
    assert_eq!(entry.get_screen_name(), "genflynn");
    assert_eq!(entry.get_user_ids(), vec![240454812]);
}

#[test]
fn full_status_tweet_round_trip() {
    let mentions = vec![8u64, 9];
    let entry = FullStatusEntry::new_tweet(500, 7, 1_600_000_000_000, Some(400), None, &mentions);
    assert!(entry.validate());
    assert_eq!(entry.get_status_id(), 500);
    assert_eq!(entry.get_user_id(), 7);
    assert_eq!(entry.get_timestamp(), 1_600_000_000_000);
    assert_eq!(entry.get_replied_to_status_id(), Some(400));
    assert_eq!(entry.get_quoted_status_id(), None);
    assert_eq!(entry.get_retweeted_status_id(), None);
    assert_eq!(entry.get_mentioned_user_ids(), vec![8, 9]);
}

#[test]
fn full_status_reply_quote_round_trip() {
    let mentions: Vec<u64> = Vec::new();
    let entry = FullStatusEntry::new_tweet(501, 7, 1_600_000_000_001, Some(400), Some(450), &mentions);
    assert!(entry.validate());
    assert_eq!(entry.get_replied_to_status_id(), Some(400));
    assert_eq!(entry.get_quoted_status_id(), Some(450));
    assert_eq!(entry.get_mentioned_user_ids(), Vec::<u64>::new());
}

#[test]
fn full_status_retweet_round_trip() {
    let entry = FullStatusEntry::new_retweet(502, 7, 1_600_000_000_002, 401);
    assert!(entry.validate());
    assert_eq!(entry.get_status_id(), 502);
    assert_eq!(entry.get_user_id(), 7);
    assert_eq!(entry.get_timestamp(), 1_600_000_000_002);
    assert_eq!(entry.get_retweeted_status_id(), Some(401));
    assert_eq!(entry.get_replied_to_status_id(), None);
    assert_eq!(entry.get_quoted_status_id(), None);
    assert_eq!(entry.get_mentioned_user_ids(), Vec::<u64>::new());
}

fn run_of(ids: &[u64]) -> Vec<u8> {
    let mut out = Vec::new();
    for id in ids {
        out.extend_from_slice(&id.to_be_bytes());
    }
    out
}

#[test]
fn merge_union_is_sorted_and_deduplicated() {
    let existing = run_of(&[1, 3, 5]);
    let ops = vec![run_of(&[2, 3, 4])];
    let merged = merge_sorted_u64s(Some(&existing), &ops).unwrap();
    assert_eq!(merged, run_of(&[1, 2, 3, 4, 5]));
}

#[test]
fn merge_union_permutation_gives_identical_bytes() {
    let a = run_of(&[9, 1]);
    let b = run_of(&[4]);
    let c = run_of(&[1, 7]);
    let one = merge_sorted_u64s(None, &vec![a.clone(), b.clone(), c.clone()]).unwrap();
    let two = merge_sorted_u64s(None, &vec![c, a, b]).unwrap();
    assert_eq!(one, two);
    assert_eq!(one, run_of(&[1, 4, 7, 9]));
}

#[test]
fn merge_union_staging_matches_single_merge() {
    let a = run_of(&[1, 2]);
    let b = run_of(&[3]);
    let c = run_of(&[2, 4]);
    let staged = merge_sorted_u64s(None, &vec![a.clone(), b.clone()]).unwrap();
    let staged = merge_sorted_u64s(Some(&staged), &vec![c.clone()]).unwrap();
    let whole = merge_sorted_u64s(None, &vec![a, b, c]).unwrap();
    assert_eq!(staged, whole);
}

#[test]
fn merge_union_skips_malformed_operand() {
    let ops = vec![vec![1u8, 2, 3], run_of(&[5])];
    let merged = merge_sorted_u64s(None, &ops).unwrap();
    assert_eq!(merged, run_of(&[5]));
}

#[test]
fn merge_union_empty_yields_none() {
    let ops = vec![Vec::new()];
    assert!(merge_sorted_u64s(None, &ops).is_none());
}

#[test]
fn full_status_merge_keeps_largest_mention_set() {
    let small = FullStatusEntry::new_tweet(500, 7, 1_000, None, None, &vec![8]);
    let large = FullStatusEntry::new_tweet(500, 7, 1_000, None, None, &vec![8, 9, 10]);
    let (merged, collision) = memory_lol::merge::full_status_merge(
        Some(&small.value),
        &vec![large.value.clone()],
    );
    assert!(collision.is_none());
    assert_eq!(merged.unwrap(), large.value);
}

#[test]
fn full_status_merge_reports_user_id_collision() {
    let first = FullStatusEntry::new_tweet(500, 7, 1_000, None, None, &Vec::new());
    let second = FullStatusEntry::new_tweet(500, 8, 1_000, None, None, &Vec::new());
    let (merged, collision) = memory_lol::merge::full_status_merge(
        Some(&first.value),
        &vec![second.value.clone()],
    );
    assert!(merged.is_none());
    assert_eq!(collision, Some(MergeCollision::UserId { previous: 7, update: 8 }));
}

#[test]
fn full_status_merge_reports_timestamp_collision() {
    let first = FullStatusEntry::new_tweet(500, 7, 1_000, None, None, &Vec::new());
    let second = FullStatusEntry::new_tweet(500, 7, 2_000, None, None, &Vec::new());
    let (merged, collision) = memory_lol::merge::full_status_merge(
        Some(&first.value),
        &vec![second.value.clone()],
    );
    assert!(merged.is_none());
    assert_eq!(collision, Some(MergeCollision::Timestamp { previous: 1_000, update: 2_000 }));
}

#[test]
fn full_status_merge_reports_subtag_collision() {
    let first = FullStatusEntry::new_tweet(500, 7, 1_000, None, None, &Vec::new());
    let second = FullStatusEntry::new_tweet(500, 7, 1_000, Some(400), None, &Vec::new());
    let (merged, collision) = memory_lol::merge::full_status_merge(
        Some(&first.value),
        &vec![second.value.clone()],
    );
    assert!(merged.is_none());
    assert_eq!(collision, Some(MergeCollision::Subtag { previous: 0, update: 1 }));
}
