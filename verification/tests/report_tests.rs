use memory_lol::full_status::FullStatusEntry;
use memory_lol::lookup::Lookup;
use memory_lol::report::generate_user_report;
use memory_lol::user::UserEntry;

#[test]
fn report_two_hop_expansion() {
    let mut db = Lookup::new();
    db.put_user_entry(&UserEntry::new(7, "target", &vec![500u64, 501]));
    db.put_user_entry(&UserEntry::new(9, "nine", &vec![400u64]));
    db.put_user_entry(&UserEntry::new(10, "ten", &vec![401u64]));
    db.put_full_status_entry(&FullStatusEntry::new_tweet(
        500,
        7,
        1_600_000_000_000,
        Some(400),
        None,
        &Vec::new(),
    ))
    .unwrap();
    db.put_full_status_entry(&FullStatusEntry::new_retweet(501, 7, 1_600_000_000_500, 401))
        .unwrap();
    db.put_full_status_entry(&FullStatusEntry::new_tweet(
        400,
        9,
        1_500_000_000_000,
        None,
        None,
        &Vec::new(),
    ))
    .unwrap();
    db.put_full_status_entry(&FullStatusEntry::new_tweet(
        401,
        10,
        1_500_000_000_500,
        None,
        None,
        &Vec::new(),
    ))
    .unwrap();

    let report = generate_user_report(&db, 7);

    assert_eq!(report.not_found, Vec::<u64>::new());
    assert_eq!(report.replies_to, vec![(9, ("nine".to_string(), vec![400]))]);
    assert_eq!(report.retweets, vec![(10, ("ten".to_string(), vec![401]))]);
    assert_eq!(report.quotes, Vec::<(u64, (String, Vec<u64>))>::new());
    assert_eq!(report.screen_name_dates.len(), 1);
    assert_eq!(report.screen_name_dates[0].0, "target");
    assert_eq!(
        report.screen_name_dates[0].1,
        (Some((1_600_000_000_000, 1_600_000_000_500)), 2),
    );
}

#[test]
fn report_incoming_edges_and_mentions() {
    let mut db = Lookup::new();
    // The target authored one tweet mentioning user 20.
    db.put_user_entry(&UserEntry::new(7, "target", &vec![500u64]));
    db.put_full_status_entry(&FullStatusEntry::new_tweet(
        500,
        7,
        1_000,
        None,
        None,
        &vec![20u64],
    ))
    .unwrap();
    // User 8 replied to the target's tweet; the reply is in the target's
    // seed set because the target is recorded as having appeared in it.
    db.put_user_entry(&UserEntry::new(7, "target", &vec![600u64]));
    db.put_full_status_entry(&FullStatusEntry::new_tweet(
        600,
        8,
        2_000,
        Some(500),
        None,
        &vec![7u64],
    ))
    .unwrap();
    db.put_user_entry(&UserEntry::new(8, "eight", &vec![600u64]));
    db.put_user_entry(&UserEntry::new(20, "twenty", &vec![1u64]));

    let report = generate_user_report(&db, 7);

    assert_eq!(report.mentions, vec![(20, ("twenty".to_string(), vec![500]))]);
    assert_eq!(report.replied_to_by, vec![(8, ("eight".to_string(), vec![600]))]);
    assert_eq!(report.mentioned_by, vec![(8, ("eight".to_string(), vec![600]))]);
}

#[test]
fn report_lists_unresolved_seeds() {
    let mut db = Lookup::new();
    db.put_user_entry(&UserEntry::new(7, "target", &vec![500u64, 777]));
    db.put_full_status_entry(&FullStatusEntry::new_tweet(
        500,
        7,
        1_000,
        None,
        None,
        &Vec::new(),
    ))
    .unwrap();
    let report = generate_user_report(&db, 7);
    assert_eq!(report.not_found, vec![777]);
    assert_eq!(report.screen_name_dates[0].1, (Some((1_000, 1_000)), 1));
}

#[test]
fn report_quoted_by_counts_own_quotes() {
    // A quoted-by edge is recorded whenever the quoted metadata resolves,
    // even when the quote is the target's own.
    let mut db = Lookup::new();
    db.put_user_entry(&UserEntry::new(7, "target", &vec![500u64]));
    db.put_full_status_entry(&FullStatusEntry::new_tweet(
        500,
        7,
        1_000,
        None,
        Some(400),
        &Vec::new(),
    ))
    .unwrap();
    db.put_full_status_entry(&FullStatusEntry::new_tweet(
        400,
        9,
        500,
        None,
        None,
        &Vec::new(),
    ))
    .unwrap();
    db.put_user_entry(&UserEntry::new(9, "nine", &vec![400u64]));
    let report = generate_user_report(&db, 7);
    assert_eq!(report.quotes, vec![(9, ("nine".to_string(), vec![400]))]);
    assert_eq!(report.quoted_by, vec![(7, ("target".to_string(), vec![500]))]);
}
