use blogcore::content::Post;
use blogcore::feed::feed_entries;
use blogcore::time::{path_time_modified, timestamp_from_epoch_delta, Timestamp};

#[test]
fn feed_entry_links_and_dates() {
    let posts = vec![Post {
        title: "hello world".to_string(),
        original_fn: b"hello world!.md".to_vec(),
        post_date: Timestamp { secs: 0, nanos: 0 },
    }];
    let items = feed_entries("https://jamoo.dev", &posts);
    assert_eq!(items.len(), 1);
    assert_eq!(items[0].title, "hello world");
    assert_eq!(items[0].link, "https://jamoo.dev/posts/hello%20world%21.md");
    assert_eq!(items[0].pub_date.as_deref(), Some("Thu, 1 Jan 1970 00:00:00 +0000"));
}

#[test]
fn feed_entry_known_recent_date() {
    let posts = vec![Post {
        title: "t".to_string(),
        original_fn: b"t.md".to_vec(),
        post_date: Timestamp { secs: 1424301369, nanos: 0 },
    }];
    let items = feed_entries("https://example.org", &posts);
    assert_eq!(items[0].pub_date.as_deref(), Some("Wed, 18 Feb 2015 23:16:09 +0000"));
}

#[test]
fn feed_entry_out_of_range_date_has_no_pub_date() {
    let posts = vec![Post {
        title: "far".to_string(),
        original_fn: b"far.md".to_vec(),
        post_date: Timestamp { secs: 260000000000, nanos: 0 },
    }];
    let items = feed_entries("https://example.org", &posts);
    assert!(items[0].pub_date.is_none());
}

#[test]
fn epoch_delta_normalizes_both_sides() {
    assert_eq!(
        timestamp_from_epoch_delta(false, 5, 7),
        Some(Timestamp { secs: 5, nanos: 7 })
    );
    assert_eq!(
        timestamp_from_epoch_delta(true, 5, 0),
        Some(Timestamp { secs: -5, nanos: 0 })
    );
    assert_eq!(
        timestamp_from_epoch_delta(true, 5, 250_000_000),
        Some(Timestamp { secs: -6, nanos: 750_000_000 })
    );
    assert_eq!(timestamp_from_epoch_delta(false, u64::MAX, 0), None);
}

#[test]
fn missing_modification_time_counts_as_epoch() {
    assert_eq!(path_time_modified(None), Timestamp { secs: 0, nanos: 0 });
    let t = Timestamp { secs: 9, nanos: 1 };
    assert_eq!(path_time_modified(Some(t)), t);
}
