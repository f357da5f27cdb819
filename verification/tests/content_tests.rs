use blogcore::codec::my_urlencode;
use blogcore::compress::CompressMiddleware;
use blogcore::content::{newest_posts, resolve_request_path, Post, ResolveError, ScanEntry, ScanMeta};
use blogcore::time::Timestamp;

fn entry(name: &[u8], secs: i64) -> ScanEntry {
    ScanEntry {
        name: name.to_vec(),
        meta: Some(ScanMeta {
            is_file: true,
            modified: Some(Timestamp { secs, nanos: 0 }),
        }),
    }
}

#[test]
fn listing_returns_newest_first_up_to_limit() {
    let entries = vec![entry(b"a.md", 100), entry(b"b.md", 300), entry(b"c.md", 200)];
    let posts = newest_posts(entries, 2, Timestamp { secs: 0, nanos: 0 });
    assert_eq!(posts.len(), 2);
    assert_eq!(posts[0].original_fn, b"b.md");
    assert_eq!(posts[1].original_fn, b"c.md");
}

#[test]
fn listing_excludes_entries_at_or_before_the_start() {
    let entries = vec![entry(b"a.md", 100), entry(b"b.md", 300), entry(b"c.md", 200)];
    let posts = newest_posts(entries, 10, Timestamp { secs: 200, nanos: 0 });
    assert_eq!(posts.len(), 1);
    assert_eq!(posts[0].original_fn, b"b.md");
}

#[test]
fn listing_skips_directories_and_unreadable_metadata() {
    let entries = vec![
        entry(b"post.md", 50),
        ScanEntry {
            name: b"subdir".to_vec(),
            meta: Some(ScanMeta { is_file: false, modified: Some(Timestamp { secs: 99, nanos: 0 }) }),
        },
        ScanEntry { name: b"ghost.md".to_vec(), meta: None },
    ];
    let posts = newest_posts(entries, 10, Timestamp { secs: 0, nanos: 0 });
    assert_eq!(posts.len(), 1);
    assert_eq!(posts[0].original_fn, b"post.md");
}

#[test]
fn listing_keeps_scan_order_for_equal_timestamps() {
    let entries = vec![entry(b"first.md", 100), entry(b"second.md", 100)];
    let posts = newest_posts(entries, 10, Timestamp { secs: 0, nanos: 0 });
    assert_eq!(posts[0].original_fn, b"first.md");
    assert_eq!(posts[1].original_fn, b"second.md");
}

#[test]
fn unreadable_modification_time_falls_back_to_epoch_and_is_excluded() {
    // an entry whose mtime is unreadable lists under the epoch, so a
    // listing that starts at the epoch excludes it
    let entries = vec![
        entry(b"dated.md", 10),
        ScanEntry {
            name: b"undated.md".to_vec(),
            meta: Some(ScanMeta { is_file: true, modified: None }),
        },
    ];
    let posts = newest_posts(entries, 10, Timestamp { secs: 0, nanos: 0 });
    assert_eq!(posts.len(), 1);
    assert_eq!(posts[0].original_fn, b"dated.md");
}

#[test]
fn resolve_rejects_parent_directory_traversal() {
    let encoded = my_urlencode(b"../secret");
    assert_eq!(resolve_request_path(&encoded), Err(ResolveError::PathResolutionError));
    assert_eq!(resolve_request_path(".."), Err(ResolveError::PathResolutionError));
    assert_eq!(resolve_request_path("."), Err(ResolveError::PathResolutionError));
    assert_eq!(resolve_request_path(""), Err(ResolveError::PathResolutionError));
    assert_eq!(resolve_request_path("a%2Fb"), Err(ResolveError::PathResolutionError));
    assert_eq!(resolve_request_path("a%5Cb"), Err(ResolveError::PathResolutionError));
}

#[test]
fn resolve_rejects_malformed_encoding() {
    assert_eq!(resolve_request_path("%"), Err(ResolveError::DecodeError));
    assert_eq!(resolve_request_path("a%g1"), Err(ResolveError::DecodeError));
}

#[test]
fn from_path_builds_the_entry() {
    let modified = Some(Timestamp { secs: 1700000000, nanos: 5 });
    let post = Post::from_path("hello%20world%21.md", modified).unwrap();
    assert_eq!(post.original_fn, b"hello world!.md");
    assert_eq!(post.title, "hello world!");
    assert_eq!(post.post_date, Timestamp { secs: 1700000000, nanos: 5 });
    assert_eq!(post.url_path(), "posts/hello%20world%21.md");
}

#[test]
fn from_path_missing_metadata_defaults_to_epoch() {
    let post = Post::from_path("note.txt", None).unwrap();
    assert_eq!(post.post_date, Timestamp { secs: 0, nanos: 0 });
}

#[test]
fn title_of_dotfile_is_untitled() {
    let post = Post::from_path("%2Ehidden", None).unwrap();
    assert_eq!(post.original_fn, b".hidden");
    assert_eq!(post.title, "Untitled");
}

#[test]
fn title_of_invalid_utf8_uses_replacement_characters() {
    let post = Post::from_path("a%FFb.md", None).unwrap();
    assert_eq!(post.original_fn, b"a\xFFb.md");
    assert_eq!(post.title, "a\u{FFFD}b");
}

#[test]
fn url_path_round_trips_the_identifier() {
    let post = Post::from_path("caf%C3%A9%20au%20lait.md", None).unwrap();
    let url = post.url_path();
    let segment = url.strip_prefix("posts/").unwrap();
    let again = Post::from_path(segment, None).unwrap();
    assert_eq!(again.original_fn, post.original_fn);
}

#[test]
fn listing_of_empty_scan_is_empty() {
    let posts = newest_posts(Vec::new(), 10, Timestamp { secs: 0, nanos: 0 });
    assert!(posts.is_empty());
}

#[test]
fn listing_limit_zero_is_empty() {
    let entries = vec![entry(b"a.md", 100)];
    let posts = newest_posts(entries, 0, Timestamp { secs: 0, nanos: 0 });
    assert!(posts.is_empty());
}

#[test]
fn listing_keeps_every_regular_file_including_backslash_names() {
    // a backslash is a legal filename byte, not a separator; the scan
    // lists it, and only resolution restricts names
    let entries = vec![entry(b"a\\b.md", 100), entry(b"plain.md", 50)];
    let posts = newest_posts(entries, 10, Timestamp { secs: 0, nanos: 0 });
    assert_eq!(posts.len(), 2);
    assert_eq!(posts[0].original_fn, b"a\\b.md");
    assert_eq!(posts[1].original_fn, b"plain.md");
}

#[test]
fn middleware_succeeds_on_every_negotiated_response() {
    let body = b"x".to_vec();
    let out = CompressMiddleware::new()
        .handle(Some("text/html"), false, Some("deflate;q=0.1, zlib"), body)
        .unwrap();
    assert_eq!(out.content_encoding.as_deref(), Some("zlib"));
}
