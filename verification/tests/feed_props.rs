use sitegen::{Blurb, Error, FrontMatter, Markdown, Post, PostsDatabase, SourcePath, Timestamp};

fn post(path: &str, title: Option<&str>, link: Option<&str>, secs: i64, content: &str) -> Post {
    Post {
        frontmatter: FrontMatter {
            tags: vec!["dev".to_string()],
            title: title.map(|t| t.to_string()),
            link: link.map(|l| l.to_string()),
            date: Timestamp { secs, offset_secs: 0 },
            link_text: None,
        },
        content: content.to_string(),
        filename: SourcePath(path.to_string()),
    }
}

fn key(path: &str) -> SourcePath {
    SourcePath(path.to_string())
}

const JAN: i64 = 1704067200; // 2024-01-01T00:00:00Z

#[test]
fn timestamps_format_as_rfc2822() {
    let t = Timestamp { secs: JAN, offset_secs: 0 };
    assert_eq!(t.to_rfc2822(), "Mon, 1 Jan 2024 00:00:00 +0000");
    let west = Timestamp { secs: JAN, offset_secs: -5 * 3600 };
    assert_eq!(west.to_rfc2822(), "Sun, 31 Dec 2023 19:00:00 -0500");
}

#[test]
fn build_feed_carries_every_field_of_each_document() {
    let mut db = PostsDatabase::new();
    let k = key("content/a.md");
    db.set(
        k.clone(),
        post("content/a.md", Some("A title"), Some("https://example.com/a"), JAN, "# Heading\n\nBody text."),
    );
    let entries = db.build_feed(&vec![k]).unwrap();
    assert_eq!(entries.len(), 1);
    let e = &entries[0];
    assert_eq!(e.title, "A title");
    assert_eq!(e.link, "https://example.com/a");
    assert_eq!(e.pub_date, "Mon, 1 Jan 2024 00:00:00 +0000");
    assert_eq!(e.content, Markdown("# Heading\n\nBody text.".to_string()).render());
    assert_eq!(e.description, Blurb("# Heading\n\nBody text.".to_string()).render());
}

#[test]
fn a_document_without_a_title_fails_the_feed() {
    let mut db = PostsDatabase::new();
    let good = key("content/good.md");
    let bad = key("content/bad.md");
    db.set(good.clone(), post("content/good.md", Some("G"), Some("https://example.com/g"), JAN, "x"));
    db.set(bad.clone(), post("content/bad.md", None, Some("https://example.com/b"), JAN, "y"));
    let r = db.build_feed(&vec![good, bad]);
    match r {
        Err(Error::FeedBuild { key: Some(k), message }) => {
            assert_eq!(k.0, "content/bad.md");
            assert!(message.contains("title"));
        },
        _ => panic!("expected a FeedBuild failure naming the bad key"),
    }
}

#[test]
fn a_document_without_a_link_fails_the_feed() {
    let mut db = PostsDatabase::new();
    let bad = key("content/bad.md");
    db.set(bad.clone(), post("content/bad.md", Some("B"), None, JAN, "y"));
    let r = db.build_feed(&vec![bad]);
    match r {
        Err(Error::FeedBuild { key: Some(k), message }) => {
            assert_eq!(k.0, "content/bad.md");
            assert!(message.contains("link"));
        },
        _ => panic!("expected a FeedBuild failure naming the bad key"),
    }
}

#[test]
fn build_feed_on_a_missing_key_is_not_found() {
    let mut db = PostsDatabase::new();
    let r = db.build_feed(&vec![key("content/absent.md")]);
    assert!(matches!(r, Err(Error::NotFound { .. })));
}

#[test]
fn generate_rss_assembles_a_validated_channel() {
    let mut db = PostsDatabase::new();
    let k = key("content/a.md");
    db.set(
        k.clone(),
        post("content/a.md", Some("A title"), Some("https://example.com/a"), JAN, "Body."),
    );
    let channel = db.generate_rss(&vec![k]).unwrap();
    assert_eq!(channel.title(), "Dustin Knopoff");
    assert_eq!(channel.link(), "http://dustinknopoff.dev");
    assert_eq!(channel.items().len(), 1);
    let item = &channel.items()[0];
    assert_eq!(item.title(), Some("A title"));
    assert_eq!(item.link(), Some("https://example.com/a"));
    assert_eq!(item.pub_date(), Some("Mon, 1 Jan 2024 00:00:00 +0000"));
}

#[test]
fn generate_rss_reports_feed_failures_and_builds_nothing() {
    let mut db = PostsDatabase::new();
    let bad = key("content/bad.md");
    db.set(bad.clone(), post("content/bad.md", None, None, JAN, "y"));
    let r = db.generate_rss(&vec![bad]);
    assert!(matches!(r, Err(Error::FeedBuild { .. })));
}
