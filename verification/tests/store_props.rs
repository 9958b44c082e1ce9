use sitegen::{Artifact, Derivation, Error, FrontMatter, Post, PostsDatabase, SourcePath, Timestamp};

fn post(path: &str, title: Option<&str>, link: Option<&str>, secs: i64, tags: &[&str], content: &str) -> Post {
    Post {
        frontmatter: FrontMatter {
            tags: tags.iter().map(|t| t.to_string()).collect(),
            title: title.map(|t| t.to_string()),
            link: link.map(|l| l.to_string()),
            date: Timestamp { secs, offset_secs: 0 },
            link_text: None,
        },
        content: content.to_string(),
        filename: SourcePath(path.to_string()),
    }
}

fn key(path: &str) -> SourcePath {
    SourcePath(path.to_string())
}

#[test]
fn set_then_get_returns_the_document() {
    let mut db = PostsDatabase::new();
    let d = post("content/a.md", Some("A"), Some("https://example.com/a"), 100, &["dev"], "hello");
    db.set(key("content/a.md"), d.clone());
    let got = db.get(&key("content/a.md")).unwrap();
    assert_eq!(got.content, d.content);
    assert_eq!(got.frontmatter.title, d.frontmatter.title);
    assert_eq!(got.frontmatter.link, d.frontmatter.link);
    assert_eq!(got.frontmatter.tags, d.frontmatter.tags);
    assert_eq!(got.frontmatter.date, d.frontmatter.date);
    assert_eq!(got.filename.0, d.filename.0);
}

#[test]
fn derive_is_idempotent_without_intervening_set() {
    let mut db = PostsDatabase::new();
    db.set(key("content/a.md"), post("content/a.md", Some("A"), None, 1, &["dev"], "# Title"));
    assert_eq!(db.computations(), 0);
    let first = db.to_html(&key("content/a.md")).unwrap();
    assert_eq!(db.computations(), 1);
    let second = db.to_html(&key("content/a.md")).unwrap();
    assert_eq!(db.computations(), 1);
    assert_eq!(first, second);
}

#[test]
fn each_derivation_is_memoized_separately() {
    let mut db = PostsDatabase::new();
    db.set(key("content/a.md"), post("content/a.md", Some("A"), None, 1, &["dev"], "body"));
    let t1 = match db.derive(Derivation::Tags, &key("content/a.md")).unwrap() {
        Artifact::Labels(ts) => ts,
        Artifact::Markup(_) => panic!("tags derivation must yield labels"),
    };
    assert_eq!(db.computations(), 1);
    let _ = db.derive(Derivation::Excerpt, &key("content/a.md")).unwrap();
    assert_eq!(db.computations(), 2);
    let t2 = match db.derive(Derivation::Tags, &key("content/a.md")).unwrap() {
        Artifact::Labels(ts) => ts,
        Artifact::Markup(_) => panic!("tags derivation must yield labels"),
    };
    assert_eq!(db.computations(), 2);
    assert_eq!(t1, vec!["dev".to_string()]);
    assert_eq!(t1, t2);
}

#[test]
fn replacing_a_document_invalidates_its_artifacts() {
    let mut db = PostsDatabase::new();
    let k = key("content/a.md");
    db.set(k.clone(), post("content/a.md", Some("A"), None, 1, &["old"], "first"));
    let tags1 = db.tags(&k).unwrap();
    assert_eq!(tags1, vec!["old".to_string()]);
    assert_eq!(db.computations(), 1);
    db.set(k.clone(), post("content/a.md", Some("A"), None, 2, &["new"], "second"));
    let tags2 = db.tags(&k).unwrap();
    assert_eq!(tags2, vec!["new".to_string()]);
    assert_eq!(db.computations(), 2);
    let html = db.to_html(&k).unwrap();
    assert!(html.contains("second"));
    assert!(!html.contains("first"));
}

#[test]
fn get_on_an_unset_key_is_not_found() {
    let db = PostsDatabase::new();
    let e = db.get(&key("content/missing.md")).unwrap_err();
    match e {
        Error::NotFound { key: k } => assert_eq!(k.0, "content/missing.md"),
        _ => panic!("expected a NotFound failure"),
    }
}

#[test]
fn derive_propagates_not_found_and_records_no_entry() {
    let mut db = PostsDatabase::new();
    let k = key("content/missing.md");
    let e = db.to_html(&k).unwrap_err();
    assert!(matches!(e, Error::NotFound { .. }));
    assert_eq!(db.computations(), 0);
    // A later retry after fixing the input succeeds.
    db.set(k.clone(), post("content/missing.md", Some("A"), None, 1, &[], "now present"));
    let html = db.to_html(&k).unwrap();
    assert!(html.contains("now present"));
}

#[test]
fn add_posts_inserts_each_document_under_its_own_key() {
    let mut db = PostsDatabase::new();
    db.add_posts(vec![
        post("content/a.md", Some("A"), None, 1, &[], "alpha"),
        post("content/b.md", Some("B"), None, 2, &[], "beta"),
    ]);
    assert_eq!(db.get(&key("content/a.md")).unwrap().content, "alpha");
    assert_eq!(db.get(&key("content/b.md")).unwrap().content, "beta");
}

#[test]
fn error_descriptions_name_the_failure() {
    let nf = Error::NotFound { key: key("content/a.md") };
    assert!(nf.describe().contains("content/a.md"));
    let parse = Error::Parse { message: "bad front matter".to_string() };
    assert_eq!(parse.describe(), "bad front matter");
    let derv = Error::Derivation { key: key("content/a.md"), message: "boom".to_string() };
    assert!(derv.describe().contains("boom"));
    let feed = Error::FeedBuild { key: None, message: "no feed".to_string() };
    assert_eq!(feed.describe(), "no feed");
}
