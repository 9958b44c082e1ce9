use sitegen::{FrontMatter, Post, PostsDatabase, SourcePath, Timestamp};

fn post(path: &str, secs: i64, tags: &[&str]) -> Post {
    Post {
        frontmatter: FrontMatter {
            tags: tags.iter().map(|t| t.to_string()).collect(),
            title: Some(format!("title of {}", path)),
            link: None,
            date: Timestamp { secs, offset_secs: 0 },
            link_text: None,
        },
        content: format!("body of {}", path),
        filename: SourcePath(path.to_string()),
    }
}

fn key(path: &str) -> SourcePath {
    SourcePath(path.to_string())
}

const JAN: i64 = 1704067200; // 2024-01-01T00:00:00Z
const FEB: i64 = 1706745600; // 2024-02-01T00:00:00Z
const MAR: i64 = 1709251200; // 2024-03-01T00:00:00Z

fn scenario_db() -> (PostsDatabase, Vec<SourcePath>) {
    let mut db = PostsDatabase::new();
    db.set(key("content/one.md"), post("content/one.md", JAN, &["dev"]));
    db.set(key("content/two.md"), post("content/two.md", MAR, &["dev", "design"]));
    db.set(key("content/three.md"), post("content/three.md", FEB, &[]));
    let keys = vec![key("content/one.md"), key("content/two.md"), key("content/three.md")];
    (db, keys)
}

#[test]
fn most_recent_returns_the_latest_in_descending_order() {
    let (db, keys) = scenario_db();
    let top = db.most_recent(2, &keys);
    assert_eq!(top.len(), 2);
    assert_eq!(top[0].filename.0, "content/two.md");
    assert_eq!(top[1].filename.0, "content/three.md");
}

#[test]
fn most_recent_returns_all_when_fewer_exist() {
    let (db, keys) = scenario_db();
    let all = db.most_recent(10, &keys);
    assert_eq!(all.len(), 3);
    assert_eq!(all[0].filename.0, "content/two.md");
    assert_eq!(all[1].filename.0, "content/three.md");
    assert_eq!(all[2].filename.0, "content/one.md");
    assert!(db.most_recent(0, &keys).is_empty());
}

#[test]
fn most_recent_breaks_timestamp_ties_by_key() {
    let mut db = PostsDatabase::new();
    db.set(key("content/b.md"), post("content/b.md", JAN, &[]));
    db.set(key("content/a.md"), post("content/a.md", JAN, &[]));
    db.set(key("content/c.md"), post("content/c.md", JAN, &[]));
    let keys = vec![key("content/b.md"), key("content/a.md"), key("content/c.md")];
    let top = db.most_recent(3, &keys);
    assert_eq!(top[0].filename.0, "content/a.md");
    assert_eq!(top[1].filename.0, "content/b.md");
    assert_eq!(top[2].filename.0, "content/c.md");
}

#[test]
fn five_most_recent_caps_at_five() {
    let mut db = PostsDatabase::new();
    let mut keys = Vec::new();
    for i in 0..6 {
        let path = format!("content/p{}.md", i);
        db.set(SourcePath(path.clone()), post(&path, JAN + i, &[]));
        keys.push(SourcePath(path));
    }
    let top = db.five_most_recent(&keys);
    assert_eq!(top.len(), 5);
    assert_eq!(top[0].filename.0, "content/p5.md");
    assert_eq!(top[4].filename.0, "content/p1.md");
}

#[test]
fn group_by_category_matches_the_end_to_end_scenario() {
    let (db, keys) = scenario_db();
    let groups = db.group_by_category(&keys);
    assert_eq!(groups.len(), 2);
    let dev = groups.iter().find(|g| g.0 == "dev").expect("a dev group");
    let design = groups.iter().find(|g| g.0 == "design").expect("a design group");
    assert_eq!(dev.1.len(), 2);
    assert_eq!(dev.1[0].filename.0, "content/one.md");
    assert_eq!(dev.1[1].filename.0, "content/two.md");
    assert_eq!(design.1.len(), 1);
    assert_eq!(design.1[0].filename.0, "content/two.md");
    // The unlabelled document joined no group.
    for g in &groups {
        assert!(g.1.iter().all(|p| p.filename.0 != "content/three.md"));
    }
}

#[test]
fn group_sizes_sum_to_the_label_occurrences() {
    let (db, keys) = scenario_db();
    let groups = db.group_by_category(&keys);
    let group_total: usize = groups.iter().map(|g| g.1.len()).sum();
    let label_total: usize = keys
        .iter()
        .map(|k| db.get(k).unwrap().frontmatter.tags.len())
        .sum();
    assert_eq!(group_total, label_total);
    assert_eq!(group_total, 3);
}

#[test]
fn a_document_listing_a_label_twice_is_grouped_twice() {
    let mut db = PostsDatabase::new();
    db.set(key("content/a.md"), post("content/a.md", JAN, &["dev", "dev"]));
    let keys = vec![key("content/a.md")];
    let groups = db.group_by_category(&keys);
    assert_eq!(groups.len(), 1);
    assert_eq!(groups[0].0, "dev");
    assert_eq!(groups[0].1.len(), 2);
}

#[test]
fn get_tags_matches_group_by_category() {
    let (db, keys) = scenario_db();
    let a = db.group_by_category(&keys);
    let b = db.get_tags(&keys);
    assert_eq!(a.len(), b.len());
    for (x, y) in a.iter().zip(b.iter()) {
        assert_eq!(x.0, y.0);
        assert_eq!(x.1.len(), y.1.len());
    }
}
