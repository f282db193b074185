use tsundoku::datamodel::{
    Archive, Comment, Database, DbError, Entry, Tag, TagAddResult, TagQueryResult, Timestamp,
};

fn stamp() -> Timestamp {
    Timestamp { secs: 1_600_000_000, nanos: 0 }
}

fn entry<'a>(link: &'a str, comment: Option<&'a str>, tags: Option<Vec<&'a str>>) -> Entry<'a> {
    Entry { link, comment, tags, archive: Archive::Queue, timestamp: stamp() }
}

#[test]
fn add_tag_get_tag_same() {
    let mut db = Database::open_in_memory().unwrap();
    // Add some tags so that we don't just have zero
    let tags: Vec<&str> = vec!["tag 0", "tag 1", "tag 2", "tag 3", "tag 4"];

    for tag in &tags {
        db.add_tag(tag).unwrap();
    }
    // Add a tag and get the id from that
    let add_id = match db.add_tag("test tag").unwrap() {
        TagAddResult::TagAlreadyExists => panic!("tag should not already exist!"),
        TagAddResult::TagId(i) => i,
    };
    // Query for the tag, and get the id
    let query_id = match db.get_tag_id("test tag").unwrap() {
        TagQueryResult::TagNotFound => panic!("Tag should exist and show up in query!)"),
        TagQueryResult::TagId(i) => i,
    };

    assert_eq!(add_id, query_id);
}

#[test]
fn get_tag_id_of_existing_tag() {
    let mut db = Database::open_in_memory().unwrap();
    for tag in ["tag 0", "tag 1", "tag 2", "tag 3", "tag 4"] {
        db.add_tag(tag).unwrap();
    }
    let tag_id = db.get_tag_id("tag 3").unwrap();
    assert_eq!(tag_id, TagQueryResult::TagId(4));
}

#[test]
fn get_tag_id_of_missing_tag() {
    let db = Database::open_in_memory().unwrap();
    let tag_id = db.get_tag_id("This tag doesn't exist");
    assert_eq!(tag_id, Ok(TagQueryResult::TagNotFound));
}

#[test]
fn tag_lookup_is_exact() {
    let mut db = Database::open_in_memory().unwrap();
    db.add_tag("News").unwrap();
    assert_eq!(db.get_tag_id("news"), Ok(TagQueryResult::TagNotFound));
    assert_eq!(db.get_tag_id(" News"), Ok(TagQueryResult::TagNotFound));
    assert_eq!(db.get_tag_id("News"), Ok(TagQueryResult::TagId(1)));
}

#[test]
fn contains_tag_after_add() {
    let mut db = Database::open_in_memory().unwrap();
    db.add_tag("tag 0").unwrap();
    assert!(db.contains_tag("tag 0").unwrap());
    assert!(!db.contains_tag("tag 1").unwrap());
}

#[test]
fn list_tags_in_creation_order() {
    let mut db = Database::open_in_memory().unwrap();
    let tags: Vec<&str> = vec!["tag 0", "tag 1", "tag 2", "tag 3", "tag 4"];
    for tag in &tags {
        db.add_tag(tag).unwrap();
    }
    let db_tags = db.list_tags().unwrap();
    assert_eq!(tags, db_tags);
}

#[test]
fn list_tags_abc() {
    let mut db = Database::open_in_memory().unwrap();
    db.add_tag("a").unwrap();
    db.add_tag("b").unwrap();
    db.add_tag("c").unwrap();
    assert_eq!(db.list_tags().unwrap(), vec!["a", "b", "c"]);
}

#[test]
fn created_tag_is_found_with_same_id() {
    let mut db = Database::open_in_memory().unwrap();
    db.add_tag("first").unwrap();
    let created = db.add_tag("second").unwrap();
    assert_eq!(created, TagAddResult::TagId(2));
    let found = db.get_tag_id("second").unwrap();
    assert!(created == found);
    assert!(found == created);
}

#[test]
fn add_tag_twice_keeps_one_row() {
    let mut db = Database::open_in_memory().unwrap();
    assert_eq!(db.add_tag("t"), Ok(TagAddResult::TagId(1)));
    assert_eq!(db.add_tag("t"), Ok(TagAddResult::TagAlreadyExists));
    assert_eq!(db.add_tag("t"), Ok(TagAddResult::TagAlreadyExists));
    assert_eq!(db.list_tags().unwrap(), vec!["t"]);
}

#[test]
fn add_empty_tag_is_refused() {
    let mut db = Database::open_in_memory().unwrap();
    assert_eq!(db.add_tag(""), Err(DbError::EmptyText));
    assert!(db.list_tags().unwrap().is_empty());
}

#[test]
fn tag_results_compare_by_id() {
    assert!(TagAddResult::TagId(3) == TagQueryResult::TagId(3));
    assert!(TagAddResult::TagId(3) != TagQueryResult::TagId(4));
    assert!(TagAddResult::TagAlreadyExists != TagQueryResult::TagNotFound);
    assert!(TagQueryResult::TagNotFound != TagAddResult::TagId(1));
}

#[test]
fn create_link_stores_row_in_queue() {
    let mut db = Database::open_in_memory().unwrap();
    assert_eq!(db.create_link("http://a", None, stamp()), Ok(1));
    assert_eq!(db.create_link("http://b", Some("later"), stamp()), Ok(2));
    let (link, comment, archive, timestamp) = db.get_link(1).unwrap();
    assert_eq!(link, "http://a");
    assert_eq!(comment, "");
    assert_eq!(archive, Archive::Queue);
    assert_eq!(timestamp, stamp());
    let (link, comment, _, _) = db.get_link(2).unwrap();
    assert_eq!(link, "http://b");
    assert_eq!(comment, "later");
    assert_eq!(db.link_count(), 2);
}

#[test]
fn create_empty_link_is_refused() {
    let mut db = Database::open_in_memory().unwrap();
    assert_eq!(db.create_link("", None, stamp()), Err(DbError::EmptyText));
    assert_eq!(db.link_count(), 0);
}

#[test]
fn mark_read_transitions() {
    let mut db = Database::open_in_memory().unwrap();
    assert_eq!(db.mark_read(1), Err(DbError::NotFound));
    let id = db.create_link("http://a", None, stamp()).unwrap();
    assert_eq!(db.get_link(id).unwrap().2, Archive::Queue);
    assert_eq!(db.mark_read(id), Ok(()));
    assert_eq!(db.get_link(id).unwrap().2, Archive::Archived);
    assert_eq!(db.mark_read(id), Ok(()));
    assert_eq!(db.get_link(id).unwrap().2, Archive::Archived);
    assert_eq!(db.mark_read(0), Err(DbError::NotFound));
    assert_eq!(db.mark_read(2), Err(DbError::NotFound));
    assert_eq!(db.get_link(2), Err(DbError::NotFound));
}

#[test]
fn link_tag_checks_both_rows() {
    let mut db = Database::open_in_memory().unwrap();
    let link = db.create_link("http://a", None, stamp()).unwrap();
    assert_eq!(db.link_tag(link, 1), Err(DbError::ReferentialError));
    db.add_tag("x").unwrap();
    assert_eq!(db.link_tag(2, 1), Err(DbError::ReferentialError));
    assert_eq!(db.link_tag(link, 1), Ok(()));
    assert_eq!(db.link_tag(link, 1), Ok(()));
    assert_eq!(db.tags_for_link(link).unwrap(), vec!["x"]);
}

#[test]
fn tags_for_missing_link() {
    let db = Database::open_in_memory().unwrap();
    assert_eq!(db.tags_for_link(1), Err(DbError::NotFound));
}

#[test]
fn add_entry_scenario() {
    let mut db = Database::open_in_memory().unwrap();
    let id = db
        .add_entry(entry("http://example.com", Some("nice"), Some(vec!["news", "tech"])))
        .unwrap();
    assert_eq!(id, 1);
    assert_eq!(db.tags_for_link(1).unwrap(), vec!["news", "tech"]);
    assert_eq!(db.list_tags().unwrap(), vec!["news", "tech"]);
    let (link, comment, archive, _) = db.get_link(1).unwrap();
    assert_eq!(link, "http://example.com");
    assert_eq!(comment, "nice");
    assert_eq!(archive, Archive::Queue);
}

#[test]
fn add_entry_reuses_existing_tag() {
    let mut db = Database::open_in_memory().unwrap();
    let first = db.add_entry(entry("http://a", None, Some(vec!["x"]))).unwrap();
    let second = db.add_entry(entry("http://b", None, Some(vec!["x", "y"]))).unwrap();
    assert_eq!(second, 2);
    assert_eq!(db.tags_for_link(first).unwrap(), vec!["x"]);
    assert_eq!(db.tags_for_link(second).unwrap(), vec!["x", "y"]);
    assert_eq!(db.list_tags().unwrap(), vec!["x", "y"]);
}

#[test]
fn add_entry_without_tags() {
    let mut db = Database::open_in_memory().unwrap();
    let id = db.add_entry(entry("http://a", None, None)).unwrap();
    assert_eq!(id, 1);
    assert!(db.tags_for_link(id).unwrap().is_empty());
    assert_eq!(db.get_link(id).unwrap().1, "");
}

#[test]
fn add_entry_starts_in_queue_whatever_it_asks() {
    let mut db = Database::open_in_memory().unwrap();
    let mut e = entry("http://a", None, None);
    e.archive = Archive::Archived;
    let id = db.add_entry(e).unwrap();
    assert_eq!(db.get_link(id).unwrap().2, Archive::Queue);
}

#[test]
fn add_entry_failure_leaves_nothing() {
    let mut db = Database::open_in_memory().unwrap();
    db.add_tag("old").unwrap();
    let r = db.add_entry(entry("http://a", Some("c"), Some(vec!["x", "old", ""])));
    assert_eq!(r, Err(DbError::EmptyText));
    assert_eq!(db.link_count(), 0);
    assert_eq!(db.list_tags().unwrap(), vec!["old"]);
    assert_eq!(db.add_entry(entry("", None, None)), Err(DbError::EmptyText));
    assert_eq!(db.link_count(), 0);
    let id = db.add_entry(entry("http://b", None, Some(vec!["x"]))).unwrap();
    assert_eq!(id, 1);
    assert_eq!(db.list_tags().unwrap(), vec!["old", "x"]);
}

#[test]
fn tag_and_comment_hold_their_text() {
    assert_eq!(Tag::new("rust").detail(), "rust");
    assert_eq!(Comment::new("read twice").detail(), "read twice");
}
