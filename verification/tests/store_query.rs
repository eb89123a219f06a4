use aan::marks::{BookmarkCategory, MarkData};
use aan::query::{IQueryBuilder, QueryBuilder};
use aan::store::MarkStore;
use aan::utils::Error;

fn record(id: &str, title: &str, cat_id: &str) -> MarkData {
    MarkData {
        title: String::from(title),
        description: String::new(),
        content: String::from(id),
        image: String::from("default.png"),
        image_data: None,
        category: BookmarkCategory { name: String::from(cat_id), id: String::from(cat_id) },
        link: format!("http://x/{}", id),
    }
}

#[test]
fn store_put_get_roundtrip() {
    let mut db = MarkStore::new();
    db.put(String::from("a"), record("a", "first", "c1"));
    db.put(String::from("b"), record("b", "second", "c1"));
    assert_eq!(db.len(), 2);
    let got = db.get("a").unwrap();
    assert_eq!(got.title, "first");
    assert!(db.get("missing").is_none());
}

#[test]
fn store_put_overwrites_in_place() {
    let mut db = MarkStore::new();
    db.put(String::from("a"), record("a", "first", "c1"));
    db.put(String::from("b"), record("b", "second", "c1"));
    db.put(String::from("a"), record("a", "renamed", "c1"));
    assert_eq!(db.len(), 2);
    let all = db.all();
    // The overwritten record keeps its enumeration position.
    assert_eq!(all[0].title, "renamed");
    assert_eq!(all[1].title, "second");
}

#[test]
fn store_reset_empties() {
    let mut db = MarkStore::new();
    db.put(String::from("a"), record("a", "first", "c1"));
    db.reset();
    assert_eq!(db.len(), 0);
    assert_eq!(db.all().len(), 0);
}

fn ten_records() -> Vec<MarkData> {
    (0..10).map(|i| record(&format!("id{}", i), &format!("title {}", i), "c1")).collect()
}

#[test]
fn paginate_middle_page() {
    // 10 filtered records, offset 4: records 4..8, no further full page.
    let qb = QueryBuilder::new(Ok(ten_records()));
    let (has_more, items) = qb.paginate(4).result();
    assert_eq!(items.len(), 4);
    assert_eq!(items[0].content, "id4");
    assert_eq!(items[1].content, "id5");
    assert_eq!(items[2].content, "id6");
    assert_eq!(items[3].content, "id7");
    assert!(!has_more);
}

#[test]
fn paginate_first_page() {
    // 10 filtered records, offset 0: records 0..4, one more full page follows.
    let qb = QueryBuilder::new(Ok(ten_records()));
    let (has_more, items) = qb.paginate(0).result();
    assert_eq!(items.len(), 4);
    assert_eq!(items[0].content, "id0");
    assert_eq!(items[3].content, "id3");
    assert!(has_more);
}

#[test]
fn paginate_beyond_count() {
    let qb = QueryBuilder::new(Ok(ten_records()));
    let (has_more, items) = qb.paginate(20).result();
    assert_eq!(items.len(), 0);
    assert!(!has_more);
}

#[test]
fn paginate_partial_final_page_is_unsliced() {
    // The filtered set ends inside the window: the whole unsliced list
    // comes back, with no further pages.
    let qb = QueryBuilder::new(Ok(ten_records()));
    let (has_more, items) = qb.paginate(8).result();
    assert_eq!(items.len(), 10);
    assert!(!has_more);
}

#[test]
fn query_builder_seeded_empty_on_error() {
    let qb = QueryBuilder::new(Err(Error::APIError));
    let (has_more, items) = qb.result();
    assert_eq!(items.len(), 0);
    assert!(!has_more);
}

#[test]
fn filter_by_category_matches_id_identity() {
    let mut records = ten_records();
    records.push(record("x", "other cat", "c2"));
    let qb = QueryBuilder::new(Ok(records));
    let cat = BookmarkCategory { name: String::from("another name"), id: String::from("c2") };
    let (_, items) = qb.filter_by_category(Some(cat)).result();
    assert_eq!(items.len(), 1);
    assert_eq!(items[0].content, "x");
}

#[test]
fn search_is_case_insensitive() {
    let records = vec![record("1", "Rust Book", "c1"), record("2", "Cooking Tips", "c1")];
    let qb = QueryBuilder::new(Ok(records));
    let (_, items) = qb.search(Some(String::from("rust"))).result();
    assert_eq!(items.len(), 1);
    assert_eq!(items[0].title, "Rust Book");
}

#[test]
fn search_looks_at_description_too() {
    let mut with_desc = record("3", "plain title", "c1");
    with_desc.description = String::from("all about Rust here");
    let records = vec![with_desc, record("4", "unrelated", "c1")];
    let qb = QueryBuilder::new(Ok(records));
    let (_, items) = qb.search(Some(String::from("RUST"))).result();
    assert_eq!(items.len(), 1);
    assert_eq!(items[0].content, "3");
}
