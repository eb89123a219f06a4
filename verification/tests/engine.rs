use aan::api::BookmarkApi;
use aan::bookmarks::{
    BookmarkBar, BookmarkFile, BookmarkType, BookmarksItem, BookmarksRoot,
};
use aan::marks::{BookmarkCategory, MarkData};
use aan::utils::Error;

fn url_item(id: &str, name: &str, url: &str) -> BookmarksItem {
    BookmarksItem {
        date_added: String::from("0"),
        guid: format!("guid-{}", id),
        id: String::from(id),
        name: String::from(name),
        kind: BookmarkType::url,
        url: Some(String::from(url)),
        children: None,
    }
}

fn folder_item(id: &str, name: &str, children: Vec<BookmarksItem>) -> BookmarksItem {
    BookmarksItem {
        date_added: String::from("0"),
        guid: format!("guid-{}", id),
        id: String::from(id),
        name: String::from(name),
        kind: BookmarkType::folder,
        url: None,
        children: Some(children),
    }
}

fn export(bar: Vec<BookmarksItem>) -> BookmarkFile {
    BookmarkFile {
        checksum: String::from("0"),
        roots: BookmarksRoot {
            bookmark_bar: BookmarkBar { children: Some(bar) },
            other: BookmarkBar { children: Some(vec![]) },
            synced: BookmarkBar { children: Some(vec![]) },
        },
    }
}

fn record(id: &str, title: &str, cat_id: &str) -> MarkData {
    MarkData {
        title: String::from(title),
        description: String::new(),
        content: String::from(id),
        image: String::from("default.png"),
        image_data: None,
        category: BookmarkCategory { name: String::from(cat_id), id: String::from(cat_id) },
        link: format!("http://x/{}", id),
    }
}

#[test]
fn categories_start_with_default() {
    let mut api = BookmarkApi::new();
    api.set_bookmark_file(export(vec![
        folder_item("1", "Work", vec![url_item("2", "a", "http://a")]),
        folder_item("3", "Play", vec![url_item("4", "b", "http://b")]),
        url_item("5", "loose", "http://loose"),
    ]));
    let cats = api.get_categories();
    assert_eq!(cats.len(), 3);
    assert_eq!(cats[0].id, "non categorized");
    assert_eq!(cats[0].name, "non categorized");
    assert_eq!(cats[1].name, "Work");
    assert_eq!(cats[2].name, "Play");
    // All non-default entries carry distinct ids.
    assert_ne!(cats[1].id, cats[2].id);
    // Memoized: a second call yields the same catalog.
    let again = api.get_categories();
    assert_eq!(again.len(), 3);
    assert_eq!(again[1].id, cats[1].id);
}

#[test]
fn get_category_finds_default_and_folders() {
    let mut api = BookmarkApi::new();
    api.set_bookmark_file(export(vec![folder_item(
        "1",
        "Work",
        vec![url_item("2", "a", "http://a")],
    )]));
    let found = api.get_category("1").unwrap();
    assert_eq!(found.name, "Work");
    let default = api.get_category("non categorized").unwrap();
    assert_eq!(default.name, "non categorized");
    assert!(api.get_category("nope").is_none());
}

#[test]
fn filter_marks_by_category_returns_children() {
    let mut api = BookmarkApi::new();
    api.set_bookmark_file(export(vec![
        folder_item("1", "Work", vec![url_item("2", "a", "http://a"), url_item("6", "c", "http://c")]),
        url_item("5", "loose", "http://loose"),
    ]));
    api.get_raw_bookmarks();
    let children = api.filter_marks_by_category(Some("1"));
    assert_eq!(children.len(), 2);
    assert_eq!(children[0].id, "2");
    assert_eq!(children[1].id, "6");
    let loose = api.filter_marks_by_category(None);
    assert_eq!(loose.len(), 1);
    assert_eq!(loose[0].id, "5");
    assert_eq!(api.filter_marks_by_category(Some("missing")).len(), 0);
}

#[test]
fn sync_plan_skips_existing_records() {
    let mut api = BookmarkApi::new();
    api.db.put(String::from("2"), record("2", "already there", "1"));
    let leaves = vec![
        url_item("2", "a", "http://a"),
        url_item("3", "b", "http://b"),
    ];
    let plan = api.sync_plan(&leaves);
    // The leaf with a stored record is never fetched again.
    assert_eq!(plan.len(), 1);
    assert_eq!(plan[0].id, "3");
    assert!(!api.should_scrape("2"));
    assert!(api.should_scrape("3"));
}

#[test]
fn retry_only_after_first_failed_attempt() {
    assert!(BookmarkApi::should_retry(0, false));
    assert!(!BookmarkApi::should_retry(0, true));
    assert!(!BookmarkApi::should_retry(1, false));
}

#[test]
fn image_decisions() {
    assert!(BookmarkApi::should_cache_image(&Ok(vec![1u8, 2u8])));
    assert!(!BookmarkApi::should_cache_image(&Ok(vec![])));
    assert!(!BookmarkApi::should_cache_image(&Err(Error::APIError)));
    assert_eq!(BookmarkApi::image_path_or_default(Some(String::from("7.jpg"))), "7.jpg");
    assert_eq!(BookmarkApi::image_path_or_default(None), "default.png");
}

#[test]
fn image_file_name_uses_url_extension() {
    assert_eq!(BookmarkApi::image_file_name("42", "pics/photo.jpg"), "42.jpg");
    assert_eq!(BookmarkApi::image_file_name("42", "pics/photo"), "42.png");
}

#[test]
fn build_mark_data_snapshot() {
    let leaf = url_item("9", "My Page", "http://page");
    let cat = BookmarkCategory { name: String::from("Work"), id: String::from("1") };
    let mark = BookmarkApi::build_mark_data(&leaf, &cat, String::from("9.png"));
    assert_eq!(mark.title, "My Page");
    assert_eq!(mark.description, "");
    assert_eq!(mark.content, "9");
    assert_eq!(mark.image, "9.png");
    assert!(mark.image_data.is_none());
    assert_eq!(mark.category.id, "1");
    assert_eq!(mark.link, "http://page");
}

#[test]
fn load_marks_filters_by_category() {
    let mut api = BookmarkApi::new();
    api.db.put(String::from("a"), record("a", "one", "c1"));
    api.db.put(String::from("b"), record("b", "two", "c2"));
    api.db.put(String::from("c"), record("c", "three", "c1"));
    let cat = BookmarkCategory { name: String::from("c1"), id: String::from("c1") };
    let items = api.load_marks(&cat).unwrap();
    assert_eq!(items.len(), 2);
    assert_eq!(items[0].content, "a");
    assert_eq!(items[1].content, "c");
}

#[test]
fn load_marks_sync_pages_and_searches() {
    let mut api = BookmarkApi::new();
    api.db.put(String::from("1"), record("1", "Rust Book", "c1"));
    api.db.put(String::from("2"), record("2", "Cooking Tips", "c1"));
    let (has_more, items) = api.load_marks_sync(0, None, Some(String::from("rust"))).unwrap();
    assert!(!has_more);
    assert_eq!(items.len(), 1);
    assert_eq!(items[0].title, "Rust Book");
    let (more_all, all_items) = api.load_marks_sync(0, None, None).unwrap();
    assert!(!more_all);
    assert_eq!(all_items.len(), 2);
}

#[test]
fn load_marks_sync_rejects_bad_pattern() {
    let api = BookmarkApi::new();
    let out = api.load_marks_sync(0, None, Some(String::from("(")));
    assert!(matches!(out, Err(Error::LanguageError)));
}

#[test]
fn flush_and_resync_empties_store() {
    let mut api = BookmarkApi::new();
    api.set_bookmark_file(export(vec![url_item("5", "loose", "http://loose")]));
    api.get_categories();
    api.db.put(String::from("5"), record("5", "loose", "non categorized"));
    assert_eq!(api.db.len(), 1);
    api.flush_all_resync();
    // Before any new scrape lands, the store enumerates nothing.
    assert_eq!(api.db.all().len(), 0);
    assert_eq!(api.db.len(), 0);
}

#[test]
fn childless_folder_yields_a_category() {
    let mut api = BookmarkApi::new();
    let childless = BookmarksItem {
        date_added: String::from("0"),
        guid: String::from("guid-8"),
        id: String::from("8"),
        name: String::from("Childless"),
        kind: BookmarkType::folder,
        url: None,
        children: None,
    };
    api.set_bookmark_file(export(vec![childless]));
    let cats = api.get_categories();
    assert_eq!(cats.len(), 2);
    assert_eq!(cats[0].id, "non categorized");
    assert_eq!(cats[1].name, "Childless");
    assert_eq!(cats[1].id, "8");
}

#[test]
fn absent_root_lists_count_as_empty() {
    let mut api = BookmarkApi::new();
    api.set_bookmark_file(BookmarkFile {
        checksum: String::from("0"),
        roots: BookmarksRoot {
            bookmark_bar: BookmarkBar {
                children: Some(vec![url_item("5", "loose", "http://loose")]),
            },
            other: BookmarkBar { children: None },
            synced: BookmarkBar { children: None },
        },
    });
    let flat = api.get_raw_bookmarks();
    assert_eq!(flat.len(), 1);
    assert_eq!(flat[0].id, "5");
    let cats = api.get_categories();
    assert_eq!(cats.len(), 1);
    assert_eq!(cats[0].id, "non categorized");
}
