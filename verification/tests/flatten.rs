use aan::bookmarks::{BookmarkType, BookmarksItem, ChildLevel};

fn url_item(id: &str, name: &str, url: &str) -> BookmarksItem {
    BookmarksItem {
        date_added: String::from("0"),
        guid: format!("guid-{}", id),
        id: String::from(id),
        name: String::from(name),
        kind: BookmarkType::url,
        url: Some(String::from(url)),
        children: None,
    }
}

fn folder_item(id: &str, name: &str, children: Vec<BookmarksItem>) -> BookmarksItem {
    BookmarksItem {
        date_added: String::from("0"),
        guid: format!("guid-{}", id),
        id: String::from(id),
        name: String::from(name),
        kind: BookmarkType::folder,
        url: None,
        children: Some(children),
    }
}

#[test]
fn flatten_dedup_nested_folder() {
    // F holds two url leaves and one sub-folder G of two url leaves.
    let g = folder_item("10", "G", vec![url_item("11", "g1", "http://g/1"), url_item("12", "g2", "http://g/2")]);
    let f = folder_item(
        "1",
        "F",
        vec![url_item("2", "f1", "http://f/1"), g, url_item("3", "f2", "http://f/2")],
    );
    let mut acc: Vec<BookmarksItem> = Vec::new();
    let out = BookmarksItem::flatten(vec![f], &mut acc, ChildLevel::Outer);
    // Exactly two entries: G first (via recursion), then the trimmed copy of F.
    assert_eq!(out.len(), 2);
    assert_eq!(out[0].id, "10");
    let g_children = out[0].children.as_ref().unwrap();
    assert_eq!(g_children.len(), 2);
    assert_eq!(g_children[0].id, "11");
    assert_eq!(g_children[1].id, "12");
    assert_eq!(out[1].id, "1");
    // The copy of F keeps only its direct url children: G is dropped.
    let f_children = out[1].children.as_ref().unwrap();
    assert_eq!(f_children.len(), 2);
    assert_eq!(f_children[0].id, "2");
    assert_eq!(f_children[1].id, "3");
}

#[test]
fn flatten_keeps_loose_bookmark() {
    let loose = url_item("7", "loose", "http://loose");
    let plain = folder_item("5", "plain", vec![url_item("6", "inside", "http://inside")]);
    let mut acc: Vec<BookmarksItem> = Vec::new();
    let out = BookmarksItem::flatten(vec![plain, loose], &mut acc, ChildLevel::Outer);
    // The plain folder comes through unchanged, the loose url survives.
    assert_eq!(out.len(), 2);
    assert_eq!(out[0].id, "5");
    assert_eq!(out[1].id, "7");
}

#[test]
fn flatten_nested_url_not_duplicated() {
    // A url one level inside a folder without nested sub-folders shows up
    // only through the folder's child list, not as an entry of its own.
    let folder = folder_item("5", "plain", vec![url_item("6", "inside", "http://inside")]);
    let mut acc: Vec<BookmarksItem> = Vec::new();
    let out = BookmarksItem::flatten(vec![folder], &mut acc, ChildLevel::Outer);
    assert_eq!(out.len(), 1);
    assert_eq!(out[0].id, "5");
    let children = out[0].children.as_ref().unwrap();
    assert_eq!(children.len(), 1);
    assert_eq!(children[0].id, "6");
}

#[test]
fn flatten_inner_level_drops_loose_urls() {
    let loose = url_item("7", "loose", "http://loose");
    let mut acc: Vec<BookmarksItem> = Vec::new();
    let out = BookmarksItem::flatten(vec![loose], &mut acc, ChildLevel::Inner);
    assert_eq!(out.len(), 0);
}

#[test]
fn flatten_empty_folder_passes_through() {
    let folder = folder_item("9", "empty", vec![]);
    let mut acc: Vec<BookmarksItem> = Vec::new();
    let out = BookmarksItem::flatten(vec![folder], &mut acc, ChildLevel::Outer);
    assert_eq!(out.len(), 1);
    assert_eq!(out[0].id, "9");
    assert_eq!(out[0].children.as_ref().unwrap().len(), 0);
}

#[test]
fn flatten_childless_folder_passes_through() {
    // A folder whose child list is absent is appended unchanged, like a
    // folder with a plain child list.
    let folder = BookmarksItem {
        date_added: String::from("0"),
        guid: String::from("guid-8"),
        id: String::from("8"),
        name: String::from("childless"),
        kind: BookmarkType::folder,
        url: None,
        children: None,
    };
    let mut acc: Vec<BookmarksItem> = Vec::new();
    let out = BookmarksItem::flatten(vec![folder], &mut acc, ChildLevel::Outer);
    assert_eq!(out.len(), 1);
    assert_eq!(out[0].id, "8");
    assert!(out[0].children.is_none());
}
