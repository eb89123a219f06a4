use aan::config;
use aan::marks::{BookmarkCategory, MarkData};
use aan::subscriptions::mark_metas;
use aan::utils::truncate_with_dots;

fn record(id: &str, title: &str, cat_id: &str) -> MarkData {
    MarkData {
        title: String::from(title),
        description: String::new(),
        content: String::from(id),
        image: String::from("default.png"),
        image_data: None,
        category: BookmarkCategory { name: String::from(cat_id), id: String::from(cat_id) },
        link: format!("http://x/{}", id),
    }
}

#[test]
fn truncate_keeps_short_strings() {
    assert_eq!(truncate_with_dots("short", 10), "short");
    assert_eq!(truncate_with_dots("exact", 5), "exact");
}

#[test]
fn truncate_cuts_long_strings() {
    assert_eq!(truncate_with_dots("a very long title", 6), "a very...");
    assert_eq!(truncate_with_dots("abcdef", 3), "abc...");
}

#[test]
fn asset_paths() {
    assert_eq!(config::get_default_image_path(), "assets/default.png");
    assert_eq!(config::get_loader_icon_path(), "assets/loader-icon.svg");
    assert_eq!(config::get_full_img_cache_path("/home/u/.cache"), "/home/u/.cache/aan/images");
    assert_eq!(config::get_cache_file_path("/home/u/.cache"), "/home/u/.cache/aan/Aan.json");
}

#[test]
fn bookmarks_path_per_os() {
    assert_eq!(
        config::get_bookmarks_path("linux", "/home/u/.config", "/home/u/.cache"),
        "/home/u/.config/google-chrome/Default/Bookmarks"
    );
    assert_eq!(
        config::get_bookmarks_path("windows", "/c/cfg", "/c/cache"),
        "/c/cache/Google/Chrome/User Data/Default/Bookmarks"
    );
}

#[test]
fn mark_metas_tags_positions() {
    let metas = mark_metas(4, true, vec![record("a", "one", "c"), record("b", "two", "c")]);
    assert_eq!(metas.len(), 2);
    assert_eq!(metas[0].index, 4);
    assert_eq!(metas[1].index, 5);
    assert_eq!(metas[0].all_len, 6);
    assert!(metas[0].has_more);
    assert_eq!(metas[0].mark.as_ref().unwrap().content, "a");
    assert_eq!(metas[1].mark.as_ref().unwrap().content, "b");
}

#[test]
fn mark_metas_empty_page() {
    let metas = mark_metas(3, true, Vec::new());
    assert_eq!(metas.len(), 1);
    assert!(metas[0].mark.is_none());
    assert_eq!(metas[0].index, 0);
    assert_eq!(metas[0].all_len, 0);
    assert!(!metas[0].has_more);
}

#[test]
fn default_category_sentinel() {
    let cat = BookmarkCategory::default();
    assert_eq!(cat.id, "non categorized");
    assert_eq!(cat.name, "non categorized");
}
