//! Categories and enriched records: the durable data the engine keeps for
//! each leaf bookmark, and the grouping derived from folders.

use vstd::prelude::*;
use vstd::string::StringExecFns;

verus! {

/// A named grouping of leaf bookmarks, derived one-to-one from folder
/// nodes, plus one reserved default instance for bookmarks outside any
/// folder.
#[derive(Debug)]
pub struct BookmarkCategory {
    /// Display name.
    pub name: String,
    /// Category id; for regular categories the id of the folder node.
    pub id: String,
}

/// The mathematical form of a category.
#[verifier::ext_equal]
pub struct CategoryView {
    /// Display name.
    pub name: Seq<char>,
    /// Category id.
    pub id: Seq<char>,
}

impl View for BookmarkCategory {
    type V = CategoryView;

    open spec fn view(&self) -> CategoryView {
        CategoryView { name: self.name@, id: self.id@ }
    }
}

impl Clone for BookmarkCategory {
    /// A copy equal to the source category.
    fn clone(&self) -> (r: Self)
        ensures
            r == *self,
    {
        BookmarkCategory { name: self.name.clone(), id: self.id.clone() }
    }
}

/// The fixed sentinel id-and-name pair of the default category.
pub open spec fn spec_default_category() -> CategoryView {
    CategoryView { name: "non categorized"@, id: "non categorized"@ }
}

impl BookmarkCategory {
    /// The reserved default category: the always-present first catalog
    /// entry, standing for bookmarks outside any folder.
    pub fn default() -> (r: Self)
        ensures
            r@ == spec_default_category(),
    {
        BookmarkCategory {
            id: String::from_str("non categorized"),
            name: String::from_str("non categorized"),
        }
    }
}

/// The enriched, persisted form of a leaf bookmark.
#[derive(Debug)]
pub struct MarkData {
    /// Display title, from the node's name.
    pub title: String,
    /// Free-form description; empty for scraped records.
    pub description: String,
    /// The originating node id, the cross-reference and dedup token.
    pub content: String,
    /// Either the sentinel default-image path or a cache-relative file
    /// name.
    pub image: String,
    /// Raw image bytes, when carried inline rather than on disk.
    pub image_data: Option<Vec<u8>>,
    /// A full snapshot of the category at enrichment time.
    pub category: BookmarkCategory,
    /// The original URL.
    pub link: String,
}

/// The mathematical form of an enriched record.
#[verifier::ext_equal]
pub struct MarkRecord {
    /// Display title.
    pub title: Seq<char>,
    /// Free-form description.
    pub description: Seq<char>,
    /// The originating node id.
    pub content: Seq<char>,
    /// Sentinel path or cache-relative file name.
    pub image: Seq<char>,
    /// Raw image bytes, when carried inline.
    pub image_data: Option<Seq<u8>>,
    /// The category snapshot.
    pub category: CategoryView,
    /// The original URL.
    pub link: Seq<char>,
}

impl View for MarkData {
    type V = MarkRecord;

    open spec fn view(&self) -> MarkRecord {
        MarkRecord {
            title: self.title@,
            description: self.description@,
            content: self.content@,
            image: self.image@,
            image_data: match self.image_data {
                Some(d) => Some(d@),
                None => None,
            },
            category: self.category@,
            link: self.link@,
        }
    }
}

impl Clone for MarkData {
    /// A copy whose model equals the source record's model.
    fn clone(&self) -> (r: Self)
        ensures
            r@ == self@,
    {
        let r = MarkData {
            title: self.title.clone(),
            description: self.description.clone(),
            content: self.content.clone(),
            image: self.image.clone(),
            image_data: match &self.image_data {
                Some(d) => Some(d.clone()),
                None => None,
            },
            category: self.category.clone(),
            link: self.link.clone(),
        };
        proof {
            assert(r@ =~= self@);
        }
        r
    }
}

impl MarkData {
    /// Wraps an already-assembled record; the result is that record.
    pub fn new(data: MarkData) -> (r: Self)
        ensures
            r == data,
    {
        Self { ..data }
    }
}

/// The models of a list of records, in order.
pub open spec fn records_of(items: Seq<MarkData>) -> Seq<MarkRecord> {
    items.map_values(|m: MarkData| m@)
}

/// The models of a list of categories, in order.
pub open spec fn cats_of(items: Seq<BookmarkCategory>) -> Seq<CategoryView> {
    items.map_values(|c: BookmarkCategory| c@)
}

/// One element of the stream a page query feeds to its consumer: a record
/// together with its overall position and the paging flag.
#[derive(Debug, Clone)]
pub struct MarkMeta {
    /// The record, or nothing when the page was empty.
    pub mark: Option<MarkData>,
    /// The record's index counted from the start of the whole listing.
    pub index: usize,
    /// How many records the listing holds up to and including this page.
    pub all_len: usize,
    /// Whether at least one more full page follows.
    pub has_more: bool,
}

} // verus!
