//! The page-watch request and the stream items it produces: the engine
//! answers a page request with a list of records, and the watcher feeds
//! them to its consumer one by one, each tagged with its overall
//! position.

use crate::marks::{records_of, BookmarkCategory, MarkData, MarkMeta};
use vstd::prelude::*;

verus! {

/// One page-watch request: the paging offset together with the category
/// and search criteria it was issued under.
pub struct MarksRecipe {
    /// The category filter of the request, if any.
    pub category: Option<BookmarkCategory>,
    /// The search text of the request, if any.
    pub search: Option<String>,
    /// The offset of the requested page.
    pub last_index: usize,
}

/// The stream items for one answered page: one item per record, indexed
/// from the listing's start, all carrying the page's flag — or a single
/// empty item when the page brought nothing.
pub fn mark_metas(last_index: usize, has_more: bool, marks: Vec<MarkData>) -> (r: Vec<MarkMeta>)
    requires
        last_index + marks@.len() <= usize::MAX,
    ensures
        marks@.len() > 0 ==> r@.len() == marks@.len() && forall|i: int|
            0 <= i < r@.len() ==> ((#[trigger] r@[i]).mark matches Some(m) && m@ == records_of(
                marks@,
            )[i] && r@[i].index == last_index + i && r@[i].all_len == last_index + marks@.len()
                && r@[i].has_more == has_more),
        marks@.len() == 0 ==> r@.len() == 1 && r@[0].mark is None && r@[0].index == 0
            && r@[0].all_len == 0 && !r@[0].has_more,
{
    let marks_length = marks.len();
    if marks_length > 0 {
        let mut out: Vec<MarkMeta> = Vec::new();
        for i in 0..marks_length
            invariant
                marks_length == marks@.len(),
                last_index + marks@.len() <= usize::MAX,
                out@.len() == i,
                forall|k: int|
                    0 <= k < i ==> ((#[trigger] out@[k]).mark matches Some(m) && m@ == records_of(
                        marks@,
                    )[k] && out@[k].index == last_index + k && out@[k].all_len == last_index
                        + marks@.len() && out@[k].has_more == has_more),
            decreases marks_length - i,
        {
            out.push(
                MarkMeta {
                    mark: Some(marks[i].clone()),
                    index: last_index + i,
                    all_len: last_index + marks_length,
                    has_more,
                },
            );
        }
        out
    } else {
        let mut out: Vec<MarkMeta> = Vec::new();
        out.push(MarkMeta { mark: None, index: 0, all_len: 0, has_more: false });
        out
    }
}

} // verus!
