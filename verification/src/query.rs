//! The query engine: category filter, text search and a fixed-size
//! pagination window over the stored record set.
//!
//! The stages apply in order — category, search, pagination — and the
//! window is four records wide. When the filtered set ends inside the
//! requested window, the engine hands back the whole unsliced filtered
//! list with no further pages; this mirrors the reference behaviour for a
//! final partial page and is kept deliberately for compatibility.

use crate::marks::{records_of, BookmarkCategory, MarkData, MarkRecord};
use crate::utils::{str_eq, Error};
use vstd::prelude::*;

verus! {

/// How many records one page holds.
pub const PAGE_SIZE: usize = 4;

/// Whether the search text compiles as a case-insensitive,
/// whitespace-insensitive, multi-line pattern. A fixed text either always
/// compiles or never does.
pub uninterp spec fn pattern_ok(pattern: Seq<char>) -> bool;

/// Whether the compiled pattern of the search text matches the given
/// text; a function of the two texts alone.
pub uninterp spec fn matches_search(pattern: Seq<char>, text: Seq<char>) -> bool;

/// Relies on regex's `RegexBuilder` and `Regex::is_match`: building the
/// engine's search pattern (case-insensitive, whitespace-insensitive,
/// multi-line, the text in one capture group) fails exactly on malformed
/// pattern text, and matching is a pure function of pattern and text.
#[verifier::external_body]
fn search_matches(pattern: &str, text: &str) -> (r: Option<bool>)
    ensures
        r is Some <==> pattern_ok(pattern@),
        r matches Some(b) ==> b == matches_search(pattern@, text@),
{
    let built = regex::RegexBuilder::new(format!("({})", pattern).as_str())
        .multi_line(true)
        .case_insensitive(true)
        .ignore_whitespace(true)
        .build();
    match built {
        Ok(re) => Some(re.is_match(text)),
        Err(_) => None,
    }
}

/// Whether the search text is usable as a pattern at all.
pub fn pattern_compiles(pattern: &str) -> (r: bool)
    ensures
        r == pattern_ok(pattern@),
{
    search_matches(pattern, "").is_some()
}

/// The records of `items` whose category id equals `cat_id`.
pub open spec fn spec_filter_category(items: Seq<MarkRecord>, cat_id: Seq<char>) -> Seq<
    MarkRecord,
> {
    items.filter(|m: MarkRecord| m.category.id == cat_id)
}

/// The records of `items` whose title or description matches the search
/// pattern.
pub open spec fn spec_filter_search(items: Seq<MarkRecord>, pattern: Seq<char>) -> Seq<
    MarkRecord,
> {
    items.filter(
        |m: MarkRecord| matches_search(pattern, m.title) || matches_search(pattern, m.description),
    )
}

/// The pagination window: the page of records starting at `last_index`,
/// and whether at least one more full page follows. A filtered set that
/// ends inside the window is handed back whole, unsliced.
pub open spec fn spec_paginate(items: Seq<MarkRecord>, last_index: int) -> (Seq<MarkRecord>, bool) {
    let next = last_index + PAGE_SIZE;
    if items.len() < last_index {
        (Seq::<MarkRecord>::empty(), false)
    } else if items.len() >= next {
        (items.subrange(last_index, next), items.len() >= next + PAGE_SIZE)
    } else {
        (items, false)
    }
}

/// The category filter commutes with appending one record.
proof fn lemma_filter_category_push(s: Seq<MarkRecord>, x: MarkRecord, cat_id: Seq<char>)
    ensures
        x.category.id == cat_id ==> spec_filter_category(s.push(x), cat_id)
            == spec_filter_category(s, cat_id).push(x),
        x.category.id != cat_id ==> spec_filter_category(s.push(x), cat_id)
            == spec_filter_category(s, cat_id),
{
    reveal(Seq::filter);
    assert(s.push(x).drop_last() =~= s);
    assert(s.push(x).last() == x);
}

/// The search filter commutes with appending one record.
proof fn lemma_filter_search_push(s: Seq<MarkRecord>, x: MarkRecord, pattern: Seq<char>)
    ensures
        (matches_search(pattern, x.title) || matches_search(pattern, x.description))
            ==> spec_filter_search(s.push(x), pattern) == spec_filter_search(s, pattern).push(x),
        !(matches_search(pattern, x.title) || matches_search(pattern, x.description))
            ==> spec_filter_search(s.push(x), pattern) == spec_filter_search(s, pattern),
{
    reveal(Seq::filter);
    assert(s.push(x).drop_last() =~= s);
    assert(s.push(x).last() == x);
}

/// The staged query interface: a builder seeded with the stored records,
/// narrowed by category and search, then windowed.
pub trait IQueryBuilder: Sized {
    /// The records the builder currently holds, as models, in order.
    spec fn items_model(&self) -> Seq<MarkRecord>;

    /// Whether at least one more full page follows the current window.
    spec fn more_model(&self) -> bool;

    /// Seeds the builder: the listed records in order, or nothing when
    /// the store could not be read.
    fn new(items: Result<Vec<MarkData>, Error>) -> (r: Self)
        ensures
            r.items_model() == (match items {
                Ok(v) => records_of(v@),
                Err(_) => Seq::<MarkRecord>::empty(),
            }),
            !r.more_model(),
    ;

    /// Applies the pagination window at `last_index`.
    fn paginate(self, last_index: usize) -> (r: Self)
        requires
            last_index + PAGE_SIZE <= usize::MAX,
        ensures
            r.items_model() == spec_paginate(self.items_model(), last_index as int).0,
            r.more_model() == spec_paginate(self.items_model(), last_index as int).1,
    ;

    /// Keeps only records of the given category, by id identity.
    fn filter_by_category(self, cat: Option<BookmarkCategory>) -> (r: Self)
        ensures
            r.items_model() == (match cat {
                Some(c) => spec_filter_category(self.items_model(), c@.id),
                None => self.items_model(),
            }),
            r.more_model() == self.more_model(),
    ;

    /// Keeps only records whose title or description matches the search
    /// text.
    fn search(self, txt: Option<String>) -> (r: Self)
        requires
            txt matches Some(t) ==> pattern_ok(t@),
        ensures
            r.items_model() == (match txt {
                Some(t) => spec_filter_search(self.items_model(), t@),
                None => self.items_model(),
            }),
            r.more_model() == self.more_model(),
    ;

    /// The window and the more-available flag.
    fn result(&self) -> (r: (bool, Vec<MarkData>))
        ensures
            r.0 == self.more_model(),
            records_of(r.1@) == self.items_model(),
    ;
}

/// The engine's query builder over an in-memory record list.
pub struct QueryBuilder {
    items: Vec<MarkData>,
    has_more: bool,
}

impl IQueryBuilder for QueryBuilder {
    closed spec fn items_model(&self) -> Seq<MarkRecord> {
        records_of(self.items@)
    }

    closed spec fn more_model(&self) -> bool {
        self.has_more
    }

    fn new(items: Result<Vec<MarkData>, Error>) -> (r: Self) {
        match items {
            Ok(v) => QueryBuilder { items: v, has_more: false },
            Err(_) => QueryBuilder { items: Vec::new(), has_more: false },
        }
    }

    fn paginate(self, last_index: usize) -> (r: Self) {
        let n = self.items.len();
        let next_slice = PAGE_SIZE + last_index;
        if n >= last_index {
            if n >= next_slice {
                let has_more = n - next_slice >= PAGE_SIZE;
                let mut window: Vec<MarkData> = Vec::new();
                let mut k = last_index;
                while k < next_slice
                    invariant
                        last_index <= k <= next_slice <= self.items@.len(),
                        records_of(window@) =~= records_of(self.items@).subrange(
                            last_index as int,
                            k as int,
                        ),
                    decreases next_slice - k,
                {
                    let ghost w0 = records_of(window@);
                    window.push(self.items[k].clone());
                    k = k + 1;
                    proof {
                        assert(records_of(window@) =~= w0.push(records_of(self.items@)[k - 1]));
                        assert(records_of(self.items@).subrange(last_index as int, k as int)
                            =~= records_of(self.items@).subrange(
                            last_index as int,
                            k - 1,
                        ).push(records_of(self.items@)[k - 1]));
                    }
                }
                proof {
                    assert(n >= next_slice + PAGE_SIZE <==> n - next_slice >= PAGE_SIZE);
                }
                QueryBuilder { items: window, has_more }
            } else {
                QueryBuilder { items: self.items, has_more: false }
            }
        } else {
            QueryBuilder { items: Vec::new(), has_more: false }
        }
    }

    fn filter_by_category(self, cat: Option<BookmarkCategory>) -> (r: Self) {
        match cat {
            Some(c) => {
                let mut out: Vec<MarkData> = Vec::new();
                let n = self.items.len();
                for i in 0..n
                    invariant
                        n == self.items@.len(),
                        records_of(out@) =~= spec_filter_category(
                            records_of(self.items@).subrange(0, i as int),
                            c@.id,
                        ),
                    decreases n - i,
                {
                    let ghost pre = records_of(self.items@).subrange(0, i as int);
                    let ghost xi = records_of(self.items@)[i as int];
                    let ghost o0 = records_of(out@);
                    if str_eq(c.id.as_str(), self.items[i].category.id.as_str()) {
                        out.push(self.items[i].clone());
                        proof {
                            assert(records_of(out@) =~= o0.push(xi));
                        }
                    }
                    proof {
                        assert(records_of(self.items@).subrange(0, i + 1) =~= pre.push(xi));
                        lemma_filter_category_push(pre, xi, c@.id);
                    }
                }
                proof {
                    assert(records_of(self.items@).subrange(0, n as int) =~= records_of(
                        self.items@,
                    ));
                }
                QueryBuilder { items: out, has_more: self.has_more }
            },
            None => self,
        }
    }

    fn search(self, txt: Option<String>) -> (r: Self) {
        match txt {
            Some(val) => {
                let mut out: Vec<MarkData> = Vec::new();
                let n = self.items.len();
                for i in 0..n
                    invariant
                        n == self.items@.len(),
                        pattern_ok(val@),
                        records_of(out@) =~= spec_filter_search(
                            records_of(self.items@).subrange(0, i as int),
                            val@,
                        ),
                    decreases n - i,
                {
                    let ghost pre = records_of(self.items@).subrange(0, i as int);
                    let ghost xi = records_of(self.items@)[i as int];
                    let ghost o0 = records_of(out@);
                    let title_hit = match search_matches(val.as_str(), self.items[i].title.as_str()) {
                        Some(b) => b,
                        None => false,
                    };
                    let desc_hit = if title_hit {
                        true
                    } else {
                        match search_matches(val.as_str(), self.items[i].description.as_str()) {
                            Some(b) => b,
                            None => false,
                        }
                    };
                    if title_hit || desc_hit {
                        out.push(self.items[i].clone());
                        proof {
                            assert(records_of(out@) =~= o0.push(xi));
                        }
                    }
                    proof {
                        assert(records_of(self.items@).subrange(0, i + 1) =~= pre.push(xi));
                        lemma_filter_search_push(pre, xi, val@);
                    }
                }
                proof {
                    assert(records_of(self.items@).subrange(0, n as int) =~= records_of(
                        self.items@,
                    ));
                }
                QueryBuilder { items: out, has_more: self.has_more }
            },
            None => self,
        }
    }

    fn result(&self) -> (r: (bool, Vec<MarkData>)) {
        let mut out: Vec<MarkData> = Vec::new();
        let n = self.items.len();
        for i in 0..n
            invariant
                n == self.items@.len(),
                out@.len() == i,
                forall|k: int|
                    0 <= k < i ==> (#[trigger] out@[k])@ == records_of(self.items@)[k],
            decreases n - i,
        {
            out.push(self.items[i].clone());
        }
        proof {
            assert(records_of(out@) =~= records_of(self.items@));
        }
        (self.has_more, out)
    }
}

} // verus!
