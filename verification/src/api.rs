//! The bookmark engine's front door: the handle that holds the parsed
//! export, the flattened tree, the category catalog and the record store,
//! and the decision logic of the sync pipeline and the query calls.
//!
//! Everything that reads or decides lives here, verified; whatever
//! performs network or file work is outside and hands plain values in
//! and out.

use crate::bookmarks::{
    clone_item, clone_items, count_entry_id, count_forest_id, lemma_nodes_of_concat,
    lemma_nodes_of_pointwise, node_of, nodes_of, spec_flatten, url_only_children, BookmarkFile,
    BookmarkNode, BookmarksItem, BookmarkType, ChildLevel,
};
use crate::config;
use crate::marks::{
    cats_of, records_of, spec_default_category, BookmarkCategory, CategoryView, MarkData,
    MarkRecord,
};
use crate::query::{
    pattern_compiles, pattern_ok, spec_filter_category, spec_filter_search, spec_paginate,
    IQueryBuilder, QueryBuilder, PAGE_SIZE,
};
use crate::store::MarkStore;
use crate::utils::{str_eq, Error};
use vstd::prelude::*;
use vstd::string::StringExecFns;

verus! {

/// The category entries derived from the folder nodes of a flattened
/// list, in order.
pub open spec fn folder_cats(nodes: Seq<BookmarkNode>) -> Seq<CategoryView>
    decreases nodes.len(),
{
    if nodes.len() == 0 {
        Seq::<CategoryView>::empty()
    } else {
        let rest = folder_cats(nodes.drop_first());
        if nodes[0].kind == BookmarkType::folder {
            seq![CategoryView { name: nodes[0].name, id: nodes[0].id }] + rest
        } else {
            rest
        }
    }
}

/// The full category catalog of a flattened list: the default category
/// first, then one entry per folder node.
pub open spec fn spec_categories(nodes: Seq<BookmarkNode>) -> Seq<CategoryView> {
    seq![spec_default_category()] + folder_cats(nodes)
}

/// Deriving folder categories commutes with appending one node.
proof fn lemma_folder_cats_push(s: Seq<BookmarkNode>, x: BookmarkNode)
    ensures
        x.kind == BookmarkType::folder ==> folder_cats(s.push(x)) =~= folder_cats(s).push(
            CategoryView { name: x.name, id: x.id },
        ),
        x.kind != BookmarkType::folder ==> folder_cats(s.push(x)) =~= folder_cats(s),
    decreases s.len(),
{
    if s.len() == 0 {
        assert(s.push(x)[0] == x);
        assert(s.push(x).drop_first() =~= Seq::<BookmarkNode>::empty());
        assert(folder_cats(Seq::<BookmarkNode>::empty()) =~= Seq::<CategoryView>::empty());
    } else {
        assert(s.push(x)[0] == s[0]);
        assert(s.push(x).drop_first() =~= s.drop_first().push(x));
        lemma_folder_cats_push(s.drop_first(), x);
    }
}

/// The first category of the list carrying the given id, if any.
pub open spec fn spec_find_category(cats: Seq<CategoryView>, id: Seq<char>) -> Option<CategoryView>
    decreases cats.len(),
{
    if cats.len() == 0 {
        None
    } else if cats[0].id == id {
        Some(cats[0])
    } else {
        spec_find_category(cats.drop_first(), id)
    }
}

/// A first-match search resolves to the earliest index carrying the id.
proof fn lemma_find_category_at(cats: Seq<CategoryView>, id: Seq<char>, i: int)
    requires
        0 <= i < cats.len(),
        cats[i].id == id,
        forall|k: int| 0 <= k < i ==> (#[trigger] cats[k]).id != id,
    ensures
        spec_find_category(cats, id) == Some(cats[i]),
    decreases i,
{
    if i > 0 {
        assert forall|k: int| 0 <= k < i - 1 implies (#[trigger] cats.drop_first()[k]).id
            != id by {
            assert(cats.drop_first()[k] == cats[k + 1]);
        }
        assert(cats.drop_first()[i - 1] == cats[i]);
        lemma_find_category_at(cats.drop_first(), id, i - 1);
    }
}

/// A search over a list without the id finds nothing.
proof fn lemma_find_category_none(cats: Seq<CategoryView>, id: Seq<char>)
    requires
        forall|k: int| 0 <= k < cats.len() ==> (#[trigger] cats[k]).id != id,
    ensures
        spec_find_category(cats, id) is None,
    decreases cats.len(),
{
    if cats.len() > 0 {
        assert forall|k: int| 0 <= k < cats.len() - 1 implies (#[trigger] cats.drop_first()[k]).id
            != id by {
            assert(cats.drop_first()[k] == cats[k + 1]);
        }
        lemma_find_category_none(cats.drop_first(), id);
    }
}

/// The first node of the list carrying the given id, if any.
pub open spec fn spec_find_node(nodes: Seq<BookmarkNode>, id: Seq<char>) -> Option<BookmarkNode>
    decreases nodes.len(),
{
    if nodes.len() == 0 {
        None
    } else if nodes[0].id == id {
        Some(nodes[0])
    } else {
        spec_find_node(nodes.drop_first(), id)
    }
}

/// A first-match search resolves to the earliest index carrying the id.
proof fn lemma_find_node_at(nodes: Seq<BookmarkNode>, id: Seq<char>, i: int)
    requires
        0 <= i < nodes.len(),
        nodes[i].id == id,
        forall|k: int| 0 <= k < i ==> (#[trigger] nodes[k]).id != id,
    ensures
        spec_find_node(nodes, id) == Some(nodes[i]),
    decreases i,
{
    if i > 0 {
        assert forall|k: int| 0 <= k < i - 1 implies (#[trigger] nodes.drop_first()[k]).id
            != id by {
            assert(nodes.drop_first()[k] == nodes[k + 1]);
        }
        assert(nodes.drop_first()[i - 1] == nodes[i]);
        lemma_find_node_at(nodes.drop_first(), id, i - 1);
    }
}

/// A search over a list without the id finds nothing.
proof fn lemma_find_node_none(nodes: Seq<BookmarkNode>, id: Seq<char>)
    requires
        forall|k: int| 0 <= k < nodes.len() ==> (#[trigger] nodes[k]).id != id,
    ensures
        spec_find_node(nodes, id) is None,
    decreases nodes.len(),
{
    if nodes.len() > 0 {
        assert forall|k: int| 0 <= k < nodes.len() - 1 implies (#[trigger] nodes.drop_first()[k]).id != id by {
            assert(nodes.drop_first()[k] == nodes[k + 1]);
        }
        lemma_find_node_none(nodes.drop_first(), id);
    }
}

/// The engine handle: the parsed export, the flattened tree, the memoized
/// catalog and the record store.
pub struct BookmarkApi {
    /// The parsed export, once handed in.
    pub bookmark_file: Option<BookmarkFile>,
    /// The flattened node list, once derived.
    pub bookmarks: Option<Vec<BookmarksItem>>,
    /// The memoized category catalog; empty until first derived.
    pub categories: Vec<BookmarkCategory>,
    /// The record store.
    pub db: MarkStore,
}

/// Whether a parsed export has been handed in at all. Each of its root
/// collections may hold a node list or be absent; an absent one counts
/// as empty.
pub open spec fn spec_file_ready(s: BookmarkApi) -> bool {
    s.bookmark_file is Some
}

/// The nodes of one root collection; an absent list counts as empty.
pub open spec fn spec_root_nodes(bar: crate::bookmarks::BookmarkBar) -> Seq<BookmarkNode> {
    match bar.children {
        Some(cs) => nodes_of(cs@),
        None => Seq::<BookmarkNode>::empty(),
    }
}

/// The three root collections of the export, in order, as one list.
pub open spec fn spec_raw_nodes(f: BookmarkFile) -> Seq<BookmarkNode> {
    spec_root_nodes(f.roots.bookmark_bar) + spec_root_nodes(f.roots.other) + spec_root_nodes(
        f.roots.synced,
    )
}

/// The node list a flattening pass starts from: the already-derived list
/// when one exists, else the roots of the parsed export.
pub open spec fn spec_base_nodes(s: BookmarkApi) -> Seq<BookmarkNode> {
    if s.bookmarks is Some {
        nodes_of(s.bookmarks->0@)
    } else {
        spec_raw_nodes(s.bookmark_file->0)
    }
}

/// Copies a category list; the copy equals the original.
fn clone_categories(v: &Vec<BookmarkCategory>) -> (r: Vec<BookmarkCategory>)
    ensures
        r@ == v@,
{
    let mut out: Vec<BookmarkCategory> = Vec::new();
    let n = v.len();
    for i in 0..n
        invariant
            n == v@.len(),
            out@ =~= v@.subrange(0, i as int),
        decreases n - i,
    {
        out.push(v[i].clone());
        proof {
            assert(out@ =~= v@.subrange(0, i + 1));
        }
    }
    proof {
        assert(v@.subrange(0, n as int) =~= v@);
    }
    out
}

impl BookmarkApi {
    /// The store holds each id at most once.
    pub open spec fn wf(&self) -> bool {
        self.db.wf()
    }

    /// A fresh handle: nothing parsed, nothing derived, an empty store.
    pub fn new() -> (s: Self)
        ensures
            s.wf(),
            s.bookmark_file is None,
            s.bookmarks is None,
            s.categories@.len() == 0,
            s.db.spec_keys().len() == 0,
            s.db.spec_records().len() == 0,
    {
        BookmarkApi {
            bookmark_file: None,
            bookmarks: None,
            categories: Vec::new(),
            db: MarkStore::new(),
        }
    }

    /// Hands the parsed export to the engine.
    pub fn set_bookmark_file(&mut self, file: BookmarkFile)
        ensures
            final(self).bookmark_file == Some(file),
            final(self).bookmarks == old(self).bookmarks,
            final(self).categories == old(self).categories,
            final(self).db == old(self).db,
    {
        self.bookmark_file = Some(file);
    }

    /// Derives the flattened node list: on the first call the three root
    /// collections are gathered and flattened; later calls re-flatten the
    /// stored list. The result is a copy of the stored list.
    pub fn get_raw_bookmarks(&mut self) -> (r: Vec<BookmarksItem>)
        requires
            old(self).bookmarks is None ==> spec_file_ready(*old(self)),
        ensures
            final(self).bookmarks matches Some(b) && nodes_of(b@) == spec_flatten(
                spec_base_nodes(*old(self)),
                ChildLevel::Outer,
            ),
            nodes_of(r@) == nodes_of(final(self).bookmarks->0@),
            final(self).bookmark_file == old(self).bookmark_file,
            final(self).categories == old(self).categories,
            final(self).db == old(self).db,
    {
        if self.bookmarks.is_none() {
            let mut new_bookmarks: Vec<BookmarksItem> = Vec::new();
            match &self.bookmark_file {
                Some(f) => {
                    let mut bar = match &f.roots.bookmark_bar.children {
                        Some(cs) => clone_items(cs),
                        None => Vec::new(),
                    };
                    let mut other = match &f.roots.other.children {
                        Some(cs) => clone_items(cs),
                        None => Vec::new(),
                    };
                    let mut synced = match &f.roots.synced.children {
                        Some(cs) => clone_items(cs),
                        None => Vec::new(),
                    };
                    proof {
                        assert(nodes_of(bar@) == spec_root_nodes(f.roots.bookmark_bar));
                        assert(nodes_of(other@) == spec_root_nodes(f.roots.other));
                        assert(nodes_of(synced@) == spec_root_nodes(f.roots.synced));
                    }
                    let ghost barm = bar@;
                    let ghost otherm = other@;
                    let ghost syncedm = synced@;
                    new_bookmarks.append(&mut bar);
                    new_bookmarks.append(&mut other);
                    new_bookmarks.append(&mut synced);
                    proof {
                        assert(new_bookmarks@ =~= barm + otherm + syncedm);
                        lemma_nodes_of_concat(barm + otherm, syncedm);
                        lemma_nodes_of_concat(barm, otherm);
                        assert((barm + otherm) + syncedm =~= new_bookmarks@);
                        assert(nodes_of(new_bookmarks@) =~= spec_raw_nodes(
                            old(self).bookmark_file->0,
                        ));
                    }
                },
                None => {
                    proof {
                        assert(false);
                    }
                },
            }
            self.bookmarks = Some(new_bookmarks);
        }
        proof {
            assert(nodes_of(self.bookmarks->0@) == spec_base_nodes(*old(self)));
        }
        let current = match &self.bookmarks {
            Some(b) => clone_items(b),
            None => {
                proof {
                    assert(false);
                }
                Vec::new()
            },
        };
        let mut acc: Vec<BookmarksItem> = Vec::new();
        let flat = BookmarksItem::flatten(current, &mut acc, ChildLevel::Outer);
        self.bookmarks = Some(acc);
        flat
    }

    /// The category catalog: the default category first, then one entry
    /// per folder of the flattened tree. Memoized — once non-empty, later
    /// calls hand back the same catalog; a fresh one needs an explicit
    /// reset first.
    pub fn get_categories(&mut self) -> (r: Vec<BookmarkCategory>)
        requires
            old(self).categories@.len() == 0 && old(self).bookmarks is None ==> spec_file_ready(
                *old(self),
            ),
        ensures
            r@ == final(self).categories@,
            final(self).bookmark_file == old(self).bookmark_file,
            final(self).db == old(self).db,
            old(self).categories@.len() > 0 ==> *final(self) == *old(self),
            old(self).categories@.len() == 0 ==> cats_of(final(self).categories@)
                == spec_categories(
                spec_flatten(spec_base_nodes(*old(self)), ChildLevel::Outer),
            ) && (final(self).bookmarks matches Some(b) && nodes_of(b@) == spec_flatten(
                spec_base_nodes(*old(self)),
                ChildLevel::Outer,
            )),
            old(self).categories@.len() == 0 ==> r@.len() >= 1 && r@[0]@
                == spec_default_category(),
    {
        if self.categories.len() == 0 {
            let bookmarks = self.get_raw_bookmarks();
            let ghost flat = nodes_of(bookmarks@);
            proof {
                lemma_nodes_of_pointwise(bookmarks@);
            }
            let mut categories: Vec<BookmarkCategory> = Vec::new();
            let n = bookmarks.len();
            for i in 0..n
                invariant
                    n == bookmarks@.len(),
                    flat == nodes_of(bookmarks@),
                    flat.len() == n,
                    forall|k: int| 0 <= k < n ==> flat[k] == node_of(#[trigger] bookmarks@[k]),
                    cats_of(categories@) =~= folder_cats(flat.subrange(0, i as int)),
                decreases n - i,
            {
                let ghost pre = flat.subrange(0, i as int);
                let ghost c0 = cats_of(categories@);
                if bookmarks[i].kind == BookmarkType::folder {
                    categories.push(
                        BookmarkCategory {
                            name: bookmarks[i].name.clone(),
                            id: bookmarks[i].id.clone(),
                        },
                    );
                    proof {
                        assert(cats_of(categories@) =~= c0.push(
                            CategoryView { name: flat[i as int].name, id: flat[i as int].id },
                        ));
                    }
                }
                proof {
                    assert(flat.subrange(0, i + 1) =~= pre.push(flat[i as int]));
                    lemma_folder_cats_push(pre, flat[i as int]);
                }
            }
            proof {
                assert(flat.subrange(0, n as int) =~= flat);
            }
            self.categories.push(BookmarkCategory::default());
            self.categories.append(&mut categories);
            proof {
                assert(cats_of(self.categories@) =~= spec_categories(flat));
            }
        }
        clone_categories(&self.categories)
    }

    /// The catalog entry carrying the given id, if the catalog has one.
    /// Derives the catalog first when none is memoized yet.
    pub fn get_category(&mut self, cat_id: &str) -> (r: Option<BookmarkCategory>)
        requires
            old(self).categories@.len() == 0 && old(self).bookmarks is None ==> spec_file_ready(
                *old(self),
            ),
        ensures
            final(self).bookmark_file == old(self).bookmark_file,
            final(self).db == old(self).db,
            old(self).categories@.len() > 0 ==> *final(self) == *old(self),
            old(self).categories@.len() == 0 ==> cats_of(final(self).categories@)
                == spec_categories(
                spec_flatten(spec_base_nodes(*old(self)), ChildLevel::Outer),
            ),
            (match r {
                Some(c) => Some(c@),
                None => None,
            }) == spec_find_category(cats_of(final(self).categories@), cat_id@),
    {
        let cats = self.get_categories();
        let n = cats.len();
        let ghost cm = cats_of(cats@);
        for i in 0..n
            invariant
                n == cats@.len(),
                cm == cats_of(cats@),
                cm == cats_of(self.categories@),
                self.bookmark_file == old(self).bookmark_file,
                self.db == old(self).db,
                old(self).categories@.len() > 0 ==> *self == *old(self),
                old(self).categories@.len() == 0 ==> cats_of(self.categories@)
                    == spec_categories(
                    spec_flatten(spec_base_nodes(*old(self)), ChildLevel::Outer),
                ),
                forall|k: int| 0 <= k < i ==> (#[trigger] cm[k]).id != cat_id@,
            decreases n - i,
        {
            if str_eq(cats[i].id.as_str(), cat_id) {
                proof {
                    assert(cm[i as int].id == cat_id@);
                    lemma_find_category_at(cm, cat_id@, i as int);
                }
                return Some(cats[i].clone());
            }
            proof {
                assert((cm[i as int]).id != cat_id@);
            }
        }
        proof {
            lemma_find_category_none(cm, cat_id@);
        }
        None
    }

    /// The leaves of a sync scope: for a category id, the child list of
    /// the matching flattened node; with no id, every url-kind entry of
    /// the flattened list (the loose bucket).
    pub fn filter_marks_by_category(&mut self, cat_id: Option<&str>) -> (r: Vec<BookmarksItem>)
        ensures
            *final(self) == *old(self),
            nodes_of(r@) == (match cat_id {
                Some(cid) => (match spec_find_node(
                    (match old(self).bookmarks {
                        Some(b) => nodes_of(b@),
                        None => Seq::<BookmarkNode>::empty(),
                    }),
                    cid@,
                ) {
                    Some(n) => if n.children is Some {
                        n.children->0
                    } else {
                        Seq::<BookmarkNode>::empty()
                    },
                    None => Seq::<BookmarkNode>::empty(),
                }),
                None => url_only_children(
                    (match old(self).bookmarks {
                        Some(b) => nodes_of(b@),
                        None => Seq::<BookmarkNode>::empty(),
                    }),
                ),
            }),
    {
        let ghost bm = match old(self).bookmarks {
            Some(b) => nodes_of(b@),
            None => Seq::<BookmarkNode>::empty(),
        };
        match cat_id {
            Some(cid) => {
                match &self.bookmarks {
                    Some(b) => {
                        proof {
                            lemma_nodes_of_pointwise(b@);
                        }
                        let n = b.len();
                        for i in 0..n
                            invariant
                                n == b@.len(),
                                bm == nodes_of(b@),
                                old(self).bookmarks is Some,
                                b@ == old(self).bookmarks->0@,
                                cat_id matches Some(cc) && cc@ == cid@,
                                bm.len() == n,
                                forall|k: int|
                                    0 <= k < n ==> bm[k] == node_of(#[trigger] b@[k]),
                                forall|k: int| 0 <= k < i ==> (#[trigger] bm[k]).id != cid@,
                            decreases n - i,
                        {
                            if str_eq(b[i].id.as_str(), cid) {
                                proof {
                                    assert(bm[i as int].id == cid@);
                                    lemma_find_node_at(bm, cid@, i as int);
                                }
                                match &b[i].children {
                                    Some(cs) => {
                                        proof {
                                            assert(bm[i as int] == node_of(b@[i as int]));
                                            assert(bm[i as int].children == Some(nodes_of(cs@)));
                                        }
                                        return clone_items(cs);
                                    },
                                    None => {
                                        proof {
                                            assert(bm[i as int] == node_of(b@[i as int]));
                                            assert(bm[i as int].children is None);
                                        }
                                        return Vec::new();
                                    },
                                }
                            }
                            proof {
                                assert((bm[i as int]).id != cid@);
                            }
                        }
                        proof {
                            lemma_find_node_none(bm, cid@);
                        }
                        Vec::new()
                    },
                    None => {
                        proof {
                            lemma_find_node_none(bm, cid@);
                        }
                        Vec::new()
                    },
                }
            },
            None => {
                match &self.bookmarks {
                    Some(b) => {
                        proof {
                            lemma_nodes_of_pointwise(b@);
                        }
                        let mut out: Vec<BookmarksItem> = Vec::new();
                        let n = b.len();
                        for i in 0..n
                            invariant
                                n == b@.len(),
                                bm == nodes_of(b@),
                                old(self).bookmarks is Some,
                                b@ == old(self).bookmarks->0@,
                                bm.len() == n,
                                forall|k: int|
                                    0 <= k < n ==> bm[k] == node_of(#[trigger] b@[k]),
                                nodes_of(out@) =~= url_only_children(bm.subrange(0, i as int)),
                            decreases n - i,
                        {
                            let ghost pre = bm.subrange(0, i as int);
                            let ghost o0 = nodes_of(out@);
                            if b[i].kind == BookmarkType::url {
                                let cloned = clone_item(&b[i]);
                                let ghost out_old = out@;
                                out.push(cloned);
                                proof {
                                    assert(out@ =~= out_old.push(cloned));
                                    crate::bookmarks::lemma_nodes_of_push(out_old, cloned);
                                    assert(nodes_of(out@) =~= o0.push(bm[i as int]));
                                }
                            }
                            proof {
                                assert(bm.subrange(0, i + 1) =~= pre.push(bm[i as int]));
                                crate::bookmarks::lemma_url_only_push(pre, bm[i as int]);
                            }
                        }
                        proof {
                            assert(bm.subrange(0, n as int) =~= bm);
                        }
                        out
                    },
                    None => {
                        proof {
                            assert(url_only_children(bm) =~= Seq::<BookmarkNode>::empty()) by {
                                reveal(Seq::filter);
                            }
                        }
                        Vec::new()
                    },
                }
            },
        }
    }

    /// Forgets the parsed export, the flattened list and the catalog, so
    /// the next derivation starts from a fresh export. The store keeps
    /// its records.
    pub fn reset_bookmarks(&mut self)
        ensures
            final(self).bookmark_file is None,
            final(self).bookmarks is None,
            final(self).categories@.len() == 0,
            final(self).db == old(self).db,
    {
        self.categories = Vec::new();
        self.bookmarks = None;
        self.bookmark_file = None;
    }

    /// Clears everything, the record store included: afterwards the store
    /// enumerates nothing, and ingestion starts over from a fresh export.
    pub fn flush_all_resync(&mut self)
        ensures
            final(self).bookmark_file is None,
            final(self).bookmarks is None,
            final(self).categories@.len() == 0,
            final(self).wf(),
            final(self).db.spec_keys().len() == 0,
            final(self).db.spec_records().len() == 0,
    {
        self.reset_bookmarks();
        self.db.reset();
    }
}


/// The leaves of a scope that still need enrichment: those whose id the
/// store does not hold yet.
pub open spec fn spec_sync_plan(db: MarkStore, nodes: Seq<BookmarkNode>) -> Seq<BookmarkNode> {
    nodes.filter(|n: BookmarkNode| !db.spec_contains(n.id))
}

/// Planning commutes with appending one leaf.
proof fn lemma_sync_plan_push(db: MarkStore, s: Seq<BookmarkNode>, x: BookmarkNode)
    ensures
        !db.spec_contains(x.id) ==> spec_sync_plan(db, s.push(x)) == spec_sync_plan(db, s).push(x),
        db.spec_contains(x.id) ==> spec_sync_plan(db, s.push(x)) == spec_sync_plan(db, s),
{
    reveal(Seq::filter);
    assert(s.push(x).drop_last() =~= s);
    assert(s.push(x).last() == x);
}

/// Law of sync dedup: when the store already holds a record under an id,
/// no node carrying that id is in the sync plan, so no fetch is ever
/// issued for it during the pass.
pub proof fn lemma_sync_plan_skips_existing(
    db: MarkStore,
    nodes: Seq<BookmarkNode>,
    id: Seq<char>,
)
    requires
        db.spec_contains(id),
    ensures
        forall|i: int|
            0 <= i < spec_sync_plan(db, nodes).len() ==> (#[trigger] spec_sync_plan(db, nodes)[i]).id != id,
{
    broadcast use vstd::seq_lib::group_filter_ensures;

}

/// What `std::path::Path::extension` yields for a file name, as text.
pub uninterp spec fn extension_of(name: Seq<char>) -> Option<Seq<char>>;

/// The cache file name derived from a leaf id and its image URL.
pub open spec fn spec_image_file_name(id: Seq<char>, img_url: Seq<char>) -> Seq<char> {
    id + "."@ + (match extension_of(img_url) {
        Some(e) => e,
        None => "png"@,
    })
}

/// The query pipeline over the stored records: category filter, then
/// text search, then the pagination window.
pub open spec fn spec_query(
    records: Seq<MarkRecord>,
    cat: Option<CategoryView>,
    search: Option<Seq<char>>,
    last_index: int,
) -> (Seq<MarkRecord>, bool) {
    let after_cat = match cat {
        Some(c) => spec_filter_category(records, c.id),
        None => records,
    };
    let after_search = match search {
        Some(t) => spec_filter_search(after_cat, t),
        None => after_cat,
    };
    spec_paginate(after_search, last_index)
}

impl BookmarkApi {
    /// Whether a leaf with this id still needs enrichment: exactly when
    /// the store holds no record under it.
    pub fn should_scrape(&self, id: &str) -> (r: bool)
        requires
            self.wf(),
        ensures
            r == !self.db.spec_contains(id@),
    {
        self.db.get(id).is_none()
    }

    /// The leaves of `items` that still need enrichment, in order:
    /// exactly those without a stored record.
    pub fn sync_plan(&self, items: &Vec<BookmarksItem>) -> (r: Vec<BookmarksItem>)
        requires
            self.wf(),
        ensures
            nodes_of(r@) == spec_sync_plan(self.db, nodes_of(items@)),
    {
        proof {
            lemma_nodes_of_pointwise(items@);
        }
        let ghost m = nodes_of(items@);
        let mut out: Vec<BookmarksItem> = Vec::new();
        let n = items.len();
        for i in 0..n
            invariant
                self.wf(),
                n == items@.len(),
                m == nodes_of(items@),
                m.len() == n,
                forall|k: int| 0 <= k < n ==> m[k] == node_of(#[trigger] items@[k]),
                nodes_of(out@) =~= spec_sync_plan(self.db, m.subrange(0, i as int)),
            decreases n - i,
        {
            let ghost pre = m.subrange(0, i as int);
            let ghost o0 = nodes_of(out@);
            if self.should_scrape(items[i].id.as_str()) {
                let cloned = clone_item(&items[i]);
                let ghost out_old = out@;
                out.push(cloned);
                proof {
                    assert(out@ =~= out_old.push(cloned));
                    crate::bookmarks::lemma_nodes_of_push(out_old, cloned);
                    assert(nodes_of(out@) =~= o0.push(m[i as int]));
                }
            }
            proof {
                assert(m.subrange(0, i + 1) =~= pre.push(m[i as int]));
                lemma_sync_plan_push(self.db, pre, m[i as int]);
            }
        }
        proof {
            assert(m.subrange(0, n as int) =~= m);
        }
        out
    }

    /// Whether a failed bounded enrichment attempt earns the single retry
    /// of this pass: only a first attempt that produced nothing does.
    pub fn should_retry(attempt: usize, produced: bool) -> (r: bool)
        ensures
            r == (attempt == 0 && !produced),
    {
        attempt == 0 && !produced
    }

    /// Whether fetched image bytes are worth caching: only a successful
    /// fetch that brought at least one byte.
    pub fn should_cache_image(img_data: &Result<Vec<u8>, Error>) -> (r: bool)
        ensures
            r == (img_data matches Ok(d) && d@.len() > 0),
    {
        match img_data {
            Ok(d) => d.len() > 0,
            Err(_) => false,
        }
    }

    /// The image reference a record gets: the cached file name when one
    /// was written, else the sentinel default-image path.
    pub fn image_path_or_default(cached: Option<String>) -> (r: String)
        ensures
            r@ == (match cached {
                Some(p) => p@,
                None => config::DEFAULT_IMG_PATH@,
            }),
    {
        match cached {
            Some(p) => p,
            None => config::DEFAULT_IMG_PATH.to_owned(),
        }
    }

    /// The record persisted for a leaf once the image decision is made:
    /// title from the node's name, empty description, the node id as the
    /// cross-reference token, a snapshot of the category, the original
    /// URL.
    pub fn build_mark_data(item: &BookmarksItem, cat: &BookmarkCategory, image: String) -> (r:
        MarkData)
        requires
            item.url is Some,
        ensures
            r@.title == node_of(*item).name,
            r@.description == Seq::<char>::empty(),
            r@.image == image@,
            r@.content == node_of(*item).id,
            r@.image_data is None,
            r@.category == cat@,
            r@.link == node_of(*item).url->0,
    {
        let link = match &item.url {
            Some(u) => u.clone(),
            None => {
                proof {
                    assert(false);
                }
                String::new()
            },
        };
        MarkData::new(
            MarkData {
                title: item.name.clone(),
                description: String::new(),
                image,
                content: item.id.clone(),
                image_data: None,
                category: cat.clone(),
                link,
            },
        )
    }

    /// Relies on std's `Path::extension`: the extension of the file name
    /// at the end of the path, without its leading dot, `None` when there
    /// is none; a function of the text alone.
    #[verifier::external_body]
    pub fn get_extension_from_filename(filename: &str) -> (r: Option<String>)
        ensures
            r is Some <==> extension_of(filename@) is Some,
            r matches Some(e) ==> Some(e@) == extension_of(filename@),
    {
        std::path::Path::new(filename).extension().and_then(|e| e.to_str()).map(
            |e| e.to_string(),
        )
    }

    /// The cache file name of a leaf's preview image: the leaf id, a dot,
    /// and the image URL's extension, with `png` standing in when the URL
    /// carries none.
    pub fn image_file_name(id: &str, img_url: &str) -> (r: String)
        ensures
            r@ == spec_image_file_name(id@, img_url@),
    {
        let mut name = id.to_owned();
        name.append(".");
        match Self::get_extension_from_filename(img_url) {
            Some(e) => name.append(e.as_str()),
            None => name.append("png"),
        }
        name
    }

    /// The stored records of one category, in enumeration order: those
    /// whose snapshot carries the category's id.
    pub fn load_marks(&self, cat: &BookmarkCategory) -> (r: Result<Vec<MarkData>, Error>)
        ensures
            r matches Ok(items) && records_of(items@) == spec_filter_category(
                self.db.spec_records(),
                cat@.id,
            ),
    {
        let all = self.db.all();
        let (_, items) = QueryBuilder::new(Ok(all)).filter_by_category(
            Some(cat.clone()),
        ).result();
        Ok(items)
    }

    /// One page of the filtered, searched record set, with the
    /// more-available flag. Search text that does not compile as a
    /// pattern is answered with `LanguageError` and touches nothing.
    pub fn load_marks_sync(
        &self,
        last_index: usize,
        category: Option<BookmarkCategory>,
        search: Option<String>,
    ) -> (r: Result<(bool, Vec<MarkData>), Error>)
        requires
            last_index + PAGE_SIZE <= usize::MAX,
        ensures
            (match search {
                Some(t) => pattern_ok(t@),
                None => true,
            }) ==> (r matches Ok(p) && records_of(p.1@) == spec_query(
                self.db.spec_records(),
                (match category {
                    Some(c) => Some(c@),
                    None => None,
                }),
                (match search {
                    Some(t) => Some(t@),
                    None => None,
                }),
                last_index as int,
            ).0 && p.0 == spec_query(
                self.db.spec_records(),
                (match category {
                    Some(c) => Some(c@),
                    None => None,
                }),
                (match search {
                    Some(t) => Some(t@),
                    None => None,
                }),
                last_index as int,
            ).1),
            (match search {
                Some(t) => !pattern_ok(t@),
                None => false,
            }) ==> (r matches Err(e) && e == Error::LanguageError),
    {
        match &search {
            Some(t) => {
                if !pattern_compiles(t.as_str()) {
                    return Err(Error::LanguageError);
                }
            },
            None => {},
        }
        let result = self.db.all();
        let (has_more, items) = QueryBuilder::new(Ok(result)).filter_by_category(
            category,
        ).search(search).paginate(last_index).result();
        Ok((has_more, items))
    }
}

/// Law of resync: a store in the state that a full flush leaves behind
/// enumerates nothing, so the first listing after a flush-and-resync is
/// empty until new scrapes land.
pub proof fn lemma_resync_store_empty(api: BookmarkApi, listed: Seq<MarkRecord>)
    requires
        api.db.spec_records().len() == 0,
        listed == api.db.spec_records(),
    ensures
        listed.len() == 0,
{
}


/// How many catalog entries carry the given id.
pub open spec fn count_cat_id(cats: Seq<CategoryView>, id: Seq<char>) -> nat
    decreases cats.len(),
{
    if cats.len() == 0 {
        0
    } else {
        (if cats[0].id == id {
            1nat
        } else {
            0nat
        }) + count_cat_id(cats.drop_first(), id)
    }
}

/// The folder catalog never carries an id more often than the flattened
/// list does.
proof fn lemma_folder_cats_counts(nodes: Seq<BookmarkNode>, id: Seq<char>)
    ensures
        count_cat_id(folder_cats(nodes), id) <= count_entry_id(nodes, id),
    decreases nodes.len(),
{
    if nodes.len() > 0 {
        lemma_folder_cats_counts(nodes.drop_first(), id);
        if nodes[0].kind == BookmarkType::folder {
            let head = CategoryView { name: nodes[0].name, id: nodes[0].id };
            let whole = seq![head] + folder_cats(nodes.drop_first());
            assert(whole[0] == head);
            assert(whole.drop_first() =~= folder_cats(nodes.drop_first()));
        }
    }
}

/// An id present at some catalog index counts at least once.
proof fn lemma_count_cat_ge_one(cats: Seq<CategoryView>, i: int)
    requires
        0 <= i < cats.len(),
    ensures
        count_cat_id(cats, cats[i].id) >= 1,
    decreases i,
{
    if i > 0 {
        assert(cats.drop_first()[i - 1] == cats[i]);
        lemma_count_cat_ge_one(cats.drop_first(), i - 1);
    }
}

/// An id present at two catalog indices counts at least twice.
proof fn lemma_count_cat_ge_two(cats: Seq<CategoryView>, i: int, j: int)
    requires
        0 <= i < j < cats.len(),
        cats[i].id == cats[j].id,
    ensures
        count_cat_id(cats, cats[i].id) >= 2,
    decreases i,
{
    if i == 0 {
        assert(cats.drop_first()[j - 1] == cats[j]);
        lemma_count_cat_ge_one(cats.drop_first(), j - 1);
    } else {
        assert(cats.drop_first()[i - 1] == cats[i]);
        assert(cats.drop_first()[j - 1] == cats[j]);
        lemma_count_cat_ge_two(cats.drop_first(), i - 1, j - 1);
    }
}

/// Law of the default category: in the catalog derived from flattening a
/// tree whose node ids are pairwise distinct, the first entry is the
/// default category and the remaining entries carry pairwise distinct
/// ids.
pub proof fn lemma_catalog_distinct(nodes: Seq<BookmarkNode>)
    requires
        forall|id: Seq<char>| #[trigger] count_forest_id(nodes, id) <= 1,
    ensures
        spec_categories(spec_flatten(nodes, ChildLevel::Outer)).len() >= 1,
        spec_categories(spec_flatten(nodes, ChildLevel::Outer))[0] == spec_default_category(),
        forall|i: int, j: int|
            1 <= i < j < spec_categories(spec_flatten(nodes, ChildLevel::Outer)).len() ==> (
            #[trigger] spec_categories(spec_flatten(nodes, ChildLevel::Outer))[i]).id != (
            #[trigger] spec_categories(spec_flatten(nodes, ChildLevel::Outer))[j]).id,
        count_forest_id(nodes, spec_default_category().id) == 0 ==> forall|i: int, j: int|
            0 <= i < j < spec_categories(spec_flatten(nodes, ChildLevel::Outer)).len() ==> (
            #[trigger] spec_categories(spec_flatten(nodes, ChildLevel::Outer))[i]).id != (
            #[trigger] spec_categories(spec_flatten(nodes, ChildLevel::Outer))[j]).id,
{
    let flat = spec_flatten(nodes, ChildLevel::Outer);
    let tail = folder_cats(flat);
    let catalog = spec_categories(flat);
    assert(catalog[0] == spec_default_category());
    assert forall|i: int, j: int| 1 <= i < j < catalog.len() implies (
        #[trigger] catalog[i]).id != (#[trigger] catalog[j]).id by {
        assert(catalog[i] == tail[i - 1]);
        assert(catalog[j] == tail[j - 1]);
        if tail[i - 1].id == tail[j - 1].id {
            lemma_count_cat_ge_two(tail, i - 1, j - 1);
            lemma_folder_cats_counts(flat, tail[i - 1].id);
            crate::bookmarks::lemma_flatten_counts(nodes, ChildLevel::Outer, tail[i - 1].id);
            assert(count_forest_id(nodes, tail[i - 1].id) <= 1);
            assert(false);
        }
    }
    if count_forest_id(nodes, spec_default_category().id) == 0 {
        assert forall|j: int| 1 <= j < catalog.len() implies (#[trigger] catalog[j]).id
            != spec_default_category().id by {
            assert(catalog[j] == tail[j - 1]);
            if tail[j - 1].id == spec_default_category().id {
                lemma_count_cat_ge_one(tail, j - 1);
                lemma_folder_cats_counts(flat, spec_default_category().id);
                crate::bookmarks::lemma_flatten_counts(
                    nodes,
                    ChildLevel::Outer,
                    spec_default_category().id,
                );
                assert(false);
            }
        }
        assert forall|i: int, j: int| 0 <= i < j < catalog.len() implies (
        #[trigger] catalog[i]).id != (#[trigger] catalog[j]).id by {
            if i == 0 {
                assert(catalog[j].id != spec_default_category().id);
            }
        }
    }
}

} // verus!
