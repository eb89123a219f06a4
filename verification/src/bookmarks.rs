//! The bookmark tree: the typed form of a browser's bookmark export, and
//! the flattening pass that reduces it to category nodes and loose leaves.
//!
//! A tree node is either a folder or a url leaf; a url-kind node never has
//! children. Flattening walks a node list and emits, in order: folders of
//! the list (each exactly once, a folder with an empty or absent child
//! list passing through unchanged), and every loose url node met at the
//! outer level. A folder whose children include a further
//! folder-with-children first surfaces that child list, then stands as a
//! copy whose child list keeps only its direct url-kind children, so no
//! bookmark is counted both through the nested folder and through its
//! parent.

use vstd::prelude::*;

verus! {

/// The two node kinds of the export tree.
#[allow(missing_docs, non_camel_case_types)]
#[derive(Debug, Clone, Copy, PartialEq, Eq, Structural)]
pub enum BookmarkType {
    folder,
    url,
}

/// Whether the node list being flattened is the top of the walk (`Outer`)
/// or the child list of some folder (`Inner`). Loose url nodes are only
/// emitted at the outer level.
#[allow(missing_docs)]
#[derive(Debug, Clone, Copy, PartialEq, Eq, Structural)]
pub enum ChildLevel {
    Outer,
    Inner,
}

/// One node of the bookmark export tree.
#[derive(Debug)]
pub struct BookmarksItem {
    /// Creation stamp carried through from the export.
    pub date_added: String,
    /// Globally unique identifier carried through from the export.
    pub guid: String,
    /// Stable, source-assigned id; the store key of the record derived
    /// from a leaf.
    pub id: String,
    /// Display name.
    pub name: String,
    /// Folder or url.
    pub kind: BookmarkType,
    /// The target address; present exactly on url-kind nodes.
    pub url: Option<String>,
    /// Child nodes; present only on folder-kind nodes.
    pub children: Option<Vec<BookmarksItem>>,
}

/// One of the three named root collections of the export.
#[derive(Debug)]
pub struct BookmarkBar {
    /// The nodes directly under this root, when the export lists any.
    pub children: Option<Vec<BookmarksItem>>,
}

/// The three named root collections of the export.
#[derive(Debug)]
pub struct BookmarksRoot {
    /// The primary bar.
    pub bookmark_bar: BookmarkBar,
    /// The "other bookmarks" bucket.
    pub other: BookmarkBar,
    /// The bucket synchronised from other devices.
    pub synced: BookmarkBar,
}

/// A parsed bookmark export: an integrity stamp and the three roots.
#[derive(Debug)]
pub struct BookmarkFile {
    /// Integrity stamp carried through from the export.
    pub checksum: String,
    /// The three root collections.
    pub roots: BookmarksRoot,
}

/// The mathematical form of a tree node: every string a character
/// sequence, every child list a sequence. All tree contracts are stated
/// over this model.
#[verifier::ext_equal]
pub struct BookmarkNode {
    /// Creation stamp.
    pub date_added: Seq<char>,
    /// Globally unique identifier.
    pub guid: Seq<char>,
    /// Stable, source-assigned id.
    pub id: Seq<char>,
    /// Display name.
    pub name: Seq<char>,
    /// Folder or url.
    pub kind: BookmarkType,
    /// The target address; present exactly on url-kind nodes.
    pub url: Option<Seq<char>>,
    /// Child nodes; present only on folder-kind nodes.
    pub children: Option<Seq<BookmarkNode>>,
}

/// The model of one exec tree node.
pub open spec fn node_of(item: BookmarksItem) -> BookmarkNode
    decreases item,
{
    BookmarkNode {
        date_added: item.date_added@,
        guid: item.guid@,
        id: item.id@,
        name: item.name@,
        kind: item.kind,
        url: match item.url {
            Some(u) => Some(u@),
            None => None,
        },
        children: match item.children {
            Some(cs) => Some(nodes_of(cs@)),
            None => None,
        },
    }
}

/// The models of a sequence of exec tree nodes, in order.
pub open spec fn nodes_of(items: Seq<BookmarksItem>) -> Seq<BookmarkNode>
    decreases items,
{
    if items.len() == 0 {
        Seq::empty()
    } else {
        seq![node_of(items[0])] + nodes_of(items.drop_first())
    }
}

impl View for BookmarksItem {
    type V = BookmarkNode;

    open spec fn view(&self) -> BookmarkNode {
        node_of(*self)
    }
}

/// `nodes_of` is the pointwise model of the sequence.
pub proof fn lemma_nodes_of_pointwise(items: Seq<BookmarksItem>)
    ensures
        nodes_of(items).len() == items.len(),
        forall|i: int| 0 <= i < items.len() ==> nodes_of(items)[i] == node_of(#[trigger] items[i]),
    decreases items,
{
    if items.len() > 0 {
        lemma_nodes_of_pointwise(items.drop_first());
        assert forall|i: int| 0 <= i < items.len() implies nodes_of(items)[i] == node_of(
            #[trigger] items[i],
        ) by {
            if i > 0 {
                assert(items.drop_first()[i - 1] == items[i]);
                assert(nodes_of(items)[i] == nodes_of(items.drop_first())[i - 1]);
            }
        }
    }
}

/// The model of a list grown by one node is the grown model.
pub proof fn lemma_nodes_of_push(items: Seq<BookmarksItem>, x: BookmarksItem)
    ensures
        nodes_of(items.push(x)) =~= nodes_of(items).push(node_of(x)),
{
    lemma_nodes_of_pointwise(items.push(x));
    lemma_nodes_of_pointwise(items);
    assert forall|i: int| 0 <= i < items.len() + 1 implies nodes_of(items.push(x))[i] == nodes_of(
        items,
    ).push(node_of(x))[i] by {
        assert(nodes_of(items.push(x))[i] == node_of(items.push(x)[i]));
        if i < items.len() {
            assert(items.push(x)[i] == items[i]);
            assert(nodes_of(items)[i] == node_of(items[i]));
        } else {
            assert(items.push(x)[i] == x);
        }
    }
}

/// Taking the model commutes with concatenation.
pub proof fn lemma_nodes_of_concat(a: Seq<BookmarksItem>, b: Seq<BookmarksItem>)
    ensures
        nodes_of(a + b) =~= nodes_of(a) + nodes_of(b),
{
    lemma_nodes_of_pointwise(a + b);
    lemma_nodes_of_pointwise(a);
    lemma_nodes_of_pointwise(b);
    assert forall|i: int| 0 <= i < a.len() + b.len() implies nodes_of(a + b)[i] == (nodes_of(a)
        + nodes_of(b))[i] by {
        assert(nodes_of(a + b)[i] == node_of((a + b)[i]));
        if i < a.len() {
            assert((a + b)[i] == a[i]);
            assert(nodes_of(a)[i] == node_of(a[i]));
        } else {
            assert((a + b)[i] == b[i - a.len()]);
            assert(nodes_of(b)[i - a.len()] == node_of(b[i - a.len()]));
        }
    }
}

impl Clone for BookmarksItem {
    /// A deep copy whose model equals the source node's model.
    fn clone(&self) -> (r: Self)
        ensures
            r@ == self@,
    {
        clone_item(self)
    }
}

/// Copies an optional address; the copy equals the original.
fn clone_opt_string(u: &Option<String>) -> (r: Option<String>)
    ensures
        r == *u,
{
    match u {
        Some(s) => Some(s.clone()),
        None => None,
    }
}

/// Deep-copies one node; the copy's model equals the original's.
pub fn clone_item(item: &BookmarksItem) -> (r: BookmarksItem)
    ensures
        r@ == item@,
    decreases node_of(*item),
{
    let children: Option<Vec<BookmarksItem>> = match &item.children {
        Some(cs) => {
            proof {
                assert(decreases_to!(node_of(*item) => node_of(*item).children));
                assert(decreases_to!(node_of(*item).children => node_of(*item).children->0));
                assert(node_of(*item).children->0 == nodes_of(cs@));
            }
            Some(clone_items(cs))
        },
        None => None,
    };
    let r = BookmarksItem {
        date_added: item.date_added.clone(),
        guid: item.guid.clone(),
        id: item.id.clone(),
        name: item.name.clone(),
        kind: item.kind,
        url: clone_opt_string(&item.url),
        children,
    };
    proof {
        assert(node_of(r) =~= node_of(*item));
    }
    r
}

/// Deep-copies a node list; the copy's model equals the original's.
pub fn clone_items(items: &Vec<BookmarksItem>) -> (r: Vec<BookmarksItem>)
    ensures
        nodes_of(r@) == nodes_of(items@),
    decreases nodes_of(items@),
{
    let mut out: Vec<BookmarksItem> = Vec::new();
    let n = items.len();
    for i in 0..n
        invariant
            n == items@.len(),
            out@.len() == i,
            forall|k: int| 0 <= k < i ==> node_of(#[trigger] out@[k]) == node_of(items@[k]),
        decreases n - i,
    {
        proof {
            lemma_nodes_of_pointwise(items@);
            assert(nodes_of(items@)[i as int] == node_of(items@[i as int]));
            assert(decreases_to!(nodes_of(items@) => nodes_of(items@)[i as int]));
        }
        out.push(clone_item(&items[i]));
    }
    proof {
        lemma_nodes_of_pointwise(out@);
        lemma_nodes_of_pointwise(items@);
        assert forall|k: int| 0 <= k < items@.len() implies nodes_of(out@)[k] == nodes_of(
            items@,
        )[k] by {
            assert(nodes_of(out@)[k] == node_of(out@[k]));
            assert(nodes_of(items@)[k] == node_of(items@[k]));
        }
        assert(nodes_of(out@) =~= nodes_of(items@));
    }
    out
}

/// Whether some node of the list itself carries a child list.
pub open spec fn has_nested_child(cs: Seq<BookmarkNode>) -> bool {
    exists|i: int| 0 <= i < cs.len() && (#[trigger] cs[i]).children is Some
}

/// The url-kind nodes of a child list, in order.
pub open spec fn url_only_children(cs: Seq<BookmarkNode>) -> Seq<BookmarkNode> {
    cs.filter(|c: BookmarkNode| c.kind == BookmarkType::url)
}

/// The copy of a folder node that keeps only its direct url-kind children.
pub open spec fn trim_to_url_children(node: BookmarkNode) -> BookmarkNode
    recommends
        node.children is Some,
{
    BookmarkNode { children: Some(url_only_children(node.children->0)), ..node }
}

/// What flattening emits for one node at the given level. A folder whose
/// children hold a further folder-with-children surfaces that child list
/// first and then a trimmed copy of itself; any other folder — its child
/// list plain, empty or absent — passes through unchanged.
pub open spec fn spec_flatten_node(node: BookmarkNode, level: ChildLevel) -> Seq<BookmarkNode>
    decreases node,
{
    if node.kind == BookmarkType::folder {
        if node.children is Some && has_nested_child(node.children->0) {
            spec_flatten(node.children->0, ChildLevel::Inner) + seq![trim_to_url_children(node)]
        } else {
            seq![node]
        }
    } else if node.kind == BookmarkType::url && node.children is None && level
        == ChildLevel::Outer {
        seq![node]
    } else {
        Seq::empty()
    }
}

/// What flattening emits for a node list: the per-node emissions, in order.
pub open spec fn spec_flatten(nodes: Seq<BookmarkNode>, level: ChildLevel) -> Seq<BookmarkNode>
    decreases nodes,
{
    if nodes.len() == 0 {
        Seq::empty()
    } else {
        spec_flatten_node(nodes[0], level) + spec_flatten(nodes.drop_first(), level)
    }
}

/// Flattening a list extended by one node appends that node's emission.
pub proof fn lemma_spec_flatten_push(s: Seq<BookmarkNode>, x: BookmarkNode, level: ChildLevel)
    ensures
        spec_flatten(s.push(x), level) == spec_flatten(s, level) + spec_flatten_node(x, level),
    decreases s.len(),
{
    if s.len() == 0 {
        assert(s.push(x)[0] == x);
        assert(s.push(x).drop_first() =~= Seq::<BookmarkNode>::empty());
        assert(spec_flatten(s.push(x), level) == spec_flatten_node(x, level) + spec_flatten(
            Seq::<BookmarkNode>::empty(),
            level,
        ));
        assert(spec_flatten(s.push(x), level) =~= spec_flatten(s, level) + spec_flatten_node(
            x,
            level,
        ));
    } else {
        assert(s.push(x)[0] == s[0]);
        assert(s.push(x).drop_first() =~= s.drop_first().push(x));
        assert(spec_flatten(s.push(x), level) == spec_flatten_node(s[0], level) + spec_flatten(
            s.drop_first().push(x),
            level,
        ));
        lemma_spec_flatten_push(s.drop_first(), x, level);
        assert(spec_flatten(s.push(x), level) =~= spec_flatten(s, level) + spec_flatten_node(
            x,
            level,
        ));
    }
}

/// Filtering for url-kind nodes commutes with appending one node.
pub proof fn lemma_url_only_push(s: Seq<BookmarkNode>, x: BookmarkNode)
    ensures
        x.kind == BookmarkType::url ==> url_only_children(s.push(x)) == url_only_children(
            s,
        ).push(x),
        x.kind != BookmarkType::url ==> url_only_children(s.push(x)) == url_only_children(s),
{
    reveal(Seq::filter);
    assert(s.push(x).drop_last() =~= s);
    assert(s.push(x).last() == x);
}

/// Whether any direct child of the list itself carries a child list.
fn has_nested(cs: &Vec<BookmarksItem>) -> (r: bool)
    ensures
        r == has_nested_child(nodes_of(cs@)),
{
    proof {
        lemma_nodes_of_pointwise(cs@);
    }
    let n = cs.len();
    for j in 0..n
        invariant
            n == cs@.len(),
            nodes_of(cs@).len() == n,
            forall|k: int| 0 <= k < n ==> nodes_of(cs@)[k] == node_of(#[trigger] cs@[k]),
            forall|k: int| 0 <= k < j ==> !((#[trigger] nodes_of(cs@)[k]).children is Some),
        decreases n - j,
    {
        if cs[j].children.is_some() {
            proof {
                assert(nodes_of(cs@)[j as int].children is Some);
            }
            return true;
        }
        proof {
            assert(!(nodes_of(cs@)[j as int].children is Some));
        }
    }
    false
}

impl BookmarksItem {
    /// Flattens `nested` onto the accumulator at the given level and hands
    /// back a copy of the grown accumulator.
    ///
    /// The accumulator grows by exactly `spec_flatten` of the input's model:
    /// nested folders surface their own entries ahead of a trimmed copy of
    /// their parent, and loose url nodes survive only at the outer level.
    pub fn flatten(
        nested: Vec<BookmarksItem>,
        acc_arr: &mut Vec<BookmarksItem>,
        level: ChildLevel,
    ) -> (r: Vec<BookmarksItem>)
        ensures
            nodes_of(final(acc_arr)@) == nodes_of(old(acc_arr)@) + spec_flatten(
                nodes_of(nested@),
                level,
            ),
            nodes_of(r@) == nodes_of(final(acc_arr)@),
        decreases nodes_of(nested@),
    {
        let ghost m = nodes_of(nested@);
        proof {
            lemma_nodes_of_pointwise(nested@);
        }
        let n = nested.len();
        for i in 0..n
            invariant
                n == nested@.len(),
                m == nodes_of(nested@),
                m.len() == n,
                forall|k: int| 0 <= k < n ==> m[k] == node_of(#[trigger] nested@[k]),
                nodes_of(acc_arr@) =~= nodes_of(old(acc_arr)@) + spec_flatten(
                    m.subrange(0, i as int),
                    level,
                ),
            decreases n - i,
        {
            let ghost acc0 = nodes_of(acc_arr@);
            let ghost mi = m[i as int];
            let item = &nested[i];
            proof {
                assert(mi == node_of(*item));
            }
            if item.kind == BookmarkType::folder && item.children.is_some() {
                let cs_clone: Vec<BookmarksItem> = match &item.children {
                    Some(cs) => clone_items(cs),
                    None => {
                        proof {
                            assert(false);
                        }
                        Vec::new()
                    },
                };
                proof {
                    assert(nodes_of(cs_clone@) == mi.children->0);
                }
                if has_nested(&cs_clone) {
                    let mut kept: Vec<BookmarksItem> = Vec::new();
                    let cn = cs_clone.len();
                    let ghost csm = nodes_of(cs_clone@);
                    proof {
                        lemma_nodes_of_pointwise(cs_clone@);
                    }
                    for j in 0..cn
                        invariant
                            cn == cs_clone@.len(),
                            csm == nodes_of(cs_clone@),
                            csm.len() == cn,
                            forall|k: int|
                                0 <= k < cn ==> csm[k] == node_of(#[trigger] cs_clone@[k]),
                            nodes_of(kept@) =~= url_only_children(csm.subrange(0, j as int)),
                        decreases cn - j,
                    {
                        let ghost pre = csm.subrange(0, j as int);
                        let ghost keptm = nodes_of(kept@);
                        if cs_clone[j].kind == BookmarkType::url {
                            let cloned = clone_item(&cs_clone[j]);
                            let ghost kept_old = kept@;
                            proof {
                                assert(node_of(cloned) == csm[j as int]);
                            }
                            kept.push(cloned);
                            proof {
                                assert(kept@ =~= kept_old.push(cloned));
                                lemma_nodes_of_push(kept_old, cloned);
                                assert(nodes_of(kept@) =~= keptm.push(csm[j as int]));
                            }
                        }
                        proof {
                            assert(csm.subrange(0, j + 1) =~= pre.push(csm[j as int]));
                            lemma_url_only_push(pre, csm[j as int]);
                            assert(nodes_of(kept@) =~= url_only_children(csm.subrange(0, j + 1)));
                        }
                    }
                    proof {
                        assert(csm.subrange(0, cn as int) =~= csm);
                    }
                    let copy = BookmarksItem {
                        date_added: item.date_added.clone(),
                        guid: item.guid.clone(),
                        id: item.id.clone(),
                        name: item.name.clone(),
                        kind: item.kind,
                        url: clone_opt_string(&item.url),
                        children: Some(kept),
                    };
                    proof {
                        assert(node_of(copy) =~= trim_to_url_children(mi));
                        assert(decreases_to!(m => mi));
                        assert(decreases_to!(mi => mi.children));
                        assert(decreases_to!(mi.children => mi.children->0));
                    }
                    Self::flatten(cs_clone, acc_arr, ChildLevel::Inner);
                    let ghost acc1 = acc_arr@;
                    acc_arr.push(copy);
                    proof {
                        assert(acc_arr@ =~= acc1.push(copy));
                        lemma_nodes_of_push(acc1, copy);
                        assert(nodes_of(acc1) == acc0 + spec_flatten(
                            mi.children->0,
                            ChildLevel::Inner,
                        ));
                        assert(nodes_of(acc_arr@) =~= acc0 + (spec_flatten(
                            mi.children->0,
                            ChildLevel::Inner,
                        ) + seq![trim_to_url_children(mi)]));
                        assert(nodes_of(acc_arr@) =~= acc0 + spec_flatten_node(mi, level));
                    }
                } else {
                    let cloned = clone_item(item);
                    let ghost acc1 = acc_arr@;
                    acc_arr.push(cloned);
                    proof {
                        assert(acc_arr@ =~= acc1.push(cloned));
                        lemma_nodes_of_push(acc1, cloned);
                        assert(node_of(cloned) == mi);
                        assert(spec_flatten_node(mi, level) =~= seq![mi]);
                        assert(nodes_of(acc_arr@) =~= acc0 + spec_flatten_node(mi, level));
                    }
                }
            } else if item.kind == BookmarkType::folder {
                // A folder whose child list is absent passes through
                // unchanged, like one with a plain child list.
                let cloned = clone_item(item);
                let ghost acc1 = acc_arr@;
                acc_arr.push(cloned);
                proof {
                    assert(acc_arr@ =~= acc1.push(cloned));
                    lemma_nodes_of_push(acc1, cloned);
                    assert(node_of(cloned) == mi);
                    assert(spec_flatten_node(mi, level) =~= seq![mi]);
                    assert(nodes_of(acc_arr@) =~= acc0 + spec_flatten_node(mi, level));
                }
            } else if item.kind == BookmarkType::url && item.children.is_none() && level
                == ChildLevel::Outer {
                let cloned = clone_item(item);
                let ghost acc1 = acc_arr@;
                acc_arr.push(cloned);
                proof {
                    assert(acc_arr@ =~= acc1.push(cloned));
                    lemma_nodes_of_push(acc1, cloned);
                    assert(node_of(cloned) == mi);
                    assert(spec_flatten_node(mi, level) =~= seq![mi]);
                    assert(nodes_of(acc_arr@) =~= acc0 + spec_flatten_node(mi, level));
                }
            } else {
                proof {
                    assert(spec_flatten_node(mi, level) =~= Seq::<BookmarkNode>::empty());
                    assert(nodes_of(acc_arr@) =~= acc0 + spec_flatten_node(mi, level));
                }
            }
            proof {
                assert(m.subrange(0, i + 1) =~= m.subrange(0, i as int).push(mi));
                lemma_spec_flatten_push(m.subrange(0, i as int), mi, level);
                assert(nodes_of(acc_arr@) =~= nodes_of(old(acc_arr)@) + spec_flatten(
                    m.subrange(0, i + 1),
                    level,
                ));
            }
        }
        proof {
            assert(m.subrange(0, n as int) =~= m);
        }
        let r = clone_items(acc_arr);
        r
    }
}


/// At the inner level, a list of url-kind nodes without children emits
/// nothing of its own.
proof fn lemma_flatten_inner_urls(cs: Seq<BookmarkNode>)
    requires
        forall|j: int|
            0 <= j < cs.len() ==> (#[trigger] cs[j]).kind == BookmarkType::url && cs[j].children
                is None,
    ensures
        spec_flatten(cs, ChildLevel::Inner) =~= Seq::<BookmarkNode>::empty(),
    decreases cs.len(),
{
    if cs.len() > 0 {
        assert(spec_flatten_node(cs[0], ChildLevel::Inner) =~= Seq::<BookmarkNode>::empty());
        lemma_flatten_inner_urls(cs.drop_first());
    }
}

/// A child list holding url leaves plus one plain sub-folder emits, at the
/// inner level, exactly that sub-folder.
proof fn lemma_flatten_inner_single(cs: Seq<BookmarkNode>, k: int)
    requires
        0 <= k < cs.len(),
        cs[k].kind == BookmarkType::folder,
        cs[k].children is Some,
        !has_nested_child(cs[k].children->0),
        forall|j: int|
            0 <= j < cs.len() && j != k ==> (#[trigger] cs[j]).kind == BookmarkType::url && cs[j].children is None,
    ensures
        spec_flatten(cs, ChildLevel::Inner) =~= seq![cs[k]],
    decreases cs.len(),
{
    if k == 0 {
        assert(spec_flatten_node(cs[0], ChildLevel::Inner) =~= seq![cs[0]]);
        assert forall|j: int| 0 <= j < cs.drop_first().len() implies (#[trigger] cs.drop_first()[j]).kind == BookmarkType::url && cs.drop_first()[j].children is None by {
            assert(cs.drop_first()[j] == cs[j + 1]);
        }
        lemma_flatten_inner_urls(cs.drop_first());
    } else {
        assert(spec_flatten_node(cs[0], ChildLevel::Inner) =~= Seq::<BookmarkNode>::empty());
        assert forall|j: int| 0 <= j < cs.drop_first().len() && j != k - 1 implies (#[trigger] cs.drop_first()[j]).kind == BookmarkType::url && cs.drop_first()[j].children is None by {
            assert(cs.drop_first()[j] == cs[j + 1]);
        }
        assert(cs.drop_first()[k - 1] == cs[k]);
        lemma_flatten_inner_single(cs.drop_first(), k - 1);
    }
}

/// Filtering for url-kind nodes keeps a list of url-kind nodes whole.
proof fn lemma_url_only_all_urls(cs: Seq<BookmarkNode>)
    requires
        forall|j: int| 0 <= j < cs.len() ==> (#[trigger] cs[j]).kind == BookmarkType::url,
    ensures
        url_only_children(cs) =~= cs,
    decreases cs.len(),
{
    reveal(Seq::filter);
    if cs.len() > 0 {
        lemma_url_only_all_urls(cs.drop_last());
        assert(cs.drop_last().push(cs.last()) =~= cs);
    }
}

/// Filtering for url-kind nodes drops exactly the one non-url entry.
proof fn lemma_url_only_removes_single(cs: Seq<BookmarkNode>, k: int)
    requires
        0 <= k < cs.len(),
        cs[k].kind != BookmarkType::url,
        forall|j: int|
            0 <= j < cs.len() && j != k ==> (#[trigger] cs[j]).kind == BookmarkType::url,
    ensures
        url_only_children(cs) =~= cs.remove(k),
    decreases cs.len(),
{
    reveal(Seq::filter);
    let last = cs.len() - 1;
    if k == last {
        assert forall|j: int| 0 <= j < cs.drop_last().len() implies (#[trigger] cs.drop_last()[j]).kind == BookmarkType::url by {
            assert(cs.drop_last()[j] == cs[j]);
        }
        lemma_url_only_all_urls(cs.drop_last());
        assert(cs.remove(k) =~= cs.drop_last());
    } else {
        assert forall|j: int| 0 <= j < cs.drop_last().len() && j != k implies (#[trigger] cs.drop_last()[j]).kind == BookmarkType::url by {
            assert(cs.drop_last()[j] == cs[j]);
        }
        assert(cs.drop_last()[k] == cs[k]);
        lemma_url_only_removes_single(cs.drop_last(), k);
        assert(cs.remove(k) =~= cs.drop_last().remove(k).push(cs.last()));
    }
}

/// Law of flatten deduplication: a folder `f` holding its own url leaves
/// and exactly one sub-folder `g` (itself a plain folder of url leaves)
/// flattens to exactly two entries, `g` first and then a copy of `f` whose
/// child list keeps only `f`'s direct url children. `g` is dropped from the
/// copy's child list, so no bookmark is reachable twice.
pub proof fn lemma_flatten_dedup(f: BookmarkNode, k: int)
    requires
        f.kind == BookmarkType::folder,
        f.children is Some,
        0 <= k < f.children->0.len(),
        f.children->0[k].kind == BookmarkType::folder,
        f.children->0[k].children is Some,
        forall|j: int|
            0 <= j < f.children->0[k].children->0.len() ==> (#[trigger] f.children->0[k].children->0[j]).kind == BookmarkType::url
                && f.children->0[k].children->0[j].children is None,
        forall|j: int|
            0 <= j < f.children->0.len() && j != k ==> (#[trigger] f.children->0[j]).kind
                == BookmarkType::url && f.children->0[j].children is None,
    ensures
        spec_flatten(seq![f], ChildLevel::Outer) =~= seq![f.children->0[k], trim_to_url_children(f)],
        trim_to_url_children(f).children->0 =~= f.children->0.remove(k),
{
    let cs = f.children->0;
    let g = cs[k];
    assert(!has_nested_child(g.children->0));
    assert(has_nested_child(cs));
    lemma_flatten_inner_single(cs, k);
    assert(seq![f].len() == 1);
    assert(seq![f][0] == f);
    assert(seq![f].drop_first() =~= Seq::<BookmarkNode>::empty());
    assert(spec_flatten(Seq::<BookmarkNode>::empty(), ChildLevel::Outer)
        =~= Seq::<BookmarkNode>::empty());
    assert(spec_flatten(seq![f], ChildLevel::Outer) =~= spec_flatten_node(f, ChildLevel::Outer));
    assert(spec_flatten_node(f, ChildLevel::Outer) =~= seq![g] + seq![trim_to_url_children(f)]);
    lemma_url_only_removes_single(cs, k);
}

/// A folder without a child list flattens to itself alone, exactly like
/// a folder whose child list holds no nested sub-folder.
pub proof fn lemma_flatten_childless_folder(f: BookmarkNode, level: ChildLevel)
    requires
        f.kind == BookmarkType::folder,
        f.children is None,
    ensures
        spec_flatten(seq![f], level) =~= seq![f],
{
    assert(seq![f].len() == 1);
    assert(seq![f][0] == f);
    assert(seq![f].drop_first() =~= Seq::<BookmarkNode>::empty());
    assert(spec_flatten(Seq::<BookmarkNode>::empty(), level) =~= Seq::<BookmarkNode>::empty());
    assert(spec_flatten_node(f, level) =~= seq![f]);
    assert(spec_flatten(seq![f], level) =~= spec_flatten_node(f, level) + spec_flatten(
        Seq::<BookmarkNode>::empty(),
        level,
    ));
}

/// Law of loose bookmarks, first half: a url node with no children, met at
/// the outer level, stands in the flatten output.
pub proof fn lemma_flatten_keeps_loose(nodes: Seq<BookmarkNode>, i: int)
    requires
        0 <= i < nodes.len(),
        nodes[i].kind == BookmarkType::url,
        nodes[i].children is None,
    ensures
        spec_flatten(nodes, ChildLevel::Outer).contains(nodes[i]),
    decreases nodes.len(),
{
    let a = spec_flatten_node(nodes[0], ChildLevel::Outer);
    let b = spec_flatten(nodes.drop_first(), ChildLevel::Outer);
    if i == 0 {
        assert(spec_flatten_node(nodes[0], ChildLevel::Outer) =~= seq![nodes[0]]);
        assert(spec_flatten(nodes, ChildLevel::Outer)[0] == nodes[i]);
    } else {
        let rest = nodes.drop_first();
        assert(rest[i - 1] == nodes[i]);
        lemma_flatten_keeps_loose(rest, i - 1);
        let j = choose|j: int| 0 <= j < b.len() && b[j] == nodes[i];
        assert(spec_flatten(nodes, ChildLevel::Outer)[a.len() + j] == nodes[i]);
    }
}

/// Law of loose bookmarks, second half: a folder without any nested
/// sub-folder flattens to itself alone, so a url node one level inside it
/// is visible only through that folder's child list, never as a top-level
/// entry of its own.
pub proof fn lemma_flatten_plain_folder(f: BookmarkNode, level: ChildLevel)
    requires
        f.kind == BookmarkType::folder,
        f.children is Some,
        !has_nested_child(f.children->0),
    ensures
        spec_flatten(seq![f], level) =~= seq![f],
{
    assert(seq![f].len() == 1);
    assert(seq![f][0] == f);
    assert(seq![f].drop_first() =~= Seq::<BookmarkNode>::empty());
    assert(spec_flatten(Seq::<BookmarkNode>::empty(), level) =~= Seq::<BookmarkNode>::empty());
    assert(spec_flatten_node(f, level) =~= seq![f]);
    assert(spec_flatten(seq![f], level) =~= spec_flatten_node(f, level) + spec_flatten(
        Seq::<BookmarkNode>::empty(),
        level,
    ));
}


/// How many entries of a flat list carry the given id.
pub open spec fn count_entry_id(nodes: Seq<BookmarkNode>, id: Seq<char>) -> nat
    decreases nodes.len(),
{
    if nodes.len() == 0 {
        0
    } else {
        (if nodes[0].id == id {
            1nat
        } else {
            0nat
        }) + count_entry_id(nodes.drop_first(), id)
    }
}

/// How many nodes of the whole subtree under this node carry the given
/// id.
pub open spec fn count_tree_id(node: BookmarkNode, id: Seq<char>) -> nat
    decreases node,
{
    (if node.id == id {
        1nat
    } else {
        0nat
    }) + (match node.children {
        Some(cs) => count_forest_id(cs, id),
        None => 0nat,
    })
}

/// How many nodes of the whole forest carry the given id.
pub open spec fn count_forest_id(nodes: Seq<BookmarkNode>, id: Seq<char>) -> nat
    decreases nodes,
{
    if nodes.len() == 0 {
        0
    } else {
        count_tree_id(nodes[0], id) + count_forest_id(nodes.drop_first(), id)
    }
}

/// Entry counting adds up over concatenation.
proof fn lemma_count_entry_concat(a: Seq<BookmarkNode>, b: Seq<BookmarkNode>, id: Seq<char>)
    ensures
        count_entry_id(a + b, id) == count_entry_id(a, id) + count_entry_id(b, id),
    decreases a.len(),
{
    if a.len() == 0 {
        assert(a + b =~= b);
    } else {
        assert((a + b)[0] == a[0]);
        assert((a + b).drop_first() =~= a.drop_first() + b);
        lemma_count_entry_concat(a.drop_first(), b, id);
    }
}

/// A one-entry list counts its entry.
proof fn lemma_count_entry_single(x: BookmarkNode, id: Seq<char>)
    ensures
        count_entry_id(seq![x], id) == (if x.id == id {
            1nat
        } else {
            0nat
        }),
{
    assert(seq![x].drop_first() =~= Seq::<BookmarkNode>::empty());
    assert(count_entry_id(Seq::<BookmarkNode>::empty(), id) == 0);
}

/// What one node's flattening emits never carries an id more often than
/// the node's own subtree does.
proof fn lemma_flatten_node_counts(node: BookmarkNode, level: ChildLevel, id: Seq<char>)
    ensures
        count_entry_id(spec_flatten_node(node, level), id) <= count_tree_id(node, id),
    decreases node,
{
    if node.kind == BookmarkType::folder {
        if node.children is Some && has_nested_child(node.children->0) {
            assert(decreases_to!(node => node.children));
            assert(decreases_to!(node.children => node.children->0));
            lemma_flatten_counts(node.children->0, ChildLevel::Inner, id);
            lemma_count_entry_concat(
                spec_flatten(node.children->0, ChildLevel::Inner),
                seq![trim_to_url_children(node)],
                id,
            );
            lemma_count_entry_single(trim_to_url_children(node), id);
            assert(trim_to_url_children(node).id == node.id);
        } else {
            lemma_count_entry_single(node, id);
        }
    } else if node.kind == BookmarkType::url && node.children is None && level
        == ChildLevel::Outer {
        lemma_count_entry_single(node, id);
    }
}

/// Flattening never emits an id more often than the forest carries it.
pub proof fn lemma_flatten_counts(nodes: Seq<BookmarkNode>, level: ChildLevel, id: Seq<char>)
    ensures
        count_entry_id(spec_flatten(nodes, level), id) <= count_forest_id(nodes, id),
    decreases nodes,
{
    if nodes.len() > 0 {
        lemma_flatten_node_counts(nodes[0], level, id);
        lemma_flatten_counts(nodes.drop_first(), level, id);
        lemma_count_entry_concat(
            spec_flatten_node(nodes[0], level),
            spec_flatten(nodes.drop_first(), level),
            id,
        );
    }
}

/// An id present at some index counts at least once.
proof fn lemma_count_entry_ge_one(nodes: Seq<BookmarkNode>, i: int)
    requires
        0 <= i < nodes.len(),
    ensures
        count_entry_id(nodes, nodes[i].id) >= 1,
    decreases i,
{
    if i == 0 {
    } else {
        assert(nodes.drop_first()[i - 1] == nodes[i]);
        lemma_count_entry_ge_one(nodes.drop_first(), i - 1);
    }
}

/// An id present at two indices counts at least twice.
proof fn lemma_count_entry_ge_two(nodes: Seq<BookmarkNode>, i: int, j: int)
    requires
        0 <= i < j < nodes.len(),
        nodes[i].id == nodes[j].id,
    ensures
        count_entry_id(nodes, nodes[i].id) >= 2,
    decreases i,
{
    if i == 0 {
        assert(nodes.drop_first()[j - 1] == nodes[j]);
        lemma_count_entry_ge_one(nodes.drop_first(), j - 1);
    } else {
        assert(nodes.drop_first()[i - 1] == nodes[i]);
        assert(nodes.drop_first()[j - 1] == nodes[j]);
        lemma_count_entry_ge_two(nodes.drop_first(), i - 1, j - 1);
    }
}


/// The export's data-model invariant on one subtree: a url-kind node
/// never carries a child list.
pub open spec fn wf_node(node: BookmarkNode) -> bool
    decreases node,
{
    &&& (node.kind == BookmarkType::url ==> node.children is None)
    &&& (match node.children {
        Some(cs) => wf_nodes(cs),
        None => true,
    })
}

/// The export's data-model invariant over a forest.
pub open spec fn wf_nodes(nodes: Seq<BookmarkNode>) -> bool
    decreases nodes,
{
    nodes.len() == 0 || (wf_node(nodes[0]) && wf_nodes(nodes.drop_first()))
}

/// The forest invariant is the pointwise node invariant.
pub proof fn lemma_wf_nodes_pointwise(nodes: Seq<BookmarkNode>)
    ensures
        wf_nodes(nodes) <==> (forall|i: int| 0 <= i < nodes.len() ==> wf_node(#[trigger] nodes[i])),
    decreases nodes,
{
    if nodes.len() > 0 {
        lemma_wf_nodes_pointwise(nodes.drop_first());
        if wf_nodes(nodes) {
            assert forall|i: int| 0 <= i < nodes.len() implies wf_node(#[trigger] nodes[i]) by {
                if i > 0 {
                    assert(nodes.drop_first()[i - 1] == nodes[i]);
                }
            }
        }
        if forall|i: int| 0 <= i < nodes.len() ==> wf_node(#[trigger] nodes[i]) {
            assert forall|i: int|
                0 <= i < nodes.drop_first().len() implies wf_node(
                #[trigger] nodes.drop_first()[i],
            ) by {
                assert(nodes.drop_first()[i] == nodes[i + 1]);
            }
        }
    }
}

/// An entry that flattening would pass through unchanged: a loose url
/// leaf, or a folder without a nested sub-folder.
pub open spec fn flat_entry(node: BookmarkNode) -> bool {
    ||| (node.kind == BookmarkType::url && node.children is None)
    ||| (node.kind == BookmarkType::folder && (node.children is None || !has_nested_child(
        node.children->0,
    )))
}

/// Flattening emits a flat entry as itself, at the outer level.
proof fn lemma_flat_entry_fixed(node: BookmarkNode)
    requires
        flat_entry(node),
    ensures
        spec_flatten_node(node, ChildLevel::Outer) == seq![node],
{
}

/// In a well-formed child list, the url-kind survivors of the trim are
/// url leaves without children.
proof fn lemma_url_only_wf(cs: Seq<BookmarkNode>)
    requires
        forall|i: int| 0 <= i < cs.len() ==> wf_node(#[trigger] cs[i]),
    ensures
        forall|i: int|
            0 <= i < url_only_children(cs).len() ==> ((#[trigger] url_only_children(cs)[i]).kind
                == BookmarkType::url && url_only_children(cs)[i].children is None),
    decreases cs.len(),
{
    reveal(Seq::filter);
    if cs.len() > 0 {
        assert forall|i: int| 0 <= i < cs.drop_last().len() implies wf_node(
            #[trigger] cs.drop_last()[i],
        ) by {
            assert(cs.drop_last()[i] == cs[i]);
        }
        lemma_url_only_wf(cs.drop_last());
        assert(cs.drop_last().push(cs.last()) =~= cs);
        lemma_url_only_push(cs.drop_last(), cs.last());
        let whole = url_only_children(cs);
        let pre = url_only_children(cs.drop_last());
        assert forall|i: int|
            0 <= i < whole.len() implies ((#[trigger] whole[i]).kind == BookmarkType::url
                && whole[i].children is None) by {
            if cs.last().kind == BookmarkType::url {
                assert(whole == pre.push(cs.last()));
                if i < pre.len() {
                    assert(whole[i] == pre[i]);
                } else {
                    assert(whole[i] == cs.last());
                    assert(wf_node(cs.last()));
                }
            } else {
                assert(whole == pre);
            }
        }
    }
}

/// Everything flattening emits from a well-formed node is a flat entry.
proof fn lemma_flatten_node_entries_flat(node: BookmarkNode, level: ChildLevel)
    requires
        wf_node(node),
    ensures
        forall|i: int|
            0 <= i < spec_flatten_node(node, level).len() ==> flat_entry(
                #[trigger] spec_flatten_node(node, level)[i],
            ),
    decreases node,
{
    let out = spec_flatten_node(node, level);
    if node.kind == BookmarkType::folder && node.children is Some && has_nested_child(
        node.children->0,
    ) {
        assert(decreases_to!(node => node.children));
        assert(decreases_to!(node.children => node.children->0));
        lemma_flatten_entries_flat(node.children->0, ChildLevel::Inner);
        let rec = spec_flatten(node.children->0, ChildLevel::Inner);
        let trimmed = trim_to_url_children(node);
        lemma_wf_nodes_pointwise(node.children->0);
        lemma_url_only_wf(node.children->0);
        assert(!has_nested_child(trimmed.children->0));
        assert(flat_entry(trimmed));
        assert forall|i: int| 0 <= i < out.len() implies flat_entry(#[trigger] out[i]) by {
            if i < rec.len() {
                assert(out[i] == rec[i]);
            } else {
                assert(out[i] == trimmed);
            }
        }
    }
}

/// Everything flattening emits from a well-formed forest is a flat entry.
proof fn lemma_flatten_entries_flat(nodes: Seq<BookmarkNode>, level: ChildLevel)
    requires
        wf_nodes(nodes),
    ensures
        forall|i: int|
            0 <= i < spec_flatten(nodes, level).len() ==> flat_entry(
                #[trigger] spec_flatten(nodes, level)[i],
            ),
    decreases nodes,
{
    if nodes.len() > 0 {
        lemma_flatten_node_entries_flat(nodes[0], level);
        lemma_flatten_entries_flat(nodes.drop_first(), level);
        let a = spec_flatten_node(nodes[0], level);
        let b = spec_flatten(nodes.drop_first(), level);
        assert forall|i: int|
            0 <= i < spec_flatten(nodes, level).len() implies flat_entry(
            #[trigger] spec_flatten(nodes, level)[i],
        ) by {
            if i < a.len() {
                assert(spec_flatten(nodes, level)[i] == a[i]);
            } else {
                assert(spec_flatten(nodes, level)[i] == b[i - a.len()]);
            }
        }
    }
}

/// A list of flat entries flattens to itself at the outer level.
proof fn lemma_flatten_flat_list(nodes: Seq<BookmarkNode>)
    requires
        forall|i: int| 0 <= i < nodes.len() ==> flat_entry(#[trigger] nodes[i]),
    ensures
        spec_flatten(nodes, ChildLevel::Outer) =~= nodes,
    decreases nodes.len(),
{
    if nodes.len() > 0 {
        lemma_flat_entry_fixed(nodes[0]);
        assert forall|i: int| 0 <= i < nodes.drop_first().len() implies flat_entry(
            #[trigger] nodes.drop_first()[i],
        ) by {
            assert(nodes.drop_first()[i] == nodes[i + 1]);
        }
        lemma_flatten_flat_list(nodes.drop_first());
        assert(spec_flatten(nodes, ChildLevel::Outer) =~= seq![nodes[0]] + nodes.drop_first());
        assert(seq![nodes[0]] + nodes.drop_first() =~= nodes);
    }
}

/// Law of flatten idempotence: for a tree obeying the export's invariant
/// that url-kind nodes carry no children, flattening the flattened list
/// again changes nothing. Deriving the flat list twice in a row therefore
/// yields the same list.
pub proof fn lemma_flatten_idempotent(nodes: Seq<BookmarkNode>)
    requires
        wf_nodes(nodes),
    ensures
        spec_flatten(spec_flatten(nodes, ChildLevel::Outer), ChildLevel::Outer) == spec_flatten(
            nodes,
            ChildLevel::Outer,
        ),
{
    lemma_flatten_entries_flat(nodes, ChildLevel::Outer);
    lemma_flatten_flat_list(spec_flatten(nodes, ChildLevel::Outer));
}

} // verus!
