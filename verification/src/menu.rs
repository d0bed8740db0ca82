//! The menu bar's tree, built from the command registry.
//!
//! The menu bar is data, not hand-wired lists: [`build_menus`] walks the
//! registry's entries, groups every entry that carries a menu path into a
//! fixed-order tree of top-level menus and nested submenus, and stamps each
//! leaf with the chord bound to it. A command added to the registry shows up
//! here with no change to this module: every shown entry becomes exactly one
//! leaf under its path, and every leaf comes from an entry.
use vstd::prelude::*;
use crate::text::{chars_eq_str, chars_of, string_of};

verus! {

broadcast use {vstd::seq_lib::group_to_multiset_ensures, vstd::seq_lib::lemma_multiset_commutative};

/// A registry command as the menu bar reads it.
#[derive(Clone, Debug, PartialEq, Eq)]
pub struct MenuEntry {
    /// The registry id dispatched when the item is clicked.
    pub id: String,
    /// The label shown in the menu.
    pub label: String,
    /// Where the command sits: the top-level menu, then each nested submenu;
    /// `None` for a command the menus do not offer.
    pub menu_path: Option<Vec<String>>,
    /// Whether the command is reachable on the current build target.
    pub visible: bool,
    /// The chord currently bound to the command, if any.
    pub chord: Option<String>,
}

/// One node in the registry-derived menu tree.
#[derive(Debug, PartialEq, Eq)]
pub enum MenuNode {
    /// A runnable command: its registry id, the label to show, and the live
    /// chord text (`None` when the command is unbound).
    Item {
        /// The registry id dispatched when the item is clicked.
        id: String,
        /// The label shown in the menu.
        label: String,
        /// The current chord, shown right-aligned.
        chord: Option<String>,
    },
    /// A nested submenu with its own children.
    Sub {
        /// The submenu label.
        label: String,
        /// The submenu's children, in registry order.
        children: Vec<MenuNode>,
    },
}

/// A top-level menu: its label and its children.
#[derive(Debug, PartialEq, Eq)]
pub struct Menu {
    /// The menu label shown in the bar.
    pub label: String,
    /// The menu's children, in registry order.
    pub nodes: Vec<MenuNode>,
}

/// What a menu click asks the app to do, recorded while the bar is open and
/// applied once it has closed.
#[derive(Clone, Debug, PartialEq, Eq)]
pub enum MenuChoice {
    /// Dispatch the registry command with this id.
    Command(String),
    /// Open a recent file, by way of the Start screen.
    OpenRecent,
    /// Open the in-browser GDS convert picker (web builds offer it).
    ConvertGds,
}

/// A chord as text.
pub open spec fn chord_text(c: Option<String>) -> Option<Seq<char>> {
    match c {
        Some(s) => Some(s@),
        None => None,
    }
}

/// The texts of a list of labels.
pub open spec fn label_texts(v: Seq<String>) -> Seq<Seq<char>> {
    v.map_values(|s: String| s@)
}

/// Every leaf under `nodes`, depth first in display order, as
/// `(id, label, chord, path)` where `path` runs from the top-level menu down
/// to the leaf's parent and starts with `path`.
pub open spec fn leaves(nodes: Seq<MenuNode>, path: Seq<Seq<char>>) -> Seq<
    (Seq<char>, Seq<char>, Option<Seq<char>>, Seq<Seq<char>>),
>
    decreases nodes,
{
    if nodes.len() == 0 {
        Seq::empty()
    } else {
        let rest = leaves(nodes.drop_last(), path);
        match nodes.last() {
            MenuNode::Item { id, label, chord } => rest.push((id@, label@, chord_text(chord), path)),
            MenuNode::Sub { label, children } => {
                proof {
                    assert(decreases_to!(nodes => nodes[nodes.len() - 1]));
                }
                rest + leaves(children@, path.push(label@))
            },
        }
    }
}

proof fn lemma_leaves_concat(a: Seq<MenuNode>, b: Seq<MenuNode>, path: Seq<Seq<char>>)
    ensures
        leaves(a + b, path) == leaves(a, path) + leaves(b, path),
    decreases b.len(),
{
    if b.len() == 0 {
        assert(a + b =~= a);
        assert(leaves(a, path) + leaves(b, path) =~= leaves(a, path));
    } else {
        assert((a + b).drop_last() =~= a + b.drop_last());
        assert((a + b).last() == b.last());
        lemma_leaves_concat(a, b.drop_last(), path);
        match b.last() {
            MenuNode::Item { id, label, chord } => {
                assert(leaves(a + b, path) =~= leaves(a, path) + leaves(b, path));
            },
            MenuNode::Sub { label, children } => {
                assert(leaves(a + b, path) =~= leaves(a, path) + leaves(b, path));
            },
        }
    }
}


/// The labels of the submenus directly in `nodes`, in order.
pub open spec fn sub_labels(nodes: Seq<MenuNode>) -> Seq<Seq<char>>
    decreases nodes.len(),
{
    if nodes.len() == 0 {
        Seq::empty()
    } else {
        let rest = sub_labels(nodes.drop_last());
        match nodes.last() {
            MenuNode::Sub { label, .. } => rest.push(label@),
            MenuNode::Item { .. } => rest,
        }
    }
}

/// Whether no list in the tree holds two submenus with one label: each
/// submenu is created once, on first use, and every later command under its
/// label goes into it.
pub open spec fn tree_ok(nodes: Seq<MenuNode>) -> bool
    decreases nodes,
{
    if nodes.len() == 0 {
        true
    } else {
        tree_ok(nodes.drop_last()) && match nodes.last() {
            MenuNode::Item { .. } => true,
            MenuNode::Sub { label, children } => {
                proof {
                    assert(decreases_to!(nodes => nodes[nodes.len() - 1]));
                }
                !sub_labels(nodes.drop_last()).contains(label@) && tree_ok(children@)
            },
        }
    }
}

proof fn lemma_sub_labels_contains(nodes: Seq<MenuNode>, l: Seq<char>)
    ensures
        sub_labels(nodes).contains(l) <==> exists|j: int| 0 <= j < nodes.len() && is_sub_named(#[trigger] nodes[j], l),
    decreases nodes.len(),
{
    if nodes.len() > 0 {
        let d = nodes.drop_last();
        lemma_sub_labels_contains(d, l);
        let last = nodes.last();
        assert(last == nodes[nodes.len() - 1]);
        if exists|j: int| 0 <= j < d.len() && is_sub_named(#[trigger] d[j], l) {
            let j = choose|j: int| 0 <= j < d.len() && is_sub_named(#[trigger] d[j], l);
            assert(nodes[j] == d[j]);
        }
        if exists|j: int| 0 <= j < nodes.len() && is_sub_named(#[trigger] nodes[j], l) {
            let j = choose|j: int| 0 <= j < nodes.len() && is_sub_named(#[trigger] nodes[j], l);
            if j < d.len() {
                assert(d[j] == nodes[j]);
            }
        }
        match last {
            MenuNode::Sub { label, .. } => {
                let rest = sub_labels(d);
                assert(sub_labels(nodes) == rest.push(label@));
                if rest.push(label@).contains(l) && !rest.contains(l) {
                    let k = choose|k: int| 0 <= k < rest.push(label@).len() && rest.push(label@)[k] == l;
                    assert(k == rest.len());
                }
                if rest.contains(l) {
                    let k = choose|k: int| 0 <= k < rest.len() && rest[k] == l;
                    assert(rest.push(label@)[k] == l);
                }
                if label@ == l {
                    assert(rest.push(label@)[rest.len() as int] == l);
                }
            },
            MenuNode::Item { .. } => {},
        }
    }
}

proof fn lemma_tree_ok_child(s: Seq<MenuNode>, i: int)
    requires
        tree_ok(s),
        0 <= i < s.len(),
    ensures
        s[i] matches MenuNode::Sub { children, .. } ==> tree_ok(children@),
    decreases s.len(),
{
    let d = s.drop_last();
    if i < s.len() - 1 {
        assert(d[i] == s[i]);
        lemma_tree_ok_child(d, i);
    }
}

proof fn lemma_tree_ok_update(s: Seq<MenuNode>, i: int, n: MenuNode)
    requires
        tree_ok(s),
        0 <= i < s.len(),
        s[i] is Sub,
        n is Sub,
        n->Sub_label@ == s[i]->Sub_label@,
        tree_ok(n->Sub_children@),
    ensures
        tree_ok(s.update(i, n)),
        sub_labels(s.update(i, n)) == sub_labels(s),
    decreases s.len(),
{
    let u = s.update(i, n);
    let d = s.drop_last();
    assert(u.drop_last() =~= if i < s.len() - 1 { d.update(i, n) } else { d });
    if i < s.len() - 1 {
        assert(d[i] == s[i]);
        lemma_tree_ok_update(d, i, n);
        assert(u.last() == s.last());
    } else {
        assert(u.last() == n);
    }
}

/// A leaf of the tree as the contracts see it: `(id, label, chord, path)`.
pub type Leaf = (Seq<char>, Seq<char>, Option<Seq<char>>, Seq<Seq<char>>);

/// Whether a leaf sits directly under `p`.
pub open spec fn at_path(p: Seq<Seq<char>>) -> spec_fn(Leaf) -> bool {
    |x: Leaf| x.3 == p
}

/// The leaves of `l` that sit directly under `p`, in the order of `l`.
pub open spec fn leaves_at(l: Seq<Leaf>, p: Seq<Seq<char>>) -> Seq<Leaf> {
    l.filter(at_path(p))
}

/// Whether `q` is a path that a leaf under `nodes` at `pre` can have: it
/// extends `pre`, and where it goes deeper it goes through one of the
/// submenus directly in `nodes`.
pub open spec fn path_under(q: Seq<Seq<char>>, pre: Seq<Seq<char>>, nodes: Seq<MenuNode>) -> bool {
    &&& pre.len() <= q.len()
    &&& q.subrange(0, pre.len() as int) == pre
    &&& q.len() > pre.len() ==> sub_labels(nodes).contains(q[pre.len() as int])
}

proof fn lemma_leaf_paths(nodes: Seq<MenuNode>, pre: Seq<Seq<char>>)
    ensures
        forall|k: int|
            0 <= k < leaves(nodes, pre).len() ==> path_under(
                (#[trigger] leaves(nodes, pre)[k]).3,
                pre,
                nodes,
            ),
    decreases nodes,
{
    if nodes.len() > 0 {
        let d = nodes.drop_last();
        lemma_leaf_paths(d, pre);
        let rest = leaves(d, pre);
        assert forall|l: Seq<char>| sub_labels(d).contains(l) implies sub_labels(nodes).contains(l) by {
            let k = choose|k: int| 0 <= k < sub_labels(d).len() && sub_labels(d)[k] == l;
            match nodes.last() {
                MenuNode::Sub { label, .. } => {
                    assert(sub_labels(nodes) == sub_labels(d).push(label@));
                    assert(sub_labels(nodes)[k] == l);
                },
                MenuNode::Item { .. } => {},
            }
        }
        match nodes.last() {
            MenuNode::Item { id, label, chord } => {
                let all = leaves(nodes, pre);
                assert(all == rest.push((id@, label@, chord_text(chord), pre)));
                assert forall|k: int| 0 <= k < all.len() implies path_under(
                    (#[trigger] all[k]).3,
                    pre,
                    nodes,
                ) by {
                    if k < rest.len() {
                        assert(all[k] == rest[k]);
                    } else {
                        assert(all[k].3 == pre);
                        assert(pre.subrange(0, pre.len() as int) =~= pre);
                    }
                }
            },
            MenuNode::Sub { label, children } => {
                assert(decreases_to!(nodes => nodes[nodes.len() - 1]));
                assert(nodes[nodes.len() - 1] == nodes.last());
                let deeper = pre.push(label@);
                lemma_leaf_paths(children@, deeper);
                let inner = leaves(children@, deeper);
                let all = leaves(nodes, pre);
                assert(all == rest + inner);
                assert(sub_labels(nodes) == sub_labels(d).push(label@));
                assert(sub_labels(nodes)[sub_labels(d).len() as int] == label@);
                assert forall|k: int| 0 <= k < all.len() implies path_under(
                    (#[trigger] all[k]).3,
                    pre,
                    nodes,
                ) by {
                    if k < rest.len() {
                        assert(all[k] == rest[k]);
                    } else {
                        let q = all[k].3;
                        assert(all[k] == inner[k - rest.len()]);
                        assert(path_under(q, deeper, children@));
                        assert(q.subrange(0, deeper.len() as int) == deeper);
                        assert(q[pre.len() as int] == deeper[pre.len() as int]);
                        assert(q.subrange(0, pre.len() as int) =~= deeper.subrange(
                            0,
                            pre.len() as int,
                        ));
                        assert(deeper.subrange(0, pre.len() as int) =~= pre);
                    }
                }
            },
        }
    }
}

/// Two submenus of a well-grouped list never share a label.
proof fn lemma_tree_ok_distinct(s: Seq<MenuNode>, i: int, j: int, l: Seq<char>)
    requires
        tree_ok(s),
        0 <= i < j < s.len(),
        is_sub_named(s[i], l),
    ensures
        !is_sub_named(s[j], l),
    decreases s.len(),
{
    let d = s.drop_last();
    assert(d[i] == s[i]);
    if j < s.len() - 1 {
        assert(d[j] == s[j]);
        lemma_tree_ok_distinct(d, i, j, l);
    } else {
        lemma_sub_labels_contains(d, l);
        assert(s.last() == s[j]);
    }
}

/// No leaf of `l` sits under `p` when no leaf's path is `p`.
proof fn lemma_leaves_at_none(l: Seq<Leaf>, p: Seq<Seq<char>>)
    requires
        forall|k: int| 0 <= k < l.len() ==> (#[trigger] l[k]).3 != p,
    ensures
        leaves_at(l, p) == Seq::<Leaf>::empty(),
    decreases l.len(),
{
    if l.len() == 0 {
        l.lemma_filter_len(at_path(p));
        assert(leaves_at(l, p) =~= Seq::<Leaf>::empty());
    } else {
        let d = l.drop_last();
        assert forall|k: int| 0 <= k < d.len() implies (#[trigger] d[k]).3 != p by {
            assert(d[k] == l[k]);
        }
        lemma_leaves_at_none(d, p);
        assert(d.push(l.last()) =~= l);
        d.lemma_filter_push(l.last(), at_path(p));
        assert(l[l.len() - 1] == l.last());
    }
}

/// The leaves after submenu `i` of a well-grouped list never sit under a
/// path that goes through that submenu.
proof fn lemma_later_siblings(s: Seq<MenuNode>, i: int, pre: Seq<Seq<char>>, p: Seq<Seq<char>>)
    requires
        tree_ok(s),
        0 <= i < s.len(),
        pre.len() < p.len(),
        p.subrange(0, pre.len() as int) == pre,
        is_sub_named(s[i], p[pre.len() as int]),
    ensures
        leaves_at(leaves(s.skip(i + 1), pre), p) == Seq::<Leaf>::empty(),
{
    let c = s.skip(i + 1);
    let l = leaves(c, pre);
    lemma_leaf_paths(c, pre);
    lemma_sub_labels_contains(c, p[pre.len() as int]);
    assert forall|k: int| 0 <= k < l.len() implies (#[trigger] l[k]).3 != p by {
        if l[k].3 == p {
            assert(path_under(l[k].3, pre, c));
            let j = choose|j: int| 0 <= j < c.len() && is_sub_named(#[trigger] c[j], p[pre.len() as int]);
            assert(c[j] == s[i + 1 + j]);
            lemma_tree_ok_distinct(s, i, i + 1 + j, p[pre.len() as int]);
        }
    }
    lemma_leaves_at_none(l, p);
}

/// Replacing submenu `i` of a well-grouped list by one whose leaves differ
/// only by `x` appended under `full`, a path through that submenu, appends
/// `x` under `full` in the whole list and changes nothing under other paths.
proof fn lemma_replace_sub_order(
    s: Seq<MenuNode>,
    i: int,
    n: MenuNode,
    pre: Seq<Seq<char>>,
    full: Seq<Seq<char>>,
    x: Leaf,
)
    requires
        tree_ok(s),
        0 <= i < s.len(),
        pre.len() < full.len(),
        full.subrange(0, pre.len() as int) == pre,
        is_sub_named(s[i], full[pre.len() as int]),
        forall|p: Seq<Seq<char>>|
            #[trigger] leaves_at(leaves(seq![n], pre), p) == if p == full {
                leaves_at(leaves(seq![s[i]], pre), p).push(x)
            } else {
                leaves_at(leaves(seq![s[i]], pre), p)
            },
    ensures
        forall|p: Seq<Seq<char>>|
            #[trigger] leaves_at(leaves(s.update(i, n), pre), p) == if p == full {
                leaves_at(leaves(s, pre), p).push(x)
            } else {
                leaves_at(leaves(s, pre), p)
            },
{
    let t = s.take(i);
    let k = s.skip(i + 1);
    let lt = leaves(t, pre);
    let lk = leaves(k, pre);
    let bold = leaves(seq![s[i]], pre);
    let bnew = leaves(seq![n], pre);
    assert(s =~= t + seq![s[i]] + k);
    assert(s.update(i, n) =~= t + seq![n] + k);
    lemma_leaves_concat(t, seq![s[i]], pre);
    lemma_leaves_concat(t + seq![s[i]], k, pre);
    lemma_leaves_concat(t, seq![n], pre);
    lemma_leaves_concat(t + seq![n], k, pre);
    assert(leaves(s.update(i, n), pre) == lt + bnew + lk);
    assert(leaves(s, pre) == lt + bold + lk);
    assert forall|p: Seq<Seq<char>>| #[trigger]
        leaves_at(leaves(s.update(i, n), pre), p) == if p == full {
            leaves_at(leaves(s, pre), p).push(x)
        } else {
            leaves_at(leaves(s, pre), p)
        } by {
        let f = at_path(p);
        Seq::filter_distributes_over_add(lt, bnew, f);
        Seq::filter_distributes_over_add(lt + bnew, lk, f);
        Seq::filter_distributes_over_add(lt, bold, f);
        Seq::filter_distributes_over_add(lt + bold, lk, f);
        assert(leaves_at(bnew, p) == if p == full {
            leaves_at(bold, p).push(x)
        } else {
            leaves_at(bold, p)
        });
        if p == full {
            lemma_later_siblings(s, i, pre, p);
            assert(leaves_at(lk, p) == Seq::<Leaf>::empty());
            assert(leaves_at(leaves(s.update(i, n), pre), p) =~= (leaves_at(lt, p) + leaves_at(
                bold,
                p,
            ) + leaves_at(lk, p)).push(x));
        }
    }
}

/// The leaf a command with `id`, `label` and `chord` becomes under `path`.
pub open spec fn item_leaf(item: MenuNode, path: Seq<Seq<char>>) -> (
    Seq<char>,
    Seq<char>,
    Option<Seq<char>>,
    Seq<Seq<char>>,
) {
    match item {
        MenuNode::Item { id, label, chord } => (id@, label@, chord_text(chord), path),
        MenuNode::Sub { label, children } => (Seq::empty(), label@, None, path),
    }
}

/// Whether `n` is a submenu labelled `label`.
pub open spec fn is_sub_named(n: MenuNode, label: Seq<char>) -> bool {
    n matches MenuNode::Sub { label: l, .. } && l@ == label
}

proof fn lemma_leaves_single(n: MenuNode, path: Seq<Seq<char>>)
    ensures
        leaves(seq![n], path) == match n {
            MenuNode::Item { id, label, chord } => seq![(id@, label@, chord_text(chord), path)],
            MenuNode::Sub { label, children } => leaves(children@, path.push(label@)),
        },
{
    let s = seq![n];
    assert(s.drop_last() =~= Seq::<MenuNode>::empty());
    assert(s.last() == n);
    assert(leaves(Seq::<MenuNode>::empty(), path) == Seq::<(Seq<char>, Seq<char>, Option<Seq<char>>, Seq<Seq<char>>)>::empty());
    assert(leaves(s.drop_last(), path).len() == 0);
    match n {
        MenuNode::Item { id, label, chord } => {
            assert(leaves(s, path) == leaves(s.drop_last(), path).push((id@, label@, chord_text(chord), path)));
            assert(leaves(s, path) =~= seq![(id@, label@, chord_text(chord), path)]);
        },
        MenuNode::Sub { label, children } => {
            assert(leaves(s, path) == leaves(s.drop_last(), path) + leaves(children@, path.push(label@)));
            assert(leaves(s, path) =~= leaves(children@, path.push(label@)));
        },
    }
}

/// The leaves of `s` with element `i` replaced by `n`, as a multiset: those
/// of `s`, less those of `s[i]`, plus those of `n`.
proof fn lemma_leaves_update(s: Seq<MenuNode>, i: int, n: MenuNode, path: Seq<Seq<char>>)
    requires
        0 <= i < s.len(),
    ensures
        leaves(s, path).to_multiset() == leaves(s.take(i), path).to_multiset().add(
            leaves(seq![s[i]], path).to_multiset(),
        ).add(leaves(s.skip(i + 1), path).to_multiset()),
        leaves(s.update(i, n), path).to_multiset() == leaves(s.take(i), path).to_multiset().add(
            leaves(seq![n], path).to_multiset(),
        ).add(leaves(s.skip(i + 1), path).to_multiset()),
{
    assert(s =~= s.take(i) + seq![s[i]] + s.skip(i + 1));
    assert(s.update(i, n) =~= s.take(i) + seq![n] + s.skip(i + 1));
    lemma_leaves_concat(s.take(i), seq![s[i]], path);
    lemma_leaves_concat(s.take(i) + seq![s[i]], s.skip(i + 1), path);
    lemma_leaves_concat(s.take(i), seq![n], path);
    lemma_leaves_concat(s.take(i) + seq![n], s.skip(i + 1), path);
}

fn same_text(a: &String, b: &String) -> (r: bool)
    ensures
        r == (a@ == b@),
{
    let av = chars_of(a.as_str());
    chars_eq_str(&av, b.as_str())
}

fn copy_text(a: &String) -> (r: String)
    ensures
        r@ == a@,
{
    let v = chars_of(a.as_str());
    string_of(&v)
}

/// The first submenu of `nodes` labelled `head`, if any.
fn find_sub(nodes: &Vec<MenuNode>, head: &String) -> (r: Option<usize>)
    ensures
        match r {
            Some(i) => i < nodes@.len() && is_sub_named(nodes@[i as int], head@) && forall|j: int|
                0 <= j < i ==> !is_sub_named(#[trigger] nodes@[j], head@),
            None => forall|j: int| 0 <= j < nodes@.len() ==> !is_sub_named(#[trigger] nodes@[j], head@),
        },
{
    let mut i: usize = 0;
    while i < nodes.len()
        invariant
            i <= nodes@.len(),
            forall|j: int| 0 <= j < i ==> !is_sub_named(#[trigger] nodes@[j], head@),
        decreases nodes@.len() - i,
    {
        match &nodes[i] {
            MenuNode::Sub { label, .. } => {
                if same_text(label, head) {
                    return Some(i);
                }
            },
            MenuNode::Item { .. } => {},
        }
        i = i + 1;
    }
    None
}

/// Inserts the item `leaf` into `nodes`, descending through the submenus
/// named by `path[from..]` and creating each one that is missing; with no
/// names left the leaf is appended.
fn insert_into(
    nodes: &mut Vec<MenuNode>,
    path: &[String],
    from: usize,
    leaf: MenuNode,
    Ghost(pre): Ghost<Seq<Seq<char>>>,
)
    requires
        from <= path@.len(),
        leaf is Item,
        tree_ok(old(nodes)@),
    ensures
        leaves(final(nodes)@, pre).to_multiset() == leaves(old(nodes)@, pre).to_multiset().insert(
            item_leaf(leaf, pre + label_texts(path@.skip(from as int))),
        ),
        tree_ok(final(nodes)@),
        forall|p: Seq<Seq<char>>|
            #[trigger] leaves_at(leaves(final(nodes)@, pre), p) == if p == pre + label_texts(
                path@.skip(from as int),
            ) {
                leaves_at(leaves(old(nodes)@, pre), p).push(
                    item_leaf(leaf, pre + label_texts(path@.skip(from as int))),
                )
            } else {
                leaves_at(leaves(old(nodes)@, pre), p)
            },
    decreases path@.len() - from,
{
    if from == path.len() {
        let ghost before = nodes@;
        nodes.push(leaf);
        proof {
            assert(nodes@.drop_last() =~= before);
            assert(nodes@.last() == leaf);
            assert(label_texts(path@.skip(from as int)) =~= Seq::<Seq<char>>::empty());
            assert(pre + label_texts(path@.skip(from as int)) =~= pre);
            let x = item_leaf(leaf, pre);
            assert(leaves(nodes@, pre) == leaves(before, pre).push(x));
            assert forall|p: Seq<Seq<char>>| #[trigger]
                leaves_at(leaves(nodes@, pre), p) == if p == pre {
                    leaves_at(leaves(before, pre), p).push(x)
                } else {
                    leaves_at(leaves(before, pre), p)
                } by {
                leaves(before, pre).lemma_filter_push(x, at_path(p));
            }
        }
        return;
    }
    let head = &path[from];
    let ghost start = nodes@;
    let idx = match find_sub(nodes, head) {
        Some(i) => i,
        None => {
            let fresh = MenuNode::Sub { label: copy_text(head), children: Vec::new() };
            nodes.push(fresh);
            proof {
                lemma_sub_labels_contains(start, head@);
                assert(nodes@.drop_last() =~= start);
                assert(nodes@.last() == fresh);
                assert(tree_ok(Seq::<MenuNode>::empty()));
                lemma_leaves_concat(start, seq![fresh], pre);
                lemma_leaves_single(fresh, pre);
                assert(start + seq![fresh] =~= nodes@);
                assert(leaves(Seq::<MenuNode>::empty(), pre.push(head@)) =~= Seq::empty());
                assert(leaves(nodes@, pre) =~= leaves(start, pre));
            }
            nodes.len() - 1
        },
    };
    let ghost mid = nodes@;
    assert(leaves(mid, pre) == leaves(start, pre));
    let node = nodes.remove(idx);
    match node {
        MenuNode::Sub { label, children } => {
            let mut children = children;
            let ghost old_children = children@;
            proof {
                lemma_tree_ok_child(mid, idx as int);
            }
            insert_into(&mut children, path, from + 1, leaf, Ghost(pre.push(label@)));
            let rebuilt = MenuNode::Sub { label, children };
            nodes.insert(idx, rebuilt);
            proof {
                assert(nodes@ =~= mid.update(idx as int, rebuilt));
                lemma_tree_ok_update(mid, idx as int, rebuilt);
                lemma_leaves_update(mid, idx as int, rebuilt, pre);
                lemma_leaves_single(rebuilt, pre);
                lemma_leaves_single(mid[idx as int], pre);
                assert(path@.skip(from as int) =~= seq![path@[from as int]] + path@.skip(from + 1));
                assert(label_texts(path@.skip(from as int)) =~= seq![head@] + label_texts(
                    path@.skip(from + 1),
                ));
                assert(pre.push(label@) + label_texts(path@.skip(from + 1)) =~= pre + label_texts(
                    path@.skip(from as int),
                ));
                let x = item_leaf(leaf, pre + label_texts(path@.skip(from as int)));
                let a = leaves(mid.take(idx as int), pre).to_multiset();
                let c = leaves(mid.skip(idx + 1), pre).to_multiset();
                let bo = leaves(old_children, pre.push(label@)).to_multiset();
                assert(a.add(bo.insert(x)).add(c) =~= a.add(bo).add(c).insert(x));
                let full = pre + label_texts(path@.skip(from as int));
                assert(full.subrange(0, pre.len() as int) =~= pre);
                assert(full[pre.len() as int] == head@);
                assert forall|p: Seq<Seq<char>>| #[trigger]
                    leaves_at(leaves(seq![rebuilt], pre), p) == if p == full {
                        leaves_at(leaves(seq![mid[idx as int]], pre), p).push(x)
                    } else {
                        leaves_at(leaves(seq![mid[idx as int]], pre), p)
                    } by {
                    assert(leaves_at(leaves(children@, pre.push(label@)), p) == leaves_at(
                        leaves(seq![rebuilt], pre),
                        p,
                    ));
                }
                lemma_replace_sub_order(mid, idx as int, rebuilt, pre, full, x);
            }
        },
        MenuNode::Item { id, label, chord } => {
            proof {
                assert(false);
            }
            nodes.insert(idx, MenuNode::Item { id, label, chord });
        },
    }
}


/// Every leaf of `menus`, menu by menu; each leaf's path starts with the label
/// of the menu it sits in.
pub open spec fn menu_leaves(menus: Seq<Menu>) -> Seq<
    (Seq<char>, Seq<char>, Option<Seq<char>>, Seq<Seq<char>>),
>
    decreases menus.len(),
{
    if menus.len() == 0 {
        Seq::empty()
    } else {
        menu_leaves(menus.drop_last()) + leaves(menus.last().nodes@, seq![menus.last().label@])
    }
}

/// Whether the menus show `e`: it is reachable on this target and has a
/// non-empty menu path.
pub open spec fn is_shown(e: MenuEntry) -> bool {
    e.visible && (e.menu_path matches Some(p) && p@.len() > 0)
}

/// The leaf a shown entry becomes: its id, label and chord, under its menu
/// path.
pub open spec fn entry_leaf(e: MenuEntry) -> (Seq<char>, Seq<char>, Option<Seq<char>>, Seq<Seq<char>>) {
    (e.id@, e.label@, chord_text(e.chord), label_texts(e.menu_path.unwrap()@))
}

/// The leaves of the shown entries, in registry order.
pub open spec fn shown_leaves(entries: Seq<MenuEntry>) -> Seq<
    (Seq<char>, Seq<char>, Option<Seq<char>>, Seq<Seq<char>>),
>
    decreases entries.len(),
{
    if entries.len() == 0 {
        Seq::empty()
    } else {
        let rest = shown_leaves(entries.drop_last());
        if is_shown(entries.last()) {
            rest.push(entry_leaf(entries.last()))
        } else {
            rest
        }
    }
}

/// The top-level menu a shown entry goes into.
pub open spec fn top_of(e: MenuEntry) -> Seq<char> {
    e.menu_path.unwrap()@[0]@
}

/// The top-level labels of the shown entries, each once, in the order of
/// first use.
pub open spec fn top_labels(entries: Seq<MenuEntry>) -> Seq<Seq<char>>
    decreases entries.len(),
{
    if entries.len() == 0 {
        Seq::empty()
    } else {
        let rest = top_labels(entries.drop_last());
        let e = entries.last();
        if is_shown(e) && !rest.contains(top_of(e)) {
            rest.push(top_of(e))
        } else {
            rest
        }
    }
}

/// The labels of `menus`, in order.
pub open spec fn menu_labels(menus: Seq<Menu>) -> Seq<Seq<char>> {
    menus.map_values(|m: Menu| m.label@)
}

/// Whether a top-level label is outside the fixed order.
pub open spec fn unknown_top() -> spec_fn(Seq<char>) -> bool {
    |l: Seq<char>| top_rank(l) == 8
}

/// The place of a top-level menu in the fixed left-to-right order; 8 for a
/// label outside it.
pub open spec fn top_rank(label: Seq<char>) -> nat {
    if label == "File"@ {
        0
    } else if label == "Edit"@ {
        1
    } else if label == "View"@ {
        2
    } else if label == "Select"@ {
        3
    } else if label == "Draw"@ {
        4
    } else if label == "Verify"@ {
        5
    } else if label == "Share"@ {
        6
    } else if label == "Help"@ {
        7
    } else {
        8
    }
}

/// Whether every menu's tree is well grouped (see [`tree_ok`]).
pub open spec fn menus_ok(menus: Seq<Menu>) -> bool {
    forall|i: int| 0 <= i < menus.len() ==> tree_ok(#[trigger] menus[i].nodes@)
}

/// Whether no two menus share a label.
pub open spec fn labels_distinct(menus: Seq<Menu>) -> bool {
    forall|i: int, j: int| 0 <= i < j < menus.len() ==> (#[trigger] menus[i]).label@ != (#[trigger] menus[j]).label@
}

/// Whether the menus follow the fixed order, unknown labels last.
pub open spec fn ranks_ordered(menus: Seq<Menu>) -> bool {
    forall|i: int, j: int|
        0 <= i < j < menus.len() ==> top_rank((#[trigger] menus[i]).label@) <= top_rank(
            (#[trigger] menus[j]).label@,
        )
}

/// The fixed left-to-right order of the top-level menus.
pub open spec fn top_order() -> Seq<Seq<char>> {
    seq!["File"@, "Edit"@, "View"@, "Select"@, "Draw"@, "Verify"@, "Share"@, "Help"@]
}

/// A top-level menu's place is its position in the fixed order File, Edit,
/// View, Select, Draw, Verify, Share, Help; every other label comes after all
/// of them. So in menus laid out by rank, a menu whose label comes earlier in
/// the fixed order stands to the left of one whose label comes later.
pub proof fn lemma_top_rank_is_the_fixed_order(menus: Seq<Menu>, label: Seq<char>, i: int, j: int, a: int, b: int)
    requires
        ranks_ordered(menus),
        0 <= i < menus.len(),
        0 <= j < menus.len(),
        0 <= a < b < 8,
        menus[i].label@ == top_order()[a],
        menus[j].label@ == top_order()[b],
    ensures
        forall|k: int| 0 <= k < 8 ==> top_rank(#[trigger] top_order()[k]) == k,
        !top_order().contains(label) ==> top_rank(label) == 8,
        i < j,
{
    reveal_strlit("File");
    reveal_strlit("Edit");
    reveal_strlit("View");
    reveal_strlit("Select");
    reveal_strlit("Draw");
    reveal_strlit("Verify");
    reveal_strlit("Share");
    reveal_strlit("Help");
    let t = top_order();
    assert(t[0][0] == 'F' && t[1][0] == 'E' && t[2][0] == 'V' && t[3][0] == 'S');
    assert(t[4][0] == 'D' && t[5][0] == 'V' && t[6][0] == 'S' && t[7][0] == 'H');
    assert(t[2].len() == 4 && t[5].len() == 6 && t[3].len() == 6 && t[6].len() == 5);
    assert(top_rank(t[0]) == 0);
    assert(top_rank(t[1]) == 1);
    assert(top_rank(t[2]) == 2);
    assert(top_rank(t[3]) == 3);
    assert(top_rank(t[4]) == 4);
    assert(top_rank(t[5]) == 5);
    assert(top_rank(t[6]) == 6);
    assert(top_rank(t[7]) == 7);
    if !t.contains(label) {
        assert(label != t[0] && label != t[1] && label != t[2] && label != t[3]);
        assert(label != t[4] && label != t[5] && label != t[6] && label != t[7]);
    }
    if j <= i {
        if j < i {
            assert(top_rank(menus[j].label@) <= top_rank(menus[i].label@));
        }
    }
}

proof fn lemma_rank_determines_label(a: Seq<char>, b: Seq<char>)
    requires
        top_rank(a) == top_rank(b),
        top_rank(a) < 8,
    ensures
        a == b,
{
}

proof fn lemma_menu_leaves_concat(a: Seq<Menu>, b: Seq<Menu>)
    ensures
        menu_leaves(a + b) == menu_leaves(a) + menu_leaves(b),
    decreases b.len(),
{
    if b.len() == 0 {
        assert(a + b =~= a);
        assert(menu_leaves(a) + menu_leaves(b) =~= menu_leaves(a));
    } else {
        assert((a + b).drop_last() =~= a + b.drop_last());
        assert((a + b).last() == b.last());
        lemma_menu_leaves_concat(a, b.drop_last());
        assert(menu_leaves(a + b) =~= menu_leaves(a) + menu_leaves(b));
    }
}

proof fn lemma_menu_leaves_single(m: Menu)
    ensures
        menu_leaves(seq![m]) == leaves(m.nodes@, seq![m.label@]),
{
    let s = seq![m];
    assert(s.drop_last() =~= Seq::<Menu>::empty());
    assert(s.last() == m);
    assert(menu_leaves(Seq::<Menu>::empty()).len() == 0);
    assert(menu_leaves(s) =~= leaves(m.nodes@, seq![m.label@]));
}

/// The leaves of menus `s` split around menu `i`, and with menu `i` replaced
/// by `m`, as multisets.
proof fn lemma_menu_leaves_split(s: Seq<Menu>, i: int, m: Menu)
    requires
        0 <= i < s.len(),
    ensures
        menu_leaves(s).to_multiset() == menu_leaves(s.take(i)).to_multiset().add(
            leaves(s[i].nodes@, seq![s[i].label@]).to_multiset(),
        ).add(menu_leaves(s.skip(i + 1)).to_multiset()),
        menu_leaves(s.update(i, m)).to_multiset() == menu_leaves(s.take(i)).to_multiset().add(
            leaves(m.nodes@, seq![m.label@]).to_multiset(),
        ).add(menu_leaves(s.skip(i + 1)).to_multiset()),
        menu_leaves(s.remove(i)).to_multiset() == menu_leaves(s.take(i)).to_multiset().add(
            menu_leaves(s.skip(i + 1)).to_multiset(),
        ),
{
    assert(s =~= s.take(i) + seq![s[i]] + s.skip(i + 1));
    assert(s.update(i, m) =~= s.take(i) + seq![m] + s.skip(i + 1));
    assert(s.remove(i) =~= s.take(i) + s.skip(i + 1));
    lemma_menu_leaves_concat(s.take(i), seq![s[i]]);
    lemma_menu_leaves_concat(s.take(i) + seq![s[i]], s.skip(i + 1));
    lemma_menu_leaves_concat(s.take(i), seq![m]);
    lemma_menu_leaves_concat(s.take(i) + seq![m], s.skip(i + 1));
    lemma_menu_leaves_concat(s.take(i), s.skip(i + 1));
    lemma_menu_leaves_single(s[i]);
    lemma_menu_leaves_single(m);
}

/// No leaf of `s` sits under `p` when no menu of `s` is the first step of `p`.
proof fn lemma_menu_leaves_at_none(s: Seq<Menu>, p: Seq<Seq<char>>)
    requires
        p.len() == 0 || forall|i: int| 0 <= i < s.len() ==> (#[trigger] s[i]).label@ != p[0],
    ensures
        leaves_at(menu_leaves(s), p) == Seq::<Leaf>::empty(),
    decreases s.len(),
{
    if s.len() == 0 {
        menu_leaves(s).lemma_filter_len(at_path(p));
        assert(leaves_at(menu_leaves(s), p) =~= Seq::<Leaf>::empty());
    } else {
        let d = s.drop_last();
        let m = s.last();
        assert(m == s[s.len() - 1]);
        assert forall|i: int| 0 <= i < d.len() implies (#[trigger] d[i]) == s[i] by {}
        lemma_menu_leaves_at_none(d, p);
        let pre = seq![m.label@];
        let l = leaves(m.nodes@, pre);
        lemma_leaf_paths(m.nodes@, pre);
        assert forall|k: int| 0 <= k < l.len() implies (#[trigger] l[k]).3 != p by {
            let q = l[k].3;
            assert(path_under(q, pre, m.nodes@));
            assert(q[0] == q.subrange(0, 1)[0]);
            if q == p {
                assert(p.len() > 0);
            }
        }
        lemma_leaves_at_none(l, p);
        Seq::filter_distributes_over_add(menu_leaves(d), l, at_path(p));
        assert(leaves_at(menu_leaves(s), p) =~= Seq::<Leaf>::empty());
    }
}

/// Replacing menu `i` by one whose leaves differ only by `x` appended under
/// `full`, a path into that menu, appends `x` under `full` in all the menus
/// and changes nothing under other paths.
proof fn lemma_replace_menu_order(s: Seq<Menu>, i: int, m: Menu, full: Seq<Seq<char>>, x: Leaf)
    requires
        labels_distinct(s),
        0 <= i < s.len(),
        m.label@ == s[i].label@,
        full.len() > 0,
        full[0] == s[i].label@,
        forall|p: Seq<Seq<char>>|
            #[trigger] leaves_at(leaves(m.nodes@, seq![m.label@]), p) == if p == full {
                leaves_at(leaves(s[i].nodes@, seq![s[i].label@]), p).push(x)
            } else {
                leaves_at(leaves(s[i].nodes@, seq![s[i].label@]), p)
            },
    ensures
        forall|p: Seq<Seq<char>>|
            #[trigger] leaves_at(menu_leaves(s.update(i, m)), p) == if p == full {
                leaves_at(menu_leaves(s), p).push(x)
            } else {
                leaves_at(menu_leaves(s), p)
            },
{
    let t = s.take(i);
    let k = s.skip(i + 1);
    let lt = menu_leaves(t);
    let lk = menu_leaves(k);
    let bold = leaves(s[i].nodes@, seq![s[i].label@]);
    let bnew = leaves(m.nodes@, seq![m.label@]);
    assert(s =~= t + seq![s[i]] + k);
    assert(s.update(i, m) =~= t + seq![m] + k);
    lemma_menu_leaves_concat(t, seq![s[i]]);
    lemma_menu_leaves_concat(t + seq![s[i]], k);
    lemma_menu_leaves_concat(t, seq![m]);
    lemma_menu_leaves_concat(t + seq![m], k);
    lemma_menu_leaves_single(s[i]);
    lemma_menu_leaves_single(m);
    assert(menu_leaves(s.update(i, m)) == lt + bnew + lk);
    assert(menu_leaves(s) == lt + bold + lk);
    assert forall|p: Seq<Seq<char>>| #[trigger]
        leaves_at(menu_leaves(s.update(i, m)), p) == if p == full {
            leaves_at(menu_leaves(s), p).push(x)
        } else {
            leaves_at(menu_leaves(s), p)
        } by {
        let f = at_path(p);
        Seq::filter_distributes_over_add(lt, bnew, f);
        Seq::filter_distributes_over_add(lt + bnew, lk, f);
        Seq::filter_distributes_over_add(lt, bold, f);
        Seq::filter_distributes_over_add(lt + bold, lk, f);
        assert(leaves_at(bnew, p) == if p == full {
            leaves_at(bold, p).push(x)
        } else {
            leaves_at(bold, p)
        });
        if p == full {
            assert forall|j: int| 0 <= j < k.len() implies (#[trigger] k[j]).label@ != p[0] by {
                assert(k[j] == s[i + 1 + j]);
            }
            lemma_menu_leaves_at_none(k, p);
            assert(leaves_at(menu_leaves(s.update(i, m)), p) =~= (leaves_at(lt, p) + leaves_at(
                bold,
                p,
            ) + leaves_at(lk, p)).push(x));
        }
    }
}

/// Moving menu `i` of `rest` to the end of `out` changes no path's leaves in
/// `out` followed by `rest`: the leaves under one path all sit in one menu.
proof fn lemma_move_menu_order(out: Seq<Menu>, rest: Seq<Menu>, i: int)
    requires
        labels_distinct(rest),
        0 <= i < rest.len(),
    ensures
        forall|p: Seq<Seq<char>>|
            leaves_at(menu_leaves(out.push(rest[i])), p) + leaves_at(menu_leaves(rest.remove(i)), p)
                == #[trigger] leaves_at(menu_leaves(out), p) + leaves_at(menu_leaves(rest), p),
{
    let m = rest[i];
    let t = rest.take(i);
    let k = rest.skip(i + 1);
    let lm = leaves(m.nodes@, seq![m.label@]);
    assert(out.push(m) =~= out + seq![m]);
    assert(rest =~= t + seq![m] + k);
    assert(rest.remove(i) =~= t + k);
    lemma_menu_leaves_concat(out, seq![m]);
    lemma_menu_leaves_concat(t, seq![m]);
    lemma_menu_leaves_concat(t + seq![m], k);
    lemma_menu_leaves_concat(t, k);
    lemma_menu_leaves_single(m);
    assert forall|p: Seq<Seq<char>>|
        leaves_at(menu_leaves(out.push(m)), p) + leaves_at(menu_leaves(rest.remove(i)), p)
            == #[trigger] leaves_at(menu_leaves(out), p) + leaves_at(menu_leaves(rest), p) by {
        let f = at_path(p);
        Seq::filter_distributes_over_add(menu_leaves(out), lm, f);
        Seq::filter_distributes_over_add(menu_leaves(t), menu_leaves(k), f);
        Seq::filter_distributes_over_add(menu_leaves(t), lm, f);
        Seq::filter_distributes_over_add(menu_leaves(t) + lm, menu_leaves(k), f);
        let a = leaves_at(menu_leaves(out), p);
        let bt = leaves_at(menu_leaves(t), p);
        let bm = leaves_at(lm, p);
        let bk = leaves_at(menu_leaves(k), p);
        if p.len() > 0 && p[0] == m.label@ {
            assert forall|j: int| 0 <= j < t.len() implies (#[trigger] t[j]).label@ != p[0] by {
                assert(t[j] == rest[j]);
            }
            lemma_menu_leaves_at_none(t, p);
            assert(a + bm + (bt + bk) =~= a + (bt + bm + bk));
        } else {
            lemma_menu_leaves_at_none(seq![m], p);
            assert(a + bm + (bt + bk) =~= a + (bt + bm + bk));
        }
    }
}

/// Moving menu `i` of `rest` to the end of `out` keeps the labels outside the
/// fixed order, read through `out` then `rest`, in their order; `i` is the
/// first menu, or one whose label is in the fixed order.
proof fn lemma_unknown_move(out: Seq<Menu>, rest: Seq<Menu>, i: int)
    requires
        0 <= i < rest.len(),
        i == 0 || top_rank(rest[i].label@) < 8,
    ensures
        menu_labels(out.push(rest[i])).filter(unknown_top()) + menu_labels(rest.remove(i)).filter(
            unknown_top(),
        ) == menu_labels(out).filter(unknown_top()) + menu_labels(rest).filter(unknown_top()),
{
    let f = unknown_top();
    let l = rest[i].label@;
    let lr = menu_labels(rest);
    let t = lr.take(i);
    let k = lr.skip(i + 1);
    let e = Seq::<Seq<char>>::empty();
    assert(lr =~= t + seq![l] + k);
    assert(menu_labels(rest.remove(i)) =~= t + k);
    assert(menu_labels(out.push(rest[i])) =~= menu_labels(out).push(l));
    assert(seq![l] =~= e.push(l));
    Seq::filter_distributes_over_add(t, seq![l], f);
    Seq::filter_distributes_over_add(t + seq![l], k, f);
    Seq::filter_distributes_over_add(t, k, f);
    menu_labels(out).lemma_filter_push(l, f);
    e.lemma_filter_push(l, f);
    e.lemma_filter_len(f);
    let u = menu_labels(out).filter(f);
    if f(l) {
        t.lemma_filter_len(f);
        assert(t.filter(f) =~= e);
        assert(e.filter(f) =~= e);
        assert(u.push(l) + k.filter(f) =~= u + (e + seq![l] + k.filter(f)));
    } else {
        assert(e.filter(f) =~= e);
        assert(u + (t.filter(f) + k.filter(f)) =~= u + (t.filter(f) + e + k.filter(f)));
    }
}

fn rank_of(label: &String) -> (r: usize)
    ensures
        r == top_rank(label@),
{
    let v = chars_of(label.as_str());
    if chars_eq_str(&v, "File") {
        0
    } else if chars_eq_str(&v, "Edit") {
        1
    } else if chars_eq_str(&v, "View") {
        2
    } else if chars_eq_str(&v, "Select") {
        3
    } else if chars_eq_str(&v, "Draw") {
        4
    } else if chars_eq_str(&v, "Verify") {
        5
    } else if chars_eq_str(&v, "Share") {
        6
    } else if chars_eq_str(&v, "Help") {
        7
    } else {
        8
    }
}

fn find_rank(menus: &Vec<Menu>, rank: usize) -> (r: Option<usize>)
    ensures
        match r {
            Some(i) => i < menus@.len() && top_rank(menus@[i as int].label@) == rank,
            None => forall|j: int| 0 <= j < menus@.len() ==> top_rank((#[trigger] menus@[j]).label@) != rank,
        },
{
    let mut i: usize = 0;
    while i < menus.len()
        invariant
            i <= menus@.len(),
            forall|j: int| 0 <= j < i ==> top_rank((#[trigger] menus@[j]).label@) != rank,
        decreases menus@.len() - i,
    {
        if rank_of(&menus[i].label) == rank {
            return Some(i);
        }
        i = i + 1;
    }
    None
}

/// Reorders top-level menus into the fixed order; a menu whose label is not
/// in it keeps its build order and follows the known ones.
fn order_top_level(menus: Vec<Menu>) -> (r: Vec<Menu>)
    requires
        labels_distinct(menus@),
        menus_ok(menus@),
    ensures
        menu_leaves(r@).to_multiset() == menu_leaves(menus@).to_multiset(),
        forall|p: Seq<Seq<char>>| #[trigger] leaves_at(menu_leaves(r@), p) == leaves_at(menu_leaves(menus@), p),
        menu_labels(r@).filter(unknown_top()) == menu_labels(menus@).filter(unknown_top()),
        labels_distinct(r@),
        ranks_ordered(r@),
        menus_ok(r@),
{
    let ghost total = menu_leaves(menus@).to_multiset();
    let ghost orig = menus@;
    let mut rest = menus;
    let mut out: Vec<Menu> = Vec::new();
    proof {
        menu_labels(Seq::<Menu>::empty()).lemma_filter_len(unknown_top());
        assert(menu_labels(out@).filter(unknown_top()) =~= Seq::<Seq<char>>::empty());
    }
    let mut rank: usize = 0;
    assert(menu_leaves(out@).to_multiset().add(menu_leaves(rest@).to_multiset()) =~= total);
    assert forall|p: Seq<Seq<char>>| #[trigger] leaves_at(menu_leaves(out@), p) + leaves_at(
        menu_leaves(rest@),
        p,
    ) == leaves_at(menu_leaves(orig), p) by {
        lemma_menu_leaves_at_none(out@, p);
        assert(leaves_at(menu_leaves(out@), p) + leaves_at(menu_leaves(rest@), p) =~= leaves_at(
            menu_leaves(orig),
            p,
        ));
    }
    while rank < 8
        invariant
            rank <= 8,
            menu_leaves(out@).to_multiset().add(menu_leaves(rest@).to_multiset()) == total,
            forall|p: Seq<Seq<char>>| #[trigger] leaves_at(menu_leaves(out@), p) + leaves_at(
                menu_leaves(rest@),
                p,
            ) == leaves_at(menu_leaves(orig), p),
            menu_labels(out@).filter(unknown_top()) + menu_labels(rest@).filter(unknown_top())
                == menu_labels(orig).filter(unknown_top()),
            labels_distinct(out@),
            labels_distinct(rest@),
            menus_ok(out@),
            menus_ok(rest@),
            forall|a: int, b: int|
                0 <= a < out@.len() && 0 <= b < rest@.len() ==> (#[trigger] out@[a]).label@ != (
                #[trigger] rest@[b]).label@,
            forall|a: int| 0 <= a < out@.len() ==> top_rank((#[trigger] out@[a]).label@) < rank,
            ranks_ordered(out@),
            forall|b: int| 0 <= b < rest@.len() ==> top_rank((#[trigger] rest@[b]).label@) >= rank,
        decreases 8 - rank,
    {
        match find_rank(&rest, rank) {
            Some(i) => {
                let ghost before_rest = rest@;
                let ghost before_out = out@;
                let m = rest.remove(i);
                out.push(m);
                proof {
                    lemma_unknown_move(before_out, before_rest, i as int);
                    lemma_move_menu_order(before_out, before_rest, i as int);
                    assert forall|p: Seq<Seq<char>>| #[trigger] leaves_at(menu_leaves(out@), p)
                        + leaves_at(menu_leaves(rest@), p) == leaves_at(menu_leaves(orig), p) by {
                        assert(leaves_at(menu_leaves(before_out), p) + leaves_at(
                            menu_leaves(before_rest),
                            p,
                        ) == leaves_at(menu_leaves(orig), p));
                    }
                    lemma_menu_leaves_split(before_rest, i as int, m);
                    assert(out@.drop_last() =~= before_out);
                    assert(forall|b: int|
                        0 <= b < rest@.len() ==> #[trigger] rest@[b] == if b < i {
                            before_rest[b]
                        } else {
                            before_rest[b + 1]
                        });
                    let a0 = menu_leaves(before_out).to_multiset();
                    let l = leaves(m.nodes@, seq![m.label@]).to_multiset();
                    let t = menu_leaves(before_rest.take(i as int)).to_multiset();
                    let k = menu_leaves(before_rest.skip(i + 1)).to_multiset();
                    assert(a0.add(l).add(t.add(k)) =~= a0.add(t.add(l).add(k)));
                    assert forall|b: int| 0 <= b < rest@.len() implies top_rank(
                        (#[trigger] rest@[b]).label@,
                    ) >= rank + 1 by {
                        let src = if b < i { b } else { b + 1 };
                        assert(rest@[b] == before_rest[src]);
                        if top_rank(rest@[b].label@) == rank {
                            lemma_rank_determines_label(rest@[b].label@, m.label@);
                        }
                    }
                }
            },
            None => {},
        }
        rank = rank + 1;
    }
    while rest.len() > 0
        invariant
            menu_leaves(out@).to_multiset().add(menu_leaves(rest@).to_multiset()) == total,
            forall|p: Seq<Seq<char>>| #[trigger] leaves_at(menu_leaves(out@), p) + leaves_at(
                menu_leaves(rest@),
                p,
            ) == leaves_at(menu_leaves(orig), p),
            menu_labels(out@).filter(unknown_top()) + menu_labels(rest@).filter(unknown_top())
                == menu_labels(orig).filter(unknown_top()),
            labels_distinct(out@),
            labels_distinct(rest@),
            menus_ok(out@),
            menus_ok(rest@),
            forall|a: int, b: int|
                0 <= a < out@.len() && 0 <= b < rest@.len() ==> (#[trigger] out@[a]).label@ != (
                #[trigger] rest@[b]).label@,
            ranks_ordered(out@),
            forall|b: int| 0 <= b < rest@.len() ==> top_rank((#[trigger] rest@[b]).label@) == 8,
        decreases rest@.len(),
    {
        let ghost before_rest = rest@;
        let ghost before_out = out@;
        let m = rest.remove(0);
        out.push(m);
        proof {
            lemma_unknown_move(before_out, before_rest, 0);
            lemma_move_menu_order(before_out, before_rest, 0);
            assert forall|p: Seq<Seq<char>>| #[trigger] leaves_at(menu_leaves(out@), p) + leaves_at(
                menu_leaves(rest@),
                p,
            ) == leaves_at(menu_leaves(orig), p) by {
                assert(leaves_at(menu_leaves(before_out), p) + leaves_at(menu_leaves(before_rest), p)
                    == leaves_at(menu_leaves(orig), p));
            }
            lemma_menu_leaves_split(before_rest, 0, m);
            assert(out@.drop_last() =~= before_out);
            assert(before_rest.take(0) =~= Seq::<Menu>::empty());
            assert(menu_leaves(before_rest.take(0)).len() == 0);
            assert(forall|b: int| 0 <= b < rest@.len() ==> #[trigger] rest@[b] == before_rest[b + 1]);
            let a0 = menu_leaves(before_out).to_multiset();
            let l = leaves(m.nodes@, seq![m.label@]).to_multiset();
            let k = menu_leaves(before_rest.skip(1)).to_multiset();
            assert(menu_leaves(before_rest.take(0)).to_multiset() =~= vstd::multiset::Multiset::empty());
            assert(a0.add(l).add(k) =~= a0.add(vstd::multiset::Multiset::empty().add(l).add(k)));
        }
    }
    assert(menu_leaves(rest@).len() == 0);
    assert(menu_leaves(out@).to_multiset() =~= total);
    proof {
        menu_labels(rest@).lemma_filter_len(unknown_top());
        assert(menu_labels(out@).filter(unknown_top()) + menu_labels(rest@).filter(unknown_top())
            =~= menu_labels(out@).filter(unknown_top()));
    }
    assert forall|p: Seq<Seq<char>>| #[trigger] leaves_at(menu_leaves(out@), p) == leaves_at(
        menu_leaves(orig),
        p,
    ) by {
        lemma_menu_leaves_at_none(rest@, p);
        assert(leaves_at(menu_leaves(out@), p) + leaves_at(menu_leaves(rest@), p) == leaves_at(
            menu_leaves(orig),
            p,
        ));
        assert(leaves_at(menu_leaves(out@), p) + leaves_at(menu_leaves(rest@), p) =~= leaves_at(
            menu_leaves(out@),
            p,
        ));
    }
    out
}

fn copy_chord(c: &Option<String>) -> (r: Option<String>)
    ensures
        chord_text(r) == chord_text(*c),
{
    match c {
        Some(s) => Some(copy_text(s)),
        None => None,
    }
}

/// The first menu labelled `label`, if any.
fn find_menu(menus: &Vec<Menu>, label: &String) -> (r: Option<usize>)
    ensures
        match r {
            Some(i) => i < menus@.len() && menus@[i as int].label@ == label@,
            None => forall|j: int| 0 <= j < menus@.len() ==> (#[trigger] menus@[j]).label@ != label@,
        },
{
    let mut i: usize = 0;
    while i < menus.len()
        invariant
            i <= menus@.len(),
            forall|j: int| 0 <= j < i ==> (#[trigger] menus@[j]).label@ != label@,
        decreases menus@.len() - i,
    {
        if same_text(&menus[i].label, label) {
            return Some(i);
        }
        i = i + 1;
    }
    None
}

/// Builds the menu tree from the registry's entries, in registry order.
///
/// Every shown entry (reachable on this target, with a non-empty menu path)
/// becomes one leaf under its path, carrying its id, label and chord;
/// top-level menus and submenus are created on first use. The commands
/// directly under any one path keep registry order. The top-level menus come
/// in the fixed order File, Edit, View, Select, Draw, Verify, Share, Help,
/// any other label after them in the order of first use, and no label twice.
pub fn build_menus(entries: &[MenuEntry]) -> (r: Vec<Menu>)
    ensures
        menu_leaves(r@).to_multiset() == shown_leaves(entries@).to_multiset(),
        forall|p: Seq<Seq<char>>| #[trigger] leaves_at(menu_leaves(r@), p) == leaves_at(shown_leaves(entries@), p),
        menu_labels(r@).filter(unknown_top()) == top_labels(entries@).filter(unknown_top()),
        labels_distinct(r@),
        ranks_ordered(r@),
        menus_ok(r@),
{
    let mut menus: Vec<Menu> = Vec::new();
    let mut k: usize = 0;
    assert(entries@.take(0) =~= Seq::<MenuEntry>::empty());
    assert(menu_leaves(menus@).to_multiset() =~= shown_leaves(entries@.take(0)).to_multiset());
    assert(menu_leaves(menus@) =~= shown_leaves(entries@.take(0)));
    while k < entries.len()
        invariant
            k <= entries@.len(),
            menu_leaves(menus@).to_multiset() == shown_leaves(entries@.take(k as int)).to_multiset(),
            forall|p: Seq<Seq<char>>| #[trigger] leaves_at(menu_leaves(menus@), p) == leaves_at(
                shown_leaves(entries@.take(k as int)),
                p,
            ),
            menu_labels(menus@) == top_labels(entries@.take(k as int)),
            labels_distinct(menus@),
            menus_ok(menus@),
        decreases entries@.len() - k,
    {
        let e = &entries[k];
        proof {
            assert(entries@.take(k + 1).drop_last() =~= entries@.take(k as int));
            assert(entries@.take(k + 1).last() == *e);
        }
        if e.visible {
            match &e.menu_path {
                Some(path) => {
                    if path.len() > 0 {
                        let top = &path[0];
                        let ghost start = menus@;
                        let idx = match find_menu(&menus, top) {
                            Some(i) => {
                                proof {
                                    assert(menu_labels(start)[i as int] == top@);
                                }
                                i
                            },
                            None => {
                                let fresh = Menu { label: copy_text(top), nodes: Vec::new() };
                                menus.push(fresh);
                                proof {
                                    assert(menus@.drop_last() =~= start);
                                    assert(leaves(Seq::<MenuNode>::empty(), seq![top@]).len() == 0);
                                    assert(menu_leaves(menus@) =~= menu_leaves(start));
                                    assert(!menu_labels(start).contains(top@)) by {
                                        if menu_labels(start).contains(top@) {
                                            let j = choose|j: int|
                                                0 <= j < menu_labels(start).len()
                                                    && menu_labels(start)[j] == top@;
                                            assert(start[j].label@ == top@);
                                        }
                                    }
                                    assert(menu_labels(menus@) =~= menu_labels(start).push(top@));
                                    assert(tree_ok(Seq::<MenuNode>::empty()));
                                    assert forall|j: int| 0 <= j < menus@.len() implies tree_ok(
                                        #[trigger] menus@[j].nodes@,
                                    ) by {
                                        if j < start.len() {
                                            assert(menus@[j] == start[j]);
                                        }
                                    }
                                }
                                menus.len() - 1
                            },
                        };
                        let ghost mid = menus@;
                        let leaf = MenuNode::Item {
                            id: copy_text(&e.id),
                            label: copy_text(&e.label),
                            chord: copy_chord(&e.chord),
                        };
                        let m = menus.remove(idx);
                        let Menu { label, nodes } = m;
                        let mut nodes = nodes;
                        let ghost old_nodes = nodes@;
                        assert(tree_ok(mid[idx as int].nodes@));
                        let ghost top_path: Seq<Seq<char>> = seq![label@];
                        insert_into(&mut nodes, path.as_slice(), 1, leaf, Ghost(top_path));
                        let rebuilt = Menu { label, nodes };
                        menus.insert(idx, rebuilt);
                        proof {
                            assert(menus@ =~= mid.update(idx as int, rebuilt));
                            lemma_menu_leaves_split(mid, idx as int, rebuilt);
                            assert(path@ =~= seq![path@[0]] + path@.skip(1));
                            assert(label_texts(path@) =~= seq![label@] + label_texts(path@.skip(1)));
                            assert(item_leaf(leaf, seq![label@] + label_texts(path@.skip(1)))
                                == entry_leaf(*e));
                            let x = entry_leaf(*e);
                            let a = menu_leaves(mid.take(idx as int)).to_multiset();
                            let c = menu_leaves(mid.skip(idx + 1)).to_multiset();
                            let bo = leaves(old_nodes, seq![label@]).to_multiset();
                            assert(a.add(bo.insert(x)).add(c) =~= a.add(bo).add(c).insert(x));
                            let full = label_texts(path@);
                            assert(full[0] == top@);
                            assert forall|p: Seq<Seq<char>>| #[trigger] leaves_at(
                                leaves(rebuilt.nodes@, seq![rebuilt.label@]),
                                p,
                            ) == if p == full {
                                leaves_at(leaves(mid[idx as int].nodes@, seq![mid[idx as int].label@]), p).push(x)
                            } else {
                                leaves_at(leaves(mid[idx as int].nodes@, seq![mid[idx as int].label@]), p)
                            } by {
                                assert(leaves_at(leaves(nodes@, top_path), p) == leaves_at(
                                    leaves(rebuilt.nodes@, seq![rebuilt.label@]),
                                    p,
                                ));
                            }
                            lemma_replace_menu_order(mid, idx as int, rebuilt, full, x);
                            assert(menu_labels(menus@) =~= menu_labels(mid));
                            assert(top_of(*e) == top@);
                            let before = shown_leaves(entries@.take(k as int));
                            assert(shown_leaves(entries@.take(k + 1)) == before.push(x));
                            assert forall|p: Seq<Seq<char>>| #[trigger] leaves_at(menu_leaves(menus@), p)
                                == leaves_at(shown_leaves(entries@.take(k + 1)), p) by {
                                before.lemma_filter_push(x, at_path(p));
                                assert(leaves_at(menu_leaves(start), p) == leaves_at(before, p));
                            }
                            assert forall|j: int| 0 <= j < menus@.len() implies tree_ok(
                                #[trigger] menus@[j].nodes@,
                            ) by {
                                if j != idx {
                                    assert(menus@[j] == mid[j]);
                                }
                            }
                            assert forall|a1: int, b1: int| 0 <= a1 < b1 < menus@.len() implies (
                            #[trigger] menus@[a1]).label@ != (#[trigger] menus@[b1]).label@ by {
                                assert(menus@[a1].label@ == mid[a1].label@);
                                assert(menus@[b1].label@ == mid[b1].label@);
                            }
                        }
                    }
                },
                None => {},
            }
        }
        k = k + 1;
    }
    proof {
        assert(entries@.take(entries@.len() as int) =~= entries@);
    }
    order_top_level(menus)
}

} // verus!
