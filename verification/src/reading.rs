//! The reading order of a document: its node tree walked from the roots (nodes
//! without a parent in the document), each node followed by its children's
//! subtrees, roots and children by `(ordinal, id)`, each id read once (a broken
//! tree that repeats an id still ends); then the nodes no root reaches (those on
//! a parent cycle) by `(parent id or 0, ordinal, id)`. With ids unique, the walk
//! is the pre-order of the node forest.

use std::collections::{HashMap, HashSet};

use vstd::prelude::*;

use crate::context::{lemma_node_at, node_at, DocNode};

verus! {

broadcast use vstd::std_specs::hash::group_hash_axioms;

/// No two nodes share an id.
pub open spec fn node_ids_unique(nodes: Seq<DocNode>) -> bool {
    forall|i: int, j: int|
        #![trigger nodes[i], nodes[j]]
        0 <= i < nodes.len() && 0 <= j < nodes.len() && i != j ==> nodes[i].id != nodes[j].id
}

/// The map from each id to the position of the node that stands for it.
pub open spec fn id_map(nodes: Seq<DocNode>) -> Map<i64, usize> {
    Map::new(|id: i64| node_at(nodes, id) is Some, |id: i64| node_at(nodes, id)->0 as usize)
}

/// An index from node id to position (the last node listed with an id).
pub fn id_index(nodes: &Vec<DocNode>) -> (m: HashMap<i64, usize>)
    ensures
        m@ == id_map(nodes@),
{
    let mut m: HashMap<i64, usize> = HashMap::new();
    let mut i: usize = 0;
    proof {
        assert(m@ =~= id_map(nodes@.subrange(0, 0)));
    }
    while i < nodes.len()
        invariant
            i <= nodes.len(),
            m@ == id_map(nodes@.subrange(0, i as int)),
        decreases nodes.len() - i,
    {
        m.insert(nodes[i].id, i);
        proof {
            let pre = nodes@.subrange(0, i as int);
            let next = nodes@.subrange(0, i + 1);
            assert(next.drop_last() =~= pre);
            assert forall|id: i64| #[trigger] node_at(next, id) == (if id == nodes@[i as int].id {
                Some(i as int)
            } else {
                node_at(pre, id)
            }) by {}
            assert(m@ =~= id_map(next));
        }
        i = i + 1;
    }
    proof {
        assert(nodes@.subrange(0, nodes.len() as int) =~= nodes@);
    }
    m
}

/// Looks up the position of the node with id `id`.
pub fn lookup(index: &HashMap<i64, usize>, nodes: &Vec<DocNode>, id: i64) -> (r: Option<usize>)
    requires
        index@ == id_map(nodes@),
    ensures
        match r {
            Some(k) => node_at(nodes@, id) == Some(k as int) && k < nodes.len() && nodes@[k as int].id == id,
            None => node_at(nodes@, id) is None,
        },
{
    let n = nodes.len();
    proof {
        lemma_node_at(nodes@, id);
        assert(nodes@.len() == n);
    }
    match index.get(&id) {
        Some(k) => {
            proof {
                assert(index@.contains_key(id));
                assert(index@[id] == *k);
                assert(node_at(nodes@, id) is Some);
                assert(*k as int == node_at(nodes@, id)->0);
            }
            Some(*k)
        },
        None => None,
    }
}

// ── ordering positions by key ─────────────────────────────────────────────

/// The key a position is ordered by: `(0, ordinal, id)` among children and
/// roots, `(parent id or 0, ordinal, id)` among the unreached nodes.
pub open spec fn key_of(nodes: Seq<DocNode>, j: int, orphan: bool) -> (int, int, int) {
    let n = nodes[j];
    (
        if orphan {
            match n.parent_id {
                Some(p) => p as int,
                None => 0,
            }
        } else {
            0
        },
        n.ordinal as int,
        n.id as int,
    )
}

/// `a` comes strictly before `b` (lexicographic).
pub open spec fn tri_lt(a: (int, int, int), b: (int, int, int)) -> bool {
    a.0 < b.0 || (a.0 == b.0 && (a.1 < b.1 || (a.1 == b.1 && a.2 < b.2)))
}

/// `x` put into the ordered `t` before the first element it comes before.
pub open spec fn insert_by(nodes: Seq<DocNode>, t: Seq<int>, x: int, orphan: bool) -> Seq<int>
    decreases t.len(),
{
    if t.len() == 0 {
        seq![x]
    } else if tri_lt(key_of(nodes, x, orphan), key_of(nodes, t[0], orphan)) {
        seq![x] + t
    } else {
        seq![t[0]] + insert_by(nodes, t.drop_first(), x, orphan)
    }
}

/// Positions `s` ordered by key (each inserted in turn).
pub open spec fn sort_by(nodes: Seq<DocNode>, s: Seq<int>, orphan: bool) -> Seq<int>
    decreases s.len(),
{
    if s.len() == 0 {
        Seq::empty()
    } else {
        insert_by(nodes, sort_by(nodes, s.drop_last(), orphan), s.last(), orphan)
    }
}

proof fn lemma_insert_at(nodes: Seq<DocNode>, t: Seq<int>, x: int, orphan: bool, p: int)
    requires
        0 <= p <= t.len(),
        forall|q: int| 0 <= q < p ==> !tri_lt(key_of(nodes, x, orphan), #[trigger] key_of(nodes, t[q], orphan)),
        p == t.len() || tri_lt(key_of(nodes, x, orphan), key_of(nodes, t[p], orphan)),
    ensures
        insert_by(nodes, t, x, orphan) == t.take(p) + seq![x] + t.skip(p),
    decreases t.len(),
{
    if t.len() == 0 {
        assert(t.take(p) + seq![x] + t.skip(p) =~= seq![x]);
    } else if p == 0 {
        assert(t.take(0) + seq![x] + t.skip(0) =~= seq![x] + t);
    } else {
        let r = t.drop_first();
        assert forall|q: int| 0 <= q < p - 1 implies !tri_lt(key_of(nodes, x, orphan), #[trigger] key_of(nodes, r[q], orphan)) by {
            assert(r[q] == t[q + 1]);
            assert(!tri_lt(key_of(nodes, x, orphan), key_of(nodes, t[q + 1], orphan)));
        }
        if p - 1 < r.len() {
            assert(r[p - 1] == t[p]);
        }
        assert(!tri_lt(key_of(nodes, x, orphan), key_of(nodes, t[0], orphan)));
        lemma_insert_at(nodes, r, x, orphan, p - 1);
        assert(t.take(p) + seq![x] + t.skip(p) =~= seq![t[0]] + (r.take(p - 1) + seq![x] + r.skip(p - 1)));
    }
}

/// The positions view of a list of positions.
pub open spec fn pos_view(v: Seq<usize>) -> Seq<int> {
    v.map_values(|k: usize| k as int)
}

fn key_lt(nodes: &Vec<DocNode>, a: usize, b: usize, orphan: bool) -> (r: bool)
    requires
        a < nodes.len(),
        b < nodes.len(),
    ensures
        r == tri_lt(key_of(nodes@, a as int, orphan), key_of(nodes@, b as int, orphan)),
{
    let na = &nodes[a];
    let nb = &nodes[b];
    let ka: i64 = if orphan {
        match na.parent_id {
            Some(p) => p,
            None => 0,
        }
    } else {
        0
    };
    let kb: i64 = if orphan {
        match nb.parent_id {
            Some(p) => p,
            None => 0,
        }
    } else {
        0
    };
    ka < kb || (ka == kb && (na.ordinal < nb.ordinal || (na.ordinal == nb.ordinal && na.id < nb.id)))
}

/// Positions `s` ordered by key (see [`sort_by`]).
pub fn sort_positions(nodes: &Vec<DocNode>, s: &Vec<usize>, orphan: bool) -> (r: Vec<usize>)
    requires
        forall|i: int| 0 <= i < s.len() ==> (#[trigger] s@[i]) < nodes.len(),
    ensures
        pos_view(r@) == sort_by(nodes@, pos_view(s@), orphan),
        r.len() == s.len(),
        forall|i: int| 0 <= i < r.len() ==> (#[trigger] r@[i]) < nodes.len(),
{
    let mut t: Vec<usize> = Vec::new();
    let mut i: usize = 0;
    proof {
        assert(pos_view(s@).subrange(0, 0) =~= Seq::<int>::empty());
        assert(pos_view(t@) =~= Seq::<int>::empty());
    }
    while i < s.len()
        invariant
            i <= s.len(),
            forall|q: int| 0 <= q < s.len() ==> (#[trigger] s@[q]) < nodes.len(),
            t.len() == i,
            forall|q: int| 0 <= q < t.len() ==> (#[trigger] t@[q]) < nodes.len(),
            pos_view(t@) == sort_by(nodes@, pos_view(s@).subrange(0, i as int), orphan),
        decreases s.len() - i,
    {
        let x = s[i];
        let mut p: usize = 0;
        while p < t.len() && !key_lt(nodes, x, t[p], orphan)
            invariant
                p <= t.len(),
                x < nodes.len(),
                forall|q: int| 0 <= q < t.len() ==> (#[trigger] t@[q]) < nodes.len(),
                forall|q: int| 0 <= q < p ==> !tri_lt(key_of(nodes@, x as int, orphan), #[trigger] key_of(nodes@, pos_view(t@)[q], orphan)),
            decreases t.len() - p,
        {
            p = p + 1;
        }
        let ghost tv = pos_view(t@);
        proof {
            lemma_insert_at(nodes@, tv, x as int, orphan, p as int);
            let pre = pos_view(s@).subrange(0, i as int);
            let next = pos_view(s@).subrange(0, i + 1);
            assert(next.drop_last() =~= pre);
            assert(next.last() == x as int);
        }
        t.insert(p, x);
        proof {
            assert(pos_view(t@) =~= tv.take(p as int) + seq![x as int] + tv.skip(p as int));
        }
        i = i + 1;
    }
    proof {
        assert(pos_view(s@).subrange(0, s.len() as int) =~= pos_view(s@));
    }
    t
}

// ── the node tree ─────────────────────────────────────────────────────────

/// The position of node `j`'s parent, when the parent is in the document.
pub open spec fn parent_pos(nodes: Seq<DocNode>, j: int) -> Option<int> {
    match nodes[j].parent_id {
        Some(p) => node_at(nodes, p),
        None => None,
    }
}

/// Positions below `m` of the children of node `i`, in list order.
pub open spec fn kids_upto(nodes: Seq<DocNode>, i: int, m: int) -> Seq<int>
    decreases m,
{
    if m <= 0 {
        Seq::empty()
    } else if parent_pos(nodes, m - 1) == Some(i) {
        kids_upto(nodes, i, m - 1).push(m - 1)
    } else {
        kids_upto(nodes, i, m - 1)
    }
}

/// Positions below `m` of the roots (no parent in the document), in list order.
pub open spec fn roots_upto(nodes: Seq<DocNode>, m: int) -> Seq<int>
    decreases m,
{
    if m <= 0 {
        Seq::empty()
    } else if parent_pos(nodes, m - 1) is None {
        roots_upto(nodes, m - 1).push(m - 1)
    } else {
        roots_upto(nodes, m - 1)
    }
}

/// The children of node `i` by `(ordinal, id)`.
pub open spec fn sorted_kids(nodes: Seq<DocNode>, i: int) -> Seq<int> {
    sort_by(nodes, kids_upto(nodes, i, nodes.len() as int), false)
}

/// Node `i` and, below it, its children's subtrees in order (`fuel` bounds the depth).
pub open spec fn pre(nodes: Seq<DocNode>, i: int, fuel: nat) -> Seq<i64>
    decreases fuel, 0nat,
{
    if fuel == 0 {
        seq![nodes[i].id]
    } else {
        seq![nodes[i].id] + pre_list(nodes, sorted_kids(nodes, i), (fuel - 1) as nat)
    }
}

/// The subtrees of the nodes `s`, one after another.
pub open spec fn pre_list(nodes: Seq<DocNode>, s: Seq<int>, fuel: nat) -> Seq<i64>
    decreases fuel, s.len(),
{
    if s.len() == 0 {
        Seq::empty()
    } else {
        pre(nodes, s[0], fuel) + pre_list(nodes, s.drop_first(), fuel)
    }
}

/// The parent position of every node.
fn parent_positions(nodes: &Vec<DocNode>, index: &HashMap<i64, usize>) -> (pidx: Vec<Option<usize>>)
    requires
        index@ == id_map(nodes@),
    ensures
        pidx.len() == nodes.len(),
        forall|j: int| 0 <= j < nodes.len() ==> match #[trigger] pidx@[j] {
            Some(p) => parent_pos(nodes@, j) == Some(p as int) && p < nodes.len(),
            None => parent_pos(nodes@, j) is None,
        },
{
    let mut pidx: Vec<Option<usize>> = Vec::new();
    let mut j: usize = 0;
    while j < nodes.len()
        invariant
            j <= nodes.len(),
            index@ == id_map(nodes@),
            pidx.len() == j,
            forall|q: int| 0 <= q < j ==> match #[trigger] pidx@[q] {
                Some(p) => parent_pos(nodes@, q) == Some(p as int) && p < nodes.len(),
                None => parent_pos(nodes@, q) is None,
            },
        decreases nodes.len() - j,
    {
        let p = match nodes[j].parent_id {
            Some(pid) => lookup(index, nodes, pid),
            None => None,
        };
        proof {
            match p {
                Some(k) => {
                    lemma_node_at(nodes@, nodes@[j as int].parent_id->0);
                },
                None => {},
            }
        }
        pidx.push(p);
        j = j + 1;
    }
    pidx
}

fn push_at(v: &mut Vec<Vec<usize>>, p: usize, x: usize)
    requires
        p < old(v).len(),
    ensures
        final(v)@.len() == old(v)@.len(),
        final(v)@[p as int]@ == old(v)@[p as int]@.push(x),
        forall|q: int| 0 <= q < old(v)@.len() && q != p ==> final(v)@[q] == old(v)@[q],
{
    let mut inner: Vec<usize> = Vec::new();
    std::mem::swap(&mut inner, &mut v[p]);
    inner.push(x);
    v.set(p, inner);
}

/// The children of every node, in list order.
fn children_lists(nodes: &Vec<DocNode>, pidx: &Vec<Option<usize>>) -> (kids: Vec<Vec<usize>>)
    requires
        pidx.len() == nodes.len(),
        forall|j: int| 0 <= j < nodes.len() ==> match #[trigger] pidx@[j] {
            Some(p) => parent_pos(nodes@, j) == Some(p as int) && p < nodes.len(),
            None => parent_pos(nodes@, j) is None,
        },
    ensures
        kids.len() == nodes.len(),
        forall|i: int| 0 <= i < nodes.len() ==> pos_view(#[trigger] kids@[i]@) == kids_upto(nodes@, i, nodes.len() as int),
        forall|i: int, q: int| 0 <= i < nodes.len() && 0 <= q < kids@[i].len() ==> (#[trigger] kids@[i]@[q]) < nodes.len(),
{
    let n = nodes.len();
    let mut kids: Vec<Vec<usize>> = Vec::new();
    let mut i: usize = 0;
    while i < n
        invariant
            i <= n,
            kids.len() == i,
            forall|q: int| 0 <= q < i ==> (#[trigger] kids@[q])@.len() == 0,
        decreases n - i,
    {
        kids.push(Vec::new());
        i = i + 1;
    }
    proof {
        assert forall|p: int| 0 <= p < n implies pos_view(#[trigger] kids@[p]@) == kids_upto(nodes@, p, 0) by {
            assert(pos_view(kids@[p]@) =~= Seq::<int>::empty());
        }
    }
    let mut j: usize = 0;
    while j < n
        invariant
            n == nodes.len(),
            pidx.len() == n,
            j <= n,
            kids.len() == n,
            forall|q: int| 0 <= q < nodes.len() ==> match #[trigger] pidx@[q] {
                Some(p) => parent_pos(nodes@, q) == Some(p as int) && p < nodes.len(),
                None => parent_pos(nodes@, q) is None,
            },
            forall|p: int| 0 <= p < n ==> pos_view(#[trigger] kids@[p]@) == kids_upto(nodes@, p, j as int),
            forall|p: int, q: int| 0 <= p < n && 0 <= q < kids@[p].len() ==> (#[trigger] kids@[p]@[q]) < j,
        decreases n - j,
    {
        let ghost before = kids@;
        match pidx[j] {
            Some(p) => {
                push_at(&mut kids, p, j);
                proof {
                    assert forall|q: int| 0 <= q < n implies pos_view(#[trigger] kids@[q]@) == kids_upto(nodes@, q, j + 1) by {
                        if q == p {
                            assert(pos_view(kids@[q]@) =~= pos_view(before[q]@).push(j as int));
                        } else {
                            assert(kids@[q] == before[q]);
                        }
                    }
                    assert forall|a: int, q: int| 0 <= a < n && 0 <= q < kids@[a].len() implies (#[trigger] kids@[a]@[q]) < j + 1 by {
                        if a == p {
                            if q < before[a].len() {
                                assert(kids@[a]@[q] == before[a]@[q]);
                            }
                        } else {
                            assert(kids@[a] == before[a]);
                        }
                    }
                }
            },
            None => {},
        }
        j = j + 1;
    }
    kids
}


/// The roots by `(ordinal, id)`.
pub open spec fn sorted_roots(nodes: Seq<DocNode>) -> Seq<int> {
    sort_by(nodes, roots_upto(nodes, nodes.len() as int), false)
}

/// The pre-order of the node forest: each root's subtree in turn (to depth `n`).
pub open spec fn tree_order(nodes: Seq<DocNode>) -> Seq<i64> {
    pre_list(nodes, sorted_roots(nodes), nodes.len())
}

/// The ids of the document's nodes.
pub open spec fn ids_set(nodes: Seq<DocNode>) -> Set<i64> {
    nodes.map_values(|n: DocNode| n.id).to_set()
}

/// A state of the traversal: the visited ids are ids of the document (finitely
/// many) and the stack holds positions of nodes.
pub open spec fn dfs_ok(nodes: Seq<DocNode>, stack: Seq<int>, visited: Set<i64>) -> bool {
    &&& visited.finite()
    &&& visited.subset_of(ids_set(nodes))
    &&& forall|q: int| 0 <= q < stack.len() ==> 0 <= #[trigger] stack[q] < nodes.len()
}

/// What is pushed when id `x` is visited: the children of `x` (the nodes whose
/// parent is `x`) by `(ordinal, id)`, last first, so that the first is on top.
pub open spec fn kid_stack(nodes: Seq<DocNode>, x: i64) -> Seq<int> {
    sorted_kids(nodes, node_at(nodes, x)->0).reverse()
}

/// Reading a new id keeps the visited ids a finite set of the document's ids, one larger.
pub proof fn lemma_visit_shrinks(nodes: Seq<DocNode>, visited: Set<i64>, j: int)
    requires
        visited.finite(),
        visited.subset_of(ids_set(nodes)),
        0 <= j < nodes.len(),
        !visited.contains(nodes[j].id),
    ensures
        visited.insert(nodes[j].id).finite(),
        visited.insert(nodes[j].id).subset_of(ids_set(nodes)),
        visited.insert(nodes[j].id).len() == visited.len() + 1,
        visited.insert(nodes[j].id).len() <= ids_set(nodes).len(),
{
    let ids = nodes.map_values(|n: DocNode| n.id);
    assert(ids[j] == nodes[j].id);
    assert(ids_set(nodes).contains(nodes[j].id));
    vstd::seq_lib::seq_to_set_is_finite(ids);
    vstd::set_lib::lemma_len_subset(visited.insert(nodes[j].id), ids_set(nodes));
}

/// The traversal from a stack of positions with the ids in `visited` already
/// read: the top is popped; an id read before is passed over, a new one is
/// read and its children are pushed.
pub open spec fn dfs(nodes: Seq<DocNode>, stack: Seq<int>, visited: Set<i64>) -> Seq<i64>
    decreases ids_set(nodes).len() - visited.len(), stack.len(),
    when dfs_ok(nodes, stack, visited)
{
    if stack.len() == 0 {
        Seq::empty()
    } else {
        let j = stack.last();
        let x = nodes[j].id;
        if visited.contains(x) {
            dfs(nodes, stack.drop_last(), visited)
        } else {
            proof {
                lemma_visit_shrinks(nodes, visited, j);
            }
            seq![x] + dfs(nodes, stack.drop_last() + kid_stack(nodes, x), visited.insert(x))
        }
    }
}

/// The tree part of the reading order: a traversal from the roots by
/// `(ordinal, id)`, each id read once, a node's subtree read right after it.
pub open spec fn tree_walk(nodes: Seq<DocNode>) -> Seq<i64> {
    dfs(nodes, sorted_roots(nodes).reverse(), Set::empty())
}

/// Positions below `m` of the nodes whose id the tree part does not list.
pub open spec fn unreached_upto(nodes: Seq<DocNode>, tree: Seq<i64>, m: int) -> Seq<int>
    decreases m,
{
    if m <= 0 {
        Seq::empty()
    } else if !tree.contains(nodes[m - 1].id) {
        unreached_upto(nodes, tree, m - 1).push(m - 1)
    } else {
        unreached_upto(nodes, tree, m - 1)
    }
}

/// The ids of the nodes at positions `s`.
pub open spec fn ids_at(nodes: Seq<DocNode>, s: Seq<int>) -> Seq<i64> {
    s.map_values(|k: int| nodes[k].id)
}

/// The reading order: the tree part, then the unreached nodes by
/// `(parent id or 0, ordinal, id)`.
pub open spec fn reading_order_spec(nodes: Seq<DocNode>) -> Seq<i64> {
    let tree = tree_walk(nodes);
    tree + ids_at(nodes, sort_by(nodes, unreached_upto(nodes, tree, nodes.len() as int), true))
}

fn push_reversed(stack: &mut Vec<usize>, items: &Vec<usize>)
    ensures
        pos_view(final(stack)@) == pos_view(old(stack)@) + pos_view(items@).reverse(),
{
    let ghost base = pos_view(stack@);
    let mut q = items.len();
    proof {
        assert(pos_view(items@).subrange(q as int, items.len() as int).reverse() =~= Seq::<int>::empty());
        assert(pos_view(stack@) =~= base + Seq::<int>::empty());
    }
    while q > 0
        invariant
            q <= items.len(),
            pos_view(stack@) == base + pos_view(items@).subrange(q as int, items.len() as int).reverse(),
        decreases q,
    {
        q = q - 1;
        let ghost before = pos_view(stack@);
        stack.push(items[q]);
        proof {
            let iv = pos_view(items@);
            assert(iv.subrange(q as int, items.len() as int).reverse() =~= iv.subrange(q + 1, items.len() as int).reverse().push(iv[q as int]));
            assert(pos_view(stack@) =~= before.push(items@[q as int] as int));
        }
    }
    proof {
        assert(pos_view(items@).subrange(0, items.len() as int) =~= pos_view(items@));
    }
}

/// Walks the node tree from the roots (see [`tree_walk`]); gives the ids read and
/// the set of them.
fn walk_tree(
    nodes: &Vec<DocNode>,
    index: &HashMap<i64, usize>,
    sk: &Vec<Vec<usize>>,
    roots: &Vec<usize>,
) -> (r: (Vec<i64>, HashSet<i64>))
    requires
        index@ == id_map(nodes@),
        sk.len() == nodes.len(),
        forall|a: int| 0 <= a < nodes.len() ==> pos_view(#[trigger] sk@[a]@) == sorted_kids(nodes@, a),
        forall|a: int, q: int| 0 <= a < nodes.len() && 0 <= q < sk@[a].len() ==> (#[trigger] sk@[a]@[q]) < nodes.len(),
        pos_view(roots@) == sorted_roots(nodes@),
        forall|q: int| 0 <= q < roots.len() ==> (#[trigger] roots@[q]) < nodes.len(),
    ensures
        r.0@ == tree_walk(nodes@),
        r.1@ == r.0@.to_set(),
{
    let mut stack: Vec<usize> = Vec::new();
    push_reversed(&mut stack, roots);
    proof {
        assert(pos_view(stack@) =~= sorted_roots(nodes@).reverse());
    }
    let mut visited: HashSet<i64> = HashSet::new();
    let mut out: Vec<i64> = Vec::new();
    let ghost whole = tree_walk(nodes@);
    proof {
        assert(visited@ =~= Set::<i64>::empty());
        assert(out@.to_set() =~= Set::<i64>::empty());
        assert(out@ + whole =~= whole);
        assert forall|q: int| 0 <= q < pos_view(stack@).len() implies 0 <= #[trigger] pos_view(stack@)[q] < nodes.len() by {
            assert(pos_view(stack@)[q] == sorted_roots(nodes@).reverse()[q]);
            assert(sorted_roots(nodes@).reverse()[q] == roots@[roots.len() - 1 - q] as int);
        }
    }
    while stack.len() > 0
        invariant
            index@ == id_map(nodes@),
            sk.len() == nodes.len(),
            forall|a: int| 0 <= a < nodes.len() ==> pos_view(#[trigger] sk@[a]@) == sorted_kids(nodes@, a),
            forall|a: int, q: int| 0 <= a < nodes.len() && 0 <= q < sk@[a].len() ==> (#[trigger] sk@[a]@[q]) < nodes.len(),
            dfs_ok(nodes@, pos_view(stack@), visited@),
            whole == out@ + dfs(nodes@, pos_view(stack@), visited@),
            visited@ == out@.to_set(),
        decreases ids_set(nodes@).len() - visited@.len(), stack.len(),
    {
        let ghost sv = pos_view(stack@);
        let ghost v0 = visited@;
        let ghost o0 = out@;
        let j = stack.pop().unwrap();
        proof {
            assert(sv.last() == j as int);
            assert(pos_view(stack@) =~= sv.drop_last());
            assert(0 <= sv[sv.len() - 1] < nodes.len());
        }
        let x = nodes[j].id;
        if !visited.contains(&x) {
            proof {
                lemma_visit_shrinks(nodes@, v0, j as int);
            }
            visited.insert(x);
            out.push(x);
            let k = match lookup(index, nodes, x) {
                Some(k) => k,
                None => {
                    proof {
                        crate::context::lemma_node_at(nodes@, x);
                        assert(nodes@[j as int].id == x);
                    }
                    0
                },
            };
            let ghost before_push = pos_view(stack@);
            push_reversed(&mut stack, &sk[k]);
            proof {
                assert(pos_view(sk@[k as int]@) == sorted_kids(nodes@, k as int));
                assert(node_at(nodes@, x) == Some(k as int));
                assert(pos_view(stack@) =~= sv.drop_last() + kid_stack(nodes@, x));
                assert forall|q: int| 0 <= q < pos_view(stack@).len() implies 0 <= #[trigger] pos_view(stack@)[q] < nodes.len() by {
                    if q >= before_push.len() {
                        let r = q - before_push.len();
                        let kv = pos_view(sk@[k as int]@);
                        assert(pos_view(stack@)[q] == kv.reverse()[r]);
                        assert(kv.reverse()[r] == sk@[k as int]@[kv.len() - 1 - r] as int);
                    } else {
                        assert(pos_view(stack@)[q] == sv[q]);
                    }
                }
                o0.lemma_push_to_set_commute(x);
                assert(out@ + dfs(nodes@, pos_view(stack@), visited@) =~= o0 + (seq![x] + dfs(nodes@, pos_view(stack@), visited@)));
            }
        } else {
            proof {
                assert forall|q: int| 0 <= q < pos_view(stack@).len() implies 0 <= #[trigger] pos_view(stack@)[q] < nodes.len() by {
                    assert(pos_view(stack@)[q] == sv[q]);
                }
            }
        }
    }
    proof {
        assert(out@ + Seq::<i64>::empty() =~= out@);
    }
    (out, visited)
}

/// The reading order of a document's nodes (their ids): the walk of the node
/// tree (see [`tree_walk`]), then the nodes no root reaches by
/// `(parent id or 0, ordinal, id)`.
pub fn reading_order(nodes: &Vec<DocNode>) -> (out: Vec<i64>)
    ensures
        out@ == reading_order_spec(nodes@),
{
    let n = nodes.len();
    let index = id_index(nodes);
    let pidx = parent_positions(nodes, &index);
    let kids = children_lists(nodes, &pidx);
    let mut sk: Vec<Vec<usize>> = Vec::new();
    let mut i: usize = 0;
    while i < n
        invariant
            n == nodes.len(),
            i <= n,
            sk.len() == i,
            kids.len() == n,
            forall|a: int| 0 <= a < n ==> pos_view(#[trigger] kids@[a]@) == kids_upto(nodes@, a, n as int),
            forall|a: int, q: int| 0 <= a < n && 0 <= q < kids@[a].len() ==> (#[trigger] kids@[a]@[q]) < n,
            forall|a: int| 0 <= a < i ==> pos_view(#[trigger] sk@[a]@) == sorted_kids(nodes@, a),
            forall|a: int, q: int| 0 <= a < i && 0 <= q < sk@[a].len() ==> (#[trigger] sk@[a]@[q]) < n,
        decreases n - i,
    {
        proof {
            assert forall|q: int| 0 <= q < kids@[i as int].len() implies (#[trigger] kids@[i as int]@[q]) < nodes.len() by {}
        }
        let sorted = sort_positions(nodes, &kids[i], false);
        sk.push(sorted);
        proof {
            assert forall|a: int, q: int| 0 <= a < i + 1 && 0 <= q < sk@[a].len() implies (#[trigger] sk@[a]@[q]) < n by {
                if a < i {
                } else {
                    assert(sk@[a] == sorted);
                }
            }
        }
        i = i + 1;
    }
    let mut roots: Vec<usize> = Vec::new();
    let mut j: usize = 0;
    while j < n
        invariant
            n == nodes.len(),
            pidx.len() == n,
            j <= n,
            forall|q: int| 0 <= q < n ==> match #[trigger] pidx@[q] {
                Some(p) => parent_pos(nodes@, q) == Some(p as int) && p < n,
                None => parent_pos(nodes@, q) is None,
            },
            pos_view(roots@) == roots_upto(nodes@, j as int),
            forall|q: int| 0 <= q < roots.len() ==> (#[trigger] roots@[q]) < j,
        decreases n - j,
    {
        let ghost before = roots@;
        if pidx[j].is_none() {
            roots.push(j);
            proof {
                assert(pos_view(roots@) =~= pos_view(before).push(j as int));
            }
        }
        j = j + 1;
    }
    let sorted_roots_v = sort_positions(nodes, &roots, false);
    let (mut out, seen) = walk_tree(nodes, &index, &sk, &sorted_roots_v);
    let ghost tree = out@;
    let mut unreached: Vec<usize> = Vec::new();
    let mut u: usize = 0;
    while u < n
        invariant
            n == nodes.len(),
            u <= n,
            out@ == tree,
            seen@ == tree.to_set(),
            pos_view(unreached@) == unreached_upto(nodes@, tree, u as int),
            forall|q: int| 0 <= q < unreached.len() ==> (#[trigger] unreached@[q]) < u,
        decreases n - u,
    {
        let ghost before = unreached@;
        if !seen.contains(&nodes[u].id) {
            unreached.push(u);
            proof {
                assert(pos_view(unreached@) =~= pos_view(before).push(u as int));
            }
        }
        u = u + 1;
    }
    let orphans = sort_positions(nodes, &unreached, true);
    let ghost ov = pos_view(orphans@);
    let mut w: usize = 0;
    while w < orphans.len()
        invariant
            n == nodes.len(),
            w <= orphans.len(),
            forall|q: int| 0 <= q < orphans.len() ==> (#[trigger] orphans@[q]) < n,
            ov == pos_view(orphans@),
            out@ == tree + ids_at(nodes@, ov.take(w as int)),
        decreases orphans.len() - w,
    {
        let k = orphans[w];
        out.push(nodes[k].id);
        proof {
            assert(ids_at(nodes@, ov.take(w + 1)) =~= ids_at(nodes@, ov.take(w as int)).push(nodes@[k as int].id));
        }
        w = w + 1;
    }
    proof {
        assert(ov.take(orphans.len() as int) =~= ov);
    }
    out
}

// ── every node is read ────────────────────────────────────────────────────

proof fn lemma_insert_by_contains(nodes: Seq<DocNode>, t: Seq<int>, x: int, orphan: bool, y: int)
    ensures
        insert_by(nodes, t, x, orphan).contains(y) <==> (t.contains(y) || y == x),
    decreases t.len(),
{
    let r = insert_by(nodes, t, x, orphan);
    if t.len() == 0 {
        assert(r =~= seq![x]);
        if r.contains(y) {
            let k = choose|k: int| 0 <= k < r.len() && r[k] == y;
            assert(k == 0);
        }
        assert(r[0] == x);
    } else if tri_lt(key_of(nodes, x, orphan), key_of(nodes, t[0], orphan)) {
        assert(r == seq![x] + t);
        if r.contains(y) {
            let k = choose|k: int| 0 <= k < r.len() && r[k] == y;
            if k > 0 {
                assert(t[k - 1] == y);
            }
        }
        if t.contains(y) {
            let k = choose|k: int| 0 <= k < t.len() && t[k] == y;
            assert(r[k + 1] == y);
        }
        assert(r[0] == x);
    } else {
        let rest = insert_by(nodes, t.drop_first(), x, orphan);
        assert(r == seq![t[0]] + rest);
        lemma_insert_by_contains(nodes, t.drop_first(), x, orphan, y);
        if r.contains(y) {
            let k = choose|k: int| 0 <= k < r.len() && r[k] == y;
            if k > 0 {
                assert(rest[k - 1] == y);
                if y != x {
                    let q = choose|q: int| 0 <= q < t.drop_first().len() && t.drop_first()[q] == y;
                    assert(t[q + 1] == y);
                }
            } else {
                assert(t[0] == y);
            }
        }
        if t.contains(y) {
            let k = choose|k: int| 0 <= k < t.len() && t[k] == y;
            if k == 0 {
                assert(r[0] == y);
            } else {
                assert(t.drop_first()[k - 1] == y);
                let q = choose|q: int| 0 <= q < rest.len() && rest[q] == y;
                assert(r[q + 1] == y);
            }
        }
        if y == x {
            let q = choose|q: int| 0 <= q < rest.len() && rest[q] == y;
            assert(r[q + 1] == y);
        }
    }
}

proof fn lemma_sort_by_contains(nodes: Seq<DocNode>, s: Seq<int>, orphan: bool, y: int)
    ensures
        sort_by(nodes, s, orphan).contains(y) <==> s.contains(y),
    decreases s.len(),
{
    if s.len() > 0 {
        lemma_sort_by_contains(nodes, s.drop_last(), orphan, y);
        lemma_insert_by_contains(nodes, sort_by(nodes, s.drop_last(), orphan), s.last(), orphan, y);
        if s.contains(y) {
            let k = choose|k: int| 0 <= k < s.len() && s[k] == y;
            if k < s.len() - 1 {
                assert(s.drop_last()[k] == y);
            }
        }
        if s.drop_last().contains(y) {
            let k = choose|k: int| 0 <= k < s.drop_last().len() && s.drop_last()[k] == y;
            assert(s[k] == y);
        }
    }
}

proof fn lemma_unreached_has(nodes: Seq<DocNode>, tree: Seq<i64>, m: int, j: int)
    requires
        0 <= j < m,
        !tree.contains(nodes[j].id),
    ensures
        unreached_upto(nodes, tree, m).contains(j),
    decreases m,
{
    if j < m - 1 {
        lemma_unreached_has(nodes, tree, m - 1, j);
        let prev = unreached_upto(nodes, tree, m - 1);
        let k = choose|k: int| 0 <= k < prev.len() && prev[k] == j;
        if !tree.contains(nodes[m - 1].id) {
            assert(unreached_upto(nodes, tree, m)[k] == j);
        }
    } else {
        let prev = unreached_upto(nodes, tree, m - 1);
        assert(unreached_upto(nodes, tree, m)[prev.len() as int] == j);
    }
}

/// Every node of the document is in its reading order: the nodes that no root
/// reaches are appended rather than dropped.
pub proof fn lemma_reading_order_lists_every_node(nodes: Seq<DocNode>, j: int)
    requires
        0 <= j < nodes.len(),
    ensures
        reading_order_spec(nodes).contains(nodes[j].id),
{
    let tree = tree_walk(nodes);
    let whole = reading_order_spec(nodes);
    let id = nodes[j].id;
    if tree.contains(id) {
        let k = choose|k: int| 0 <= k < tree.len() && tree[k] == id;
        assert(whole[k] == id);
    } else {
        let un = unreached_upto(nodes, tree, nodes.len() as int);
        lemma_unreached_has(nodes, tree, nodes.len() as int, j);
        let sorted = sort_by(nodes, un, true);
        lemma_sort_by_contains(nodes, un, true, j);
        let k = choose|k: int| 0 <= k < sorted.len() && sorted[k] == j;
        assert(ids_at(nodes, sorted)[k] == id);
        assert(whole[tree.len() + k] == id);
    }
}

// ── every node once ───────────────────────────────────────────────────────

/// No item of `s` occurs twice.
pub open spec fn no_dup<T>(s: Seq<T>) -> bool {
    forall|i: int, j: int| 0 <= i < j < s.len() ==> s[i] != s[j]
}

/// The `d`-th ancestor of node `j` (its position), when the parent chain is that long.
pub open spec fn anc(nodes: Seq<DocNode>, j: int, d: nat) -> Option<int>
    decreases d,
{
    if d == 0 {
        Some(j)
    } else {
        match parent_pos(nodes, j) {
            Some(p) => anc(nodes, p, (d - 1) as nat),
            None => None,
        }
    }
}

/// Node `j` is its own ancestor (it lies on a parent cycle).
pub open spec fn cyclic(nodes: Seq<DocNode>, j: int) -> bool {
    exists|k: nat| k >= 1 && #[trigger] anc(nodes, j, k) == Some(j)
}

proof fn lemma_anc_comp(nodes: Seq<DocNode>, j: int, a: nat, b: nat)
    ensures
        anc(nodes, j, a + b) == match anc(nodes, j, a) {
            Some(q) => anc(nodes, q, b),
            None => None,
        },
    decreases a,
{
    if a > 0 {
        match parent_pos(nodes, j) {
            Some(p) => {
                lemma_anc_comp(nodes, p, (a - 1) as nat, b);
                assert((a + b - 1) as nat == ((a - 1) as nat + b) as nat);
            },
            None => {},
        }
    }
}

proof fn lemma_kids_upto(nodes: Seq<DocNode>, i: int, m: int)
    ensures
        forall|q: int| 0 <= q < kids_upto(nodes, i, m).len() ==> {
            &&& 0 <= #[trigger] kids_upto(nodes, i, m)[q] < m
            &&& parent_pos(nodes, kids_upto(nodes, i, m)[q]) == Some(i)
        },
        forall|a: int, b: int|
            0 <= a < b < kids_upto(nodes, i, m).len() ==> #[trigger] kids_upto(nodes, i, m)[a] < #[trigger] kids_upto(nodes, i, m)[b],
    decreases m,
{
    if m > 0 {
        lemma_kids_upto(nodes, i, m - 1);
    }
}

proof fn lemma_roots_upto(nodes: Seq<DocNode>, m: int)
    ensures
        forall|q: int| 0 <= q < roots_upto(nodes, m).len() ==> {
            &&& 0 <= #[trigger] roots_upto(nodes, m)[q] < m
            &&& parent_pos(nodes, roots_upto(nodes, m)[q]) is None
        },
        forall|a: int, b: int|
            0 <= a < b < roots_upto(nodes, m).len() ==> #[trigger] roots_upto(nodes, m)[a] < #[trigger] roots_upto(nodes, m)[b],
    decreases m,
{
    if m > 0 {
        lemma_roots_upto(nodes, m - 1);
    }
}

proof fn lemma_insert_by_no_dup(nodes: Seq<DocNode>, t: Seq<int>, x: int, orphan: bool)
    requires
        no_dup(t),
        !t.contains(x),
    ensures
        no_dup(insert_by(nodes, t, x, orphan)),
    decreases t.len(),
{
    let r = insert_by(nodes, t, x, orphan);
    if t.len() == 0 {
    } else if tri_lt(key_of(nodes, x, orphan), key_of(nodes, t[0], orphan)) {
        assert forall|i: int, j: int| 0 <= i < j < r.len() implies r[i] != r[j] by {
            if i == 0 {
                assert(r[j] == t[j - 1]);
            } else {
                assert(r[i] == t[i - 1] && r[j] == t[j - 1]);
            }
        }
    } else {
        let rest = t.drop_first();
        assert forall|i: int, j: int| 0 <= i < j < rest.len() implies rest[i] != rest[j] by {
            assert(rest[i] == t[i + 1] && rest[j] == t[j + 1]);
        }
        if rest.contains(x) {
            let k = choose|k: int| 0 <= k < rest.len() && rest[k] == x;
            assert(t[k + 1] == x);
        }
        lemma_insert_by_no_dup(nodes, rest, x, orphan);
        let ir = insert_by(nodes, rest, x, orphan);
        assert(r == seq![t[0]] + ir);
        assert forall|i: int, j: int| 0 <= i < j < r.len() implies r[i] != r[j] by {
            if i == 0 {
                assert(r[j] == ir[j - 1]);
                lemma_insert_by_contains(nodes, rest, x, orphan, t[0]);
                if ir[j - 1] == t[0] {
                    assert(ir.contains(t[0]));
                    if rest.contains(t[0]) {
                        let k = choose|k: int| 0 <= k < rest.len() && rest[k] == t[0];
                        assert(t[k + 1] == t[0]);
                    }
                    assert(t[0] != x);
                }
            } else {
                assert(r[i] == ir[i - 1] && r[j] == ir[j - 1]);
            }
        }
    }
}

proof fn lemma_sort_by_no_dup(nodes: Seq<DocNode>, s: Seq<int>, orphan: bool)
    requires
        no_dup(s),
    ensures
        no_dup(sort_by(nodes, s, orphan)),
    decreases s.len(),
{
    if s.len() > 0 {
        let rest = s.drop_last();
        assert forall|i: int, j: int| 0 <= i < j < rest.len() implies rest[i] != rest[j] by {
            assert(rest[i] == s[i] && rest[j] == s[j]);
        }
        lemma_sort_by_no_dup(nodes, rest, orphan);
        lemma_sort_by_contains(nodes, rest, orphan, s.last());
        if rest.contains(s.last()) {
            let k = choose|k: int| 0 <= k < rest.len() && rest[k] == s.last();
            assert(s[k] == s[s.len() - 1]);
        }
        lemma_insert_by_no_dup(nodes, sort_by(nodes, rest, orphan), s.last(), orphan);
    }
}

/// Node `j` has `x` as an ancestor (or is `x`).
pub open spec fn below(nodes: Seq<DocNode>, j: int, x: int) -> bool {
    exists|d: nat| #[trigger] anc(nodes, j, d) == Some(x)
}

/// Every id in node `x`'s subtree names a node that has `x` as an ancestor.
proof fn lemma_pre_reach(nodes: Seq<DocNode>, x: int, f: nat)
    requires
        0 <= x < nodes.len(),
    ensures
        forall|q: int| #![trigger pre(nodes, x, f)[q]] 0 <= q < pre(nodes, x, f).len() ==> exists|j: int|
            #![trigger nodes[j]]
            0 <= j < nodes.len() && nodes[j].id == pre(nodes, x, f)[q] && below(nodes, j, x),
    decreases f, 0nat,
{
    let p = pre(nodes, x, f);
    assert(anc(nodes, x, 0) == Some(x));
    assert(below(nodes, x, x));
    if f > 0 {
        let ks = sorted_kids(nodes, x);
        let rest = pre_list(nodes, ks, (f - 1) as nat);
        lemma_kids_upto(nodes, x, nodes.len() as int);
        assert forall|i: int| 0 <= i < ks.len() implies 0 <= #[trigger] ks[i] < nodes.len() && parent_pos(nodes, ks[i]) == Some(x) by {
            lemma_sort_by_contains(nodes, kids_upto(nodes, x, nodes.len() as int), false, ks[i]);
            assert(ks.contains(ks[i]));
            let k = choose|k: int| 0 <= k < kids_upto(nodes, x, nodes.len() as int).len() && kids_upto(nodes, x, nodes.len() as int)[k] == ks[i];
        }
        lemma_pre_list_reach(nodes, ks, (f - 1) as nat);
        assert(p == seq![nodes[x].id] + rest);
        assert forall|q: int| #![trigger p[q]] 0 <= q < p.len() implies exists|j: int|
            #![trigger nodes[j]]
            0 <= j < nodes.len() && nodes[j].id == p[q] && below(nodes, j, x) by {
            if q == 0 {
                assert(nodes[x].id == p[0]);
            } else {
                assert(p[q] == rest[q - 1]);
                let (i, j) = choose|i: int, j: int|
                    #![trigger nodes[j], ks[i]]
                    0 <= i < ks.len() && 0 <= j < nodes.len() && nodes[j].id == rest[q - 1] && below(nodes, j, ks[i]);
                let d = choose|d: nat| anc(nodes, j, d) == Some(ks[i]);
                lemma_anc_comp(nodes, j, d, 1);
                assert(anc(nodes, ks[i], 1) == Some(x));
                assert(anc(nodes, j, d + 1) == Some(x));
                assert(below(nodes, j, x));
                assert(nodes[j].id == p[q]);
            }
        }
    }
}

/// Every id in the subtrees of `s` names a node with some node of `s` as an ancestor.
proof fn lemma_pre_list_reach(nodes: Seq<DocNode>, s: Seq<int>, f: nat)
    requires
        forall|i: int| 0 <= i < s.len() ==> 0 <= #[trigger] s[i] < nodes.len(),
    ensures
        forall|q: int| #![trigger pre_list(nodes, s, f)[q]] 0 <= q < pre_list(nodes, s, f).len() ==> exists|i: int, j: int|
            #![trigger nodes[j], s[i]]
            0 <= i < s.len() && 0 <= j < nodes.len() && nodes[j].id == pre_list(nodes, s, f)[q]
                && below(nodes, j, s[i]),
    decreases f, s.len(),
{
    if s.len() > 0 {
        let head = pre(nodes, s[0], f);
        let ds = s.drop_first();
        let tail = pre_list(nodes, ds, f);
        lemma_pre_reach(nodes, s[0], f);
        assert forall|i: int| 0 <= i < ds.len() implies 0 <= #[trigger] ds[i] < nodes.len() by {
            assert(ds[i] == s[i + 1]);
        }
        lemma_pre_list_reach(nodes, ds, f);
        let l = pre_list(nodes, s, f);
        assert(l == head + tail);
        assert forall|q: int| #![trigger l[q]] 0 <= q < l.len() implies exists|i: int, j: int|
            #![trigger nodes[j], s[i]]
            0 <= i < s.len() && 0 <= j < nodes.len() && nodes[j].id == l[q] && below(nodes, j, s[i]) by {
            if q < head.len() {
                assert(l[q] == head[q]);
                let j = choose|j: int| #![trigger nodes[j]] 0 <= j < nodes.len() && nodes[j].id == head[q] && below(nodes, j, s[0]);
                assert(nodes[j].id == l[q] && below(nodes, j, s[0]));
            } else {
                assert(l[q] == tail[q - head.len()]);
                let (i, j) = choose|i: int, j: int|
                    #![trigger nodes[j], ds[i]]
                    0 <= i < ds.len() && 0 <= j < nodes.len() && nodes[j].id == tail[q - head.len()] && below(nodes, j, ds[i]);
                assert(ds[i] == s[i + 1]);
                assert(nodes[j].id == l[q] && below(nodes, j, s[i + 1]));
            }
        }
    }
}

proof fn lemma_siblings_apart(nodes: Seq<DocNode>, x1: int, x2: int, j: int)
    requires
        x1 != x2,
        parent_pos(nodes, x1) == parent_pos(nodes, x2),
        match parent_pos(nodes, x1) {
            Some(p) => !cyclic(nodes, p),
            None => true,
        },
        below(nodes, j, x1),
    ensures
        !below(nodes, j, x2),
{
    if below(nodes, j, x2) {
        let d1 = choose|d: nat| anc(nodes, j, d) == Some(x1);
        let d2 = choose|d: nat| anc(nodes, j, d) == Some(x2);
        if d1 < d2 {
            lemma_sibling_step(nodes, x1, x2, j, d1, d2);
        } else if d2 < d1 {
            lemma_sibling_step(nodes, x2, x1, j, d2, d1);
        }
    }
}

proof fn lemma_sibling_step(nodes: Seq<DocNode>, x1: int, x2: int, j: int, d1: nat, d2: nat)
    requires
        d1 < d2,
        anc(nodes, j, d1) == Some(x1),
        parent_pos(nodes, x1) == parent_pos(nodes, x2),
        match parent_pos(nodes, x1) {
            Some(p) => !cyclic(nodes, p),
            None => true,
        },
    ensures
        anc(nodes, j, d2) != Some(x2),
{
    if anc(nodes, j, d2) == Some(x2) {
        lemma_sibling_contradiction(nodes, x1, x2, j, d1, d2);
    }
}

proof fn lemma_sibling_contradiction(nodes: Seq<DocNode>, x1: int, x2: int, j: int, d1: nat, d2: nat)
    requires
        d1 < d2,
        anc(nodes, j, d1) == Some(x1),
        anc(nodes, j, d2) == Some(x2),
        parent_pos(nodes, x1) == parent_pos(nodes, x2),
    ensures
        match parent_pos(nodes, x1) {
            Some(p) => cyclic(nodes, p),
            None => false,
        },
{
    let k = (d2 - d1) as nat;
    lemma_anc_comp(nodes, j, d1, k);
    assert((d1 + k) as nat == d2);
    assert(anc(nodes, x1, k) == Some(x2));
    match parent_pos(nodes, x1) {
        Some(p) => {
            assert(anc(nodes, p, (k - 1) as nat) == Some(x2));
            lemma_anc_comp(nodes, p, (k - 1) as nat, 1);
            assert(anc(nodes, p, 0) == Some(p));
            assert(anc(nodes, x2, 1) == Some(p));
            assert(((k - 1) as nat + 1) as nat == k);
            assert(anc(nodes, p, k) == Some(p));
            assert(cyclic(nodes, p));
        },
        None => {},
    }
}

proof fn lemma_kid_acyclic(nodes: Seq<DocNode>, x: int, c: int)
    requires
        !cyclic(nodes, x),
        parent_pos(nodes, c) == Some(x),
    ensures
        !cyclic(nodes, c),
{
    if cyclic(nodes, c) {
        let k = choose|k: nat| k >= 1 && #[trigger] anc(nodes, c, k) == Some(c);
        assert(anc(nodes, x, (k - 1) as nat) == Some(c));
        lemma_anc_comp(nodes, x, (k - 1) as nat, 1);
        assert(anc(nodes, x, 0) == Some(x));
        assert(anc(nodes, c, 1) == Some(x));
        assert(((k - 1) as nat + 1) as nat == k);
        assert(anc(nodes, x, k) == Some(x));
    }
}

proof fn lemma_not_below_kid(nodes: Seq<DocNode>, x: int, c: int)
    requires
        !cyclic(nodes, x),
        parent_pos(nodes, c) == Some(x),
    ensures
        !below(nodes, x, c),
{
    if below(nodes, x, c) {
        let d = choose|d: nat| anc(nodes, x, d) == Some(c);
        lemma_anc_comp(nodes, x, d, 1);
        assert(anc(nodes, x, 0) == Some(x));
        assert(anc(nodes, c, 1) == Some(x));
        assert(anc(nodes, x, (d + 1) as nat) == Some(x));
    }
}

/// The children of `x` by key: distinct nodes of the document, each a child of `x`.
proof fn lemma_sorted_kids(nodes: Seq<DocNode>, x: int)
    ensures
        no_dup(sorted_kids(nodes, x)),
        forall|i: int| 0 <= i < sorted_kids(nodes, x).len() ==> 0 <= #[trigger] sorted_kids(nodes, x)[i] < nodes.len()
            && parent_pos(nodes, sorted_kids(nodes, x)[i]) == Some(x),
{
    let kids = kids_upto(nodes, x, nodes.len() as int);
    let ks = sorted_kids(nodes, x);
    lemma_kids_upto(nodes, x, nodes.len() as int);
    lemma_sort_by_no_dup(nodes, kids, false);
    assert forall|i: int| 0 <= i < ks.len() implies 0 <= #[trigger] ks[i] < nodes.len() && parent_pos(nodes, ks[i]) == Some(x) by {
        lemma_sort_by_contains(nodes, kids, false, ks[i]);
        assert(ks.contains(ks[i]));
        let k = choose|k: int| 0 <= k < kids.len() && kids[k] == ks[i];
    }
}

proof fn lemma_pre_no_dup(nodes: Seq<DocNode>, x: int, f: nat)
    requires
        node_ids_unique(nodes),
        0 <= x < nodes.len(),
        !cyclic(nodes, x),
    ensures
        no_dup(pre(nodes, x, f)),
    decreases f, 0nat,
{
    if f > 0 {
        let ks = sorted_kids(nodes, x);
        let rest = pre_list(nodes, ks, (f - 1) as nat);
        lemma_sorted_kids(nodes, x);
        assert forall|i: int| 0 <= i < ks.len() implies !cyclic(nodes, #[trigger] ks[i]) by {
            lemma_kid_acyclic(nodes, x, ks[i]);
        }
        lemma_pre_list_no_dup(nodes, ks, (f - 1) as nat, Some(x));
        lemma_pre_list_reach(nodes, ks, (f - 1) as nat);
        let p = pre(nodes, x, f);
        assert(p == seq![nodes[x].id] + rest);
        assert forall|a: int, b: int| 0 <= a < b < p.len() implies p[a] != p[b] by {
            if a == 0 {
                assert(p[b] == rest[b - 1]);
                if rest[b - 1] == nodes[x].id {
                    let (i, j) = choose|i: int, j: int|
                        #![trigger nodes[j], ks[i]]
                        0 <= i < ks.len() && 0 <= j < nodes.len() && nodes[j].id == rest[b - 1] && below(nodes, j, ks[i]);
                    assert(nodes[j] == nodes[j] && nodes[x] == nodes[x]);
                    assert(j == x);
                    lemma_not_below_kid(nodes, x, ks[i]);
                }
            } else {
                assert(p[a] == rest[a - 1] && p[b] == rest[b - 1]);
            }
        }
    }
}

proof fn lemma_pre_list_no_dup(nodes: Seq<DocNode>, s: Seq<int>, f: nat, par: Option<int>)
    requires
        node_ids_unique(nodes),
        no_dup(s),
        forall|i: int| 0 <= i < s.len() ==> 0 <= #[trigger] s[i] < nodes.len(),
        forall|i: int| 0 <= i < s.len() ==> parent_pos(nodes, #[trigger] s[i]) == par,
        forall|i: int| 0 <= i < s.len() ==> !cyclic(nodes, #[trigger] s[i]),
        match par {
            Some(p) => !cyclic(nodes, p),
            None => true,
        },
    ensures
        no_dup(pre_list(nodes, s, f)),
    decreases f, s.len(),
{
    if s.len() > 0 {
        let ds = s.drop_first();
        let head = pre(nodes, s[0], f);
        let tail = pre_list(nodes, ds, f);
        assert forall|i: int| 0 <= i < ds.len() implies ds[i] == s[i + 1] by {}
        assert forall|a: int, b: int| 0 <= a < b < ds.len() implies ds[a] != ds[b] by {
            assert(ds[a] == s[a + 1] && ds[b] == s[b + 1]);
        }
        assert forall|i: int| 0 <= i < ds.len() implies 0 <= #[trigger] ds[i] < nodes.len() by {
            assert(ds[i] == s[i + 1]);
        }
        assert forall|i: int| 0 <= i < ds.len() implies parent_pos(nodes, #[trigger] ds[i]) == par by {
            assert(ds[i] == s[i + 1]);
        }
        assert forall|i: int| 0 <= i < ds.len() implies !cyclic(nodes, #[trigger] ds[i]) by {
            assert(ds[i] == s[i + 1]);
        }
        lemma_pre_no_dup(nodes, s[0], f);
        lemma_pre_list_no_dup(nodes, ds, f, par);
        lemma_pre_reach(nodes, s[0], f);
        lemma_pre_list_reach(nodes, ds, f);
        let l = pre_list(nodes, s, f);
        assert(l == head + tail);
        assert forall|a: int, b: int| 0 <= a < b < l.len() implies l[a] != l[b] by {
            if b < head.len() {
                assert(l[a] == head[a] && l[b] == head[b]);
            } else if a >= head.len() {
                assert(l[a] == tail[a - head.len()] && l[b] == tail[b - head.len()]);
            } else {
                assert(l[a] == head[a] && l[b] == tail[b - head.len()]);
                if head[a] == tail[b - head.len()] {
                    let j1 = choose|j: int| #![trigger nodes[j]] 0 <= j < nodes.len() && nodes[j].id == head[a] && below(nodes, j, s[0]);
                    let (i, j2) = choose|i: int, j: int|
                        #![trigger nodes[j], ds[i]]
                        0 <= i < ds.len() && 0 <= j < nodes.len() && nodes[j].id == tail[b - head.len()] && below(nodes, j, ds[i]);
                    assert(nodes[j1] == nodes[j1] && nodes[j2] == nodes[j2]);
                    assert(j1 == j2);
                    assert(ds[i] == s[i + 1]);
                    assert(s[0] != s[i + 1]);
                    lemma_siblings_apart(nodes, s[0], s[i + 1], j1);
                }
            }
        }
    }
}

proof fn lemma_unreached_upto(nodes: Seq<DocNode>, tree: Seq<i64>, m: int)
    requires
        m <= nodes.len(),
    ensures
        forall|q: int| 0 <= q < unreached_upto(nodes, tree, m).len() ==> {
            &&& 0 <= #[trigger] unreached_upto(nodes, tree, m)[q] < m
            &&& !tree.contains(nodes[unreached_upto(nodes, tree, m)[q]].id)
        },
        forall|a: int, b: int|
            0 <= a < b < unreached_upto(nodes, tree, m).len() ==> #[trigger] unreached_upto(nodes, tree, m)[a]
                < #[trigger] unreached_upto(nodes, tree, m)[b],
    decreases m,
{
    if m > 0 {
        lemma_unreached_upto(nodes, tree, m - 1);
    }
}

/// No node of a document is read twice: with ids unique, the reading order lists
/// each node's id exactly once (with [`lemma_reading_order_lists_every_node`],
/// it is an ordering of the document's nodes).
pub proof fn lemma_reading_order_lists_each_node_once(nodes: Seq<DocNode>)
    requires
        node_ids_unique(nodes),
    ensures
        no_dup(reading_order_spec(nodes)),
{
    let n = nodes.len();
    let roots = roots_upto(nodes, n as int);
    let sr = sorted_roots(nodes);
    lemma_roots_upto(nodes, n as int);
    lemma_sort_by_no_dup(nodes, roots, false);
    assert forall|i: int| 0 <= i < sr.len() implies 0 <= #[trigger] sr[i] < n && parent_pos(nodes, sr[i]) is None by {
        lemma_sort_by_contains(nodes, roots, false, sr[i]);
        assert(sr.contains(sr[i]));
        let k = choose|k: int| 0 <= k < roots.len() && roots[k] == sr[i];
    }
    assert forall|i: int| 0 <= i < sr.len() implies !cyclic(nodes, #[trigger] sr[i]) by {
        if cyclic(nodes, sr[i]) {
            let k = choose|k: nat| k >= 1 && #[trigger] anc(nodes, sr[i], k) == Some(sr[i]);
        }
    }
    let init = sr.reverse();
    assert forall|q: int| 0 <= q < init.len() implies 0 <= #[trigger] init[q] < n by {
        assert(init[q] == sr[sr.len() - 1 - q]);
    }
    assert(Set::<i64>::empty().subset_of(ids_set(nodes)));
    lemma_dfs_fresh(nodes, init, Set::empty());
    let tree = tree_walk(nodes);
    let un = unreached_upto(nodes, tree, n as int);
    lemma_unreached_upto(nodes, tree, n as int);
    let so = sort_by(nodes, un, true);
    lemma_sort_by_no_dup(nodes, un, true);
    assert forall|i: int| 0 <= i < so.len() implies 0 <= #[trigger] so[i] < n && !tree.contains(nodes[so[i]].id) by {
        lemma_sort_by_contains(nodes, un, true, so[i]);
        assert(so.contains(so[i]));
        let k = choose|k: int| 0 <= k < un.len() && un[k] == so[i];
    }
    let tail = ids_at(nodes, so);
    let all = reading_order_spec(nodes);
    assert(all == tree + tail);
    assert forall|a: int, b: int| 0 <= a < b < all.len() implies all[a] != all[b] by {
        if b < tree.len() {
            assert(all[a] == tree[a] && all[b] == tree[b]);
        } else if a >= tree.len() {
            let qa = a - tree.len();
            let qb = b - tree.len();
            assert(all[a] == tail[qa] && all[b] == tail[qb]);
            assert(tail[qa] == nodes[so[qa]].id && tail[qb] == nodes[so[qb]].id);
            assert(so[qa] != so[qb]);
        } else {
            let qb = b - tree.len();
            assert(all[a] == tree[a] && all[b] == tail[qb]);
            assert(tail[qb] == nodes[so[qb]].id);
            if tree[a] == tail[qb] {
                assert(tree.contains(nodes[so[qb]].id));
            }
        }
    }
}

/// The traversal reads each id at most once, and none it had read before.
proof fn lemma_dfs_fresh(nodes: Seq<DocNode>, stack: Seq<int>, visited: Set<i64>)
    requires
        dfs_ok(nodes, stack, visited),
    ensures
        no_dup(dfs(nodes, stack, visited)),
        forall|q: int| 0 <= q < dfs(nodes, stack, visited).len() ==> !visited.contains(#[trigger] dfs(nodes, stack, visited)[q]),
    decreases ids_set(nodes).len() - visited.len(), stack.len(),
{
    if stack.len() > 0 {
        let j = stack.last();
        let x = nodes[j].id;
        let rest = stack.drop_last();
        assert forall|q: int| 0 <= q < rest.len() implies 0 <= #[trigger] rest[q] < nodes.len() by {
            assert(rest[q] == stack[q]);
        }
        if visited.contains(x) {
            lemma_dfs_fresh(nodes, rest, visited);
        } else {
            lemma_visit_shrinks(nodes, visited, j);
            crate::context::lemma_node_at(nodes, x);
            let k = node_at(nodes, x)->0;
            lemma_sorted_kids(nodes, k);
            let ks = kid_stack(nodes, x);
            let st = rest + ks;
            assert forall|q: int| 0 <= q < st.len() implies 0 <= #[trigger] st[q] < nodes.len() by {
                if q < rest.len() {
                    assert(st[q] == rest[q]);
                } else {
                    let sk = sorted_kids(nodes, k);
                    assert(st[q] == ks[q - rest.len()]);
                    assert(ks[q - rest.len()] == sk[sk.len() - 1 - (q - rest.len())]);
                }
            }
            let v2 = visited.insert(x);
            lemma_dfs_fresh(nodes, st, v2);
            let tail = dfs(nodes, st, v2);
            let r = dfs(nodes, stack, visited);
            assert(r == seq![x] + tail);
            assert forall|a: int, b: int| 0 <= a < b < r.len() implies r[a] != r[b] by {
                if a == 0 {
                    assert(r[b] == tail[b - 1]);
                    assert(!v2.contains(tail[b - 1]));
                } else {
                    assert(r[a] == tail[a - 1] && r[b] == tail[b - 1]);
                }
            }
            assert forall|q: int| 0 <= q < r.len() implies !visited.contains(#[trigger] r[q]) by {
                if q > 0 {
                    assert(r[q] == tail[q - 1]);
                    assert(!v2.contains(tail[q - 1]));
                }
            }
        }
    }
}

// ── the traversal is the pre-order of the tree ────────────────────────────

/// Node `x`'s subtree is read in full with fuel `f`: the recursion never stops
/// at a node that has children.
pub open spec fn complete(nodes: Seq<DocNode>, x: int, f: nat) -> bool
    decreases f,
{
    if f == 0 {
        kids_upto(nodes, x, nodes.len() as int).len() == 0
    } else {
        forall|i: int| 0 <= i < sorted_kids(nodes, x).len() ==> complete(nodes, #[trigger] sorted_kids(nodes, x)[i], (f - 1) as nat)
    }
}

proof fn lemma_cycle_never_ends(nodes: Seq<DocNode>, p: int, c: nat, m: nat)
    requires
        c >= 1,
        anc(nodes, p, c) == Some(p),
    ensures
        anc(nodes, p, m) is Some,
    decreases m,
{
    if m >= c {
        lemma_cycle_never_ends(nodes, p, c, (m - c) as nat);
        lemma_anc_comp(nodes, p, c, (m - c) as nat);
        assert((c + (m - c)) as nat == m);
    } else {
        lemma_anc_comp(nodes, p, m, (c - m) as nat);
        assert((m + (c - m)) as nat == c);
    }
}

/// A node below a root is fewer than `n` steps below it.
proof fn lemma_depth_bound(nodes: Seq<DocNode>, j: int, r: int, d: nat)
    requires
        0 <= j < nodes.len(),
        parent_pos(nodes, r) is None,
        anc(nodes, j, d) == Some(r),
    ensures
        d < nodes.len(),
{
    let chain = Seq::new((d + 1) as nat, |i: int| anc(nodes, j, i as nat)->0);
    assert forall|i: int| 0 <= i <= d implies #[trigger] anc(nodes, j, i as nat) is Some by {
        lemma_anc_comp(nodes, j, i as nat, (d - i) as nat);
        assert((i + (d - i)) as nat == d);
    }
    assert forall|i: int| 0 <= i <= d implies 0 <= #[trigger] chain[i] < nodes.len() by {
        lemma_anc_in_range(nodes, j, i as nat);
    }
    assert forall|a: int, b: int| 0 <= a < b <= d implies chain[a] != chain[b] by {
        if chain[a] == chain[b] {
            let p = chain[a];
            lemma_anc_comp(nodes, j, a as nat, (b - a) as nat);
            assert((a + (b - a)) as nat == b);
            assert(anc(nodes, p, (b - a) as nat) == Some(p));
            lemma_anc_comp(nodes, j, a as nat, (d - a) as nat);
            assert((a + (d - a)) as nat == d);
            assert(anc(nodes, p, (d - a) as nat) == Some(r));
            lemma_anc_comp(nodes, p, (d - a) as nat, 1);
            assert(anc(nodes, r, 1) is None);
            lemma_cycle_never_ends(nodes, p, (b - a) as nat, (d - a + 1) as nat);
        }
    }
    assert(chain.no_duplicates()) by {
        assert forall|a: int, b: int| 0 <= a < chain.len() && 0 <= b < chain.len() && a != b implies chain[a] != chain[b] by {
            if a < b {
            } else {
            }
        }
    }
    chain.unique_seq_to_set();
    vstd::set_lib::lemma_int_range(0, nodes.len() as int);
    assert(chain.to_set().subset_of(vstd::set_lib::set_int_range(0, nodes.len() as int))) by {
        assert forall|v: int| chain.to_set().contains(v) implies vstd::set_lib::set_int_range(0, nodes.len() as int).contains(v) by {
            let i = choose|i: int| 0 <= i < chain.len() && chain[i] == v;
        }
    }
    vstd::set_lib::lemma_len_subset(chain.to_set(), vstd::set_lib::set_int_range(0, nodes.len() as int));
}

proof fn lemma_anc_in_range(nodes: Seq<DocNode>, j: int, d: nat)
    requires
        0 <= j < nodes.len(),
    ensures
        match anc(nodes, j, d) {
            Some(q) => 0 <= q < nodes.len(),
            None => true,
        },
    decreases d,
{
    if d > 0 {
        match parent_pos(nodes, j) {
            Some(p) => {
                crate::context::lemma_node_at(nodes, nodes[j].parent_id->0);
                lemma_anc_in_range(nodes, p, (d - 1) as nat);
            },
            None => {},
        }
    }
}

/// A node `d0` steps below a root is read in full with fuel `f` when `d0 + f`
/// reaches `n - 1`.
proof fn lemma_complete(nodes: Seq<DocNode>, x: int, r: int, d0: nat, f: nat)
    requires
        0 <= x < nodes.len(),
        parent_pos(nodes, r) is None,
        anc(nodes, x, d0) == Some(r),
        d0 + f + 1 >= nodes.len(),
    ensures
        complete(nodes, x, f),
    decreases f,
{
    lemma_sorted_kids(nodes, x);
    lemma_kids_upto(nodes, x, nodes.len() as int);
    let ks = sorted_kids(nodes, x);
    if f == 0 {
        let kids = kids_upto(nodes, x, nodes.len() as int);
        if kids.len() > 0 {
            let k = kids[0];
            assert(parent_pos(nodes, k) == Some(x));
            assert(anc(nodes, k, 1) == Some(x)) by {
                assert(anc(nodes, x, 0) == Some(x));
            }
            lemma_anc_comp(nodes, k, 1, d0);
            assert((1 + d0) as nat == d0 + 1);
            lemma_depth_bound(nodes, k, r, (d0 + 1) as nat);
        }
    } else {
        assert forall|i: int| 0 <= i < ks.len() implies complete(nodes, #[trigger] ks[i], (f - 1) as nat) by {
            let k = ks[i];
            assert(anc(nodes, k, 1) == Some(x)) by {
                assert(anc(nodes, x, 0) == Some(x));
            }
            lemma_anc_comp(nodes, k, 1, d0);
            assert((1 + d0) as nat == d0 + 1);
            lemma_complete(nodes, k, r, (d0 + 1) as nat, (f - 1) as nat);
        }
    }
}

/// The subtrees of stack entries (with their fuels), the top first.
pub open spec fn flat(nodes: Seq<DocNode>, stack: Seq<int>, fuels: Seq<nat>) -> Seq<i64>
    decreases stack.len(),
{
    if stack.len() == 0 || fuels.len() == 0 {
        Seq::empty()
    } else {
        pre(nodes, stack.last(), fuels.last()) + flat(nodes, stack.drop_last(), fuels.drop_last())
    }
}

/// `len` copies of `g`.
pub open spec fn fill(len: nat, g: nat) -> Seq<nat> {
    Seq::new(len, |i: int| g)
}

proof fn lemma_flat_kids(nodes: Seq<DocNode>, a: Seq<int>, b: Seq<nat>, ks: Seq<int>, g: nat)
    requires
        a.len() == b.len(),
    ensures
        flat(nodes, a + ks.reverse(), b + fill(ks.len(), g)) == pre_list(nodes, ks, g) + flat(nodes, a, b),
    decreases ks.len(),
{
    if ks.len() == 0 {
        assert(a + ks.reverse() =~= a);
        assert(b + fill(0, g) =~= b);
        assert(pre_list(nodes, ks, g) + flat(nodes, a, b) =~= flat(nodes, a, b));
    } else {
        let st = a + ks.reverse();
        let fs = b + fill(ks.len(), g);
        let rest = ks.drop_first();
        assert(st.last() == ks[0]);
        assert(fs.last() == g);
        assert(st.drop_last() =~= a + rest.reverse());
        assert(fs.drop_last() =~= b + fill(rest.len(), g));
        lemma_flat_kids(nodes, a, b, rest, g);
        assert(pre_list(nodes, ks, g) == pre(nodes, ks[0], g) + pre_list(nodes, rest, g));
        assert(flat(nodes, st, fs) =~= pre_list(nodes, ks, g) + flat(nodes, a, b));
    }
}

/// Every id in the subtree of `ks[i]` is in the subtrees of `ks`.
proof fn lemma_pre_in_list(nodes: Seq<DocNode>, ks: Seq<int>, g: nat, i: int, y: i64)
    requires
        0 <= i < ks.len(),
        pre(nodes, ks[i], g).contains(y),
    ensures
        pre_list(nodes, ks, g).contains(y),
    decreases ks.len(),
{
    let head = pre(nodes, ks[0], g);
    let rest = ks.drop_first();
    let l = pre_list(nodes, ks, g);
    assert(l == head + pre_list(nodes, rest, g));
    if i == 0 {
        let q = choose|q: int| 0 <= q < head.len() && head[q] == y;
        assert(l[q] == y);
    } else {
        assert(rest[i - 1] == ks[i]);
        lemma_pre_in_list(nodes, rest, g, i - 1, y);
        let t = pre_list(nodes, rest, g);
        let q = choose|q: int| 0 <= q < t.len() && t[q] == y;
        assert(l[head.len() + q] == y);
    }
}

/// Entry `i` of the stack (with its fuel) has `y` in its subtree.
pub open spec fn sub_has(nodes: Seq<DocNode>, stack: Seq<int>, fuels: Seq<nat>, i: int, y: i64) -> bool {
    pre(nodes, stack[i], fuels[i]).contains(y)
}

/// The state the traversal of a forest keeps: entries on the stack are distinct
/// subtrees read in full, none of them meeting another or the visited ids.
pub open spec fn forest_state(nodes: Seq<DocNode>, stack: Seq<int>, fuels: Seq<nat>, visited: Set<i64>) -> bool {
    &&& node_ids_unique(nodes)
    &&& dfs_ok(nodes, stack, visited)
    &&& fuels.len() == stack.len()
    &&& forall|i: int| 0 <= i < stack.len() ==> !cyclic(nodes, #[trigger] stack[i]) && complete(nodes, stack[i], fuels[i])
    &&& forall|i: int, y: i64| 0 <= i < stack.len() && #[trigger] sub_has(nodes, stack, fuels, i, y) ==> !visited.contains(y)
    &&& forall|i: int, j: int, y: i64|
        0 <= i < j < stack.len() && #[trigger] sub_has(nodes, stack, fuels, i, y) ==> !#[trigger] sub_has(nodes, stack, fuels, j, y)
}

proof fn lemma_in_own_subtree(nodes: Seq<DocNode>, x: int, f: nat)
    ensures
        pre(nodes, x, f).len() > 0,
        pre(nodes, x, f)[0] == nodes[x].id,
{
    if f > 0 {
        let ks = sorted_kids(nodes, x);
        assert(pre(nodes, x, f) == seq![nodes[x].id] + pre_list(nodes, ks, (f - 1) as nat));
    }
}

/// `y` in the subtree of a child of `x` lies in `x`'s subtree, after `x` itself.
proof fn lemma_kid_subtree_in_parent(nodes: Seq<DocNode>, x: int, f: nat, i: int, y: i64)
    requires
        node_ids_unique(nodes),
        0 <= x < nodes.len(),
        !cyclic(nodes, x),
        f > 0,
        0 <= i < sorted_kids(nodes, x).len(),
        pre(nodes, sorted_kids(nodes, x)[i], (f - 1) as nat).contains(y),
    ensures
        pre(nodes, x, f).contains(y),
        y != nodes[x].id,
{
    let ks = sorted_kids(nodes, x);
    let g = (f - 1) as nat;
    lemma_pre_in_list(nodes, ks, g, i, y);
    let l = pre_list(nodes, ks, g);
    let p = pre(nodes, x, f);
    assert(p == seq![nodes[x].id] + l);
    let t = choose|t: int| 0 <= t < l.len() && l[t] == y;
    assert(p[t + 1] == y);
    lemma_pre_no_dup(nodes, x, f);
    assert(p[0] == nodes[x].id);
}

/// With ids unique, the traversal of a stack of whole, separate subtrees reads
/// them one after another, each in pre-order.
proof fn lemma_walk_is_flat(nodes: Seq<DocNode>, stack: Seq<int>, fuels: Seq<nat>, visited: Set<i64>)
    requires
        forest_state(nodes, stack, fuels, visited),
    ensures
        dfs(nodes, stack, visited) == flat(nodes, stack, fuels),
    decreases ids_set(nodes).len() - visited.len(), stack.len(),
{
    if stack.len() > 0 {
        let n = nodes.len();
        let last = stack.len() - 1;
        let x = stack[last];
        let f = fuels[last];
        let id = nodes[x].id;
        let rest = stack.drop_last();
        let rf = fuels.drop_last();
        lemma_in_own_subtree(nodes, x, f);
        assert(sub_has(nodes, stack, fuels, last, id));
        assert(!visited.contains(id));
        lemma_visit_shrinks(nodes, visited, x);
        crate::context::lemma_node_at(nodes, id);
        let k0 = node_at(nodes, id)->0;
        assert(nodes[k0].id == nodes[x].id);
        assert(k0 == x);
        lemma_sorted_kids(nodes, x);
        let ks = sorted_kids(nodes, x);
        assert(kid_stack(nodes, id) == ks.reverse());
        let g: nat = if f > 0 { (f - 1) as nat } else { 0 };
        if f == 0 {
            assert(kids_upto(nodes, x, n as int).len() == 0);
            assert(ks.len() == 0) by {
                if ks.len() > 0 {
                    lemma_sort_by_contains(nodes, kids_upto(nodes, x, n as int), false, ks[0]);
                    assert(ks.contains(ks[0]));
                }
            }
        }
        let st = rest + ks.reverse();
        let ft = rf + fill(ks.len(), g);
        let v2 = visited.insert(id);
        assert forall|i: int| 0 <= i < rest.len() implies rest[i] == stack[i] && rf[i] == fuels[i] by {}
        assert forall|i: int| rest.len() <= i < st.len() implies st[i] == ks[ks.len() - 1 - (i - rest.len())] && ft[i] == g by {}
        // the new state is a forest state
        assert forall|q: int| 0 <= q < st.len() implies 0 <= #[trigger] st[q] < n by {
            if q < rest.len() {
                assert(st[q] == stack[q]);
            } else {
                assert(st[q] == ks[ks.len() - 1 - (q - rest.len())]);
            }
        }
        assert forall|i: int| 0 <= i < st.len() implies !cyclic(nodes, #[trigger] st[i]) && complete(nodes, st[i], ft[i]) by {
            if i < rest.len() {
                assert(st[i] == stack[i] && ft[i] == fuels[i]);
            } else {
                let m = ks.len() - 1 - (i - rest.len());
                assert(st[i] == ks[m]);
                lemma_kid_acyclic(nodes, x, ks[m]);
                assert(f > 0);
                assert(complete(nodes, ks[m], (f - 1) as nat));
            }
        }
        assert forall|i: int, y: i64| 0 <= i < st.len() && #[trigger] sub_has(nodes, st, ft, i, y) implies !v2.contains(y) by {
            if i < rest.len() {
                assert(st[i] == stack[i] && ft[i] == fuels[i]);
                assert(sub_has(nodes, stack, fuels, i, y));
                if y == id {
                    assert(sub_has(nodes, stack, fuels, last, id));
                }
            } else {
                let m = ks.len() - 1 - (i - rest.len());
                assert(st[i] == ks[m] && ft[i] == g);
                lemma_kid_subtree_in_parent(nodes, x, f, m, y);
                assert(sub_has(nodes, stack, fuels, last, y));
            }
        }
        assert forall|i: int, j: int, y: i64|
            0 <= i < j < st.len() && #[trigger] sub_has(nodes, st, ft, i, y) implies !#[trigger] sub_has(nodes, st, ft, j, y) by {
            if j < rest.len() {
                assert(st[i] == stack[i] && ft[i] == fuels[i]);
                assert(st[j] == stack[j] && ft[j] == fuels[j]);
                assert(sub_has(nodes, stack, fuels, i, y));
                assert(!sub_has(nodes, stack, fuels, j, y));
                assert(sub_has(nodes, st, ft, j, y) == sub_has(nodes, stack, fuels, j, y));
            } else if i < rest.len() {
                assert(st[i] == stack[i] && ft[i] == fuels[i]);
                assert(sub_has(nodes, stack, fuels, i, y));
                assert(!sub_has(nodes, stack, fuels, last, y));
                let m = ks.len() - 1 - (j - rest.len());
                assert(st[j] == ks[m] && ft[j] == g);
                if sub_has(nodes, st, ft, j, y) {
                    lemma_kid_subtree_in_parent(nodes, x, f, m, y);
                }
            } else {
                let m1 = ks.len() - 1 - (i - rest.len());
                let m2 = ks.len() - 1 - (j - rest.len());
                let k1 = ks[m1];
                let k2 = ks[m2];
                assert(st[i] == k1 && ft[i] == g);
                assert(st[j] == k2 && ft[j] == g);
                assert(k1 != k2);
                if sub_has(nodes, st, ft, j, y) {
                    let p1 = pre(nodes, k1, g);
                    let p2 = pre(nodes, k2, g);
                    let q1 = choose|q: int| 0 <= q < p1.len() && p1[q] == y;
                    let q2 = choose|q: int| 0 <= q < p2.len() && p2[q] == y;
                    lemma_pre_reach(nodes, k1, g);
                    lemma_pre_reach(nodes, k2, g);
                    let j1 = choose|j: int| #![trigger nodes[j]] 0 <= j < n && nodes[j].id == p1[q1] && below(nodes, j, k1);
                    let j2 = choose|j: int| #![trigger nodes[j]] 0 <= j < n && nodes[j].id == p2[q2] && below(nodes, j, k2);
                    assert(j1 == j2);
                    lemma_siblings_apart(nodes, k1, k2, j1);
                }
            }
        }
        assert(forest_state(nodes, st, ft, v2));
        lemma_walk_is_flat(nodes, st, ft, v2);
        lemma_flat_kids(nodes, rest, rf, ks, g);
        // one step of the traversal, and the subtree of `x`
        assert(stack.drop_last() == rest);
        assert(dfs(nodes, stack, visited) == seq![id] + dfs(nodes, st, v2));
        assert(flat(nodes, stack, fuels) == pre(nodes, x, f) + flat(nodes, rest, rf));
        if f > 0 {
            assert(pre(nodes, x, f) == seq![id] + pre_list(nodes, ks, g));
        } else {
            assert(pre_list(nodes, ks, g) == Seq::<i64>::empty());
            assert(pre(nodes, x, f) == seq![id]);
        }
        assert(dfs(nodes, stack, visited) =~= flat(nodes, stack, fuels));
    }
}

/// With ids unique, the tree part of the reading order is the pre-order of the
/// node forest: the roots' subtrees one after another, each node before its
/// children, roots and children by `(ordinal, id)` (no subtree is deeper than the
/// document has nodes, so the depth bound of [`tree_order`] never cuts one).
pub proof fn lemma_walk_is_preorder(nodes: Seq<DocNode>)
    requires
        node_ids_unique(nodes),
    ensures
        tree_walk(nodes) == tree_order(nodes),
{
    let n = nodes.len();
    let roots = roots_upto(nodes, n as int);
    let sr = sorted_roots(nodes);
    lemma_roots_upto(nodes, n as int);
    lemma_sort_by_no_dup(nodes, roots, false);
    assert forall|i: int| 0 <= i < sr.len() implies 0 <= #[trigger] sr[i] < n && parent_pos(nodes, sr[i]) is None by {
        lemma_sort_by_contains(nodes, roots, false, sr[i]);
        assert(sr.contains(sr[i]));
        let k = choose|k: int| 0 <= k < roots.len() && roots[k] == sr[i];
    }
    let init = sr.reverse();
    let fuels = fill(sr.len(), n);
    let e = Set::<i64>::empty();
    assert(init =~= Seq::<int>::empty() + sr.reverse());
    assert(fuels =~= Seq::<nat>::empty() + fill(sr.len(), n));
    assert forall|q: int| 0 <= q < init.len() implies 0 <= #[trigger] init[q] < n by {
        assert(init[q] == sr[sr.len() - 1 - q]);
    }
    assert(e.subset_of(ids_set(nodes)));
    assert forall|i: int| 0 <= i < init.len() implies !cyclic(nodes, #[trigger] init[i]) && complete(nodes, init[i], fuels[i]) by {
        let r = init[i];
        assert(r == sr[sr.len() - 1 - i]);
        if cyclic(nodes, r) {
            let k = choose|k: nat| k >= 1 && #[trigger] anc(nodes, r, k) == Some(r);
        }
        assert(anc(nodes, r, 0) == Some(r));
        lemma_complete(nodes, r, r, 0, n);
    }
    assert forall|i: int, j: int, y: i64|
        0 <= i < j < init.len() && #[trigger] sub_has(nodes, init, fuels, i, y) implies !#[trigger] sub_has(nodes, init, fuels, j, y) by {
        let r1 = init[i];
        let r2 = init[j];
        assert(r1 == sr[sr.len() - 1 - i] && r2 == sr[sr.len() - 1 - j]);
        assert(r1 != r2);
        if sub_has(nodes, init, fuels, j, y) {
            let p1 = pre(nodes, r1, n);
            let p2 = pre(nodes, r2, n);
            let q1 = choose|q: int| 0 <= q < p1.len() && p1[q] == y;
            let q2 = choose|q: int| 0 <= q < p2.len() && p2[q] == y;
            lemma_pre_reach(nodes, r1, n);
            lemma_pre_reach(nodes, r2, n);
            let j1 = choose|j: int| #![trigger nodes[j]] 0 <= j < n && nodes[j].id == p1[q1] && below(nodes, j, r1);
            let j2 = choose|j: int| #![trigger nodes[j]] 0 <= j < n && nodes[j].id == p2[q2] && below(nodes, j, r2);
            assert(j1 == j2);
            lemma_siblings_apart(nodes, r1, r2, j1);
        }
    }
    assert(forest_state(nodes, init, fuels, e));
    lemma_walk_is_flat(nodes, init, fuels, e);
    lemma_flat_kids(nodes, Seq::empty(), Seq::empty(), sr, n);
    assert(flat(nodes, Seq::<int>::empty(), Seq::<nat>::empty()) == Seq::<i64>::empty());
    assert(pre_list(nodes, sr, n) + Seq::<i64>::empty() =~= pre_list(nodes, sr, n));
}

// ── the listing order of the nodes does not matter ────────────────────────

/// `other` lists the nodes of `nodes` in another order: the node at position
/// `i` of `nodes` stands at position `p[i]` of `other`, and `q` takes each
/// position of `other` back.
pub open spec fn relisted(nodes: Seq<DocNode>, other: Seq<DocNode>, p: Seq<int>, q: Seq<int>) -> bool {
    &&& other.len() == nodes.len()
    &&& p.len() == nodes.len()
    &&& q.len() == nodes.len()
    &&& forall|i: int|
        0 <= i < nodes.len() ==> 0 <= #[trigger] p[i] < nodes.len() && q[p[i]] == i && other[p[i]] == nodes[i]
    &&& forall|k: int| 0 <= k < nodes.len() ==> 0 <= #[trigger] q[k] < nodes.len() && p[q[k]] == k
}

/// The positions `s` carried over by `p`.
pub open spec fn remap(s: Seq<int>, p: Seq<int>) -> Seq<int> {
    s.map_values(|k: int| p[k])
}

/// `s` is ordered strictly by key.
pub open spec fn strictly_sorted(nodes: Seq<DocNode>, s: Seq<int>, orphan: bool) -> bool {
    forall|a: int, b: int|
        0 <= a < b < s.len() ==> tri_lt(key_of(nodes, #[trigger] s[a], orphan), key_of(nodes, #[trigger] s[b], orphan))
}

/// Different positions of `s` have different keys.
pub open spec fn keys_distinct(nodes: Seq<DocNode>, s: Seq<int>, orphan: bool) -> bool {
    forall|a: int, b: int|
        0 <= a < s.len() && 0 <= b < s.len() && a != b ==> key_of(nodes, #[trigger] s[a], orphan) != key_of(
            nodes,
            #[trigger] s[b],
            orphan,
        )
}

proof fn lemma_insert_sorted(nodes: Seq<DocNode>, t: Seq<int>, x: int, orphan: bool)
    requires
        strictly_sorted(nodes, t, orphan),
        forall|a: int| 0 <= a < t.len() ==> key_of(nodes, #[trigger] t[a], orphan) != key_of(nodes, x, orphan),
    ensures
        strictly_sorted(nodes, insert_by(nodes, t, x, orphan), orphan),
    decreases t.len(),
{
    let r = insert_by(nodes, t, x, orphan);
    let kx = key_of(nodes, x, orphan);
    if t.len() == 0 {
    } else if tri_lt(kx, key_of(nodes, t[0], orphan)) {
        assert forall|a: int, b: int| 0 <= a < b < r.len() implies tri_lt(key_of(nodes, #[trigger] r[a], orphan), key_of(nodes, #[trigger] r[b], orphan)) by {
            if a == 0 {
                assert(r[b] == t[b - 1]);
                if b - 1 > 0 {
                    assert(tri_lt(key_of(nodes, t[0], orphan), key_of(nodes, t[b - 1], orphan)));
                }
            } else {
                assert(r[a] == t[a - 1] && r[b] == t[b - 1]);
            }
        }
    } else {
        let rest = t.drop_first();
        assert forall|a: int, b: int| 0 <= a < b < rest.len() implies tri_lt(key_of(nodes, #[trigger] rest[a], orphan), key_of(nodes, #[trigger] rest[b], orphan)) by {
            assert(rest[a] == t[a + 1] && rest[b] == t[b + 1]);
        }
        assert forall|a: int| 0 <= a < rest.len() implies key_of(nodes, #[trigger] rest[a], orphan) != kx by {
            assert(rest[a] == t[a + 1]);
        }
        lemma_insert_sorted(nodes, rest, x, orphan);
        let ir = insert_by(nodes, rest, x, orphan);
        assert(r == seq![t[0]] + ir);
        let k0 = key_of(nodes, t[0], orphan);
        assert(k0 != kx);
        assert(tri_lt(k0, kx));
        assert forall|a: int, b: int| 0 <= a < b < r.len() implies tri_lt(key_of(nodes, #[trigger] r[a], orphan), key_of(nodes, #[trigger] r[b], orphan)) by {
            if a == 0 {
                assert(r[b] == ir[b - 1]);
                lemma_insert_by_contains(nodes, rest, x, orphan, ir[b - 1]);
                assert(ir.contains(ir[b - 1]));
                if ir[b - 1] != x {
                    let k = choose|k: int| 0 <= k < rest.len() && rest[k] == ir[b - 1];
                    assert(rest[k] == t[k + 1]);
                }
            } else {
                assert(r[a] == ir[a - 1] && r[b] == ir[b - 1]);
            }
        }
    }
}

proof fn lemma_sort_sorted(nodes: Seq<DocNode>, s: Seq<int>, orphan: bool)
    requires
        keys_distinct(nodes, s, orphan),
    ensures
        strictly_sorted(nodes, sort_by(nodes, s, orphan), orphan),
    decreases s.len(),
{
    if s.len() > 0 {
        let rest = s.drop_last();
        assert forall|a: int, b: int| 0 <= a < rest.len() && 0 <= b < rest.len() && a != b implies key_of(nodes, #[trigger] rest[a], orphan) != key_of(nodes, #[trigger] rest[b], orphan) by {
            assert(rest[a] == s[a] && rest[b] == s[b]);
        }
        lemma_sort_sorted(nodes, rest, orphan);
        let t = sort_by(nodes, rest, orphan);
        assert forall|a: int| 0 <= a < t.len() implies key_of(nodes, #[trigger] t[a], orphan) != key_of(nodes, s.last(), orphan) by {
            lemma_sort_by_contains(nodes, rest, orphan, t[a]);
            assert(t.contains(t[a]));
            let k = choose|k: int| 0 <= k < rest.len() && rest[k] == t[a];
            assert(rest[k] == s[k]);
            assert(s.last() == s[s.len() - 1]);
        }
        lemma_insert_sorted(nodes, t, s.last(), orphan);
    }
}


/// Listing unique ids in another order keeps them unique.
pub proof fn lemma_relisted_unique(nodes: Seq<DocNode>, other: Seq<DocNode>, p: Seq<int>, q: Seq<int>)
    requires
        relisted(nodes, other, p, q),
        node_ids_unique(nodes),
    ensures
        node_ids_unique(other),
{
    assert forall|a: int, b: int|
        0 <= a < other.len() && 0 <= b < other.len() && a != b implies #[trigger] other[a].id != #[trigger] other[b].id by {
        assert(other[p[q[a]]] == nodes[q[a]]);
        assert(other[p[q[b]]] == nodes[q[b]]);
        assert(nodes[q[a]].id != nodes[q[b]].id);
    }
}

/// In another listing of nodes with unique ids, an id names the node at the
/// carried-over position.
pub proof fn lemma_relisted_node_at(nodes: Seq<DocNode>, other: Seq<DocNode>, p: Seq<int>, q: Seq<int>, id: i64)
    requires
        relisted(nodes, other, p, q),
        node_ids_unique(nodes),
    ensures
        node_at(other, id) == match node_at(nodes, id) {
            Some(j) => Some(p[j]),
            None => None::<int>,
        },
{
    lemma_node_at(nodes, id);
    lemma_node_at(other, id);
    match node_at(other, id) {
        Some(k) => {
            assert(other[p[q[k]]] == nodes[q[k]]);
            match node_at(nodes, id) {
                Some(j) => {
                    if q[k] != j {
                        assert(nodes[q[k]].id != nodes[j].id);
                    }
                },
                None => {
                    assert(nodes[q[k]].id != id);
                },
            }
        },
        None => {
            match node_at(nodes, id) {
                Some(j) => {
                    assert(other[p[j]].id != id);
                },
                None => {},
            }
        },
    }
}

proof fn lemma_relisted_parent(nodes: Seq<DocNode>, other: Seq<DocNode>, p: Seq<int>, q: Seq<int>, j: int)
    requires
        relisted(nodes, other, p, q),
        node_ids_unique(nodes),
        0 <= j < nodes.len(),
    ensures
        parent_pos(other, p[j]) == match parent_pos(nodes, j) {
            Some(a) => Some(p[a]),
            None => None::<int>,
        },
        match parent_pos(nodes, j) {
            Some(a) => 0 <= a < nodes.len(),
            None => true,
        },
{
    assert(other[p[j]] == nodes[j]);
    match nodes[j].parent_id {
        Some(pid) => {
            lemma_relisted_node_at(nodes, other, p, q, pid);
            lemma_node_at(nodes, pid);
        },
        None => {},
    }
}

/// Two lists strictly ordered by key that hold the same positions are equal.
proof fn lemma_sorted_unique(nodes: Seq<DocNode>, a: Seq<int>, b: Seq<int>, orphan: bool)
    requires
        strictly_sorted(nodes, a, orphan),
        strictly_sorted(nodes, b, orphan),
        forall|x: int| a.contains(x) <==> b.contains(x),
    ensures
        a == b,
    decreases a.len(),
{
    if a.len() == 0 {
        if b.len() > 0 {
            assert(b.contains(b[0]));
        }
        assert(a =~= b);
    } else {
        assert(a.contains(a[0]));
        let k = choose|k: int| 0 <= k < b.len() && b[k] == a[0];
        assert(b.contains(b[0]));
        let m = choose|m: int| 0 <= m < a.len() && a[m] == b[0];
        if k != 0 {
            assert(tri_lt(key_of(nodes, b[0], orphan), key_of(nodes, b[k], orphan)));
            if m != 0 {
                assert(tri_lt(key_of(nodes, a[0], orphan), key_of(nodes, a[m], orphan)));
            }
            assert(false);
        }
        let ra = a.drop_first();
        let rb = b.drop_first();
        assert forall|i: int, j: int| 0 <= i < j < ra.len() implies tri_lt(
            key_of(nodes, #[trigger] ra[i], orphan),
            key_of(nodes, #[trigger] ra[j], orphan),
        ) by {
            assert(ra[i] == a[i + 1] && ra[j] == a[j + 1]);
        }
        assert forall|i: int, j: int| 0 <= i < j < rb.len() implies tri_lt(
            key_of(nodes, #[trigger] rb[i], orphan),
            key_of(nodes, #[trigger] rb[j], orphan),
        ) by {
            assert(rb[i] == b[i + 1] && rb[j] == b[j + 1]);
        }
        assert forall|x: int| ra.contains(x) <==> rb.contains(x) by {
            if ra.contains(x) {
                let i = choose|i: int| 0 <= i < ra.len() && ra[i] == x;
                assert(a[i + 1] == x);
                assert(a.contains(x));
                let j = choose|j: int| 0 <= j < b.len() && b[j] == x;
                if j == 0 {
                    assert(tri_lt(key_of(nodes, a[0], orphan), key_of(nodes, a[i + 1], orphan)));
                }
                assert(rb[j - 1] == x);
            }
            if rb.contains(x) {
                let i = choose|i: int| 0 <= i < rb.len() && rb[i] == x;
                assert(b[i + 1] == x);
                assert(b.contains(x));
                let j = choose|j: int| 0 <= j < a.len() && a[j] == x;
                if j == 0 {
                    assert(tri_lt(key_of(nodes, b[0], orphan), key_of(nodes, b[i + 1], orphan)));
                }
                assert(ra[j - 1] == x);
            }
        }
        lemma_sorted_unique(nodes, ra, rb, orphan);
        assert(a =~= seq![a[0]] + ra);
        assert(b =~= seq![b[0]] + rb);
    }
}


/// Sorting the same positions carried over to another listing gives the
/// carried-over sorted list (keys end in the id, so no two positions tie).
proof fn lemma_sort_relisted(
    nodes: Seq<DocNode>,
    other: Seq<DocNode>,
    p: Seq<int>,
    q: Seq<int>,
    s: Seq<int>,
    t: Seq<int>,
    orphan: bool,
)
    requires
        relisted(nodes, other, p, q),
        node_ids_unique(nodes),
        no_dup(s),
        no_dup(t),
        forall|i: int| 0 <= i < s.len() ==> 0 <= #[trigger] s[i] < nodes.len(),
        forall|x: int| t.contains(x) <==> remap(s, p).contains(x),
    ensures
        sort_by(other, t, orphan) == remap(sort_by(nodes, s, orphan), p),
{
    lemma_relisted_unique(nodes, other, p, q);
    let a = sort_by(other, t, orphan);
    let ss = sort_by(nodes, s, orphan);
    let b = remap(ss, p);
    let rs = remap(s, p);
    assert forall|i: int| 0 <= i < t.len() implies 0 <= #[trigger] t[i] < nodes.len() by {
        assert(t.contains(t[i]));
        let m = choose|m: int| 0 <= m < rs.len() && rs[m] == t[i];
        assert(rs[m] == p[s[m]]);
    }
    assert forall|i: int, j: int| 0 <= i < t.len() && 0 <= j < t.len() && i != j implies key_of(
        other,
        #[trigger] t[i],
        orphan,
    ) != key_of(other, #[trigger] t[j], orphan) by {
        if i < j {
            assert(t[i] != t[j]);
        } else {
            assert(t[j] != t[i]);
        }
        assert(other[t[i]].id != other[t[j]].id);
    }
    lemma_sort_sorted(other, t, orphan);
    assert forall|i: int, j: int| 0 <= i < s.len() && 0 <= j < s.len() && i != j implies key_of(
        nodes,
        #[trigger] s[i],
        orphan,
    ) != key_of(nodes, #[trigger] s[j], orphan) by {
        if i < j {
            assert(s[i] != s[j]);
        } else {
            assert(s[j] != s[i]);
        }
        assert(nodes[s[i]].id != nodes[s[j]].id);
    }
    lemma_sort_sorted(nodes, s, orphan);
    assert forall|i: int| 0 <= i < ss.len() implies 0 <= #[trigger] ss[i] < nodes.len() by {
        lemma_sort_by_contains(nodes, s, orphan, ss[i]);
        assert(ss.contains(ss[i]));
    }
    assert forall|i: int, j: int| 0 <= i < j < b.len() implies tri_lt(
        key_of(other, #[trigger] b[i], orphan),
        key_of(other, #[trigger] b[j], orphan),
    ) by {
        assert(b[i] == p[ss[i]] && b[j] == p[ss[j]]);
        assert(other[p[ss[i]]] == nodes[ss[i]]);
        assert(other[p[ss[j]]] == nodes[ss[j]]);
        assert(tri_lt(key_of(nodes, ss[i], orphan), key_of(nodes, ss[j], orphan)));
    }
    assert forall|x: int| a.contains(x) <==> b.contains(x) by {
        lemma_sort_by_contains(other, t, orphan, x);
        if b.contains(x) {
            let k = choose|k: int| 0 <= k < b.len() && b[k] == x;
            lemma_sort_by_contains(nodes, s, orphan, ss[k]);
            assert(ss.contains(ss[k]));
            let m = choose|m: int| 0 <= m < s.len() && s[m] == ss[k];
            assert(rs[m] == x);
            assert(rs.contains(x));
        }
        if rs.contains(x) {
            let m = choose|m: int| 0 <= m < rs.len() && rs[m] == x;
            lemma_sort_by_contains(nodes, s, orphan, s[m]);
            assert(s.contains(s[m]));
            let k = choose|k: int| 0 <= k < ss.len() && ss[k] == s[m];
            assert(b[k] == x);
        }
    }
    lemma_sorted_unique(other, a, b, orphan);
}

proof fn lemma_kids_has(nodes: Seq<DocNode>, i: int, m: int, j: int)
    requires
        0 <= j < m,
        parent_pos(nodes, j) == Some(i),
    ensures
        kids_upto(nodes, i, m).contains(j),
    decreases m,
{
    let prev = kids_upto(nodes, i, m - 1);
    if j < m - 1 {
        lemma_kids_has(nodes, i, m - 1, j);
        let k = choose|k: int| 0 <= k < prev.len() && prev[k] == j;
        if parent_pos(nodes, m - 1) == Some(i) {
            assert(kids_upto(nodes, i, m)[k] == j);
        }
    } else {
        assert(kids_upto(nodes, i, m)[prev.len() as int] == j);
    }
}

proof fn lemma_roots_has(nodes: Seq<DocNode>, m: int, j: int)
    requires
        0 <= j < m,
        parent_pos(nodes, j) is None,
    ensures
        roots_upto(nodes, m).contains(j),
    decreases m,
{
    let prev = roots_upto(nodes, m - 1);
    if j < m - 1 {
        lemma_roots_has(nodes, m - 1, j);
        let k = choose|k: int| 0 <= k < prev.len() && prev[k] == j;
        if parent_pos(nodes, m - 1) is None {
            assert(roots_upto(nodes, m)[k] == j);
        }
    } else {
        assert(roots_upto(nodes, m)[prev.len() as int] == j);
    }
}

proof fn lemma_kids_relisted(nodes: Seq<DocNode>, other: Seq<DocNode>, p: Seq<int>, q: Seq<int>, i: int)
    requires
        relisted(nodes, other, p, q),
        node_ids_unique(nodes),
        0 <= i < nodes.len(),
    ensures
        sorted_kids(other, p[i]) == remap(sorted_kids(nodes, i), p),
{
    let n = nodes.len() as int;
    let s = kids_upto(nodes, i, n);
    let t = kids_upto(other, p[i], n);
    let rs = remap(s, p);
    lemma_kids_upto(nodes, i, n);
    lemma_kids_upto(other, p[i], n);
    assert forall|x: int| t.contains(x) <==> rs.contains(x) by {
        if t.contains(x) {
            let k = choose|k: int| 0 <= k < t.len() && t[k] == x;
            let y = q[x];
            lemma_relisted_parent(nodes, other, p, q, y);
            let a = parent_pos(nodes, y)->0;
            assert(q[p[a]] == a);
            lemma_kids_has(nodes, i, n, y);
            let m = choose|m: int| 0 <= m < s.len() && s[m] == y;
            assert(rs[m] == x);
        }
        if rs.contains(x) {
            let m = choose|m: int| 0 <= m < rs.len() && rs[m] == x;
            lemma_relisted_parent(nodes, other, p, q, s[m]);
            lemma_kids_has(other, p[i], n, x);
        }
    }
    lemma_sort_relisted(nodes, other, p, q, s, t, false);
}

proof fn lemma_roots_relisted(nodes: Seq<DocNode>, other: Seq<DocNode>, p: Seq<int>, q: Seq<int>)
    requires
        relisted(nodes, other, p, q),
        node_ids_unique(nodes),
    ensures
        sorted_roots(other) == remap(sorted_roots(nodes), p),
{
    let n = nodes.len() as int;
    let s = roots_upto(nodes, n);
    let t = roots_upto(other, n);
    let rs = remap(s, p);
    lemma_roots_upto(nodes, n);
    lemma_roots_upto(other, n);
    assert forall|x: int| t.contains(x) <==> rs.contains(x) by {
        if t.contains(x) {
            let k = choose|k: int| 0 <= k < t.len() && t[k] == x;
            let y = q[x];
            lemma_relisted_parent(nodes, other, p, q, y);
            lemma_roots_has(nodes, n, y);
            let m = choose|m: int| 0 <= m < s.len() && s[m] == y;
            assert(rs[m] == x);
        }
        if rs.contains(x) {
            let m = choose|m: int| 0 <= m < rs.len() && rs[m] == x;
            lemma_relisted_parent(nodes, other, p, q, s[m]);
            lemma_roots_has(other, n, x);
        }
    }
    lemma_sort_relisted(nodes, other, p, q, s, t, false);
}

proof fn lemma_pre_relisted(nodes: Seq<DocNode>, other: Seq<DocNode>, p: Seq<int>, q: Seq<int>, i: int, f: nat)
    requires
        relisted(nodes, other, p, q),
        node_ids_unique(nodes),
        0 <= i < nodes.len(),
    ensures
        pre(other, p[i], f) == pre(nodes, i, f),
    decreases f, 0nat,
{
    assert(other[p[i]] == nodes[i]);
    if f > 0 {
        let n = nodes.len() as int;
        let ks = sorted_kids(nodes, i);
        lemma_kids_relisted(nodes, other, p, q, i);
        lemma_kids_upto(nodes, i, n);
        assert forall|k: int| 0 <= k < ks.len() implies 0 <= #[trigger] ks[k] < nodes.len() by {
            lemma_sort_by_contains(nodes, kids_upto(nodes, i, n), false, ks[k]);
            assert(ks.contains(ks[k]));
        }
        lemma_pre_list_relisted(nodes, other, p, q, ks, (f - 1) as nat);
    }
}

proof fn lemma_pre_list_relisted(nodes: Seq<DocNode>, other: Seq<DocNode>, p: Seq<int>, q: Seq<int>, s: Seq<int>, f: nat)
    requires
        relisted(nodes, other, p, q),
        node_ids_unique(nodes),
        forall|k: int| 0 <= k < s.len() ==> 0 <= #[trigger] s[k] < nodes.len(),
    ensures
        pre_list(other, remap(s, p), f) == pre_list(nodes, s, f),
    decreases f, s.len(),
{
    if s.len() > 0 {
        lemma_pre_relisted(nodes, other, p, q, s[0], f);
        assert(remap(s, p).drop_first() =~= remap(s.drop_first(), p));
        lemma_pre_list_relisted(nodes, other, p, q, s.drop_first(), f);
    }
}

/// The reading order does not depend on the order in which a document lists
/// its nodes: with ids unique, listing the same nodes in any other order gives
/// the same reading order.
pub proof fn lemma_reading_order_ignores_listing_order(
    nodes: Seq<DocNode>,
    other: Seq<DocNode>,
    p: Seq<int>,
    q: Seq<int>,
)
    requires
        node_ids_unique(nodes),
        relisted(nodes, other, p, q),
    ensures
        reading_order_spec(other) == reading_order_spec(nodes),
{
    let n = nodes.len() as int;
    lemma_relisted_unique(nodes, other, p, q);
    lemma_roots_relisted(nodes, other, p, q);
    let sr = sorted_roots(nodes);
    lemma_roots_upto(nodes, n);
    assert forall|k: int| 0 <= k < sr.len() implies 0 <= #[trigger] sr[k] < nodes.len() by {
        lemma_sort_by_contains(nodes, roots_upto(nodes, n), false, sr[k]);
        assert(sr.contains(sr[k]));
    }
    lemma_pre_list_relisted(nodes, other, p, q, sr, nodes.len());
    assert(tree_order(other) == tree_order(nodes));
    lemma_walk_is_preorder(nodes);
    lemma_walk_is_preorder(other);
    let tree = tree_walk(nodes);
    assert(tree_walk(other) == tree);
    let un = unreached_upto(nodes, tree, n);
    let uo = unreached_upto(other, tree, n);
    let ru = remap(un, p);
    lemma_unreached_upto(nodes, tree, n);
    lemma_unreached_upto(other, tree, n);
    assert forall|x: int| uo.contains(x) <==> ru.contains(x) by {
        if uo.contains(x) {
            let k = choose|k: int| 0 <= k < uo.len() && uo[k] == x;
            let y = q[x];
            assert(other[p[y]] == nodes[y]);
            lemma_unreached_has(nodes, tree, n, y);
            let m = choose|m: int| 0 <= m < un.len() && un[m] == y;
            assert(ru[m] == x);
        }
        if ru.contains(x) {
            let m = choose|m: int| 0 <= m < ru.len() && ru[m] == x;
            assert(other[p[un[m]]] == nodes[un[m]]);
            lemma_unreached_has(other, tree, n, x);
        }
    }
    lemma_sort_relisted(nodes, other, p, q, un, uo, true);
    let su = sort_by(nodes, un, true);
    assert forall|k: int| 0 <= k < su.len() implies 0 <= #[trigger] su[k] < nodes.len() by {
        lemma_sort_by_contains(nodes, un, true, su[k]);
        assert(su.contains(su[k]));
    }
    assert forall|k: int| 0 <= k < su.len() implies #[trigger] ids_at(other, remap(su, p))[k] == ids_at(nodes, su)[k] by {
        assert(other[p[su[k]]] == nodes[su[k]]);
    }
    assert(ids_at(other, remap(su, p)) =~= ids_at(nodes, su));
}

} // verus!

verus! {

// ── siblings are read by ordinal ──────────────────────────────────────────

/// The id `a` stands before the id `b` in `s`.
pub open spec fn comes_before(s: Seq<i64>, a: i64, b: i64) -> bool {
    exists|i: int, j: int| 0 <= i < j < s.len() && s[i] == a && s[j] == b
}

/// `blk` stands in `s` as one contiguous run.
pub open spec fn has_block(s: Seq<i64>, blk: Seq<i64>) -> bool {
    exists|u: Seq<i64>, v: Seq<i64>| s == u + blk + v
}

proof fn lemma_block_trans(s: Seq<i64>, b1: Seq<i64>, b2: Seq<i64>)
    requires
        has_block(s, b1),
        has_block(b1, b2),
    ensures
        has_block(s, b2),
{
    let (u, v) = choose|u: Seq<i64>, v: Seq<i64>| s == u + b1 + v;
    let (u2, v2) = choose|u: Seq<i64>, v: Seq<i64>| b1 == u + b2 + v;
    assert(s =~= (u + u2) + b2 + (v2 + v));
}

proof fn lemma_before_in_block(s: Seq<i64>, blk: Seq<i64>, a: i64, b: i64)
    requires
        has_block(s, blk),
        comes_before(blk, a, b),
    ensures
        comes_before(s, a, b),
{
    let (u, v) = choose|u: Seq<i64>, v: Seq<i64>| s == u + blk + v;
    let (i, j) = choose|i: int, j: int| 0 <= i < j < blk.len() && blk[i] == a && blk[j] == b;
    assert(s[u.len() as int + i] == a);
    assert(s[u.len() as int + j] == b);
}

proof fn lemma_pre_head(nodes: Seq<DocNode>, x: int, f: nat)
    ensures
        pre(nodes, x, f).len() >= 1,
        pre(nodes, x, f)[0] == nodes[x].id,
{
}

proof fn lemma_pre_list_block(nodes: Seq<DocNode>, s: Seq<int>, f: nat, k: int)
    requires
        0 <= k < s.len(),
    ensures
        has_block(pre_list(nodes, s, f), pre(nodes, s[k], f)),
    decreases s.len(),
{
    let head = pre(nodes, s[0], f);
    let rest = pre_list(nodes, s.drop_first(), f);
    assert(pre_list(nodes, s, f) == head + rest);
    if k == 0 {
        assert(pre_list(nodes, s, f) =~= Seq::<i64>::empty() + head + rest);
    } else {
        lemma_pre_list_block(nodes, s.drop_first(), f, k - 1);
        assert(s.drop_first()[k - 1] == s[k]);
        let (u, v) = choose|u: Seq<i64>, v: Seq<i64>| rest == u + pre(nodes, s[k], f) + v;
        assert(pre_list(nodes, s, f) =~= (head + u) + pre(nodes, s[k], f) + v);
    }
}

proof fn lemma_pre_list_order(nodes: Seq<DocNode>, s: Seq<int>, f: nat, a: int, b: int)
    requires
        0 <= a < b < s.len(),
    ensures
        comes_before(pre_list(nodes, s, f), nodes[s[a]].id, nodes[s[b]].id),
    decreases s.len(),
{
    let head = pre(nodes, s[0], f);
    let rest = pre_list(nodes, s.drop_first(), f);
    let all = pre_list(nodes, s, f);
    assert(all == head + rest);
    lemma_pre_head(nodes, s[0], f);
    if a == 0 {
        lemma_pre_list_block(nodes, s.drop_first(), f, b - 1);
        assert(s.drop_first()[b - 1] == s[b]);
        let (u, v) = choose|u: Seq<i64>, v: Seq<i64>| rest == u + pre(nodes, s[b], f) + v;
        lemma_pre_head(nodes, s[b], f);
        assert(rest[u.len() as int] == nodes[s[b]].id);
        assert(all[0] == nodes[s[0]].id);
        assert(all[head.len() as int + u.len() as int] == nodes[s[b]].id);
    } else {
        lemma_pre_list_order(nodes, s.drop_first(), f, a - 1, b - 1);
        assert(s.drop_first()[a - 1] == s[a]);
        assert(s.drop_first()[b - 1] == s[b]);
        let (i, j) = choose|i: int, j: int|
            0 <= i < j < rest.len() && rest[i] == nodes[s[a]].id && rest[j] == nodes[s[b]].id;
        assert(all[head.len() as int + i] == nodes[s[a]].id);
        assert(all[head.len() as int + j] == nodes[s[b]].id);
    }
}

/// The children of a node stand in its sorted children.
proof fn lemma_in_sorted_kids(nodes: Seq<DocNode>, q: int, j: int) -> (k: int)
    requires
        0 <= j < nodes.len(),
        parent_pos(nodes, j) == Some(q),
    ensures
        0 <= k < sorted_kids(nodes, q).len(),
        sorted_kids(nodes, q)[k] == j,
{
    let n = nodes.len() as int;
    lemma_kids_has(nodes, q, n, j);
    lemma_sort_by_contains(nodes, kids_upto(nodes, q, n), false, j);
    choose|k: int| 0 <= k < sorted_kids(nodes, q).len() && sorted_kids(nodes, q)[k] == j
}

proof fn lemma_kid_block(nodes: Seq<DocNode>, j: int, q: int, f: nat)
    requires
        0 <= j < nodes.len(),
        parent_pos(nodes, j) == Some(q),
    ensures
        has_block(pre(nodes, q, f + 1), pre(nodes, j, f)),
{
    let k = lemma_in_sorted_kids(nodes, q, j);
    let ks = sorted_kids(nodes, q);
    lemma_pre_list_block(nodes, ks, f, k);
    let pl = pre_list(nodes, ks, f);
    let (u, v) = choose|u: Seq<i64>, v: Seq<i64>| pl == u + pre(nodes, j, f) + v;
    assert(pre(nodes, q, (f + 1) as nat) == seq![nodes[q].id] + pl);
    assert(pre(nodes, q, (f + 1) as nat) =~= (seq![nodes[q].id] + u) + pre(nodes, j, f) + v);
}

proof fn lemma_anc_block(nodes: Seq<DocNode>, j: int, r: int, d: nat)
    requires
        0 <= j < nodes.len(),
        anc(nodes, j, d) == Some(r),
        d < nodes.len(),
    ensures
        has_block(pre(nodes, r, nodes.len()), pre(nodes, j, (nodes.len() - d) as nat)),
    decreases d,
{
    let n = nodes.len();
    if d == 0 {
        assert(pre(nodes, r, n) =~= Seq::<i64>::empty() + pre(nodes, j, n) + Seq::<i64>::empty());
    } else {
        let q = parent_pos(nodes, j)->0;
        match nodes[j].parent_id {
            Some(pid) => crate::context::lemma_node_at(nodes, pid),
            None => {},
        }
        assert(anc(nodes, q, (d - 1) as nat) == Some(r));
        lemma_anc_block(nodes, q, r, (d - 1) as nat);
        lemma_kid_block(nodes, j, q, (n - d) as nat);
        assert((n - (d - 1)) as nat == ((n - d) as nat + 1) as nat);
        lemma_block_trans(pre(nodes, r, n), pre(nodes, q, (n - (d - 1)) as nat), pre(nodes, j, (n - d) as nat));
    }
}

proof fn lemma_kid_positions_ordered(nodes: Seq<DocNode>, q: int, x: int, y: int) -> (ab: (int, int))
    requires
        node_ids_unique(nodes),
        0 <= x < nodes.len(),
        0 <= y < nodes.len(),
        parent_pos(nodes, x) == Some(q),
        parent_pos(nodes, y) == Some(q),
        nodes[x].ordinal < nodes[y].ordinal,
    ensures
        0 <= ab.0 < ab.1 < sorted_kids(nodes, q).len(),
        sorted_kids(nodes, q)[ab.0] == x,
        sorted_kids(nodes, q)[ab.1] == y,
{
    let n = nodes.len() as int;
    let s = kids_upto(nodes, q, n);
    lemma_kids_upto(nodes, q, n);
    assert forall|a: int, b: int| 0 <= a < s.len() && 0 <= b < s.len() && a != b implies key_of(nodes, #[trigger] s[a], false)
        != key_of(nodes, #[trigger] s[b], false) by {
        if a < b {
            assert(s[a] < s[b]);
        } else {
            assert(s[b] < s[a]);
        }
        assert(nodes[s[a]].id != nodes[s[b]].id);
    }
    lemma_sort_sorted(nodes, s, false);
    let a = lemma_in_sorted_kids(nodes, q, x);
    let b = lemma_in_sorted_kids(nodes, q, y);
    let ks = sorted_kids(nodes, q);
    if b <= a {
        if b < a {
            assert(tri_lt(key_of(nodes, ks[b], false), key_of(nodes, ks[a], false)));
        }
        assert(false);
    }
    (a, b)
}

/// Siblings are read by ordinal: with ids unique, of two children of the same
/// node that lies in the node tree (below a root), the one with the smaller
/// ordinal comes first in the reading order; so do two roots.
pub proof fn lemma_siblings_read_by_ordinal(nodes: Seq<DocNode>, x: int, y: int)
    requires
        node_ids_unique(nodes),
        0 <= x < nodes.len(),
        0 <= y < nodes.len(),
        nodes[x].ordinal < nodes[y].ordinal,
        parent_pos(nodes, x) == parent_pos(nodes, y),
        match parent_pos(nodes, x) {
            Some(q) => exists|r: int, d: nat| #![trigger parent_pos(nodes, r), anc(nodes, q, d)] parent_pos(nodes, r) is None && anc(nodes, q, d) == Some(r),
            None => true,
        },
    ensures
        comes_before(reading_order_spec(nodes), nodes[x].id, nodes[y].id),
{
    let n = nodes.len();
    lemma_walk_is_preorder(nodes);
    let tree = tree_order(nodes);
    let ro = reading_order_spec(nodes);
    assert(ro == tree + ids_at(nodes, sort_by(nodes, unreached_upto(nodes, tree_walk(nodes), n as int), true)));
    assert(has_block(ro, tree)) by {
        assert(ro =~= Seq::<i64>::empty() + tree + ids_at(nodes, sort_by(nodes, unreached_upto(nodes, tree_walk(nodes), n as int), true)));
    }
    let sr = sorted_roots(nodes);
    match parent_pos(nodes, x) {
        Some(q) => {
            let (r, d) = choose|r: int, d: nat| #![trigger parent_pos(nodes, r), anc(nodes, q, d)] parent_pos(nodes, r) is None && anc(nodes, q, d) == Some(r);
            match nodes[x].parent_id {
                Some(pid) => crate::context::lemma_node_at(nodes, pid),
                None => {},
            }
            lemma_anc_in_range(nodes, q, d);
            lemma_depth_bound(nodes, q, r, d);
            lemma_anc_block(nodes, q, r, d);
            lemma_roots_has(nodes, n as int, r);
            lemma_sort_by_contains(nodes, roots_upto(nodes, n as int), false, r);
            let kr = choose|k: int| 0 <= k < sr.len() && sr[k] == r;
            lemma_pre_list_block(nodes, sr, n, kr);
            let f = (n - d - 1) as nat;
            let ks = sorted_kids(nodes, q);
            let (a, b) = lemma_kid_positions_ordered(nodes, q, x, y);
            lemma_pre_list_order(nodes, ks, f, a, b);
            let pq = pre(nodes, q, (n - d) as nat);
            assert((n - d) as nat == (f + 1) as nat);
            assert(pq == seq![nodes[q].id] + pre_list(nodes, ks, f));
            assert(has_block(pq, pre_list(nodes, ks, f))) by {
                assert(pq =~= seq![nodes[q].id] + pre_list(nodes, ks, f) + Seq::<i64>::empty());
            }
            lemma_before_in_block(pq, pre_list(nodes, ks, f), nodes[x].id, nodes[y].id);
            lemma_block_trans(tree, pre(nodes, r, n), pq);
            lemma_before_in_block(tree, pq, nodes[x].id, nodes[y].id);
        },
        None => {
            let s = roots_upto(nodes, n as int);
            lemma_roots_upto(nodes, n as int);
            assert forall|a: int, b: int| 0 <= a < s.len() && 0 <= b < s.len() && a != b implies key_of(nodes, #[trigger] s[a], false)
                != key_of(nodes, #[trigger] s[b], false) by {
                if a < b {
                    assert(s[a] < s[b]);
                } else {
                    assert(s[b] < s[a]);
                }
                assert(nodes[s[a]].id != nodes[s[b]].id);
            }
            lemma_sort_sorted(nodes, s, false);
            lemma_roots_has(nodes, n as int, x);
            lemma_roots_has(nodes, n as int, y);
            lemma_sort_by_contains(nodes, s, false, x);
            lemma_sort_by_contains(nodes, s, false, y);
            let a = choose|k: int| 0 <= k < sr.len() && sr[k] == x;
            let b = choose|k: int| 0 <= k < sr.len() && sr[k] == y;
            if b <= a {
                if b < a {
                    assert(tri_lt(key_of(nodes, sr[b], false), key_of(nodes, sr[a], false)));
                }
                assert(false);
            }
            lemma_pre_list_order(nodes, sr, n, a, b);
        },
    }
    lemma_before_in_block(ro, tree, nodes[x].id, nodes[y].id);
}

} // verus!
