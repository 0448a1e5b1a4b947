//! The collection tree: a flat list of collections, each naming its parent by id,
//! arranged into nested trees.
//!
//! Every collection whose parent chain reaches a root (no parent, or a parent id
//! that is not in the list) appears exactly once, under its parent; collections on
//! a parent cycle are left out. Roots and the children of each collection keep
//! the order of the input list.

use vstd::prelude::*;

verus! {

/// A collection and the collections nested in it.
#[derive(Debug)]
pub struct Collection {
    pub id: i64,
    pub name: String,
    pub parent_id: Option<i64>,
    pub children: Vec<Collection>,
}

/// No two collections of the list share an id.
pub open spec fn ids_unique(nodes: Seq<Collection>) -> bool {
    forall|i: int, j: int|
        #![trigger nodes[i], nodes[j]]
        0 <= i < nodes.len() && 0 <= j < nodes.len() && i != j ==> nodes[i].id != nodes[j].id
}

/// Some collection of the list has id `x`.
pub open spec fn has_id(nodes: Seq<Collection>, x: i64) -> bool {
    exists|j: int| 0 <= j < nodes.len() && #[trigger] nodes[j].id == x
}

/// Collection `k` is a root: it has no parent, or its parent is not in the list.
pub open spec fn is_root(nodes: Seq<Collection>, k: int) -> bool {
    match nodes[k].parent_id {
        None => true,
        Some(p) => !has_id(nodes, p),
    }
}

/// Positions below `m` of the collections whose parent is `x`, in list order.
pub open spec fn kids_upto(nodes: Seq<Collection>, x: i64, m: int) -> Seq<int>
    decreases m,
{
    if m <= 0 {
        Seq::empty()
    } else {
        let before = kids_upto(nodes, x, m - 1);
        if nodes[m - 1].parent_id == Some(x) {
            before.push(m - 1)
        } else {
            before
        }
    }
}

/// Positions below `m` of the roots, in list order.
pub open spec fn roots_upto(nodes: Seq<Collection>, m: int) -> Seq<int>
    decreases m,
{
    if m <= 0 {
        Seq::empty()
    } else {
        let before = roots_upto(nodes, m - 1);
        if is_root(nodes, m - 1) {
            before.push(m - 1)
        } else {
            before
        }
    }
}

/// Positions of the roots, in list order.
pub open spec fn tree_roots(nodes: Seq<Collection>) -> Seq<int> {
    roots_upto(nodes, nodes.len() as int)
}

/// `c` is collection `i` of the list with the built trees of its children below
/// position `m` appended, in list order, after the children it already had.
pub open spec fn grown(c: Collection, nodes: Seq<Collection>, i: int, m: int) -> bool
    decreases c, 0int,
{
    let n = nodes[i];
    let ks = kids_upto(nodes, n.id, m);
    let b = n.children@.len();
    &&& c.id == n.id
    &&& c.name@ == n.name@
    &&& c.parent_id == n.parent_id
    &&& c.children@.len() == b + ks.len()
    &&& c.children@.subrange(0, b as int) == n.children@
    &&& forall|i: int|
        #![trigger c.children@[i]]
        b <= i < c.children@.len() ==> built(c.children@[i], nodes, ks[i - b])
}

/// `c` is the full tree of collection `i`: all its children, each a full tree.
pub open spec fn built(c: Collection, nodes: Seq<Collection>, i: int) -> bool
    decreases c, 1int,
{
    grown(c, nodes, i, nodes.len() as int)
}

// ── where each parent is ──────────────────────────────────────────────────

/// `pidx[k]` is the position of the parent of collection `k`, `None` for a root.
pub open spec fn parent_ok(nodes: Seq<Collection>, pidx: Seq<Option<usize>>, k: int) -> bool {
    match pidx[k] {
        Some(p) => p < nodes.len() && nodes[k].parent_id == Some(nodes[p as int].id),
        None => is_root(nodes, k),
    }
}

/// The position of the collection with id `x`.
fn find_id(nodes: &Vec<Collection>, x: i64) -> (r: Option<usize>)
    ensures
        match r {
            Some(j) => j < nodes.len() && nodes@[j as int].id == x,
            None => !has_id(nodes@, x),
        },
{
    for j in 0..nodes.len()
        invariant
            forall|i: int| 0 <= i < j ==> (#[trigger] nodes@[i]).id != x,
    {
        if nodes[j].id == x {
            return Some(j);
        }
    }
    None
}

/// The parent position of every collection.
fn parent_positions(nodes: &Vec<Collection>) -> (pidx: Vec<Option<usize>>)
    ensures
        pidx.len() == nodes.len(),
        forall|k: int| 0 <= k < nodes.len() ==> #[trigger] parent_ok(nodes@, pidx@, k),
{
    let mut pidx: Vec<Option<usize>> = Vec::new();
    for k in 0..nodes.len()
        invariant
            pidx.len() == k,
            forall|i: int| 0 <= i < k ==> #[trigger] parent_ok(nodes@, pidx@, i),
    {
        let p = match nodes[k].parent_id {
            Some(pid) => find_id(nodes, pid),
            None => None,
        };
        let ghost before = pidx@;
        pidx.push(p);
        proof {
            assert forall|i: int| 0 <= i < k + 1 implies #[trigger] parent_ok(nodes@, pidx@, i) by {
                if i < k {
                    assert(pidx@[i] == before[i]);
                    assert(parent_ok(nodes@, before, i));
                }
            }
        }
    }
    pidx
}

// ── depth of each collection below its root ───────────────────────────────

/// Number of `true` entries.
pub open spec fn count_true(s: Seq<bool>) -> nat
    decreases s.len(),
{
    if s.len() == 0 {
        0
    } else {
        count_true(s.drop_last()) + if s.last() {
            1nat
        } else {
            0nat
        }
    }
}

proof fn lemma_count_le(s: Seq<bool>)
    ensures
        count_true(s) <= s.len(),
    decreases s.len(),
{
    if s.len() > 0 {
        lemma_count_le(s.drop_last());
    }
}

proof fn lemma_count_set(s: Seq<bool>, i: int)
    requires
        0 <= i < s.len(),
        !s[i],
    ensures
        count_true(s.update(i, true)) == count_true(s) + 1,
    decreases s.len(),
{
    if i == s.len() - 1 {
        assert(s.update(i, true).drop_last() =~= s.drop_last());
    } else {
        lemma_count_set(s.drop_last(), i);
        assert(s.update(i, true).drop_last() =~= s.drop_last().update(i, true));
    }
}

/// Every parent position is in range.
pub open spec fn positions_in_range(pidx: Seq<Option<usize>>) -> bool {
    forall|k: int|
        0 <= k < pidx.len() ==> match #[trigger] pidx[k] {
            Some(p) => p < pidx.len(),
            None => true,
        }
}

/// Roots are reached at depth 0, and a collection is reached exactly when its
/// parent is, one level deeper.
pub open spec fn depths_ok(pidx: Seq<Option<usize>>, known: Seq<bool>, depth: Seq<usize>) -> bool {
    forall|k: int| 0 <= k < pidx.len() ==> #[trigger] depth_link(pidx, known, depth, k)
}

/// How collection `k` is reached: a root at depth 0, any other exactly when its
/// parent is, one level deeper.
pub open spec fn depth_link(
    pidx: Seq<Option<usize>>,
    known: Seq<bool>,
    depth: Seq<usize>,
    k: int,
) -> bool {
    match pidx[k] {
        None => known[k] && depth[k] == 0,
        Some(p) => known[k] == known[p as int] && (known[k] ==> depth[k] == depth[p as int] + 1),
    }
}

/// What holds while depths are being found: roots at 0, each reached collection
/// one below a reached parent, and every depth below the number reached.
spec fn depths_partial(pidx: Seq<Option<usize>>, known: Seq<bool>, depth: Seq<usize>) -> bool {
    &&& known.len() == pidx.len()
    &&& depth.len() == pidx.len()
    &&& forall|k: int|
        0 <= k < pidx.len() ==> match #[trigger] pidx[k] {
            None => known[k] && depth[k] == 0,
            Some(p) => known[k] ==> known[p as int] && depth[k] == depth[p as int] + 1,
        }
    &&& forall|k: int| 0 <= k < pidx.len() && #[trigger] known[k] ==> depth[k] < count_true(known)
}

/// Which collections hang below a root, and how deep: repeated passes that reach
/// a collection once its parent is reached, until a pass reaches nothing new.
pub(crate) fn depths(pidx: &Vec<Option<usize>>) -> (res: (Vec<bool>, Vec<usize>))
    requires
        positions_in_range(pidx@),
    ensures
        res.0.len() == pidx.len(),
        res.1.len() == pidx.len(),
        depths_ok(pidx@, res.0@, res.1@),
        forall|k: int| 0 <= k < pidx.len() && #[trigger] res.0@[k] ==> res.1@[k] < pidx.len(),
{
    let n = pidx.len();
    let mut known: Vec<bool> = Vec::new();
    let mut depth: Vec<usize> = Vec::new();
    for k in 0..n
        invariant
            n == pidx.len(),
            known.len() == k,
            depth.len() == k,
            forall|j: int| 0 <= j < k ==> #[trigger] known@[j] == pidx@[j].is_none(),
            forall|j: int| 0 <= j < k ==> #[trigger] depth@[j] == 0,
    {
        let root = pidx[k].is_none();
        known.push(root);
        depth.push(0);
    }
    proof {
        assert forall|k: int| 0 <= k < n && #[trigger] known@[k] implies depth@[k] < count_true(
            known@,
        ) by {
            if count_true(known@) == 0 {
                lemma_count_set_positive(known@, k);
            }
        }
    }
    loop
        invariant
            n == pidx.len(),
            positions_in_range(pidx@),
            depths_partial(pidx@, known@, depth@),
        ensures
            depths_partial(pidx@, known@, depth@),
            forall|k: int|
                0 <= k < n && !(#[trigger] known@[k]) ==> match pidx@[k] {
                    Some(p) => !known@[p as int],
                    None => false,
                },
        decreases n - count_true(known@),
    {
        proof {
            lemma_count_le(known@);
        }
        let ghost start = known@;
        let mut changed = false;
        for k in 0..n
            invariant
                n == pidx.len(),
                positions_in_range(pidx@),
                depths_partial(pidx@, known@, depth@),
                count_true(known@) >= count_true(start),
                count_true(known@) <= n,
                changed ==> count_true(known@) > count_true(start),
                !changed ==> known@ == start,
                !changed ==> forall|j: int|
                    0 <= j < k && !(#[trigger] known@[j]) ==> match pidx@[j] {
                        Some(p) => !known@[p as int],
                        None => false,
                    },
        {
            if !known[k] {
                match pidx[k] {
                    Some(p) => {
                        if known[p] {
                            proof {
                                lemma_count_set(known@, k as int);
                                lemma_count_le(known@.update(k as int, true));
                            }
                            let d = depth[p] + 1;
                            depth.set(k, d);
                            known.set(k, true);
                            changed = true;
                        }
                    },
                    None => {},
                }
            }
        }
        if !changed {
            break ;
        }
    }
    proof {
        lemma_count_le(known@);
    }
    (known, depth)
}

proof fn lemma_count_set_positive(s: Seq<bool>, k: int)
    requires
        0 <= k < s.len(),
        s[k],
    ensures
        count_true(s) > 0,
    decreases s.len(),
{
    if k < s.len() - 1 {
        lemma_count_set_positive(s.drop_last(), k);
    }
}

// ── attaching each collection under its parent, deepest first ─────────────

/// The collection at `k` of `v`, leaving an empty collection in its place.
fn take_at(v: &mut Vec<Collection>, k: usize) -> (c: Collection)
    requires
        k < old(v).len(),
    ensures
        c == old(v)@[k as int],
        final(v)@.len() == old(v)@.len(),
        forall|j: int| 0 <= j < old(v)@.len() && j != k ==> final(v)@[j] == old(v)@[j],
{
    let mut c = Collection { id: 0, name: String::new(), parent_id: None, children: Vec::new() };
    std::mem::swap(&mut c, &mut v[k]);
    c
}

/// While attaching level `lv` (the collections at that depth), up to position `m`:
/// collection `k` has already been moved into its parent.
pub open spec fn moved(known: Seq<bool>, depth: Seq<usize>, lv: int, m: int, k: int) -> bool {
    known[k] && (depth[k] > lv || (depth[k] == lv && k < m))
}

/// How far the children of collection `k` have been attached at that point.
pub open spec fn attached_upto(
    known: Seq<bool>,
    depth: Seq<usize>,
    lv: int,
    m: int,
    n: int,
    k: int,
) -> int {
    if !known[k] {
        0
    } else if depth[k] + 1 > lv {
        n
    } else if depth[k] + 1 == lv {
        m
    } else {
        0
    }
}

/// The slot of collection `k` at that point: moved away, or holding collection `k`
/// with its children attached so far.
pub open spec fn slot_ok(
    c: Collection,
    nodes: Seq<Collection>,
    known: Seq<bool>,
    depth: Seq<usize>,
    lv: int,
    m: int,
    k: int,
) -> bool {
    !moved(known, depth, lv, m, k) ==> grown(
        c,
        nodes,
        k,
        attached_upto(known, depth, lv, m, nodes.len() as int, k),
    )
}

/// What the attaching loops rely on.
pub open spec fn tree_facts(
    nodes: Seq<Collection>,
    pidx: Seq<Option<usize>>,
    known: Seq<bool>,
    depth: Seq<usize>,
) -> bool {
    &&& ids_unique(nodes)
    &&& nodes.len() <= usize::MAX
    &&& pidx.len() == nodes.len()
    &&& known.len() == nodes.len()
    &&& depth.len() == nodes.len()
    &&& forall|k: int| 0 <= k < nodes.len() ==> #[trigger] parent_ok(nodes, pidx, k)
    &&& depths_ok(pidx, known, depth)
}

/// Moving collection `m` (at depth `lv`) into its parent `p` keeps every slot right.
proof fn lemma_move_step(
    nodes: Seq<Collection>,
    pidx: Seq<Option<usize>>,
    known: Seq<bool>,
    depth: Seq<usize>,
    lv: int,
    m: int,
    p: int,
    before: Seq<Collection>,
    after: Seq<Collection>,
)
    requires
        tree_facts(nodes, pidx, known, depth),
        0 <= m < nodes.len(),
        0 <= p < nodes.len(),
        known[m],
        depth[m] == lv,
        pidx[m] == Some(p as usize),
        before.len() == nodes.len(),
        after.len() == nodes.len(),
        forall|k: int|
            0 <= k < nodes.len() ==> #[trigger] slot_ok(before[k], nodes, known, depth, lv, m, k),
        after[p].id == before[p].id,
        after[p].name == before[p].name,
        after[p].parent_id == before[p].parent_id,
        after[p].children@ == before[p].children@.push(before[m]),
        forall|j: int| 0 <= j < nodes.len() && j != p && j != m ==> after[j] == before[j],
    ensures
        forall|k: int|
            0 <= k < nodes.len() ==> #[trigger] slot_ok(after[k], nodes, known, depth, lv, m + 1, k),
{
    let n = nodes.len() as int;
    assert(parent_ok(nodes, pidx, m));
    assert(depth_link(pidx, known, depth, m));
    assert(depth[m] == depth[p] + 1 && known[p]);
    assert forall|k: int| 0 <= k < n implies #[trigger] slot_ok(
        after[k],
        nodes,
        known,
        depth,
        lv,
        m + 1,
        k,
    ) by {
        if k == m {
        } else if k == p {
            assert(slot_ok(before[p], nodes, known, depth, lv, m, p));
            assert(grown(before[p], nodes, p, m));
            assert(slot_ok(before[m], nodes, known, depth, lv, m, m));
            assert(built(before[m], nodes, m));
            let x = nodes[p].id;
            let ks = kids_upto(nodes, x, m);
            let ks2 = kids_upto(nodes, x, m + 1);
            assert(ks2 == ks.push(m));
            let b = nodes[p].children@.len() as int;
            let c = after[p];
            assert(c.children@.subrange(0, b) =~= before[p].children@.subrange(0, b));
            assert forall|i: int|
                #![trigger c.children@[i]]
                b <= i < c.children@.len() implies built(c.children@[i], nodes, ks2[i - b]) by {
                if i < c.children@.len() - 1 {
                    assert(ks2[i - b] == ks[i - b]);
                    assert(c.children@[i] == before[p].children@[i]);
                } else {
                    assert(c.children@[i] == before[m]);
                }
            }
            assert(grown(c, nodes, p, m + 1));
        } else {
            assert(after[k] == before[k]);
            assert(slot_ok(before[k], nodes, known, depth, lv, m, k));
            if known[k] && depth[k] + 1 == lv {
                assert(nodes[k].id != nodes[p].id);
                assert(kids_upto(nodes, nodes[k].id, m + 1) == kids_upto(nodes, nodes[k].id, m));
            }
        }
    }
}

/// Passing over collection `m` when it is not at depth `lv` keeps every slot right.
proof fn lemma_skip_step(
    nodes: Seq<Collection>,
    pidx: Seq<Option<usize>>,
    known: Seq<bool>,
    depth: Seq<usize>,
    lv: int,
    m: int,
    work: Seq<Collection>,
)
    requires
        tree_facts(nodes, pidx, known, depth),
        0 <= m < nodes.len(),
        !(known[m] && depth[m] == lv),
        work.len() == nodes.len(),
        forall|k: int|
            0 <= k < nodes.len() ==> #[trigger] slot_ok(work[k], nodes, known, depth, lv, m, k),
    ensures
        forall|k: int|
            0 <= k < nodes.len() ==> #[trigger] slot_ok(work[k], nodes, known, depth, lv, m + 1, k),
{
    let n = nodes.len() as int;
    assert forall|k: int| 0 <= k < n implies #[trigger] slot_ok(
        work[k],
        nodes,
        known,
        depth,
        lv,
        m + 1,
        k,
    ) by {
        assert(slot_ok(work[k], nodes, known, depth, lv, m, k));
        if known[k] && depth[k] + 1 == lv {
            if nodes[m].parent_id == Some(nodes[k].id) {
                assert(parent_ok(nodes, pidx, m));
                assert(depth_link(pidx, known, depth, m));
                match pidx[m] {
                    Some(q) => {
                        assert(nodes[q as int].id == nodes[k].id);
                        assert(q == k);
                    },
                    None => {
                        assert(has_id(nodes, nodes[k].id));
                    },
                }
            }
            assert(kids_upto(nodes, nodes[k].id, m + 1) == kids_upto(nodes, nodes[k].id, m));
        }
    }
}

/// Arranges a flat list of collections (distinct ids) into trees: each collection
/// under its parent, orphans (parent not in the list) as roots, collections on a
/// parent cycle left out; roots and children in list order, after any children a
/// collection already had.
pub fn build_tree(nodes: Vec<Collection>) -> (r: Vec<Collection>)
    requires
        ids_unique(nodes@),
    ensures
        r.len() == tree_roots(nodes@).len(),
        forall|k: int| 0 <= k < r.len() ==> #[trigger] built(r@[k], nodes@, tree_roots(nodes@)[k]),
{
    let ghost orig = nodes@;
    let n = nodes.len();
    let pidx = parent_positions(&nodes);
    proof {
        assert forall|k: int| 0 <= k < pidx.len() implies match #[trigger] pidx@[k] {
            Some(p) => p < pidx.len(),
            None => true,
        } by {
            assert(parent_ok(orig, pidx@, k));
        }
    }
    let (known, depth) = depths(&pidx);
    let mut work = nodes;
    proof {
        assert forall|k: int| 0 <= k < n implies #[trigger] slot_ok(
            work@[k],
            orig,
            known@,
            depth@,
            n as int,
            0,
            k,
        ) by {
            assert(orig[k].children@.subrange(0, orig[k].children@.len() as int) =~= orig[k].children@);
        }
    }
    let mut lv: usize = n;
    while lv > 0
        invariant
            orig.len() == n,
            work@.len() == n,
            tree_facts(orig, pidx@, known@, depth@),
            forall|k: int| 0 <= k < n && #[trigger] known@[k] ==> depth@[k] < n,
            lv <= n,
            forall|k: int|
                0 <= k < n ==> #[trigger] slot_ok(work@[k], orig, known@, depth@, lv as int, 0, k),
        decreases lv,
    {
        let mut m: usize = 0;
        while m < n
            invariant
                m <= n,
                orig.len() == n,
                work@.len() == n,
                tree_facts(orig, pidx@, known@, depth@),
                forall|k: int| 0 <= k < n && #[trigger] known@[k] ==> depth@[k] < n,
                0 < lv <= n,
                forall|k: int|
                    0 <= k < n ==> #[trigger] slot_ok(
                        work@[k],
                        orig,
                        known@,
                        depth@,
                        lv as int,
                        m as int,
                        k,
                    ),
            decreases n - m,
        {
            if known[m] && depth[m] == lv {
                match pidx[m] {
                    Some(p) => {
                        proof {
                            assert(parent_ok(orig, pidx@, m as int));
                            assert(depth_link(pidx@, known@, depth@, m as int));
                        }
                        let ghost before = work@;
                        let child = take_at(&mut work, m);
                        let mut parent = take_at(&mut work, p);
                        parent.children.push(child);
                        work.set(p, parent);
                        proof {
                            lemma_move_step(
                                orig,
                                pidx@,
                                known@,
                                depth@,
                                lv as int,
                                m as int,
                                p as int,
                                before,
                                work@,
                            );
                        }
                    },
                    None => {
                        proof {
                            assert(depth_link(pidx@, known@, depth@, m as int));
                        }
                    },
                }
            } else {
                proof {
                    lemma_skip_step(orig, pidx@, known@, depth@, lv as int, m as int, work@);
                }
            }
            m = m + 1;
        }
        proof {
            assert forall|k: int| 0 <= k < n implies #[trigger] slot_ok(
                work@[k],
                orig,
                known@,
                depth@,
                lv - 1,
                0,
                k,
            ) by {
                assert(slot_ok(work@[k], orig, known@, depth@, lv as int, n as int, k));
            }
        }
        lv = lv - 1;
    }
    let mut r: Vec<Collection> = Vec::new();
    let mut k: usize = 0;
    while k < n
        invariant
            k <= n,
            orig.len() == n,
            work@.len() == n,
            tree_facts(orig, pidx@, known@, depth@),
            r.len() == roots_upto(orig, k as int).len(),
            forall|j: int|
                0 <= j < r.len() ==> #[trigger] built(r@[j], orig, roots_upto(orig, k as int)[j]),
            forall|i: int|
                k <= i < n ==> #[trigger] slot_ok(work@[i], orig, known@, depth@, 0, 0, i),
        decreases n - k,
    {
        proof {
            assert(parent_ok(orig, pidx@, k as int));
        }
        if pidx[k].is_none() {
            proof {
                assert(slot_ok(work@[k as int], orig, known@, depth@, 0, 0, k as int));
                assert(depth_link(pidx@, known@, depth@, k as int));
                assert(built(work@[k as int], orig, k as int));
            }
            let ghost r0 = r@;
            let ghost cv = work@[k as int];
            let c = take_at(&mut work, k);
            r.push(c);
            proof {
                assert(roots_upto(orig, k + 1) == roots_upto(orig, k as int).push(k as int));
                assert forall|j: int| 0 <= j < r.len() implies #[trigger] built(
                    r@[j],
                    orig,
                    roots_upto(orig, k + 1)[j],
                ) by {
                    if j < r0.len() {
                        assert(r@[j] == r0[j]);
                    } else {
                        assert(r@[j] == cv);
                    }
                }
            }
        } else {
            proof {
                let p = pidx@[k as int].unwrap();
                assert(orig[p as int].id == orig[p as int].id);
                assert(has_id(orig, orig[p as int].id));
            }
        }
        k = k + 1;
    }
    r
}

} // verus!
