use lumencite::collections::{build_tree, Collection};

fn node(id: i64, name: &str, parent: Option<i64>) -> Collection {
    Collection { id, name: name.to_string(), parent_id: parent, children: vec![] }
}

#[test]
fn build_tree_keeps_three_levels_regardless_of_order() {
    let a = || node(1, "A", None);
    let b = || node(2, "B", Some(1));
    let c = || node(3, "C", Some(2));
    let orders: Vec<Vec<Collection>> = vec![
        vec![a(), b(), c()],
        vec![a(), c(), b()],
        vec![c(), b(), a()],
        vec![b(), c(), a()],
    ];
    for order in orders {
        let tree = build_tree(order);
        assert_eq!(tree.len(), 1, "root は 1 つ");
        assert_eq!(tree[0].id, 1);
        assert_eq!(tree[0].children.len(), 1);
        assert_eq!(tree[0].children[0].id, 2, "B は A の子");
        assert_eq!(tree[0].children[0].children.len(), 1);
        assert_eq!(tree[0].children[0].children[0].id, 3, "C は B の子（消えない）");
    }
}

#[test]
fn build_tree_treats_orphan_as_root() {
    let orphan = node(5, "Orphan", Some(999));
    let tree = build_tree(vec![orphan]);
    assert_eq!(tree.len(), 1);
    assert_eq!(tree[0].id, 5);
}

#[test]
fn build_tree_leaves_out_a_parent_cycle_and_keeps_sibling_order() {
    let tree = build_tree(vec![
        node(1, "Root", None),
        node(4, "Second", Some(1)),
        node(3, "First", Some(1)),
        node(7, "Loop A", Some(8)),
        node(8, "Loop B", Some(7)),
    ]);
    assert_eq!(tree.len(), 1);
    let kids: Vec<i64> = tree[0].children.iter().map(|c| c.id).collect();
    assert_eq!(kids, vec![4, 3], "siblings keep the list order");
}
