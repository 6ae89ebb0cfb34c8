use poker_abstraction::arena::{Arena, Node, NodeId};

fn link(arena: &mut Arena<char>, parent: NodeId, child: NodeId) {
    arena.get_node_mut(child).set_parent(parent);
    arena.get_node_mut(parent).add_child(child);
}

fn walk(arena: &Arena<char>, root: NodeId) -> Vec<char> {
    let mut out = Vec::new();
    let mut t = arena.generator(root);
    while let Some(d) = t.next(arena) {
        out.push(*d);
    }
    out
}

#[test]
fn node_new_is_bare() {
    let n = Node::new(7u32);
    assert_eq!(n.data, 7);
    assert_eq!(n.parent, None);
    assert!(n.children.is_empty());
}

#[test]
fn node_links_are_recorded() {
    let mut n = Node::new('x');
    n.set_parent(3);
    n.add_child(5);
    n.add_child(2);
    assert_eq!(n.parent, Some(3));
    assert_eq!(n.children, vec![5, 2]);
    assert_eq!(n.data, 'x');
}

#[test]
fn ids_count_up_from_zero() {
    let mut arena: Arena<u64> = Arena::new();
    let a = arena.create_node(10);
    let b = arena.create_node(20);
    let c = arena.create_node(30);
    assert_eq!((a, b, c), (0, 1, 2));
    assert_eq!(arena.get_node(a).data, 10);
    assert_eq!(arena.get_node(b).data, 20);
    assert_eq!(arena.get_node(c).data, 30);
}

#[test]
fn payload_can_be_changed_in_place() {
    let mut arena: Arena<u64> = Arena::new();
    let a = arena.create_node(1);
    let b = arena.create_node(2);
    arena.get_node_mut(b).data = 42;
    assert_eq!(arena.get_node(a).data, 1);
    assert_eq!(arena.get_node(b).data, 42);
}

#[test]
fn preorder_root_children_grandchild() {
    let mut arena = Arena::new();
    let r = arena.create_node('R');
    let a = arena.create_node('A');
    let b = arena.create_node('B');
    let c = arena.create_node('C');
    link(&mut arena, r, a);
    link(&mut arena, r, b);
    link(&mut arena, a, c);
    assert_eq!(walk(&arena, r), vec!['R', 'A', 'C', 'B']);
    assert_eq!(walk(&arena, a), vec!['A', 'C']);
    assert_eq!(walk(&arena, b), vec!['B']);
}

#[test]
fn walk_ends_and_stays_ended() {
    let mut arena = Arena::new();
    let r = arena.create_node('R');
    let mut t = arena.generator(r);
    assert_eq!(t.next(&arena), Some(&'R'));
    assert_eq!(t.next(&arena), None);
    assert_eq!(t.next(&arena), None);
}

#[test]
fn first_draw_does_not_walk_the_tree() {
    let mut arena = Arena::new();
    let r = arena.create_node('R');
    let mut prev = r;
    for _ in 0..100000 {
        let n = arena.create_node('n');
        link(&mut arena, prev, n);
        prev = n;
    }
    let s = arena.create_node('S');
    link(&mut arena, r, s);
    let mut t = arena.generator(r);
    assert_eq!(t.next(&arena), Some(&'R'));
    assert_eq!(t.next(&arena), Some(&'n'));
}

#[test]
fn deep_chain_walks_without_recursion() {
    let mut arena = Arena::new();
    let r = arena.create_node('r');
    let mut prev = r;
    for _ in 0..200000 {
        let n = arena.create_node('n');
        link(&mut arena, prev, n);
        prev = n;
    }
    let last = arena.create_node('z');
    link(&mut arena, prev, last);
    let out = walk(&arena, r);
    assert_eq!(out.len(), 200002);
    assert_eq!(out[0], 'r');
    assert_eq!(out[200001], 'z');
}

#[test]
fn siblings_in_insertion_order() {
    let mut arena = Arena::new();
    let r = arena.create_node('R');
    let z = arena.create_node('Z');
    let y = arena.create_node('Y');
    let x = arena.create_node('X');
    link(&mut arena, r, x);
    link(&mut arena, r, y);
    link(&mut arena, r, z);
    assert_eq!(walk(&arena, r), vec!['R', 'X', 'Y', 'Z']);
    assert_eq!(arena.get_node(x).parent, Some(r));
}
