use union_find::UnionFind;

fn seven() -> UnionFind<u32> {
    let values: Vec<u32> = vec![0, 1, 2, 3, 4, 5, 6];
    UnionFind::new(&values)
}

/// The root of every element, in the order of `elements`.
fn roots(uf: &mut UnionFind<u32>, elements: &[u32]) -> Vec<u32> {
    let mut found: Vec<u32> = Vec::new();
    for e in elements {
        found.push(uf.parent(*e));
    }
    found
}

/// The parent link of every element, read off the debug output, by child.
fn links(uf: &UnionFind<u32>) -> Vec<(u32, u32)> {
    let text = format!("{:?}", uf);
    let inner = text
        .strip_prefix("UnionFind { groups: {")
        .and_then(|rest| rest.strip_suffix("} }"))
        .expect("debug output of the structure");
    let mut links: Vec<(u32, u32)> = Vec::new();
    for entry in inner.split(", ").filter(|entry| !entry.is_empty()) {
        let (child, parent) = entry.split_once(": ").expect("child: parent");
        links.push((child.parse().expect("child"), parent.parse().expect("parent")));
    }
    links.sort();
    links
}

#[test]
fn new_puts_every_element_alone() {
    let mut uf = seven();
    assert_eq!(roots(&mut uf, &[0, 1, 2, 3, 4, 5, 6]), vec![0, 1, 2, 3, 4, 5, 6]);
}

#[test]
fn new_accepts_an_empty_universe() {
    let nothing: Vec<u64> = Vec::new();
    let uf = UnionFind::new(&nothing);
    assert_eq!(format!("{:?}", uf), "UnionFind { groups: {} }");
}

#[test]
fn new_counts_a_repeated_element_once() {
    let values: Vec<u32> = vec![3, 1, 3, 3, 1];
    let mut uf = UnionFind::new(&values);
    assert_eq!(links(&uf), vec![(1, 1), (3, 3)]);
    assert_eq!(uf.parent(3), 3);
    assert_eq!(uf.parent(1), 1);
    uf.union(3, 1);
    assert_eq!(uf.parent(3), 1);
    assert_eq!(uf.parent(1), 1);
}

#[test]
fn single_element_is_its_own_root() {
    let values: Vec<i64> = vec![-9];
    let mut uf = UnionFind::new(&values);
    assert_eq!(uf.parent(-9), -9);
    uf.union(-9, -9);
    assert_eq!(uf.parent(-9), -9);
}

#[test]
fn union_puts_first_root_under_second() {
    let mut uf = seven();
    uf.union(0, 1);
    assert_eq!(uf.parent(0), 1);
    assert_eq!(uf.parent(1), 1);
    uf.union(0, 2);
    assert_eq!(roots(&mut uf, &[0, 1, 2]), vec![2, 2, 2]);
    uf.union(3, 0);
    assert_eq!(roots(&mut uf, &[0, 1, 2, 3]), vec![2, 2, 2, 2]);
    uf.union(2, 6);
    assert_eq!(roots(&mut uf, &[0, 1, 2, 3, 4, 5, 6]), vec![6, 6, 6, 6, 4, 5, 6]);
}

#[test]
fn union_of_a_star_ends_at_the_last_second_argument() {
    let mut uf = seven();
    uf.union(0, 1);
    uf.union(0, 2);
    uf.union(0, 3);
    uf.union(0, 4);
    assert_eq!(roots(&mut uf, &[0, 1, 2, 3, 4, 5, 6]), vec![4, 4, 4, 4, 4, 5, 6]);
}

#[test]
fn union_of_a_descending_chain_ends_at_the_top() {
    let mut uf = seven();
    uf.union(5, 6);
    uf.union(4, 5);
    uf.union(3, 4);
    uf.union(2, 3);
    uf.union(1, 2);
    uf.union(0, 1);
    assert_eq!(roots(&mut uf, &[0, 1, 2, 3, 4, 5, 6]), vec![6, 6, 6, 6, 6, 6, 6]);
}

#[test]
fn union_of_an_ascending_chain_builds_a_tall_tree_that_find_flattens() {
    let mut uf = seven();
    uf.union(0, 1);
    uf.union(1, 2);
    uf.union(2, 3);
    uf.union(3, 4);
    assert_eq!(links(&uf), vec![(0, 1), (1, 2), (2, 3), (3, 4), (4, 4), (5, 5), (6, 6)]);
    assert_eq!(uf.parent(0), 4);
    assert_eq!(links(&uf), vec![(0, 4), (1, 4), (2, 4), (3, 4), (4, 4), (5, 5), (6, 6)]);
}

#[test]
fn find_is_repeatable() {
    let mut uf = seven();
    uf.union(0, 1);
    uf.union(1, 2);
    uf.union(5, 6);
    for e in 0..7u32 {
        let first = uf.parent(e);
        let second = uf.parent(e);
        let third = uf.parent(e);
        assert_eq!(first, second);
        assert_eq!(second, third);
    }
}

#[test]
fn find_keeps_every_root() {
    let mut uf = seven();
    uf.union(0, 1);
    uf.union(1, 2);
    uf.union(2, 3);
    uf.union(5, 6);
    let all: Vec<u32> = vec![0, 1, 2, 3, 4, 5, 6];
    let expected: Vec<u32> = vec![3, 3, 3, 3, 4, 6, 6];
    for t in 0..7u32 {
        uf.parent(t);
        assert_eq!(roots(&mut uf, &all), expected);
    }
}

#[test]
fn second_find_changes_nothing() {
    let mut uf = seven();
    uf.union(0, 1);
    uf.union(1, 2);
    uf.union(2, 3);
    assert_eq!(uf.parent(0), 3);
    let after_first = links(&uf);
    assert_eq!(uf.parent(0), 3);
    assert_eq!(links(&uf), after_first);
    assert_eq!(after_first, vec![(0, 3), (1, 3), (2, 3), (3, 3), (4, 4), (5, 5), (6, 6)]);
}

#[test]
fn find_of_a_middle_element_flattens_only_the_path_above_it() {
    let mut uf = seven();
    uf.union(0, 1);
    uf.union(1, 2);
    uf.union(2, 3);
    assert_eq!(uf.parent(1), 3);
    assert_eq!(links(&uf), vec![(0, 1), (1, 3), (2, 3), (3, 3), (4, 4), (5, 5), (6, 6)]);
}

#[test]
fn self_union_keeps_groups() {
    let mut uf = seven();
    uf.union(0, 1);
    uf.union(2, 3);
    let all: Vec<u32> = vec![0, 1, 2, 3, 4, 5, 6];
    let before = roots(&mut uf, &all);
    for e in 0..7u32 {
        uf.union(e, e);
        assert_eq!(roots(&mut uf, &all), before);
    }
    assert_eq!(before, vec![1, 1, 3, 3, 4, 5, 6]);
}

#[test]
fn union_of_two_elements_of_one_group_keeps_groups() {
    let mut uf = seven();
    uf.union(0, 1);
    uf.union(1, 2);
    uf.union(2, 0);
    uf.union(0, 2);
    assert_eq!(roots(&mut uf, &[0, 1, 2, 3, 4, 5, 6]), vec![2, 2, 2, 3, 4, 5, 6]);
}

#[test]
fn union_joins_and_later_unions_keep_joined() {
    let mut uf = seven();
    uf.union(2, 5);
    assert_eq!(uf.parent(2), uf.parent(5));
    uf.union(0, 1);
    assert_eq!(uf.parent(2), uf.parent(5));
    uf.union(3, 4);
    assert_eq!(uf.parent(2), uf.parent(5));
    uf.union(5, 6);
    assert_eq!(uf.parent(2), uf.parent(5));
    uf.union(6, 0);
    assert_eq!(uf.parent(2), uf.parent(5));
    assert_eq!(uf.parent(2), 1);
}

#[test]
fn same_group_is_transitive() {
    let mut uf = seven();
    uf.union(0, 3);
    uf.union(3, 6);
    assert_eq!(uf.parent(0), uf.parent(3));
    assert_eq!(uf.parent(3), uf.parent(6));
    assert_eq!(uf.parent(0), uf.parent(6));
}

#[test]
fn union_spares_other_groups() {
    let mut uf = seven();
    uf.union(0, 1);
    uf.union(2, 3);
    uf.union(4, 5);
    assert_eq!(roots(&mut uf, &[2, 3, 6]), vec![3, 3, 6]);
    uf.union(0, 4);
    assert_eq!(roots(&mut uf, &[2, 3, 6]), vec![3, 3, 6]);
    assert_eq!(roots(&mut uf, &[0, 1, 4, 5]), vec![5, 5, 5, 5]);
}

#[test]
fn elements_need_not_be_numbers() {
    let names: Vec<&str> = vec!["ash", "birch", "cedar", "dogwood"];
    let mut uf = UnionFind::new(&names);
    uf.union("ash", "cedar");
    uf.union("dogwood", "ash");
    assert_eq!(uf.parent("ash"), "cedar");
    assert_eq!(uf.parent("dogwood"), "cedar");
    assert_eq!(uf.parent("birch"), "birch");

    let cells: Vec<(u8, u8)> = vec![(0, 0), (0, 1), (1, 0), (1, 1)];
    let mut grid = UnionFind::new(&cells);
    grid.union((0, 0), (0, 1));
    grid.union((1, 1), (1, 0));
    assert_eq!(grid.parent((0, 0)), (0, 1));
    assert_eq!(grid.parent((1, 1)), (1, 0));
    assert_ne!(grid.parent((0, 0)), grid.parent((1, 1)));
    grid.union((0, 0), (1, 1));
    assert_eq!(grid.parent((0, 1)), (1, 0));
}

#[test]
fn union_in_either_order_makes_the_same_groups() {
    let mut forth = seven();
    forth.union(0, 1);
    forth.union(2, 3);
    forth.union(1, 3);
    let mut back = seven();
    back.union(1, 0);
    back.union(3, 2);
    back.union(3, 1);
    assert_eq!(roots(&mut forth, &[0, 1, 2, 3, 4, 5, 6]), vec![3, 3, 3, 3, 4, 5, 6]);
    assert_eq!(roots(&mut back, &[0, 1, 2, 3, 4, 5, 6]), vec![0, 0, 0, 0, 4, 5, 6]);
    for x in 0..7u32 {
        for y in 0..7u32 {
            let joined_forth = forth.parent(x) == forth.parent(y);
            let joined_back = back.parent(x) == back.parent(y);
            assert_eq!(joined_forth, joined_back);
        }
    }
}
