use mcode::disjoint::DisjointSet;
use mcode::disjoint::Element;

#[test]
fn singleton_assigns_monotonic_handles() {
    let mut ds: DisjointSet<u32> = DisjointSet::new();
    assert_eq!(ds.len(), 0);
    let a = ds.singleton(10);
    let b = ds.singleton(20);
    let c = ds.singleton(30);
    assert_eq!(a, Element(0));
    assert_eq!(b, Element(1));
    assert_eq!(c, Element(2));
    assert_eq!(ds.len(), 3);
}

#[test]
fn union_merges_and_len_tracks_components() {
    let mut ds: DisjointSet<u32> = DisjointSet::new();
    let a = ds.singleton(1);
    let b = ds.singleton(2);
    let c = ds.singleton(3);
    let d = ds.singleton(4);
    assert_eq!(ds.len(), 4);
    ds.union(|x, _y| x, a, b);
    assert_eq!(ds.len(), 3);
    ds.union(|x, _y| x, c, d);
    assert_eq!(ds.len(), 2);
    // merging an already merged pair never decrements the count again
    ds.union(|x, _y| x, a, b);
    assert_eq!(ds.len(), 2);
    ds.union(|x, _y| x, b, a);
    assert_eq!(ds.len(), 2);
    ds.union(|x, _y| x, a, a);
    assert_eq!(ds.len(), 2);
}

#[test]
fn find_repr_equal_iff_connected() {
    let mut ds: DisjointSet<u32> = DisjointSet::new();
    let a = ds.singleton(1);
    let b = ds.singleton(2);
    let c = ds.singleton(3);
    let d = ds.singleton(4);
    assert_ne!(ds.find_repr(a), ds.find_repr(b));
    ds.union(|x, _y| x, a, b);
    assert_eq!(ds.find_repr(a), ds.find_repr(b));
    assert_ne!(ds.find_repr(a), ds.find_repr(c));
    ds.union(|x, _y| x, b, c);
    assert_eq!(ds.find_repr(a), ds.find_repr(c));
    assert_ne!(ds.find_repr(c), ds.find_repr(d));
}

#[test]
fn union_combines_payloads_in_argument_order() {
    let mut ds: DisjointSet<String> = DisjointSet::new();
    let a = ds.singleton("left".to_string());
    let b = ds.singleton("right".to_string());
    ds.union(|x, y| format!("{}+{}", x, y), a, b);
    assert_eq!(ds.find(a).as_str(), "left+right");
    assert_eq!(ds.find(b).as_str(), "left+right");
}

#[test]
fn data_is_some_only_on_representatives() {
    let mut ds: DisjointSet<u32> = DisjointSet::new();
    let a = ds.singleton(1);
    let b = ds.singleton(2);
    assert_eq!(ds.data(a), Some(&1));
    assert_eq!(ds.data(b), Some(&2));
    ds.union(|x, _y| x, a, b);
    let root = ds.find_repr(a);
    assert_eq!(ds.data(root), Some(&1));
    let loser = if root == a { b } else { a };
    assert_eq!(ds.data(loser), None);
}

#[test]
fn partition_lists_one_payload_per_component() {
    let mut ds: DisjointSet<u32> = DisjointSet::new();
    let a = ds.singleton(1);
    let b = ds.singleton(2);
    let _c = ds.singleton(3);
    ds.union(|x, _y| x, a, b);
    let part = ds.partition();
    assert_eq!(part.len(), 2);
    assert_eq!(part.len(), ds.len());
    let mut values: Vec<u32> = part.iter().map(|p| **p).collect();
    values.sort();
    assert_eq!(values, vec![1, 3]);
}

#[test]
fn singleton_f_builds_payload_from_handle() {
    let mut ds: DisjointSet<usize> = DisjointSet::new();
    ds.singleton_f(|e| e.0 + 100);
    ds.singleton_f(|e| e.0 + 100);
    assert_eq!(ds.len(), 2);
    assert_eq!(ds.find(Element(0)), &100);
    assert_eq!(ds.find(Element(1)), &101);
}

#[test]
fn path_compression_keeps_representatives_stable() {
    let mut ds: DisjointSet<u32> = DisjointSet::new();
    let mut handles = Vec::new();
    for i in 0..8u32 {
        handles.push(ds.singleton(i));
    }
    for i in 1..8usize {
        ds.union(|x, _y| x, handles[i - 1], handles[i]);
    }
    assert_eq!(ds.len(), 1);
    let r = ds.find_repr(handles[7]);
    for h in &handles {
        assert_eq!(ds.find_repr(*h), r);
    }
    assert_eq!(ds.find(handles[3]), &0);
}
