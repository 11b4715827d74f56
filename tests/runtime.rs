use steit::runtime::{Entry, Graph, Op, Runtime, SizeCache};
use steit::ser::Serialize;
use steit::varint::decode_varint;
use steit::wire::WireType;

#[test]
fn serialization() {
    let mut g = Graph::new();
    let root = Runtime::new(&mut g);
    let runtime = root.nested(&mut g, 10).nested(&mut g, 20);
    let mut bytes = Vec::new();

    runtime.serialize(&mut bytes);

    let mut path: Vec<u64> = Vec::new();
    let mut pos = 0;
    while pos < bytes.len() {
        let (tag, next) = decode_varint(&bytes, pos).unwrap();
        path.push(tag);
        pos = next;
    }

    assert_eq!(&*path, &[10, 20]);
    assert_eq!(runtime.size(), 2);
    assert_eq!(Runtime::wire_type(), WireType::Sized);
}

#[test]
fn clear_cached_size_branch() {
    // 2 level deep `Runtime`
    let mut g = Graph::new();
    let root = Runtime::new(&mut g);
    let runtime = root.nested(&mut g, 2);

    // Set cached sizes of both `Runtime` nodes
    let parent = g.nodes[runtime.node].parent.unwrap();
    assert_eq!(parent, root.node);
    assert!(g.nodes[parent].parent.is_none());
    g.set_cached(runtime.node, 7);
    g.set_cached(parent, 6);

    runtime.parent(&g).clear_cached_size(&mut g);

    // Cached size of the leaf `Runtime` is still set.
    assert!(g.is_cached(runtime.node));
    // Cached size of the root `Runtime` has been cleared.
    assert!(!g.is_cached(parent));

    runtime.clear_cached_size(&mut g);

    // Now cached size of the leaf runtime has also been cleared.
    assert!(!g.is_cached(runtime.node));
    assert!(!g.is_cached(parent));
}

#[test]
fn clear_stops_at_branch() {
    let mut g = Graph::new();
    let root = Runtime::new(&mut g);
    let a = root.nested(&mut g, 1);
    let b = root.nested(&mut g, 2);
    let a1 = a.nested(&mut g, 3);
    for i in 0..4 {
        g.set_cached(i, 9);
    }
    Runtime::clear_cached_size_branch(&mut g, a1.node);
    assert!(!g.is_cached(a1.node));
    assert!(!g.is_cached(a.node));
    assert!(!g.is_cached(root.node));
    // a sibling branch keeps its cache
    assert!(g.is_cached(b.node));
}

#[test]
fn nested_and_parent_paths() {
    let mut g = Graph::new();
    let root = Runtime::new(&mut g);
    assert!(root.path.is_empty());
    let child = root.nested(&mut g, 4).nested(&mut g, 9);
    assert_eq!(child.path, vec![4, 9]);
    let up = child.parent(&g);
    assert_eq!(up.path, vec![4]);
    assert_eq!(g.nodes.len(), 3);
    // runtimes never take part in equality
    assert!(root == child);
}

#[test]
fn size_cache_computes_once() {
    let mut c = SizeCache::new();
    assert!(!c.is_set());
    assert_eq!(c.get_or_set_from(|| 12), 12);
    assert!(c.is_set());
    assert_eq!(c.get_or_set_from(|| 99), 12);
    c.clear();
    assert!(!c.is_set());
    c.set(3);
    assert_eq!(c.get_or_set_from(|| 99), 3);
}

#[test]
fn runtime_cached_size_from() {
    let mut g = Graph::new();
    let root = Runtime::new(&mut g);
    let child = root.nested(&mut g, 1);
    assert_eq!(child.get_or_set_cached_size_from(&mut g, || 42), 42);
    assert_eq!(child.get_or_set_cached_size_from(&mut g, || 7), 42);
    assert!(!g.is_cached(root.node));
    child.clear_cached_size(&mut g);
    assert_eq!(child.get_or_set_cached_size_from(&mut g, || 7), 7);
}

#[test]
fn log_entries_in_call_order() {
    let mut g = Graph::new();
    let root = Runtime::new(&mut g);
    let child = root.nested(&mut g, 3);
    child.log_update(&mut g, 1, &300u32);
    child.log_update_in_place(&mut g, &-1i32);
    child.log_add(&mut g, &5u16);
    child.log_remove::<i64>(&mut g, 8);
    assert_eq!(g.log.len(), 4);
    assert_eq!(g.log[0], Entry { path: vec![3, 1], op: Op::Update(vec![0xAC, 0x02]) });
    assert_eq!(g.log[1], Entry { path: vec![3], op: Op::Update(vec![1]) });
    assert_eq!(g.log[2], Entry { path: vec![3], op: Op::Add(vec![5]) });
    assert_eq!(g.log[3], Entry { path: vec![3, 8], op: Op::Remove(WireType::Varint) });
}
