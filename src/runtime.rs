//! The address arena with its size caches, the change log, and the runtime
//! handle that a stateful record embeds.
//!
//! All handles of one object graph index into one `Graph`: a node is never
//! freed while the graph lives, so an index names the same address for good.
//! A graph is meant for one thread of control; callers that share it must
//! synchronize themselves.
use vstd::prelude::*;
use crate::varint::{varint_enc, encode_varint, varint_size};
use crate::wire::WireType;
use crate::ser::Serialize;

verus! {

/// A memoized encoded length: unset, or a byte count.
#[derive(Debug, Clone, Copy, PartialEq, Eq)]
pub struct SizeCache {
    pub size: Option<u32>,
}

impl SizeCache {
    pub fn new() -> (r: Self)
        ensures
            r.size is None,
    {
        SizeCache { size: None }
    }

    pub fn is_set(&self) -> (r: bool)
        ensures
            r == self.size is Some,
    {
        self.size.is_some()
    }

    pub fn set(&mut self, v: u32)
        ensures
            final(self).size == Some(v),
    {
        self.size = Some(v);
    }

    pub fn clear(&mut self)
        ensures
            final(self).size is None,
    {
        self.size = None;
    }

    /// The cached length if set; otherwise runs `f` once and caches its result.
    pub fn get_or_set_from<F: FnOnce() -> u32>(&mut self, f: F) -> (r: u32)
        requires
            old(self).size is None ==> f.requires(()),
        ensures
            final(self).size == Some(r),
            match old(self).size {
                Some(c) => r == c,
                None => f.ensures((), r),
            },
    {
        match self.size {
            Some(c) => c,
            None => {
                let v = f();
                self.size = Some(v);
                v
            },
        }
    }
}

/// One address: a root, or a child reached from `parent` by `tag`.
#[derive(Debug, Clone, Copy, PartialEq, Eq)]
pub struct Node {
    pub parent: Option<usize>,
    pub tag: u16,
    pub cache: SizeCache,
}

/// What a log entry does at its address.
#[derive(Debug, Clone, PartialEq, Eq)]
pub enum Op {
    /// The field now holds the value with this encoding.
    Update(Vec<u8>),
    /// An item with this encoding was appended.
    Add(Vec<u8>),
    /// The field, of this wire type, was removed.
    Remove(WireType),
}

/// One change: the address it applies to and what it does there.
#[derive(Debug, Clone, PartialEq, Eq)]
pub struct Entry {
    pub path: Vec<u16>,
    pub op: Op,
}

pub enum OpV {
    Update(Seq<u8>),
    Add(Seq<u8>),
    Remove(WireType),
}

pub struct EntryV {
    pub path: Seq<u16>,
    pub op: OpV,
}

impl View for Entry {
    type V = EntryV;

    open spec fn view(&self) -> EntryV {
        EntryV {
            path: self.path@,
            op: match self.op {
                Op::Update(b) => OpV::Update(b@),
                Op::Add(b) => OpV::Add(b@),
                Op::Remove(w) => OpV::Remove(w),
            },
        }
    }
}

/// The addresses of one object graph, with their size caches, and the log of
/// its changes in the order they were made.
pub struct Graph {
    pub nodes: Vec<Node>,
    pub log: Vec<Entry>,
}

impl Graph {
    pub fn new() -> (r: Graph)
        ensures
            r.wf(),
            r.nodes@.len() == 0,
            r.log@.len() == 0,
    {
        Graph { nodes: Vec::new(), log: Vec::new() }
    }

    /// Every parent link points to an earlier node.
    pub open spec fn wf(&self) -> bool {
        forall|i: int|
            0 <= i < self.nodes@.len() ==> match (#[trigger] self.nodes@[i]).parent {
                Some(p) => (p as int) < i,
                None => true,
            }
    }

    /// The tags from the root to node `i`.
    pub open spec fn path_of(&self, i: int) -> Seq<u16>
        decreases i,
    {
        if 0 <= i < self.nodes@.len() {
            match self.nodes@[i].parent {
                Some(p) => if (p as int) < i {
                    self.path_of(p as int).push(self.nodes@[i].tag)
                } else {
                    Seq::empty()
                },
                None => Seq::empty(),
            }
        } else {
            Seq::empty()
        }
    }

    /// Node `a` is node `n` or one of its ancestors.
    pub open spec fn on_branch(&self, a: int, n: int) -> bool
        decreases n,
    {
        n == a || (0 <= n < self.nodes@.len() && match self.nodes@[n].parent {
            Some(p) => (p as int) < n && self.on_branch(a, p as int),
            None => false,
        })
    }

    /// The cached size at node `i`.
    pub open spec fn cached(&self, i: int) -> Option<u32> {
        self.nodes@[i].cache.size
    }

    pub open spec fn log_view(&self) -> Seq<EntryV> {
        self.log@.map_values(|e: Entry| e@)
    }

    /// Node `i` has the same parent and tag in both graphs.
    pub open spec fn same_link(&self, other: &Graph, i: int) -> bool {
        self.nodes@[i].parent == other.nodes@[i].parent && self.nodes@[i].tag == other.nodes@[i].tag
    }

    /// `self` keeps every link of `other` (and may have more nodes).
    pub open spec fn extends(&self, other: &Graph) -> bool {
        &&& self.nodes@.len() >= other.nodes@.len()
        &&& forall|i: int| 0 <= i < other.nodes@.len() ==> #[trigger] self.same_link(other, i)
    }

    /// `self` is `before` with the caches of node `n` and of all its
    /// ancestors cleared, and nothing else changed.
    pub open spec fn cleared_from(&self, before: &Graph, n: int) -> bool {
        &&& self.nodes@.len() == before.nodes@.len()
        &&& self.log == before.log
        &&& forall|i: int| 0 <= i < before.nodes@.len() ==> #[trigger] self.cleared_at(before, n, i)
    }

    /// Node `i` keeps its links; its cache is unset if it lies on the branch
    /// from `n` to the root, and it is unchanged otherwise.
    pub open spec fn cleared_at(&self, before: &Graph, n: int, i: int) -> bool {
        &&& self.same_link(before, i)
        &&& if before.on_branch(i, n) {
            self.cached(i) is None
        } else {
            self.nodes@[i] == before.nodes@[i]
        }
    }

    /// Whether node `i` has a cached size.
    pub fn is_cached(&self, i: usize) -> (r: bool)
        requires
            i < self.nodes@.len(),
        ensures
            r == self.cached(i as int) is Some,
    {
        self.nodes[i].cache.is_set()
    }

    /// Sets the cached size of node `i`.
    pub fn set_cached(&mut self, i: usize, v: u32)
        requires
            i < old(self).nodes@.len(),
        ensures
            final(self).nodes@ == old(self).nodes@.update(
                i as int,
                Node { cache: SizeCache { size: Some(v) }, ..old(self).nodes@[i as int] },
            ),
            final(self).log == old(self).log,
    {
        let mut nd = self.nodes[i];
        nd.cache.set(v);
        self.nodes.set(i, nd);
    }
}

/// Links kept means paths, ancestry and well-formedness kept.
pub proof fn lemma_extends_keeps(g1: &Graph, g2: &Graph, i: int)
    requires
        g2.extends(g1),
        0 <= i < g1.nodes@.len(),
    ensures
        g1.path_of(i) == g2.path_of(i),
        forall|a: int| g1.on_branch(a, i) == g2.on_branch(a, i),
    decreases i,
{
    assert(g2.same_link(g1, i));
    match g1.nodes@[i].parent {
        Some(p) => if (p as int) < i {
            lemma_extends_keeps(g1, g2, p as int);
            assert forall|a: int| g1.on_branch(a, i) == g2.on_branch(a, i) by {
                assert(g1.on_branch(a, p as int) == g2.on_branch(a, p as int));
            }
        },
        None => {},
    }
}

proof fn lemma_extends_wf(g1: &Graph, g2: &Graph)
    requires
        g2.extends(g1),
        g1.nodes@.len() == g2.nodes@.len(),
        g1.wf(),
    ensures
        g2.wf(),
{
    assert forall|i: int| 0 <= i < g2.nodes@.len() implies match (#[trigger] g2.nodes@[i]).parent {
        Some(p) => (p as int) < i,
        None => true,
    } by {
        assert(g2.same_link(g1, i));
        assert(g1.nodes@[i].parent == g2.nodes@[i].parent);
    }
}

/// The tags of a path as consecutive varints, root first.
pub open spec fn path_enc(p: Seq<u16>) -> Seq<u8>
    decreases p.len(),
{
    if p.len() == 0 {
        Seq::empty()
    } else {
        path_enc(p.drop_last()) + varint_enc(p.last() as nat)
    }
}

proof fn lemma_path_enc_prefix(p: Seq<u16>, k: int)
    requires
        0 <= k <= p.len(),
    ensures
        path_enc(p.subrange(0, k)).len() <= path_enc(p).len(),
    decreases p.len() - k,
{
    if k < p.len() {
        lemma_path_enc_prefix(p, k + 1);
        assert(p.subrange(0, k + 1).drop_last() =~= p.subrange(0, k));
    } else {
        assert(p.subrange(0, k) =~= p);
    }
}

fn copy_path(p: &Vec<u16>, n: usize) -> (r: Vec<u16>)
    requires
        n <= p@.len(),
    ensures
        r@ == p@.subrange(0, n as int),
{
    let mut r: Vec<u16> = Vec::new();
    let mut i: usize = 0;
    while i < n
        invariant
            0 <= i <= n <= p@.len(),
            r@ == p@.subrange(0, i as int),
        decreases n - i,
    {
        r.push(p[i]);
        assert(p@.subrange(0, i + 1) =~= p@.subrange(0, i as int).push(p@[i as int]));
        i = i + 1;
    }
    r
}

/// A handle binding the change log of a graph to one address in it.
///
/// Every runtime compares equal to every other: it annotates data and takes
/// no part in the data's equality.
#[derive(Debug)]
pub struct Runtime {
    pub node: usize,
    pub path: Vec<u16>,
}

impl PartialEq for Runtime {
    fn eq(&self, _other: &Runtime) -> (r: bool) {
        true
    }
}

impl vstd::std_specs::cmp::PartialEqSpecImpl for Runtime {
    open spec fn obeys_eq_spec() -> bool {
        true
    }

    open spec fn eq_spec(&self, _other: &Runtime) -> bool {
        true
    }
}

impl Eq for Runtime {
}

impl Runtime {
    /// The handle addresses a node of `g` and holds that node's path.
    pub open spec fn wf_in(&self, g: &Graph) -> bool {
        &&& self.node < g.nodes@.len()
        &&& self.path@ == g.path_of(self.node as int)
    }

    /// A fresh root address, with an unset cache.
    pub fn new(g: &mut Graph) -> (r: Runtime)
        requires
            old(g).wf(),
            old(g).nodes@.len() < usize::MAX,
        ensures
            final(g).wf(),
            final(g).nodes@ == old(g).nodes@.push(
                Node { parent: None, tag: 0, cache: SizeCache { size: None } },
            ),
            final(g).log == old(g).log,
            r.node == old(g).nodes@.len(),
            r.path@ == Seq::<u16>::empty(),
            r.wf_in(final(g)),
    {
        let n = g.nodes.len();
        g.nodes.push(Node { parent: None, tag: 0, cache: SizeCache::new() });
        Runtime { node: n, path: Vec::new() }
    }

    /// A handle on the child address reached by `tag`, with its own unset
    /// cache and the same log.
    pub fn nested(&self, g: &mut Graph, tag: u16) -> (r: Runtime)
        requires
            old(g).wf(),
            self.wf_in(old(g)),
            old(g).nodes@.len() < usize::MAX,
        ensures
            final(g).wf(),
            final(g).nodes@ == old(g).nodes@.push(
                Node { parent: Some(self.node), tag: tag, cache: SizeCache { size: None } },
            ),
            final(g).log == old(g).log,
            r.node == old(g).nodes@.len(),
            r.path@ == self.path@.push(tag),
            r.wf_in(final(g)),
    {
        let ghost g0 = *g;
        let n = g.nodes.len();
        g.nodes.push(Node { parent: Some(self.node), tag: tag, cache: SizeCache::new() });
        let mut path = copy_path(&self.path, self.path.len());
        path.push(tag);
        proof {
            assert(g.extends(&g0)) by {
                assert forall|i: int| 0 <= i < g0.nodes@.len() implies #[trigger] g.same_link(&g0, i) by {
                    assert(g.nodes@[i] == g0.nodes@[i]);
                }
            }
            lemma_extends_keeps(&g0, g, self.node as int);
            assert(self.path@.subrange(0, self.path@.len() as int) =~= self.path@);
        }
        Runtime { node: n, path }
    }

    /// A handle on the parent address; the root has none.
    pub fn parent(&self, g: &Graph) -> (r: Runtime)
        requires
            g.wf(),
            self.wf_in(g),
            g.nodes@[self.node as int].parent is Some,
        ensures
            Some(r.node) == g.nodes@[self.node as int].parent,
            r.path@ == self.path@.drop_last(),
            r.wf_in(g),
    {
        let p = g.nodes[self.node].parent.unwrap();
        proof {
            let nd = g.nodes@[self.node as int];
            assert(match nd.parent {
                Some(q) => (q as int) < self.node,
                None => true,
            });
            assert(self.path@ == g.path_of(p as int).push(nd.tag));
            assert(g.path_of(p as int).push(nd.tag).drop_last() =~= g.path_of(p as int));
        }
        let path = copy_path(&self.path, self.path.len() - 1);
        assert(self.path@.subrange(0, self.path@.len() - 1) =~= self.path@.drop_last());
        Runtime { node: p, path }
    }

    pub(crate) fn append_entry(&self, g: &mut Graph, e: Entry)
        ensures
            final(g).nodes == old(g).nodes,
            final(g).log_view() == old(g).log_view().push(e@),
    {
        g.log.push(e);
        assert(g.log_view() =~= old(g).log_view().push(e@));
    }

    /// Logs an update of the child field `tag` to `value`.
    pub fn log_update<T: Serialize>(&self, g: &mut Graph, tag: u16, value: &T)
        ensures
            final(g).nodes == old(g).nodes,
            final(g).log_view() == old(g).log_view().push(
                EntryV { path: self.path@.push(tag), op: OpV::Update(value.encoding()) },
            ),
    {
        let mut path = copy_path(&self.path, self.path.len());
        path.push(tag);
        let mut bytes: Vec<u8> = Vec::new();
        value.serialize(&mut bytes);
        proof {
            assert(self.path@.subrange(0, self.path@.len() as int) =~= self.path@);
            assert(bytes@ =~= value.encoding());
        }
        self.append_entry(g, Entry { path, op: Op::Update(bytes) });
    }

    /// Logs that the value at this handle's own address was replaced by `value`.
    pub fn log_update_in_place<T: Serialize>(&self, g: &mut Graph, value: &T)
        ensures
            final(g).nodes == old(g).nodes,
            final(g).log_view() == old(g).log_view().push(
                EntryV { path: self.path@, op: OpV::Update(value.encoding()) },
            ),
    {
        let path = copy_path(&self.path, self.path.len());
        let mut bytes: Vec<u8> = Vec::new();
        value.serialize(&mut bytes);
        proof {
            assert(self.path@.subrange(0, self.path@.len() as int) =~= self.path@);
            assert(bytes@ =~= value.encoding());
        }
        self.append_entry(g, Entry { path, op: Op::Update(bytes) });
    }

    /// Logs that `item` was appended to the container at this address.
    pub fn log_add<T: Serialize>(&self, g: &mut Graph, item: &T)
        ensures
            final(g).nodes == old(g).nodes,
            final(g).log_view() == old(g).log_view().push(
                EntryV { path: self.path@, op: OpV::Add(item.encoding()) },
            ),
    {
        let path = copy_path(&self.path, self.path.len());
        let mut bytes: Vec<u8> = Vec::new();
        item.serialize(&mut bytes);
        proof {
            assert(self.path@.subrange(0, self.path@.len() as int) =~= self.path@);
            assert(bytes@ =~= item.encoding());
        }
        self.append_entry(g, Entry { path, op: Op::Add(bytes) });
    }

    /// Logs the removal of the child field `tag`, of type `T`.
    pub fn log_remove<T: Serialize>(&self, g: &mut Graph, tag: u16)
        ensures
            final(g).nodes == old(g).nodes,
            final(g).log_view() == old(g).log_view().push(
                EntryV { path: self.path@.push(tag), op: OpV::Remove(T::kind()) },
            ),
    {
        let mut path = copy_path(&self.path, self.path.len());
        path.push(tag);
        proof {
            assert(self.path@.subrange(0, self.path@.len() as int) =~= self.path@);
        }
        let w = T::wire_type();
        self.append_entry(g, Entry { path, op: Op::Remove(w) });
    }

    /// The cached size of this address if set; otherwise runs `f` once and
    /// caches its result. No other node changes.
    pub fn get_or_set_cached_size_from<F: FnOnce() -> u32>(&self, g: &mut Graph, f: F) -> (r: u32)
        requires
            self.wf_in(old(g)),
            old(g).cached(self.node as int) is None ==> f.requires(()),
        ensures
            final(g).log == old(g).log,
            final(g).nodes@.len() == old(g).nodes@.len(),
            forall|i: int|
                0 <= i < old(g).nodes@.len() && i != self.node ==> final(g).nodes@[i] == old(
                    g,
                ).nodes@[i],
            final(g).same_link(old(g), self.node as int),
            final(g).cached(self.node as int) == Some(r),
            match old(g).cached(self.node as int) {
                Some(c) => r == c,
                None => f.ensures((), r),
            },
    {
        let mut nd = g.nodes[self.node];
        let r = nd.cache.get_or_set_from(f);
        g.nodes.set(self.node, nd);
        r
    }

    /// Clears the cached size of this address and of every ancestor up to
    /// the root.
    pub fn clear_cached_size(&self, g: &mut Graph)
        requires
            old(g).wf(),
            self.wf_in(old(g)),
        ensures
            final(g).wf(),
            final(g).cleared_from(old(g), self.node as int),
    {
        Runtime::clear_cached_size_branch(g, self.node);
    }

    /// Clears the cached size of node `node` and of every ancestor of it.
    pub fn clear_cached_size_branch(g: &mut Graph, node: usize)
        requires
            old(g).wf(),
            node < old(g).nodes@.len(),
        ensures
            final(g).wf(),
            final(g).cleared_from(old(g), node as int),
        decreases node,
    {
        let ghost g0 = *g;
        let mut nd = g.nodes[node];
        nd.cache.clear();
        g.nodes.set(node, nd);
        let ghost g1 = *g;
        proof {
            assert(g1.extends(&g0)) by {
                assert forall|i: int| 0 <= i < g0.nodes@.len() implies #[trigger] g1.same_link(&g0, i) by {}
            }
            lemma_extends_wf(&g0, &g1);
        }
        match nd.parent {
            None => {
                proof {
                    assert forall|i: int| 0 <= i < g0.nodes@.len() implies #[trigger] g1.cleared_at(
                        &g0,
                        node as int,
                        i,
                    ) by {
                        if i != node {
                            assert(!g0.on_branch(i, node as int));
                        }
                    }
                    assert(g1.cleared_from(&g0, node as int));
                }
            },
            Some(p) => {
                assert(p < node);
                Runtime::clear_cached_size_branch(g, p);
                let ghost g2 = *g;
                proof {
                    assert forall|i: int| 0 <= i < g0.nodes@.len() implies #[trigger] g2.cleared_at(
                        &g0,
                        node as int,
                        i,
                    ) by {
                        assert(g2.cleared_at(&g1, p as int, i));
                        assert(g1.same_link(&g0, i));
                        lemma_extends_keeps(&g0, &g1, p as int);
                        assert(g0.on_branch(i, node as int) == (i == node || g0.on_branch(i, p as int)));
                    }
                    assert(g2.log == g1.log);
                    assert(g1.log == g0.log);
                    assert(g2.nodes@.len() == g0.nodes@.len());
                    assert(g2.cleared_from(&g0, node as int));
                }
            },
        }
    }
}

impl Serialize for Runtime {
    /// The address's tags as consecutive varints.
    open spec fn encoding(&self) -> Seq<u8> {
        path_enc(self.path@)
    }

    open spec fn kind() -> WireType {
        WireType::Sized
    }

    fn wire_type() -> (r: WireType) {
        WireType::Sized
    }

    fn size(&self) -> (r: u32) {
        let mut total: u32 = 0;
        let mut i: usize = 0;
        while i < self.path.len()
            invariant
                0 <= i <= self.path@.len(),
                total as nat == path_enc(self.path@.subrange(0, i as int)).len(),
                path_enc(self.path@).len() <= u32::MAX,
            decreases self.path@.len() - i,
        {
            proof {
                lemma_path_enc_prefix(self.path@, i + 1);
                assert(self.path@.subrange(0, i + 1).drop_last() =~= self.path@.subrange(0, i as int));
            }
            total = total + varint_size(self.path[i] as u64);
            i = i + 1;
        }
        assert(self.path@.subrange(0, self.path@.len() as int) =~= self.path@);
        total
    }

    fn serialize(&self, out: &mut Vec<u8>) {
        let mut i: usize = 0;
        while i < self.path.len()
            invariant
                0 <= i <= self.path@.len(),
                out@ == old(out)@ + path_enc(self.path@.subrange(0, i as int)),
            decreases self.path@.len() - i,
        {
            encode_varint(self.path[i] as u64, out);
            proof {
                assert(self.path@.subrange(0, i + 1).drop_last() =~= self.path@.subrange(0, i as int));
                assert(out@ =~= old(out)@ + path_enc(self.path@.subrange(0, i + 1)));
            }
            i = i + 1;
        }
        assert(self.path@.subrange(0, self.path@.len() as int) =~= self.path@);
    }
}

/// Log ordering: when three changes each append their entry to the log, the
/// log holds exactly the earlier entries followed by those three, in the
/// order the changes were made.
pub proof fn lemma_log_order(
    l0: Seq<EntryV>,
    l1: Seq<EntryV>,
    l2: Seq<EntryV>,
    l3: Seq<EntryV>,
    e1: EntryV,
    e2: EntryV,
    e3: EntryV,
)
    requires
        l1 == l0.push(e1),
        l2 == l1.push(e2),
        l3 == l2.push(e3),
    ensures
        l3.len() == l0.len() + 3,
        l3.subrange(0, l0.len() as int) == l0,
        l3[l0.len() as int] == e1,
        l3[l0.len() as int + 1] == e2,
        l3[l0.len() as int + 2] == e3,
{
    assert(l3.subrange(0, l0.len() as int) =~= l0);
}

} // verus!
