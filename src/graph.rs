use vstd::prelude::*;

verus! {

/// A participant of the graph: the global pseudo-node or a processor slot.
#[derive(PartialEq, Eq, Structural, Clone, Copy, Debug, Hash)]
pub enum NodeIndex {
    Global,
    Processor(usize),
}

impl NodeIndex {
    pub fn is_global(&self) -> (r: bool)
        ensures
            r == (*self is Global),
    {
        match self {
            NodeIndex::Global => true,
            NodeIndex::Processor(_) => false,
        }
    }
}

/// One pin of a node.
#[derive(PartialEq, Eq, Structural, Clone, Copy, Debug, Hash)]
pub struct Port {
    pub index: usize,
    pub node_index: NodeIndex,
}

impl Port {
    pub fn new(index: usize, node_index: NodeIndex) -> (r: Port)
        ensures
            r == (Port { index, node_index }),
    {
        Port { index, node_index }
    }
}

/// Which endpoints of an edge could not be resolved. `None`: the node does not
/// exist; `Some(false)`: the node exists but the port index is out of range.
#[derive(PartialEq, Eq, Structural, Clone, Copy, Debug)]
pub struct EdgeNotFound {
    pub from_port: Option<bool>,
    pub to_port: Option<bool>,
}

impl EdgeNotFound {
    /// Both endpoints resolve.
    pub open spec fn spec_is_ok(&self) -> bool {
        self.from_port == Some(true) && self.to_port == Some(true)
    }

    pub fn is_not_error(&self) -> (r: bool)
        ensures
            r == self.spec_is_ok(),
    {
        matches!(self.from_port, Some(true)) && matches!(self.to_port, Some(true))
    }
}

/// The edge would close a cycle.
#[derive(PartialEq, Eq, Structural, Clone, Copy, Debug)]
pub struct CycleFound;

#[derive(PartialEq, Eq, Structural, Clone, Copy, Debug)]
pub enum EdgeInsertError {
    NotFound(EdgeNotFound),
    CycleFound(CycleFound),
}

/// Connectivity record of one node: for each local port, the opposite-side
/// ports wired to it (without repetition), and the number of ports on the
/// opposite side of the node.
#[derive(Clone, Debug)]
pub struct Interface {
    ports: Vec<Vec<Port>>,
    num_opposite_ports: usize,
}

impl Interface {
    /// The connections of each local port.
    pub closed spec fn port_sets(&self) -> Seq<Seq<Port>> {
        self.ports@.map_values(|v: Vec<Port>| v@)
    }

    pub closed spec fn opposite_degree(&self) -> nat {
        self.num_opposite_ports as nat
    }

    /// No port set holds a port twice.
    pub open spec fn wf(&self) -> bool {
        forall|i: int| 0 <= i < self.port_sets().len() ==> (#[trigger] self.port_sets()[i]).no_duplicates()
    }

    pub fn with_io_config(num_ports: usize, num_opposite_ports: usize) -> (r: Self)
        ensures
            r.wf(),
            r.port_sets() == Seq::new(num_ports as nat, |i: int| Seq::<Port>::empty()),
            r.opposite_degree() == num_opposite_ports,
    {
        let mut ports: Vec<Vec<Port>> = Vec::new();
        let mut k: usize = 0;
        while k < num_ports
            invariant
                k <= num_ports,
                ports@.len() == k,
                forall|i: int| 0 <= i < k ==> (#[trigger] ports@[i])@.len() == 0,
            decreases num_ports - k,
        {
            ports.push(Vec::new());
            k = k + 1;
        }
        let r = Interface { ports, num_opposite_ports };
        assert forall|i: int| 0 <= i < num_ports implies r.port_sets()[i] =~= Seq::<Port>::empty() by {
            assert(r.port_sets()[i] == ports@[i]@);
        }
        assert(r.port_sets() =~= Seq::new(num_ports as nat, |i: int| Seq::<Port>::empty()));
        r
    }

    /// The mirror record: ports and opposite ports swapped, no connections.
    pub fn with_opposite_config(&self) -> (r: Self)
        ensures
            r.wf(),
            r.port_sets() == Seq::new(self.opposite_degree(), |i: int| Seq::<Port>::empty()),
            r.opposite_degree() == self.port_sets().len(),
    {
        Self::with_io_config(self.num_opposite_ports, self.ports.len())
    }

    pub fn num_opposite_ports(&self) -> (r: usize)
        ensures
            r == self.opposite_degree(),
    {
        self.num_opposite_ports
    }

    pub fn num_ports(&self) -> (r: usize)
        ensures
            r == self.port_sets().len(),
    {
        self.ports.len()
    }

    /// The ports wired to local port `index`, if that port exists.
    pub fn get_connections(&self, index: usize) -> (r: Option<&Vec<Port>>)
        ensures
            index < self.port_sets().len() <==> r is Some,
            r is Some ==> r.unwrap()@ == self.port_sets()[index as int],
    {
        if index < self.ports.len() {
            Some(&self.ports[index])
        } else {
            None
        }
    }

    /// Wires `port` to local port `index`; true when it was not wired before.
    pub fn connect(&mut self, index: usize, port: Port) -> (r: bool)
        requires
            old(self).wf(),
            index < old(self).port_sets().len(),
        ensures
            final(self).wf(),
            r == !old(self).port_sets()[index as int].contains(port),
            final(self).opposite_degree() == old(self).opposite_degree(),
            final(self).port_sets() == old(self).port_sets().update(
                index as int,
                if r { old(self).port_sets()[index as int].push(port) } else { old(self).port_sets()[index as int] },
            ),
    {
        let ghost before = self.port_sets();
        let mut set: Vec<Port> = Vec::new();
        core::mem::swap(&mut set, &mut self.ports[index]);
        let present = contains_port(&set, port);
        if !present {
            set.push(port);
        }
        self.ports.set(index, set);
        proof {
            assert(self.port_sets() =~= before.update(
                index as int,
                if !present { before[index as int].push(port) } else { before[index as int] },
            ));
            assert forall|i: int| 0 <= i < self.port_sets().len() implies (#[trigger] self.port_sets()[i]).no_duplicates() by {
                if i != index {
                    assert(self.port_sets()[i] == before[i]);
                }
            }
        }
        !present
    }

    /// Unwires `port` from local port `index`; true when it was wired.
    pub fn disconnect(&mut self, index: usize, port: Port) -> (r: bool)
        requires
            old(self).wf(),
            index < old(self).port_sets().len(),
        ensures
            final(self).wf(),
            r == old(self).port_sets()[index as int].contains(port),
            final(self).opposite_degree() == old(self).opposite_degree(),
            final(self).port_sets() == old(self).port_sets().update(
                index as int,
                old(self).port_sets()[index as int].filter(|q: Port| q != port),
            ),
    {
        let ghost before = self.port_sets();
        let mut set: Vec<Port> = Vec::new();
        core::mem::swap(&mut set, &mut self.ports[index]);
        let present = contains_port(&set, port);
        let kept = without_port(&set, port);
        proof {
            lemma_filter_distinct(set@, |q: Port| q != port);
        }
        self.ports.set(index, kept);
        proof {
            assert(self.port_sets() =~= before.update(index as int, before[index as int].filter(|q: Port| q != port)));
            assert forall|i: int| 0 <= i < self.port_sets().len() implies (#[trigger] self.port_sets()[i]).no_duplicates() by {
                if i != index {
                    assert(self.port_sets()[i] == before[i]);
                }
            }
        }
        present
    }

    /// Removes from every port set the ports that belong to `node`.
    pub fn remove_node_refs(&mut self, node: NodeIndex)
        requires
            old(self).wf(),
        ensures
            final(self).wf(),
            final(self).opposite_degree() == old(self).opposite_degree(),
            final(self).port_sets().len() == old(self).port_sets().len(),
            forall|i: int| 0 <= i < old(self).port_sets().len() ==> #[trigger] final(self).port_sets()[i]
                == old(self).port_sets()[i].filter(|q: Port| q.node_index != node),
    {
        let ghost before = self.port_sets();
        let mut k: usize = 0;
        while k < self.ports.len()
            invariant
                self.wf(),
                self.num_opposite_ports == old(self).num_opposite_ports,
                k <= self.port_sets().len(),
                self.port_sets().len() == before.len(),
                forall|i: int| 0 <= i < k ==> #[trigger] self.port_sets()[i]
                    == before[i].filter(|q: Port| q.node_index != node),
                forall|i: int| k <= i < before.len() ==> #[trigger] self.port_sets()[i] == before[i],
            decreases before.len() - k,
        {
            let ghost cur = self.port_sets();
            let mut set: Vec<Port> = Vec::new();
            core::mem::swap(&mut set, &mut self.ports[k]);
            let kept = without_node(&set, node);
            proof {
                assert(set@ == cur[k as int]);
                lemma_filter_distinct(set@, |q: Port| q.node_index != node);
            }
            self.ports.set(k, kept);
            proof {
                assert(self.port_sets() =~= cur.update(k as int, kept@));
                assert forall|i: int| 0 <= i < self.port_sets().len() implies (#[trigger] self.port_sets()[i]).no_duplicates() by {
                    if i != k {
                        assert(self.port_sets()[i] == cur[i]);
                    }
                }
            }
            k = k + 1;
        }
    }
}

/// Filtering keeps distinct elements distinct and keeps exactly the elements
/// that satisfy the predicate.
proof fn lemma_filter_distinct(s: Seq<Port>, pred: spec_fn(Port) -> bool)
    ensures
        s.no_duplicates() ==> s.filter(pred).no_duplicates(),
        forall|x: Port| #[trigger] s.filter(pred).contains(x) <==> s.contains(x) && pred(x),
    decreases s.len(),
{
    if s.len() > 0 {
        let t = s.drop_last();
        let l = s.last();
        let f = t.filter(pred);
        lemma_filter_distinct(t, pred);
        assert(s =~= t.push(l));
        t.lemma_filter_push(l, pred);
        assert(s.filter(pred) == if pred(l) { f.push(l) } else { f });
        assert forall|x: Port| s.contains(x) <==> t.contains(x) || x == l by {
            if s.contains(x) {
                let i = choose|i: int| 0 <= i < s.len() && s[i] == x;
                if i < t.len() {
                    assert(t[i] == x);
                }
            }
            if t.contains(x) {
                let i = choose|i: int| 0 <= i < t.len() && t[i] == x;
                assert(s[i] == x);
            }
            if x == l {
                assert(s[s.len() - 1] == x);
            }
        }
        assert forall|x: Port| f.push(l).contains(x) <==> f.contains(x) || x == l by {
            if f.push(l).contains(x) {
                let i = choose|i: int| 0 <= i < f.len() + 1 && f.push(l)[i] == x;
                if i < f.len() {
                    assert(f[i] == x);
                }
            }
            if f.contains(x) {
                let i = choose|i: int| 0 <= i < f.len() && f[i] == x;
                assert(f.push(l)[i] == x);
            }
            if x == l {
                assert(f.push(l)[f.len() as int] == x);
            }
        }
        assert forall|x: Port| #[trigger] s.filter(pred).contains(x) <==> s.contains(x) && pred(x) by {
            assert(f.contains(x) <==> t.contains(x) && pred(x));
            assert(s.contains(x) <==> t.contains(x) || x == l);
            assert(f.push(l).contains(x) <==> f.contains(x) || x == l);
        }
        if s.no_duplicates() {
            assert(t.no_duplicates()) by {
                assert forall|i: int, j: int| 0 <= i < t.len() && 0 <= j < t.len() && i != j implies t[i] != t[j] by {
                    assert(t[i] == s[i] && t[j] == s[j]);
                }
            }
            assert(!t.contains(l)) by {
                if t.contains(l) {
                    let i = choose|i: int| 0 <= i < t.len() && t[i] == l;
                    assert(s[i] == s[s.len() - 1]);
                }
            }
            if pred(l) {
                assert forall|i: int, j: int| 0 <= i < f.len() + 1 && 0 <= j < f.len() + 1 && i != j implies f.push(l)[i] != f.push(l)[j] by {
                    if i < f.len() && j < f.len() {
                        assert(f.push(l)[i] == f[i] && f.push(l)[j] == f[j]);
                    } else if i < f.len() {
                        assert(f.contains(f[i]));
                    } else {
                        assert(f.contains(f[j]));
                    }
                }
            }
        }
    } else {
        reveal(Seq::filter);
    }
}

/// Inserting an edge right after it was inserted reports it as already
/// present, and the second insertion leaves the port set as it was.
pub proof fn lemma_insert_edge_twice(g0: AudioGraphIO, g1: AudioGraphIO, from: Port, to: Port)
    requires
        g0.wf(),
        g0.edge_insert_outcome(from, to) is Ok,
        g0.edge_added(g1, from, to),
    ensures
        g1.edge_insert_outcome(from, to) == Ok::<bool, EdgeInsertError>(false),
        forall|g2: AudioGraphIO| #[trigger] g1.edge_added(g2, from, to) ==> g2.connections(from) == g1.connections(from),
{
    assert(g1.shape(from.node_index) == g0.shape(from.node_index));
    assert(g1.shape(to.node_index) == g0.shape(to.node_index));
    g0.lemma_connect_grows(&g1, from, to);
    assert forall|q: Port| #[trigger] g1.connections(from).contains(q) implies g0.connections(from).contains(q) || q == to by {
        if !g0.connections(from).contains(to) && q != to {
            let w = choose|w: int| 0 <= w < g1.connections(from).len() && g1.connections(from)[w] == q;
            assert(g0.connections(from)[w] == q);
        }
    }
    g1.lemma_edges_after_connect(&g0, from, to);
    if !(from.node_index is Global) && !(to.node_index is Global) && g1.reachable(to.node_index, from.node_index) {
        let s = choose|s: Seq<NodeIndex>| #[trigger] g1.is_path(s) && s[0] == to.node_index && s.last() == from.node_index;
        g1.lemma_walk_with_edge(&g0, from.node_index, to.node_index, s);
        if g0.is_path(s) {
            assert(g0.reachable(to.node_index, from.node_index));
        }
    }
}

/// An edge whose destination index is not below the opposite degree of an
/// existing destination node is refused as not found.
pub proof fn lemma_destination_out_of_range(g: AudioGraphIO, from: Port, to: Port)
    requires
        g.shape(to.node_index) is Some,
        to.index >= g.shape(to.node_index).unwrap().1,
    ensures
        g.edge_insert_outcome(from, to) is Err,
        g.edge_insert_outcome(from, to)->Err_0 is NotFound,
        g.edge_insert_outcome(from, to)->Err_0->NotFound_0.to_port == Some(false),
{
}

/// After processor `k` is removed, the next processor inserted takes slot
/// `k` or a lower empty one, never a new slot.
pub proof fn lemma_removed_slot_is_reused(g: AudioGraphIO, k: usize, r: nat)
    requires
        k < g.slots().len(),
        !g.has_node(NodeIndex::Processor(k)),
        g.is_first_free_slot(r),
    ensures
        r <= k,
{
    if r > k {
        assert(g.slots()[k as int] is Some);
    }
}

/// A registration walk that started with no node marked and an empty order,
/// over a primary graph without cycles through processors, lists every
/// processor after each node that feeds it.
pub proof fn lemma_registration_is_dependency_first(
    inputs: AudioGraphIO,
    root: NodeIndex,
    before: Seq<bool>,
    marks: Seq<bool>,
    order: Seq<NodeIndex>,
)
    requires
        inputs.wf(),
        inputs.walk_state(root, before, Seq::empty(), marks, order),
        inputs.walk_order(before, Seq::empty(), order),
        forall|c: int| 0 <= c < before.len() ==> !(#[trigger] before[c]),
    ensures
        forall|w: int, p: NodeIndex| 0 <= w < order.len() && !(order[w] is Global) && #[trigger] inputs.edge(order[w], p)
            ==> order.subrange(0, w).contains(p),
{
    assert forall|w: int, p: NodeIndex| 0 <= w < order.len() && !(order[w] is Global) && #[trigger] inputs.edge(order[w], p)
        implies order.subrange(0, w).contains(p) by {
        inputs.lemma_edge_ends_exist(order[w], p);
        assert(!before[spec_code(p, inputs.slots().len() as usize) as int]);
    }
}

/// Filtering out a value that does not occur changes nothing.
proof fn lemma_filter_keeps_all(s: Seq<Port>, v: Port)
    requires
        !s.contains(v),
    ensures
        s.filter(|q: Port| q != v) == s,
    decreases s.len(),
{
    reveal(Seq::filter);
    if s.len() > 0 {
        let t = s.drop_last();
        assert(!t.contains(v)) by {
            if t.contains(v) {
                let i = choose|i: int| 0 <= i < t.len() && t[i] == v;
                assert(s[i] == v);
            }
        }
        lemma_filter_keeps_all(t, v);
        assert(s[s.len() - 1] != v);
        assert(s =~= t.push(s.last()));
    }
}

fn without_port(set: &Vec<Port>, port: Port) -> (r: Vec<Port>)
    ensures
        r@ == set@.filter(|q: Port| q != port),
{
    let mut r: Vec<Port> = Vec::new();
    let mut k: usize = 0;
    while k < set.len()
        invariant
            k <= set@.len(),
            r@ == set@.subrange(0, k as int).filter(|q: Port| q != port),
        decreases set@.len() - k,
    {
        proof {
            assert(set@.subrange(0, k + 1) =~= set@.subrange(0, k as int).push(set@[k as int]));
            set@.subrange(0, k as int).lemma_filter_push(set@[k as int], |q: Port| q != port);
        }
        let keep = !(set[k] == port);
        assert(keep == (set@[k as int] != port));
        if keep {
            r.push(set[k]);
        }
        assert(r@ == set@.subrange(0, k + 1).filter(|q: Port| q != port));
        k = k + 1;
    }
    assert(set@.subrange(0, k as int) =~= set@);
    r
}

fn without_node(set: &Vec<Port>, node: NodeIndex) -> (r: Vec<Port>)
    ensures
        r@ == set@.filter(|q: Port| q.node_index != node),
{
    let mut r: Vec<Port> = Vec::new();
    let mut k: usize = 0;
    while k < set.len()
        invariant
            k <= set@.len(),
            r@ == set@.subrange(0, k as int).filter(|q: Port| q.node_index != node),
        decreases set@.len() - k,
    {
        proof {
            assert(set@.subrange(0, k + 1) =~= set@.subrange(0, k as int).push(set@[k as int]));
            set@.subrange(0, k as int).lemma_filter_push(set@[k as int], |q: Port| q.node_index != node);
        }
        let keep = !(set[k].node_index == node);
        assert(keep == (set@[k as int].node_index != node));
        if keep {
            r.push(set[k]);
        }
        assert(r@ == set@.subrange(0, k + 1).filter(|q: Port| q.node_index != node));
        k = k + 1;
    }
    assert(set@.subrange(0, k as int) =~= set@);
    r
}

/// Puts `item` in the lowest empty slot, or in a new slot at the end when none
/// is empty; returns the slot.
fn insert_at_next_empty_slot<T>(vec: &mut Vec<Option<T>>, item: T) -> (r: usize)
    ensures
        r <= old(vec)@.len(),
        forall|i: int| 0 <= i < r ==> (#[trigger] old(vec)@[i]) is Some,
        r < old(vec)@.len() ==> old(vec)@[r as int] is None && final(vec)@ == old(vec)@.update(r as int, Some(item)),
        r == old(vec)@.len() ==> final(vec)@ == old(vec)@.push(Some(item)),
{
    let mut k: usize = 0;
    while k < vec.len()
        invariant
            k <= vec@.len(),
            vec@ == old(vec)@,
            forall|i: int| 0 <= i < k ==> (#[trigger] vec@[i]) is Some,
        decreases vec@.len() - k,
    {
        if vec[k].is_none() {
            vec.set(k, Some(item));
            return k;
        }
        k = k + 1;
    }
    vec.push(Some(item));
    k
}

/// The graph: one connectivity record per processor slot (an empty slot is a
/// removed processor) and one for the global node.
#[derive(Clone, Debug)]
pub struct AudioGraphIO {
    processors: Vec<Option<Interface>>,
    global: Interface,
}

impl AudioGraphIO {
    pub closed spec fn slots(&self) -> Seq<Option<Interface>> {
        self.processors@
    }

    pub closed spec fn global_node(&self) -> Interface {
        self.global
    }

    /// The record of node `n`, if it exists.
    pub open spec fn node(&self, n: NodeIndex) -> Option<Interface> {
        match n {
            NodeIndex::Global => Some(self.global_node()),
            NodeIndex::Processor(i) => if i < self.slots().len() { self.slots()[i as int] } else { None },
        }
    }

    pub open spec fn has_node(&self, n: NodeIndex) -> bool {
        self.node(n) is Some
    }

    /// Number of ports and number of opposite ports of node `n`, if it exists.
    pub open spec fn shape(&self, n: NodeIndex) -> Option<(nat, nat)> {
        match self.node(n) {
            Some(i) => Some((i.port_sets().len(), i.opposite_degree())),
            None => None,
        }
    }

    /// `p` is a port of this graph.
    pub open spec fn has_port(&self, p: Port) -> bool {
        self.shape(p.node_index) is Some && p.index < self.shape(p.node_index).unwrap().0
    }

    /// `p` may stand at the far end of an edge.
    pub open spec fn accepts(&self, p: Port) -> bool {
        self.shape(p.node_index) is Some && p.index < self.shape(p.node_index).unwrap().1
    }

    /// The ports wired to port `p`.
    pub open spec fn connections(&self, p: Port) -> Seq<Port> {
        self.node(p.node_index).unwrap().port_sets()[p.index as int]
    }

    pub open spec fn wf(&self) -> bool {
        &&& self.slots().len() < usize::MAX
        &&& forall|n: NodeIndex| #[trigger] self.has_node(n) ==> self.node(n).unwrap().wf()
        &&& forall|p: Port, q: Port| self.has_port(p) && #[trigger] self.connections(p).contains(q) ==> self.accepts(q)
    }

    /// What `insert_edge` and `remove_edge` report of the endpoints.
    pub open spec fn endpoint_check(&self, from: Port, to: Port) -> EdgeNotFound {
        EdgeNotFound {
            from_port: match self.shape(from.node_index) {
                Some(sh) => Some(from.index < sh.0),
                None => None,
            },
            to_port: match self.shape(to.node_index) {
                Some(sh) => Some(to.index < sh.1),
                None => None,
            },
        }
    }

    /// Same nodes with the same shapes, and the same connections on every
    /// port but `p`.
    pub open spec fn same_but_port(&self, o: &Self, p: Port) -> bool {
        &&& self.slots().len() == o.slots().len()
        &&& forall|n: NodeIndex| #[trigger] self.shape(n) == o.shape(n)
        &&& forall|q: Port| q != p && self.has_port(q) ==> #[trigger] self.connections(q) == o.connections(q)
    }

    pub fn with_global_io_config(num_global_io_ports: usize, num_opposite_global_io_ports: usize) -> (r: Self)
        ensures
            r.wf(),
            r.slots().len() == 0,
            r.shape(NodeIndex::Global) == Some((num_opposite_global_io_ports as nat, num_global_io_ports as nat)),
            forall|p: Port| r.has_port(p) ==> #[trigger] r.connections(p).len() == 0,
    {
        let r = AudioGraphIO {
            processors: Vec::new(),
            global: Interface::with_io_config(num_opposite_global_io_ports, num_global_io_ports),
        };
        assert forall|p: Port| r.has_port(p) implies #[trigger] r.connections(p).len() == 0 by {
            assert(p.node_index is Global);
        }
        r
    }

    /// Record of node `index`, if it exists.
    pub fn get_node(&self, index: NodeIndex) -> (r: Option<&Interface>)
        ensures
            r is Some <==> self.has_node(index),
            r is Some ==> *r.unwrap() == self.node(index).unwrap(),
    {
        match index {
            NodeIndex::Global => Some(&self.global),
            NodeIndex::Processor(i) => if i < self.processors.len() {
                match &self.processors[i] {
                    Some(interface) => Some(interface),
                    None => None,
                }
            } else {
                None
            },
        }
    }

    /// Adds a processor with `num_ports` ports and `num_opposite_ports` opposite
    /// ports in the lowest free slot; returns the slot.
    pub fn insert_processor(&mut self, num_ports: usize, num_opposite_ports: usize) -> (r: usize)
        requires
            old(self).wf(),
            old(self).slots().len() + 1 < usize::MAX,
        ensures
            final(self).wf(),
            old(self).is_first_free_slot(r as nat),
            final(self).slots().len() == if r == old(self).slots().len() { r + 1 } else { old(self).slots().len() as int },
            final(self).shape(NodeIndex::Processor(r)) == Some((num_ports as nat, num_opposite_ports as nat)),
            forall|n: NodeIndex| n != NodeIndex::Processor(r) ==> #[trigger] final(self).node(n) == old(self).node(n),
            forall|q: Port| q.node_index == NodeIndex::Processor(r) && final(self).has_port(q)
                ==> #[trigger] final(self).connections(q).len() == 0,
    {
        let interface = Interface::with_io_config(num_ports, num_opposite_ports);
        let r = insert_at_next_empty_slot(&mut self.processors, interface);
        proof {
            assert forall|n: NodeIndex| n != NodeIndex::Processor(r) implies #[trigger] self.node(n) == old(self).node(n) by {
                if let NodeIndex::Processor(i) = n {
                    if i < old(self).slots().len() {
                        assert(self.slots()[i as int] == old(self).slots()[i as int]);
                    }
                }
            }
            assert forall|n: NodeIndex| #[trigger] self.has_node(n) implies self.node(n).unwrap().wf() by {
                if n != NodeIndex::Processor(r) {
                    assert(old(self).has_node(n));
                }
            }
            assert forall|p: Port, q: Port| self.has_port(p) && #[trigger] self.connections(p).contains(q) implies self.accepts(q) by {
                if p.node_index != NodeIndex::Processor(r) {
                    assert(old(self).connections(p) == self.connections(p));
                    assert(old(self).accepts(q));
                    assert(q.node_index != NodeIndex::Processor(r));
                    assert(self.shape(q.node_index) == old(self).shape(q.node_index));
                }
            }
        }
        r
    }

    /// What `insert_edge(from, to)` returns on this graph.
    pub open spec fn edge_insert_outcome(&self, from: Port, to: Port) -> Result<bool, EdgeInsertError> {
        if !self.endpoint_check(from, to).spec_is_ok() {
            Err(EdgeInsertError::NotFound(self.endpoint_check(from, to)))
        } else if !(from.node_index is Global) && !(to.node_index is Global)
            && self.reachable(to.node_index, from.node_index) {
            Err(EdgeInsertError::CycleFound(CycleFound))
        } else {
            Ok(!self.connections(from).contains(to))
        }
    }

    /// `new` is this graph with `to` wired to `from`.
    pub open spec fn edge_added(&self, new: Self, from: Port, to: Port) -> bool {
        &&& new.same_but_port(self, from)
        &&& new.connections(from) == if self.connections(from).contains(to) {
            self.connections(from)
        } else {
            self.connections(from).push(to)
        }
    }

    /// The slot that `insert_processor` fills: the lowest empty one, or a new
    /// one at the end.
    pub open spec fn is_first_free_slot(&self, r: nat) -> bool {
        &&& r <= self.slots().len()
        &&& r < self.slots().len() ==> self.slots()[r as int] is None
        &&& forall|i: int| 0 <= i < r ==> (#[trigger] self.slots()[i]) is Some
    }

    /// Some port of `a` is wired to a port of `b`.
    pub open spec fn edge(&self, a: NodeIndex, b: NodeIndex) -> bool {
        exists|p: Port, q: Port|
            p.node_index == a && self.has_port(p) && #[trigger] self.connections(p).contains(q) && q.node_index == b
    }

    /// `s` is a walk along edges.
    pub open spec fn is_path(&self, s: Seq<NodeIndex>) -> bool {
        &&& s.len() >= 1
        &&& forall|k: int| 0 <= k < s.len() - 1 ==> #[trigger] self.edge(s[k], s[k + 1])
    }

    /// `b` can be reached from `a` along zero or more edges.
    pub open spec fn reachable(&self, a: NodeIndex, b: NodeIndex) -> bool {
        exists|s: Seq<NodeIndex>| #[trigger] self.is_path(s) && s[0] == a && s.last() == b
    }

    /// No walk of one or more edges among processors returns to where it started.
    pub open spec fn acyclic(&self) -> bool {
        forall|s: Seq<NodeIndex>| #[trigger] self.is_path(s) && s.len() >= 2 && s[0] == s.last()
            ==> exists|k: int| 0 <= k < s.len() && #[trigger] s[k] == NodeIndex::Global
    }

    proof fn lemma_reach_self(&self, a: NodeIndex)
        ensures
            self.reachable(a, a),
    {
        let s = seq![a];
        assert(self.is_path(s));
    }

    proof fn lemma_reach_step(&self, a: NodeIndex, b: NodeIndex, c: NodeIndex)
        requires
            self.reachable(a, b),
            self.edge(b, c),
        ensures
            self.reachable(a, c),
    {
        let s = choose|s: Seq<NodeIndex>| #[trigger] self.is_path(s) && s[0] == a && s.last() == b;
        let t = s.push(c);
        assert forall|k: int| 0 <= k < t.len() - 1 implies #[trigger] self.edge(t[k], t[k + 1]) by {
            if k < s.len() - 1 {
                assert(t[k] == s[k] && t[k + 1] == s[k + 1]);
            }
        }
        assert(self.is_path(t));
    }

    proof fn lemma_reach_trans(&self, a: NodeIndex, b: NodeIndex, c: NodeIndex)
        requires
            self.reachable(a, b),
            self.reachable(b, c),
        ensures
            self.reachable(a, c),
    {
        let s = choose|s: Seq<NodeIndex>| #[trigger] self.is_path(s) && s[0] == b && s.last() == c;
        self.lemma_reach_prefix(a, s, s.len() as int);
    }

    proof fn lemma_reach_prefix(&self, a: NodeIndex, s: Seq<NodeIndex>, m: int)
        requires
            self.is_path(s),
            self.reachable(a, s[0]),
            1 <= m <= s.len(),
        ensures
            self.reachable(a, s[m - 1]),
        decreases m,
    {
        if m > 1 {
            self.lemma_reach_prefix(a, s, m - 1);
            let k = m - 2;
            assert(self.edge(s[k], s[k + 1]));
            self.lemma_reach_step(a, s[m - 2], s[m - 1]);
        }
    }

    /// A set of nodes that holds `a` and is closed under edges holds every
    /// node reachable from `a`.
    proof fn lemma_closed_holds_reach(&self, inside: spec_fn(NodeIndex) -> bool, s: Seq<NodeIndex>, m: int)
        requires
            self.is_path(s),
            inside(s[0]),
            1 <= m <= s.len(),
            forall|x: NodeIndex, y: NodeIndex| inside(x) && #[trigger] self.edge(x, y) ==> inside(y),
        ensures
            inside(s[m - 1]),
        decreases m,
    {
        if m > 1 {
            self.lemma_closed_holds_reach(inside, s, m - 1);
            let k = m - 2;
            assert(self.edge(s[k], s[k + 1]));
        }
    }

    /// Whether `to_node` can be reached from `from_node` along edges (true when
    /// they are the same node).
    pub fn connected(&self, from_node: NodeIndex, to_node: NodeIndex) -> (r: bool)
        requires
            self.wf(),
            from_node != to_node ==> self.has_node(from_node),
        ensures
            r == self.reachable(from_node, to_node),
    {
        proof { self.lemma_reach_self(from_node); }
        if from_node == to_node {
            return true;
        }
        if self.get_node(to_node).is_none() {
            proof {
                if self.reachable(from_node, to_node) {
                    let s = choose|s: Seq<NodeIndex>| #[trigger] self.is_path(s) && s[0] == from_node && s.last() == to_node;
                    let k = s.len() - 2;
                    assert(self.edge(s[k], s[k + 1]));
                    self.lemma_edge_ends_exist(s[k], s[k + 1]);
                }
            }
            return false;
        }
        self.search(from_node, to_node)
    }

    /// Worklist search for `to_node` from `from_node`, two distinct nodes
    /// of the graph.
    fn search(&self, from_node: NodeIndex, to_node: NodeIndex) -> (r: bool)
        requires
            self.wf(),
            self.has_node(from_node),
            self.has_node(to_node),
            from_node != to_node,
        ensures
            r == self.reachable(from_node, to_node),
    {
        proof { self.lemma_reach_self(from_node); }
        let n = self.processors.len();
        let ghost size = n + 1;
        let mut visited: Vec<bool> = Vec::new();
        let mut k: usize = 0;
        while k <= n
            invariant
                n == self.slots().len(),
                n < usize::MAX,
                k <= n + 1,
                visited@.len() == k,
                forall|i: int| 0 <= i < k ==> !(#[trigger] visited@[i]),
            decreases n + 1 - k,
        {
            visited.push(false);
            k = k + 1;
        }
        proof { lemma_count_none(visited@); }
        let start = code_of(from_node, n);
        let target = code_of(to_node, n);
        proof { lemma_count_update(visited@, start as int); }
        visited.set(start, true);
        let mut stack: Vec<usize> = Vec::new();
        stack.push(start);
        let ghost mut count: nat = 1;
        proof {
            assert forall|i: int| 0 <= i < size && #[trigger] visited@[i] implies i == start by {}
            assert forall|x: NodeIndex, y: NodeIndex| #[trigger] self.edge(x, y) && self.has_node(x)
                && visited@[spec_code(x, n) as int] && !stack@.contains(spec_code(x, n))
                implies visited@[spec_code(y, n) as int] by {
                assert(stack@[0] == start);
            }
        }
        while stack.len() > 0
            invariant
                n == self.slots().len(),
                self.wf(),
                self.has_node(from_node),
                self.has_node(to_node),
                from_node != to_node,
                start == spec_code(from_node, n),
                target == spec_code(to_node, n),
                start < size && target < size,
                size == n + 1,
                visited@.len() == size,
                visited@[start as int],
                !visited@[target as int],
                count == count_true(visited@),
                count <= size,
                stack@.len() <= count,
                forall|i: int| 0 <= i < stack@.len() ==> (#[trigger] stack@[i]) < size && visited@[stack@[i] as int],
                forall|i: int| 0 <= i < size && #[trigger] visited@[i] ==>
                    self.has_node(spec_node(i, n)) && self.reachable(from_node, spec_node(i, n)),
                forall|x: NodeIndex, y: NodeIndex| #[trigger] self.edge(x, y) && self.has_node(x)
                    && visited@[spec_code(x, n) as int] && !stack@.contains(spec_code(x, n))
                    ==> visited@[spec_code(y, n) as int],
            decreases 2 * (size - count) + stack@.len(),
        {
            let ghost prepop = stack@;
            let ghost measure = 2 * (size - count) + stack@.len();
            let cur = stack.pop().unwrap();
            let ghost before_stack = stack@;
            let ghost cur_node = spec_node(cur as int, n);
            proof {
                assert(prepop[prepop.len() - 1] == cur);
                assert forall|x: NodeIndex, y: NodeIndex| #[trigger] self.edge(x, y) && self.has_node(x)
                    && visited@[spec_code(x, n) as int] && !stack@.contains(spec_code(x, n)) && x != cur_node
                    implies visited@[spec_code(y, n) as int] by {
                    if prepop.contains(spec_code(x, n)) {
                        let w = choose|w: int| 0 <= w < prepop.len() && prepop[w] == spec_code(x, n);
                        if w < prepop.len() - 1 {
                            assert(stack@[w] == prepop[w]);
                        } else {
                            lemma_code_inj(x, cur_node, n);
                        }
                    }
                }
            }
            let node = decode(cur, n);
            let interface = self.get_node(node).unwrap();
            let num_ports = interface.num_ports();
            let mut i: usize = 0;
            while i < num_ports
                invariant
                    n == self.slots().len(),
                    self.wf(),
                    self.has_node(from_node),
                    self.has_node(to_node),
                    start == spec_code(from_node, n),
                    target == spec_code(to_node, n),
                    start < size && target < size,
                    size == n + 1,
                    cur < size,
                    node == cur_node,
                    self.has_node(node),
                    cur == spec_code(node, n),
                    *interface == self.node(node).unwrap(),
                    num_ports == interface.port_sets().len(),
                    i <= num_ports,
                    visited@.len() == size,
                    visited@[start as int],
                    visited@[cur as int],
                    !visited@[target as int],
                    count == count_true(visited@),
                    count <= size,
                    stack@.len() + 1 <= count,
                    2 * (size - count) + stack@.len() < measure,
                    stack@.len() >= before_stack.len(),
                    forall|j: int| 0 <= j < before_stack.len() ==> #[trigger] stack@[j] == before_stack[j],
                    forall|j: int| 0 <= j < stack@.len() ==> (#[trigger] stack@[j]) < size && visited@[stack@[j] as int],
                    forall|j: int| 0 <= j < size && #[trigger] visited@[j] ==>
                        self.has_node(spec_node(j, n)) && self.reachable(from_node, spec_node(j, n)),
                    forall|x: NodeIndex, y: NodeIndex| #[trigger] self.edge(x, y) && self.has_node(x)
                        && visited@[spec_code(x, n) as int] && !stack@.contains(spec_code(x, n)) && x != node
                        ==> visited@[spec_code(y, n) as int],
                    forall|p: Port, q: Port| p.node_index == node && p.index < i && self.has_port(p)
                        && #[trigger] self.connections(p).contains(q) ==> visited@[spec_code(q.node_index, n) as int],
                decreases num_ports - i,
            {
                let set = interface.get_connections(i).unwrap();
                let mut j: usize = 0;
                while j < set.len()
                    invariant
                        n == self.slots().len(),
                        self.wf(),
                        self.has_node(from_node),
                        self.has_node(to_node),
                        start == spec_code(from_node, n),
                        target == spec_code(to_node, n),
                        start < size && target < size,
                        size == n + 1,
                        cur < size,
                        node == cur_node,
                        self.has_node(node),
                        cur == spec_code(node, n),
                        *interface == self.node(node).unwrap(),
                        num_ports == interface.port_sets().len(),
                        i < num_ports,
                        set@ == self.connections(Port { index: i, node_index: node }),
                        j <= set@.len(),
                        visited@.len() == size,
                        visited@[start as int],
                        visited@[cur as int],
                        !visited@[target as int],
                        count == count_true(visited@),
                        count <= size,
                        stack@.len() + 1 <= count,
                        2 * (size - count) + stack@.len() < measure,
                        stack@.len() >= before_stack.len(),
                        forall|k: int| 0 <= k < before_stack.len() ==> #[trigger] stack@[k] == before_stack[k],
                        forall|k: int| 0 <= k < stack@.len() ==> (#[trigger] stack@[k]) < size && visited@[stack@[k] as int],
                        forall|k: int| 0 <= k < size && #[trigger] visited@[k] ==>
                            self.has_node(spec_node(k, n)) && self.reachable(from_node, spec_node(k, n)),
                        forall|x: NodeIndex, y: NodeIndex| #[trigger] self.edge(x, y) && self.has_node(x)
                            && visited@[spec_code(x, n) as int] && !stack@.contains(spec_code(x, n)) && x != node
                            ==> visited@[spec_code(y, n) as int],
                        forall|p: Port, q: Port| p.node_index == node && p.index < i && self.has_port(p)
                            && #[trigger] self.connections(p).contains(q) ==> visited@[spec_code(q.node_index, n) as int],
                        forall|k: int| 0 <= k < j ==> visited@[spec_code((#[trigger] set@[k]).node_index, n) as int],
                    decreases set@.len() - j,
                {
                    let q = set[j];
                    let ghost vis_before = visited@;
                    let here = Port { index: i, node_index: node };
                    proof {
                        assert(self.connections(here).contains(q));
                        assert(self.has_port(here));
                        assert(self.accepts(q));
                        assert(self.edge(node, q.node_index));
                        assert(visited@[cur as int]);
                        assert(spec_node(cur as int, n) == node);
                    }
                    let next = code_of(q.node_index, n);
                    if !visited[next] {
                        proof {
                            self.lemma_reach_step(from_node, node, q.node_index);
                            assert(spec_node(next as int, n) == q.node_index);
                        }
                        if next == target {
                            return true;
                        }
                        proof {
                            lemma_count_update(visited@, next as int);
                            count = count + 1;
                        }
                        visited.set(next, true);
                        let ghost prev_stack = stack@;
                        stack.push(next);
                        proof {
                            assert forall|x: NodeIndex, y: NodeIndex| #[trigger] self.edge(x, y) && self.has_node(x)
                                && visited@[spec_code(x, n) as int] && !stack@.contains(spec_code(x, n)) && x != node
                                implies visited@[spec_code(y, n) as int] by {
                                if spec_code(x, n) != next {
                                    if prev_stack.contains(spec_code(x, n)) {
                                        let w = choose|w: int| 0 <= w < prev_stack.len() && prev_stack[w] == spec_code(x, n);
                                        assert(stack@[w] == prev_stack[w]);
                                    }
                                } else {
                                    assert(stack@[stack@.len() - 1] == next);
                                }
                            }
                        }
                    }
                    proof {
                        assert forall|k: int| 0 <= k < j + 1 implies visited@[spec_code((#[trigger] set@[k]).node_index, n) as int] by {
                            if k < j {
                                assert(self.connections(here)[k] == set@[k]);
                                assert(self.connections(here).contains(set@[k]));
                                assert(self.accepts(set@[k]));
                                assert(vis_before[spec_code(set@[k].node_index, n) as int]);
                            } else {
                                assert(set@[k] == q);
                            }
                        }
                    }
                    j = j + 1;
                }
                proof {
                    assert forall|p: Port, q: Port| p.node_index == node && p.index < i + 1 && self.has_port(p)
                        && #[trigger] self.connections(p).contains(q) implies visited@[spec_code(q.node_index, n) as int] by {
                        if p.index == i {
                            assert(p == Port { index: i, node_index: node });
                            let w = choose|w: int| 0 <= w < set@.len() && set@[w] == q;
                        }
                    }
                }
                i = i + 1;
            }
            proof {
                assert forall|x: NodeIndex, y: NodeIndex| #[trigger] self.edge(x, y) && self.has_node(x)
                    && visited@[spec_code(x, n) as int] && !stack@.contains(spec_code(x, n))
                    implies visited@[spec_code(y, n) as int] by {
                    if x == node {
                        let (p, q) = choose|p: Port, q: Port|
                            p.node_index == x && self.has_port(p) && #[trigger] self.connections(p).contains(q) && q.node_index == y;
                    } else {
                        if before_stack.contains(spec_code(x, n)) {
                            let w = choose|w: int| 0 <= w < before_stack.len() && before_stack[w] == spec_code(x, n);
                            assert(stack@[w] == before_stack[w]);
                        }
                    }
                }
            }
        }
        proof {
            let inside = |x: NodeIndex| self.has_node(x) && visited@[spec_code(x, n) as int];
            assert forall|x: NodeIndex, y: NodeIndex| inside(x) && #[trigger] self.edge(x, y) implies inside(y) by {
                let (p, q) = choose|p: Port, q: Port|
                    p.node_index == x && self.has_port(p) && #[trigger] self.connections(p).contains(q) && q.node_index == y;
                assert(self.accepts(q));
            }
            if self.reachable(from_node, to_node) {
                let s = choose|s: Seq<NodeIndex>| #[trigger] self.is_path(s) && s[0] == from_node && s.last() == to_node;
                self.lemma_closed_holds_reach(inside, s, s.len() as int);
            }
        }
        false
    }

    /// A walk in a graph that has at most the edges of `o` and the edge
    /// `a -> b` either is a walk of `o`, or passes `a` and `b` and, in `o`,
    /// starts where `a` can be reached and ends where `b` reaches.
    proof fn lemma_walk_with_edge(&self, o: &Self, a: NodeIndex, b: NodeIndex, s: Seq<NodeIndex>)
        requires
            forall|x: NodeIndex, y: NodeIndex| #[trigger] self.edge(x, y) ==> o.edge(x, y) || (x == a && y == b),
            self.is_path(s),
        ensures
            o.is_path(s) || (o.reachable(s[0], a) && o.reachable(b, s.last()) && s.contains(a) && s.contains(b)),
        decreases s.len(),
    {
        if s.len() > 1 {
            let t = s.drop_last();
            assert forall|k: int| 0 <= k < t.len() - 1 implies #[trigger] self.edge(t[k], t[k + 1]) by {
                assert(self.edge(s[k], s[k + 1]));
            }
            self.lemma_walk_with_edge(o, a, b, t);
            let k = s.len() - 2;
            let x = s[k];
            let y = s[k + 1];
            assert(self.edge(x, y));
            assert(t.last() == x);
            assert(s.last() == y);
            if o.is_path(t) {
                assert(o.reachable(s[0], x));
            }
            if t.contains(a) {
                let w = choose|w: int| 0 <= w < t.len() && t[w] == a;
                assert(s[w] == a);
            }
            if t.contains(b) {
                let w = choose|w: int| 0 <= w < t.len() && t[w] == b;
                assert(s[w] == b);
            }
            if o.edge(x, y) {
                if o.is_path(t) {
                    assert forall|i: int| 0 <= i < s.len() - 1 implies #[trigger] o.edge(s[i], s[i + 1]) by {
                        if i < k {
                            assert(o.edge(t[i], t[i + 1]));
                        }
                    }
                } else {
                    o.lemma_reach_step(b, x, y);
                }
            } else {
                assert(s[k] == a);
                assert(s[k + 1] == b);
                o.lemma_reach_self(b);
            }
        } else {
            assert(o.is_path(s));
        }
    }

    /// Adding one edge `a -> b` keeps an acyclic graph acyclic when `b` does not
    /// reach `a` or one end is the global node.
    proof fn lemma_edge_keeps_acyclic(&self, o: &Self, a: NodeIndex, b: NodeIndex)
        requires
            o.acyclic(),
            forall|x: NodeIndex, y: NodeIndex| #[trigger] self.edge(x, y) ==> o.edge(x, y) || (x == a && y == b),
            a is Global || b is Global || !o.reachable(b, a),
        ensures
            self.acyclic(),
    {
        assert forall|s: Seq<NodeIndex>| #[trigger] self.is_path(s) && s.len() >= 2 && s[0] == s.last()
            implies exists|k: int| 0 <= k < s.len() && #[trigger] s[k] == NodeIndex::Global by {
            self.lemma_walk_with_edge(o, a, b, s);
            if !o.is_path(s) {
                if a is Global {
                    let w = choose|w: int| 0 <= w < s.len() && s[w] == a;
                    assert(s[w] == NodeIndex::Global);
                } else if b is Global {
                    let w = choose|w: int| 0 <= w < s.len() && s[w] == b;
                    assert(s[w] == NodeIndex::Global);
                } else {
                    o.lemma_reach_trans(b, s[0], a);
                }
            }
        }
    }

    /// A graph with no edge that `o` lacks is acyclic when `o` is.
    proof fn lemma_fewer_edges(&self, o: &Self)
        requires
            forall|x: NodeIndex, y: NodeIndex| #[trigger] self.edge(x, y) ==> o.edge(x, y),
        ensures
            o.acyclic() ==> self.acyclic(),
    {
        assert forall|s: Seq<NodeIndex>| #[trigger] self.is_path(s) implies o.is_path(s) by {
            assert forall|k: int| 0 <= k < s.len() - 1 implies #[trigger] o.edge(s[k], s[k + 1]) by {
                assert(self.edge(s[k], s[k + 1]));
            }
        }
    }

    /// The edges after wiring `to` to `from` are the old ones and
    /// `from.node_index -> to.node_index`.
    proof fn lemma_edges_after_connect(&self, o: &Self, from: Port, to: Port)
        requires
            self.same_but_port(o, from),
            forall|q: Port| #[trigger] self.connections(from).contains(q) ==> o.connections(from).contains(q) || q == to,
        ensures
            forall|x: NodeIndex, y: NodeIndex| #[trigger] self.edge(x, y) ==> o.edge(x, y) || (x == from.node_index && y == to.node_index),
    {
        assert forall|x: NodeIndex, y: NodeIndex| #[trigger] self.edge(x, y) implies o.edge(x, y) || (x == from.node_index && y == to.node_index) by {
            let (p, q) = choose|p: Port, q: Port|
                p.node_index == x && self.has_port(p) && #[trigger] self.connections(p).contains(q) && q.node_index == y;
            assert(self.shape(p.node_index) == o.shape(p.node_index));
            if p != from {
                assert(o.connections(p).contains(q));
            } else if q != to {
                assert(o.connections(p).contains(q));
            }
        }
    }

    /// Wires port `to` to port `from`. Fails, changing nothing, when an
    /// endpoint does not resolve, or when neither end is the global node and
    /// `from`'s node can already be reached from `to`'s node (the edge would
    /// close a cycle). Otherwise returns whether the edge is new.
    pub fn insert_edge(&mut self, from: Port, to: Port) -> (r: Result<bool, EdgeInsertError>)
        requires
            old(self).wf(),
        ensures
            final(self).wf(),
            old(self).acyclic() ==> final(self).acyclic(),
            r == old(self).edge_insert_outcome(from, to),
            r is Err ==> *final(self) == *old(self),
            r is Ok ==> old(self).edge_added(*final(self), from, to),
    {
        let error = self.check_endpoints(from, to);
        if !error.is_not_error() {
            return Err(EdgeInsertError::NotFound(error));
        }
        // A global node has only inputs or only outputs here, so it cannot
        // lie inside a cycle.
        if !(from.node_index.is_global() || to.node_index.is_global()) {
            if self.connected(to.node_index, from.node_index) {
                return Err(EdgeInsertError::CycleFound(CycleFound));
            }
        }
        let ghost before = *self;
        let r = self.connect_port(from, to);
        proof {
            assert forall|q: Port| #[trigger] self.connections(from).contains(q) implies before.connections(from).contains(q) || q == to by {
                if r && q != to {
                    let w = choose|w: int| 0 <= w < self.connections(from).len() && self.connections(from)[w] == q;
                    assert(before.connections(from)[w] == q);
                }
            }
            self.lemma_edges_after_connect(&before, from, to);
            if before.acyclic() {
                self.lemma_edge_keeps_acyclic(&before, from.node_index, to.node_index);
            }
        }
        Ok(r)
    }

    /// `self` has the nodes of `o`, each with its ports and opposite ports
    /// swapped.
    pub open spec fn opposite_of(&self, o: &Self) -> bool {
        &&& self.slots().len() == o.slots().len()
        &&& forall|n: NodeIndex| (#[trigger] self.shape(n) is Some) == (o.shape(n) is Some)
        &&& forall|n: NodeIndex| #[trigger] self.shape(n) is Some ==> self.shape(n).unwrap().0 == o.shape(n).unwrap().1
            && self.shape(n).unwrap().1 == o.shape(n).unwrap().0
    }

    /// Every connection of `m`'s ports in `inputs` is wired back in `self`.
    pub open spec fn mirrors(&self, inputs: &Self, m: NodeIndex) -> bool {
        forall|i: usize, p: Port| inputs.has_port(Port { index: i, node_index: m })
            && #[trigger] inputs.connections(Port { index: i, node_index: m }).contains(p)
            ==> self.has_port(p) && self.connections(p).contains(Port { index: i, node_index: m })
    }

    /// Every connection of `self` is still there in `new`, and the nodes are
    /// the same.
    pub open spec fn grows_into(&self, new: &Self) -> bool {
        &&& new.slots().len() == self.slots().len()
        &&& forall|n: NodeIndex| #[trigger] new.shape(n) == self.shape(n)
        &&& forall|q: Port, x: Port| self.has_port(q) && #[trigger] self.connections(q).contains(x) ==> new.connections(q).contains(x)
    }

    /// The mirror graph: the same nodes in the same slots with ports and
    /// opposite ports swapped, and no connections.
    pub fn with_opposite_config(&self) -> (r: Self)
        requires
            self.wf(),
        ensures
            r.wf(),
            r.opposite_of(self),
            forall|p: Port| r.has_port(p) ==> #[trigger] r.connections(p).len() == 0,
    {
        let mut processors: Vec<Option<Interface>> = Vec::new();
        let mut k: usize = 0;
        while k < self.processors.len()
            invariant
                k <= self.processors@.len(),
                processors@.len() == k,
                forall|i: int| 0 <= i < k ==> (#[trigger] processors@[i] is Some) == (self.processors@[i] is Some),
                forall|i: int| 0 <= i < k && #[trigger] processors@[i] is Some ==> {
                    let a = processors@[i].unwrap();
                    let b = self.processors@[i].unwrap();
                    &&& a.wf()
                    &&& a.port_sets() == Seq::new(b.opposite_degree(), |j: int| Seq::<Port>::empty())
                    &&& a.opposite_degree() == b.port_sets().len()
                },
            decreases self.processors@.len() - k,
        {
            match &self.processors[k] {
                Some(interface) => processors.push(Some(interface.with_opposite_config())),
                None => processors.push(None),
            }
            k = k + 1;
        }
        let r = AudioGraphIO { global: self.global.with_opposite_config(), processors };
        proof {
            assert forall|n: NodeIndex| (#[trigger] r.shape(n) is Some) == (self.shape(n) is Some) by {
                if let NodeIndex::Processor(i) = n {
                    if i < k {
                        assert((processors@[i as int] is Some) == (self.processors@[i as int] is Some));
                    }
                }
            }
            assert forall|p: Port| r.has_port(p) implies #[trigger] r.connections(p).len() == 0 by {
                if let NodeIndex::Processor(i) = p.node_index {
                    assert(processors@[i as int] is Some);
                }
            }
            assert forall|n: NodeIndex| #[trigger] r.has_node(n) implies r.node(n).unwrap().wf() by {
                if let NodeIndex::Processor(i) = n {
                    assert(processors@[i as int] is Some);
                }
            }
            assert forall|p: Port, q: Port| r.has_port(p) && #[trigger] r.connections(p).contains(q) implies r.accepts(q) by {
                assert(r.connections(p).len() == 0);
            }
        }
        r
    }

    /// The connections of port `port`, if it exists.
    pub fn get_connections(&self, port: Port) -> (r: Option<&Vec<Port>>)
        ensures
            r is Some <==> self.has_port(port),
            r is Some ==> r.unwrap()@ == self.connections(port),
    {
        match self.get_node(port.node_index) {
            Some(interface) => interface.get_connections(port.index),
            None => None,
        }
    }

    /// One port of `node_index` for each of its opposite ports, in order.
    pub fn opposite_port_indices(&self, node_index: NodeIndex) -> (r: Vec<Port>)
        requires
            self.has_node(node_index),
        ensures
            r@ == Seq::new(self.shape(node_index).unwrap().1, |i: int| Port { index: i as usize, node_index }),
    {
        let count = self.get_node(node_index).unwrap().num_opposite_ports();
        let mut r: Vec<Port> = Vec::new();
        let mut k: usize = 0;
        while k < count
            invariant
                k <= count,
                r@ == Seq::new(k as nat, |i: int| Port { index: i as usize, node_index }),
            decreases count - k,
        {
            r.push(Port { index: k, node_index });
            k = k + 1;
            assert(r@ =~= Seq::new(k as nat, |i: int| Port { index: i as usize, node_index }));
        }
        r
    }

    /// `b` can be reached from `a` along edges whose every node after `a` is
    /// a processor.
    pub open spec fn reach_through_processors(&self, a: NodeIndex, b: NodeIndex) -> bool {
        exists|s: Seq<NodeIndex>| #[trigger] self.is_path(s) && s[0] == a && s.last() == b
            && forall|k: int| 1 <= k < s.len() ==> !(#[trigger] s[k] is Global)
    }

    /// `x` is fed by `root` or by a processor listed in `order` from position
    /// `lo` on.
    pub open spec fn fed_by_walk(&self, root: NodeIndex, lo: int, order: Seq<NodeIndex>, x: NodeIndex) -> bool {
        self.edge(root, x) || exists|v: int| lo <= v < order.len() && !(order[v] is Global) && #[trigger] self.edge(order[v], x)
    }

    /// Bookkeeping of a registration walk from `root` over this graph, which
    /// started with the marks `before` and the order `prev`: the order grew
    /// from `prev` by existing nodes, none marked in `before`, none twice,
    /// each fed by `root` or by a processor the walk listed, each processor
    /// among them reached from `root` through processors; the marks are
    /// `before` plus the nodes appended.
    pub open spec fn walk_state(
        &self,
        root: NodeIndex,
        before: Seq<bool>,
        prev: Seq<NodeIndex>,
        marks: Seq<bool>,
        order: Seq<NodeIndex>,
    ) -> bool {
        let n = self.slots().len() as usize;
        &&& order.len() >= prev.len()
        &&& order.subrange(0, prev.len() as int) == prev
        &&& before.len() == n + 1
        &&& marks.len() == n + 1
        &&& forall|w: int| prev.len() <= w < order.len() ==> self.has_node(#[trigger] order[w])
        &&& forall|c: int| 0 <= c < marks.len() ==> (#[trigger] marks[c] <==> before[c] || listed_from(order, prev.len() as int, c, n))
        &&& forall|w: int| prev.len() <= w < order.len() && !(#[trigger] order[w] is Global)
            ==> self.reach_through_processors(root, order[w])
        &&& forall|w: int| prev.len() <= w < order.len() ==> !before[spec_code(#[trigger] order[w], n) as int]
        &&& forall|v: int, w: int| prev.len() <= v < w < order.len() ==> #[trigger] order[v] != #[trigger] order[w]
        &&& forall|w: int| prev.len() <= w < order.len() ==> self.fed_by_walk(root, prev.len() as int, order, #[trigger] order[w])
    }

    /// Each processor that the walk listed comes after every node feeding it
    /// that `before` did not mark.
    pub open spec fn walk_order(&self, before: Seq<bool>, prev: Seq<NodeIndex>, order: Seq<NodeIndex>) -> bool {
        let n = self.slots().len() as usize;
        forall|w: int, p: NodeIndex| prev.len() <= w < order.len() && !(order[w] is Global) && #[trigger] self.edge(order[w], p)
            ==> before[spec_code(p, n) as int] || order.subrange(0, w).contains(p)
    }

    proof fn lemma_edge_ends_exist(&self, a: NodeIndex, b: NodeIndex)
        requires
            self.wf(),
            self.edge(a, b),
        ensures
            self.has_node(a),
            self.has_node(b),
    {
        let (p, q) = choose|p: Port, q: Port|
            p.node_index == a && self.has_port(p) && #[trigger] self.connections(p).contains(q) && q.node_index == b;
        assert(self.accepts(q));
    }

    proof fn lemma_reach_tp_edge(&self, a: NodeIndex, b: NodeIndex)
        requires
            self.edge(a, b),
            !(b is Global),
        ensures
            self.reach_through_processors(a, b),
    {
        let t = seq![a, b];
        assert(self.edge(t[0int], t[0int + 1]));
        assert(self.is_path(t));
        assert forall|k: int| 1 <= k < t.len() implies !(#[trigger] t[k] is Global) by {}
    }

    proof fn lemma_reach_tp_prepend(&self, a: NodeIndex, b: NodeIndex, c: NodeIndex)
        requires
            self.edge(a, b),
            !(b is Global),
            self.reach_through_processors(b, c),
        ensures
            self.reach_through_processors(a, c),
    {
        let s = choose|s: Seq<NodeIndex>| #[trigger] self.is_path(s) && s[0] == b && s.last() == c
            && forall|k: int| 1 <= k < s.len() ==> !(#[trigger] s[k] is Global);
        let t = seq![a] + s;
        assert forall|k: int| 0 <= k < t.len() - 1 implies #[trigger] self.edge(t[k], t[k + 1]) by {
            if k == 0 {
                assert(t[1] == s[0]);
            } else {
                assert(t[k] == s[k - 1] && t[k + 1] == s[k]);
                assert(self.edge(s[k - 1], s[(k - 1) + 1]));
            }
        }
        assert(self.is_path(t));
        assert(t.last() == s.last());
        assert forall|k: int| 1 <= k < t.len() implies !(#[trigger] t[k] is Global) by {
            assert(t[k] == s[k - 1]);
        }
    }

    /// In a graph without cycles through processors, a processor `a` cannot
    /// be fed by a node that it reaches through processors.
    proof fn lemma_no_return(&self, a: NodeIndex, m: NodeIndex)
        requires
            self.acyclic(),
            self.reach_through_processors(a, m),
            !(a is Global),
        ensures
            !self.edge(m, a),
    {
        if self.edge(m, a) {
            self.lemma_cycle_back(a, m);
        }
    }

    proof fn lemma_cycle_back(&self, a: NodeIndex, m: NodeIndex)
        requires
            self.reach_through_processors(a, m),
            self.edge(m, a),
            !(a is Global),
        ensures
            !self.acyclic(),
    {
        let s = choose|s: Seq<NodeIndex>| #[trigger] self.is_path(s) && s[0] == a && s.last() == m
            && forall|k: int| 1 <= k < s.len() ==> !(#[trigger] s[k] is Global);
        let t = s.push(a);
        assert forall|k: int| 0 <= k < t.len() - 1 implies #[trigger] self.edge(t[k], t[k + 1]) by {
            if k < s.len() - 1 {
                assert(t[k] == s[k] && t[k + 1] == s[k + 1]);
            } else {
                assert(t[k] == m);
            }
        }
        assert(self.is_path(t));
        assert(t[0] == t.last());
        assert forall|k: int| 0 <= k < t.len() implies #[trigger] t[k] != NodeIndex::Global by {
            if k > 0 && k < s.len() {
                assert(t[k] == s[k]);
            }
        }
    }

    /// The walk state holds when nothing was done yet.
    proof fn lemma_walk_start(&self, root: NodeIndex, before: Seq<bool>, prev: Seq<NodeIndex>)
        requires
            self.wf(),
            before.len() == self.slots().len() + 1,
        ensures
            self.walk_state(root, before, prev, before, prev),
            self.walk_order(before, prev, prev),
    {
        assert(prev.subrange(0, prev.len() as int) =~= prev);
        assert forall|c: int| 0 <= c < before.len() implies (#[trigger] before[c] <==> before[c]
            || listed_from(prev, prev.len() as int, c, self.slots().len() as usize)) by {}
    }

    /// A node fed by the walk stays so when the order grows.
    proof fn lemma_fed_extend(&self, root: NodeIndex, lo: int, o1: Seq<NodeIndex>, o2: Seq<NodeIndex>, x: NodeIndex)
        requires
            0 <= lo,
            o1.len() <= o2.len(),
            forall|v: int| 0 <= v < o1.len() ==> #[trigger] o2[v] == o1[v],
            self.fed_by_walk(root, lo, o1, x),
        ensures
            self.fed_by_walk(root, lo, o2, x),
    {
        if !self.edge(root, x) {
            let v = choose|v: int| lo <= v < o1.len() && !(o1[v] is Global) && #[trigger] self.edge(o1[v], x);
            assert(o2[v] == o1[v]);
        }
    }

    /// Marking and appending the global node, fed by `root`, keeps the walk
    /// state.
    proof fn lemma_walk_global(&self, root: NodeIndex, before: Seq<bool>, prev: Seq<NodeIndex>, marks: Seq<bool>, order: Seq<NodeIndex>)
        requires
            self.wf(),
            self.walk_state(root, before, prev, marks, order),
            self.edge(root, NodeIndex::Global),
            !marks[self.slots().len() as int],
        ensures
            self.walk_state(root, before, prev, marks.update(self.slots().len() as int, true), order.push(NodeIndex::Global)),
            self.walk_order(before, prev, order) ==> self.walk_order(before, prev, order.push(NodeIndex::Global)),
    {
        let n = self.slots().len() as usize;
        let o2 = order.push(NodeIndex::Global);
        let m2 = marks.update(n as int, true);
        lemma_listed_push(order, prev.len() as int, NodeIndex::Global, n);
        assert forall|c: int| 0 <= c < m2.len() implies (#[trigger] m2[c] <==> before[c]
            || listed_from(o2, prev.len() as int, c, n)) by {
            assert(m2[c] <==> marks[c] || c == n);
        }
        assert(o2.subrange(0, prev.len() as int) =~= order.subrange(0, prev.len() as int));
        assert forall|v: int| 0 <= v < order.len() implies #[trigger] o2[v] == order[v] by {}
        if self.walk_order(before, prev, order) {
            assert forall|w: int, p: NodeIndex| prev.len() <= w < o2.len() && !(o2[w] is Global) && #[trigger] self.edge(o2[w], p)
                implies before[spec_code(p, n) as int] || o2.subrange(0, w).contains(p) by {
                assert(o2[w] == order[w]);
                assert(o2.subrange(0, w) =~= order.subrange(0, w));
            }
        }
        assert forall|w: int| prev.len() <= w < o2.len() && !(#[trigger] o2[w] is Global)
            implies self.reach_through_processors(root, o2[w]) by {
            assert(o2[w] == order[w]);
        }
        assert forall|w: int| prev.len() <= w < o2.len() implies self.has_node(#[trigger] o2[w]) by {
            if w < order.len() {
                assert(o2[w] == order[w]);
            }
        }
        assert forall|w: int| prev.len() <= w < o2.len() implies !before[spec_code(#[trigger] o2[w], n) as int] by {
            if w < order.len() {
                assert(o2[w] == order[w]);
            }
        }
        assert forall|v: int, w: int| prev.len() <= v < w < o2.len() implies #[trigger] o2[v] != #[trigger] o2[w] by {
            assert(o2[v] == order[v]);
            if w < order.len() {
                assert(o2[w] == order[w]);
            } else {
                assert(listed_from(order, prev.len() as int, spec_code(order[v], n) as int, n));
                assert(marks[spec_code(order[v], n) as int]);
            }
        }
        assert forall|w: int| prev.len() <= w < o2.len() implies self.fed_by_walk(root, prev.len() as int, o2, #[trigger] o2[w]) by {
            if w < order.len() {
                assert(o2[w] == order[w]);
                self.lemma_fed_extend(root, prev.len() as int, order, o2, order[w]);
            }
        }
    }

    /// Descending into processor `next`, fed by `root`, and appending it
    /// afterwards keeps the walk state of `root`, and its order when the
    /// graph has no cycle through processors.
    proof fn lemma_walk_descend(
        &self,
        root: NodeIndex,
        before: Seq<bool>,
        prev: Seq<NodeIndex>,
        marks0: Seq<bool>,
        order0: Seq<NodeIndex>,
        next: NodeIndex,
        marks2: Seq<bool>,
        order1: Seq<NodeIndex>,
    )
        requires
            self.wf(),
            self.walk_state(root, before, prev, marks0, order0),
            self.edge(root, next),
            !(next is Global),
            !marks0[spec_code(next, self.slots().len() as usize) as int],
            self.walk_state(next, marks0.update(spec_code(next, self.slots().len() as usize) as int, true), order0, marks2, order1),
            forall|p: NodeIndex| #[trigger] self.edge(next, p) ==> marks2[spec_code(p, self.slots().len() as usize) as int],
        ensures
            self.walk_state(root, before, prev, marks2, order1.push(next)),
            self.acyclic() && self.walk_order(before, prev, order0)
                && self.walk_order(marks0.update(spec_code(next, self.slots().len() as usize) as int, true), order0, order1)
                ==> self.walk_order(before, prev, order1.push(next)),
    {
        let n = self.slots().len() as usize;
        let cn = spec_code(next, n);
        let marks1 = marks0.update(cn as int, true);
        let o2 = order1.push(next);
        self.lemma_edge_ends_exist(root, next);
        lemma_listed_split(order0, order1, prev.len() as int, n);
        lemma_listed_push(order1, prev.len() as int, next, n);
        assert(o2.subrange(0, prev.len() as int) =~= order1.subrange(0, prev.len() as int));
        assert(order1.subrange(0, prev.len() as int) =~= order0.subrange(0, prev.len() as int)) by {
            assert forall|w: int| 0 <= w < prev.len() implies order1[w] == order0[w] by {
                assert(order1.subrange(0, order0.len() as int)[w] == order0[w]);
            }
        }
        assert forall|w: int| 0 <= w < order1.len() implies #[trigger] o2[w] == order1[w] by {}
        assert forall|w: int| 0 <= w < order0.len() implies #[trigger] order1[w] == order0[w] by {
            assert(order1.subrange(0, order0.len() as int)[w] == order0[w]);
        }
        assert forall|w: int| 0 <= w < order0.len() implies #[trigger] o2[w] == order0[w] by {
            assert(order1[w] == order0[w]);
        }
        assert forall|w: int| prev.len() <= w < o2.len() implies self.has_node(#[trigger] o2[w]) by {
            if w < order0.len() {
                assert(order1[w] == order0[w]);
            }
        }
        assert forall|c: int| 0 <= c < marks2.len() implies (#[trigger] marks2[c] <==> before[c]
            || listed_from(o2, prev.len() as int, c, n)) by {
            assert(marks1[c] <==> marks0[c] || c == cn);
        }
        assert forall|w: int| prev.len() <= w < o2.len() && !(#[trigger] o2[w] is Global)
            implies self.reach_through_processors(root, o2[w]) by {
            if w < order0.len() {
                assert(order1[w] == order0[w]);
            } else if w < order1.len() {
                self.lemma_reach_tp_prepend(root, next, order1[w]);
            } else {
                self.lemma_reach_tp_edge(root, next);
            }
        }
        assert forall|w: int| prev.len() <= w < o2.len() implies !before[spec_code(#[trigger] o2[w], n) as int] by {
            if w < order0.len() {
                assert(o2[w] == order0[w]);
            } else if w < order1.len() {
                assert(o2[w] == order1[w]);
                assert(!marks1[spec_code(order1[w], n) as int]);
            }
        }
        assert forall|v: int, w: int| prev.len() <= v < w < o2.len() implies #[trigger] o2[v] != #[trigger] o2[w] by {
            if w < order0.len() {
                assert(o2[v] == order0[v] && o2[w] == order0[w]);
            } else if v >= order0.len() && w < order1.len() {
                assert(o2[v] == order1[v] && o2[w] == order1[w]);
            } else if v < order0.len() {
                assert(o2[v] == order0[v]);
                assert(listed_from(order0, prev.len() as int, spec_code(order0[v], n) as int, n));
                assert(marks0[spec_code(order0[v], n) as int]);
                if w < order1.len() {
                    assert(o2[w] == order1[w]);
                    assert(!marks1[spec_code(order1[w], n) as int]);
                }
            } else {
                assert(o2[v] == order1[v]);
                assert(!marks1[spec_code(order1[v], n) as int]);
            }
        }
        assert forall|w: int| prev.len() <= w < o2.len() implies self.fed_by_walk(root, prev.len() as int, o2, #[trigger] o2[w]) by {
            if w < order0.len() {
                assert(o2[w] == order0[w]);
                self.lemma_fed_extend(root, prev.len() as int, order0, o2, order0[w]);
            } else if w < order1.len() {
                let x = order1[w];
                assert(o2[w] == x);
                if self.edge(next, x) {
                    let v = order1.len() as int;
                    assert(o2[v] == next);
                    assert(self.edge(o2[v], x));
                } else {
                    let v = choose|v: int| order0.len() <= v < order1.len() && !(order1[v] is Global) && #[trigger] self.edge(order1[v], x);
                    assert(o2[v] == order1[v]);
                    assert(self.edge(o2[v], x));
                }
            }
        }
        if self.acyclic() && self.walk_order(before, prev, order0) && self.walk_order(marks1, order0, order1) {
            assert forall|w: int, p: NodeIndex| prev.len() <= w < o2.len() && !(o2[w] is Global) && #[trigger] self.edge(o2[w], p)
                implies before[spec_code(p, n) as int] || o2.subrange(0, w).contains(p) by {
                self.lemma_edge_ends_exist(o2[w], p);
                let cp = spec_code(p, n);
                if w < order0.len() {
                    assert(order1[w] == order0[w]);
                    assert(o2.subrange(0, w) =~= order0.subrange(0, w)) by {
                        assert forall|v: int| 0 <= v < w implies o2.subrange(0, w)[v] == order0.subrange(0, w)[v] by {
                            assert(order1[v] == order0[v]);
                        }
                    }
                } else {
                    let m = o2[w];
                    let hit: bool = if w < order1.len() {
                        marks1[cp as int] || order1.subrange(0, w).contains(p)
                    } else {
                        marks2[cp as int]
                    };
                    if w < order1.len() {
                        assert(order1[w] == m);
                        if order1.subrange(0, w).contains(p) {
                            let v = choose|v: int| 0 <= v < w && order1.subrange(0, w)[v] == p;
                            assert(o2.subrange(0, w)[v] == p);
                        } else if cp == cn {
                            lemma_code_inj(p, next, n);
                            self.lemma_no_return(next, m);
                        } else {
                            assert(marks0[cp as int]);
                            if !before[cp as int] {
                                let v = choose|v: int| prev.len() <= v < order0.len() && spec_code(#[trigger] order0[v], n) == cp;
                                lemma_code_inj(order0[v], p, n);
                                assert(o2.subrange(0, w)[v] == p);
                            }
                        }
                    } else {
                        assert(m == next);
                        assert(marks2[cp as int]);
                        if cp == cn {
                            lemma_code_inj(p, next, n);
                            let t = seq![next];
                            assert(self.is_path(t));
                            self.lemma_no_return(next, next);
                        } else if !before[cp as int] {
                            if listed_from(order1, order0.len() as int, cp as int, n) {
                                let v = choose|v: int| order0.len() <= v < order1.len() && spec_code(#[trigger] order1[v], n) == cp;
                                lemma_code_inj(order1[v], p, n);
                                assert(o2.subrange(0, w)[v] == p);
                            } else {
                                let v = choose|v: int| prev.len() <= v < order0.len() && spec_code(#[trigger] order0[v], n) == cp;
                                lemma_code_inj(order0[v], p, n);
                                assert(o2.subrange(0, w)[v] == order0[v]);
                            }
                        }
                    }
                }
            }

        }
    }

    /// Wires into `self` the mirror of every connection of `node_index` in
    /// `inputs`, then does the same, depth first, for each node feeding it that
    /// is not yet marked in `registered` (a table with one entry per slot of
    /// `inputs` and a last one for the global node), and appends each such
    /// node to `register_order` once the nodes feeding it are marked. The
    /// global node is marked and appended but not descended into. A node is
    /// marked before it is descended into, so the walk ends on any graph; on
    /// a primary graph without cycles through processors each appended
    /// processor comes after every node feeding it.
    pub fn insert_opposite_ports(
        &mut self,
        inputs: &AudioGraphIO,
        node_index: NodeIndex,
        registered: &mut Vec<bool>,
        register_order: &mut Vec<NodeIndex>,
    )
        requires
            inputs.wf(),
            old(self).wf(),
            old(self).opposite_of(inputs),
            inputs.has_node(node_index),
            old(registered)@.len() == inputs.slots().len() + 1,
        ensures
            final(self).wf(),
            final(self).opposite_of(inputs),
            old(self).grows_into(final(self)),
            final(self).mirrors(inputs, node_index),
            final(registered)@.len() == old(registered)@.len(),
            forall|k: int| 0 <= k < old(registered)@.len() && #[trigger] old(registered)@[k] ==> final(registered)@[k],
            forall|k: int| 0 <= k < old(registered)@.len() - 1 && #[trigger] final(registered)@[k] && !old(registered)@[k]
                ==> final(self).mirrors(inputs, NodeIndex::Processor(k as usize)),
            final(register_order)@.len() >= old(register_order)@.len(),
            final(register_order)@.subrange(0, old(register_order)@.len() as int) == old(register_order)@,
            inputs.walk_state(node_index, old(registered)@, old(register_order)@, final(registered)@, final(register_order)@),
            inputs.acyclic() ==> inputs.walk_order(old(registered)@, old(register_order)@, final(register_order)@),
            final(register_order)@.subrange(old(register_order)@.len() as int, final(register_order)@.len() as int).no_duplicates(),
            final(self).only_mirrors(old(self), inputs),
            forall|p: NodeIndex| #[trigger] inputs.edge(node_index, p)
                ==> final(registered)@[spec_code(p, inputs.slots().len() as usize) as int],
        decreases inputs.slots().len() + 1 - count_true(old(registered)@),
    {
        let n = inputs.processors.len();
        let ghost size = n + 1;
        proof {
            lemma_count_bound(registered@);
            assert(inputs.has_node(node_index));
            inputs.lemma_walk_start(node_index, registered@, register_order@);
            assert(old(self).only_mirrors(old(self), inputs));
        }
        let interface = inputs.get_node(node_index).unwrap();
        let num_ports = interface.num_ports();
        let mut i: usize = 0;
        while i < num_ports
            invariant
                inputs.wf(),
                self.wf(),
                self.opposite_of(inputs),
                old(self).grows_into(self),
                inputs.has_node(node_index),
                n == inputs.slots().len(),
                size == n + 1,
                *interface == inputs.node(node_index).unwrap(),
                num_ports == interface.port_sets().len(),
                i <= num_ports,
                registered@.len() == old(registered)@.len(),
                old(registered)@.len() == size,
                count_true(old(registered)@) <= count_true(registered@),
                forall|k: int| 0 <= k < size && #[trigger] old(registered)@[k] ==> registered@[k],
                forall|k: int| 0 <= k < size - 1 && #[trigger] registered@[k] && !old(registered)@[k]
                    ==> self.mirrors(inputs, NodeIndex::Processor(k as usize)),
                forall|j: usize, p: Port| j < i && inputs.has_port(Port { index: j, node_index })
                    && #[trigger] inputs.connections(Port { index: j, node_index }).contains(p)
                    ==> self.has_port(p) && self.connections(p).contains(Port { index: j, node_index }),
                register_order@.len() >= old(register_order)@.len(),
                register_order@.subrange(0, old(register_order)@.len() as int) == old(register_order)@,
                inputs.walk_state(node_index, old(registered)@, old(register_order)@, registered@, register_order@),
                inputs.acyclic() ==> inputs.walk_order(old(registered)@, old(register_order)@, register_order@),
                self.only_mirrors(old(self), inputs),
                forall|jj: usize, q: Port| jj < i && inputs.has_port(Port { index: jj, node_index })
                    && #[trigger] inputs.connections(Port { index: jj, node_index }).contains(q)
                    ==> registered@[spec_code(q.node_index, n) as int],
            decreases num_ports - i,
        {
            let incoming = interface.get_connections(i).unwrap();
            let this_port = Port::new(i, node_index);
            let mut j: usize = 0;
            while j < incoming.len()
                invariant
                    inputs.wf(),
                    self.wf(),
                    self.opposite_of(inputs),
                    old(self).grows_into(self),
                    inputs.has_node(node_index),
                    n == inputs.slots().len(),
                    size == n + 1,
                    *interface == inputs.node(node_index).unwrap(),
                    num_ports == interface.port_sets().len(),
                    i < num_ports,
                    this_port == (Port { index: i, node_index }),
                    incoming@ == inputs.connections(this_port),
                    j <= incoming@.len(),
                    registered@.len() == old(registered)@.len(),
                    old(registered)@.len() == size,
                    count_true(old(registered)@) <= count_true(registered@),
                    forall|k: int| 0 <= k < size && #[trigger] old(registered)@[k] ==> registered@[k],
                    forall|k: int| 0 <= k < size - 1 && #[trigger] registered@[k] && !old(registered)@[k]
                        ==> self.mirrors(inputs, NodeIndex::Processor(k as usize)),
                    forall|jj: usize, p: Port| jj < i && inputs.has_port(Port { index: jj, node_index })
                        && #[trigger] inputs.connections(Port { index: jj, node_index }).contains(p)
                        ==> self.has_port(p) && self.connections(p).contains(Port { index: jj, node_index }),
                    forall|k: int| 0 <= k < j ==> self.has_port(#[trigger] incoming@[k])
                        && self.connections(incoming@[k]).contains(this_port),
                    register_order@.len() >= old(register_order)@.len(),
                    register_order@.subrange(0, old(register_order)@.len() as int) == old(register_order)@,
                    inputs.walk_state(node_index, old(registered)@, old(register_order)@, registered@, register_order@),
                    inputs.acyclic() ==> inputs.walk_order(old(registered)@, old(register_order)@, register_order@),
                    self.only_mirrors(old(self), inputs),
                    forall|jj: usize, q: Port| jj < i && inputs.has_port(Port { index: jj, node_index })
                        && #[trigger] inputs.connections(Port { index: jj, node_index }).contains(q)
                        ==> registered@[spec_code(q.node_index, n) as int],
                    forall|k: int| 0 <= k < j ==> registered@[spec_code((#[trigger] incoming@[k]).node_index, n) as int],
                decreases incoming@.len() - j,
            {
                let port = incoming[j];
                proof {
                    assert(inputs.has_port(this_port));
                    assert(inputs.connections(this_port).contains(port));
                    assert(inputs.accepts(port));
                    assert(self.has_port(port));
                    assert(self.accepts(this_port));
                }
                let ghost g0 = *self;
                self.connect_port(port, this_port);
                proof {
                    g0.lemma_connect_grows(self, port, this_port);
                    Self::lemma_grows_trans(old(self), &g0, self);
                    assert forall|x: Port| #[trigger] self.connections(port).contains(x)
                        implies g0.connections(port).contains(x) || x == this_port by {
                        if !g0.connections(port).contains(this_port) && x != this_port {
                            let w = choose|w: int| 0 <= w < self.connections(port).len() && self.connections(port)[w] == x;
                            assert(g0.connections(port)[w] == x);
                        }
                    }
                    self.lemma_connect_mirrors(&g0, old(self), inputs, port, this_port);
                }
                let next_idx = port.node_index;
                let next = code_of(next_idx, n);
                let ghost reg_in = registered@;
                let ghost ord_in = register_order@;
                proof {
                    assert(inputs.edge(node_index, next_idx));
                }
                if !registered[next] {
                    proof {
                        lemma_count_update(registered@, next as int);
                        lemma_count_bound(registered@);
                    }
                    registered.set(next, true);
                    if !next_idx.is_global() {
                        let ghost g1 = *self;
                        let ghost reg1 = registered@;
                        let ghost ord1 = register_order@;
                        self.insert_opposite_ports(inputs, next_idx, registered, register_order);
                        proof {
                            Self::lemma_mirrors_trans(old(self), &g1, self, inputs);
                            inputs.lemma_walk_descend(node_index, old(registered)@, old(register_order)@, reg_in, ord_in,
                                next_idx, registered@, register_order@);
                            Self::lemma_grows_trans(old(self), &g1, self);
                            assert forall|k: int| 0 <= k < size && #[trigger] old(registered)@[k] implies registered@[k] by {
                                assert(reg1[k]);
                            }
                            lemma_count_mono(reg1, registered@);
                            assert(register_order@.subrange(0, old(register_order)@.len() as int)
                                =~= ord1.subrange(0, old(register_order)@.len() as int));
                        }
                    }
                    let ghost ord2 = register_order@;
                    register_order.push(next_idx);
                    proof {
                        assert(register_order@.subrange(0, old(register_order)@.len() as int)
                            =~= ord2.subrange(0, old(register_order)@.len() as int));
                        if next_idx is Global {
                            inputs.lemma_walk_global(node_index, old(registered)@, old(register_order)@, reg_in, ord_in);
                        }
                    }
                }
                proof {
                    assert forall|k: int| 0 <= k < j + 1 implies registered@[spec_code((#[trigger] incoming@[k]).node_index, n) as int] by {
                        if k < j {
                            assert(reg_in[spec_code(incoming@[k].node_index, n) as int]);
                            assert(self.connections(incoming@[k]).contains(this_port));
                        } else {
                            assert(incoming@[k] == port);
                        }
                    }
                }
                j = j + 1;
            }
            proof {
                assert forall|jj: usize, q: Port| jj < i + 1 && inputs.has_port(Port { index: jj, node_index })
                    && #[trigger] inputs.connections(Port { index: jj, node_index }).contains(q)
                    implies registered@[spec_code(q.node_index, n) as int] by {
                    if jj == i {
                        let w = choose|w: int| 0 <= w < incoming@.len() && incoming@[w] == q;
                        assert(registered@[spec_code(incoming@[w].node_index, n) as int]);
                    }
                }
                assert forall|jj: usize, p: Port| jj < i + 1 && inputs.has_port(Port { index: jj, node_index })
                    && #[trigger] inputs.connections(Port { index: jj, node_index }).contains(p)
                    implies self.has_port(p) && self.connections(p).contains(Port { index: jj, node_index }) by {
                    if jj == i {
                        let w = choose|w: int| 0 <= w < incoming@.len() && incoming@[w] == p;
                        assert(self.has_port(incoming@[w]));
                    }
                }
            }
            i = i + 1;
        }
        proof {
            assert forall|p: NodeIndex| #[trigger] inputs.edge(node_index, p) implies registered@[spec_code(p, n) as int] by {
                let (pp, q) = choose|pp: Port, q: Port|
                    pp.node_index == node_index && inputs.has_port(pp) && #[trigger] inputs.connections(pp).contains(q) && q.node_index == p;
                assert(pp == Port { index: pp.index, node_index });
            }
            let lo = old(register_order)@.len() as int;
            let fresh = register_order@.subrange(lo, register_order@.len() as int);
            assert forall|v: int, w: int| 0 <= v < fresh.len() && 0 <= w < fresh.len() && v != w implies fresh[v] != fresh[w] by {
                assert(fresh[v] == register_order@[lo + v] && fresh[w] == register_order@[lo + w]);
                if v < w {
                    assert(register_order@[lo + v] != register_order@[lo + w]);
                } else {
                    assert(register_order@[lo + w] != register_order@[lo + v]);
                }
            }
        }
    }

    /// Every connection of `self` that `o` lacks mirrors one of `inputs`.
    pub open spec fn only_mirrors(&self, o: &Self, inputs: &Self) -> bool {
        forall|q: Port, x: Port| self.has_port(q) && #[trigger] self.connections(q).contains(x)
            ==> o.connections(q).contains(x) || (inputs.has_port(x) && inputs.connections(x).contains(q))
    }

    proof fn lemma_connect_mirrors(&self, g0: &Self, o: &Self, inputs: &Self, from: Port, to: Port)
        requires
            g0.only_mirrors(o, inputs),
            self.same_but_port(g0, from),
            inputs.has_port(to),
            inputs.connections(to).contains(from),
            forall|x: Port| #[trigger] self.connections(from).contains(x) ==> g0.connections(from).contains(x) || x == to,
        ensures
            self.only_mirrors(o, inputs),
    {
        assert forall|q: Port, x: Port| self.has_port(q) && #[trigger] self.connections(q).contains(x)
            implies o.connections(q).contains(x) || (inputs.has_port(x) && inputs.connections(x).contains(q)) by {
            assert(self.shape(q.node_index) == g0.shape(q.node_index));
            if q != from {
                assert(g0.connections(q).contains(x));
            } else if x != to {
                assert(g0.connections(q).contains(x));
            }
        }
    }

    proof fn lemma_mirrors_trans(a: &Self, b: &Self, c: &Self, inputs: &Self)
        requires
            b.only_mirrors(a, inputs),
            c.only_mirrors(b, inputs),
            forall|n: NodeIndex| #[trigger] c.shape(n) == b.shape(n),
        ensures
            c.only_mirrors(a, inputs),
    {
        assert forall|q: Port, x: Port| c.has_port(q) && #[trigger] c.connections(q).contains(x)
            implies a.connections(q).contains(x) || (inputs.has_port(x) && inputs.connections(x).contains(q)) by {
            assert(c.shape(q.node_index) == b.shape(q.node_index));
            if b.connections(q).contains(x) {
                assert(b.has_port(q));
            }
        }
    }

    proof fn lemma_connect_grows(&self, new: &Self, from: Port, to: Port)
        requires
            self.has_port(from),
            new.same_but_port(self, from),
            new.connections(from) == if self.connections(from).contains(to) {
                self.connections(from)
            } else {
                self.connections(from).push(to)
            },
        ensures
            self.grows_into(new),
            new.connections(from).contains(to),
    {
        assert forall|q: Port, x: Port| self.has_port(q) && #[trigger] self.connections(q).contains(x)
            implies new.connections(q).contains(x) by {
            if q == from {
                let w = choose|w: int| 0 <= w < self.connections(q).len() && self.connections(q)[w] == x;
                assert(new.connections(q)[w] == x);
            } else {
                assert(new.shape(q.node_index) == self.shape(q.node_index));
            }
        }
        if !self.connections(from).contains(to) {
            assert(new.connections(from)[self.connections(from).len() as int] == to);
        }
    }

    proof fn lemma_grows_trans(a: &Self, b: &Self, c: &Self)
        requires
            a.grows_into(b),
            b.grows_into(c),
        ensures
            a.grows_into(c),
    {
        assert forall|q: Port, x: Port| a.has_port(q) && #[trigger] a.connections(q).contains(x)
            implies c.connections(q).contains(x) by {
            assert(b.shape(q.node_index) == a.shape(q.node_index));
            assert(b.connections(q).contains(x));
        }
    }

    /// Wires `to` to port `from`; true when it was not wired before.
    fn connect_port(&mut self, from: Port, to: Port) -> (r: bool)
        requires
            old(self).wf(),
            old(self).has_port(from),
            old(self).accepts(to),
        ensures
            final(self).wf(),
            final(self).same_but_port(old(self), from),
            r == !old(self).connections(from).contains(to),
            final(self).connections(from) == if r {
                old(self).connections(from).push(to)
            } else {
                old(self).connections(from)
            },
    {
        proof {
            assert(old(self).has_node(from.node_index));
        }
        let r = match from.node_index {
            NodeIndex::Global => self.global.connect(from.index, to),
            NodeIndex::Processor(i) => {
                let mut slot: Option<Interface> = None;
                core::mem::swap(&mut slot, &mut self.processors[i]);
                let mut interface = slot.unwrap();
                let r = interface.connect(from.index, to);
                self.processors.set(i, Some(interface));
                r
            },
        };
        proof {
            let before = old(self).connections(from);
            assert forall|q: Port| #[trigger] self.connections(from).contains(q) implies old(self).accepts(q) by {
                if q != to {
                    let i = choose|i: int| 0 <= i < self.connections(from).len() && self.connections(from)[i] == q;
                    assert(before[i] == q);
                    assert(before.contains(q));
                }
            }
            self.lemma_port_changed(old(self), from);
        }
        r
    }

    /// Unwires `to` from port `from`; true when it was wired.
    fn disconnect_port(&mut self, from: Port, to: Port) -> (r: bool)
        requires
            old(self).wf(),
            old(self).has_port(from),
        ensures
            final(self).wf(),
            final(self).same_but_port(old(self), from),
            r == old(self).connections(from).contains(to),
            final(self).connections(from) == old(self).connections(from).filter(|q: Port| q != to),
    {
        proof {
            assert(old(self).has_node(from.node_index));
        }
        let r = match from.node_index {
            NodeIndex::Global => self.global.disconnect(from.index, to),
            NodeIndex::Processor(i) => {
                let mut slot: Option<Interface> = None;
                core::mem::swap(&mut slot, &mut self.processors[i]);
                let mut interface = slot.unwrap();
                let r = interface.disconnect(from.index, to);
                self.processors.set(i, Some(interface));
                r
            },
        };
        proof {
            lemma_filter_distinct(old(self).connections(from), |q: Port| q != to);
            self.lemma_port_changed(old(self), from);
        }
        r
    }

    /// A graph whose record of `from.node_index` differs from that of `o` only
    /// in the connections of `from`, which gained nothing that `o` does not
    /// accept, is well formed like `o`.
    proof fn lemma_port_changed(&self, o: &Self, from: Port)
        requires
            o.wf(),
            o.has_port(from),
            self.slots().len() == o.slots().len(),
            forall|n: NodeIndex| n != from.node_index ==> #[trigger] self.node(n) == o.node(n),
            self.node(from.node_index) is Some,
            self.node(from.node_index).unwrap().wf(),
            self.node(from.node_index).unwrap().opposite_degree() == o.node(from.node_index).unwrap().opposite_degree(),
            self.node(from.node_index).unwrap().port_sets() == o.node(from.node_index).unwrap().port_sets().update(
                from.index as int, self.connections(from)),
            forall|q: Port| #[trigger] self.connections(from).contains(q) ==> o.accepts(q),
        ensures
            self.wf(),
            self.same_but_port(o, from),
    {
        assert forall|n: NodeIndex| #[trigger] self.shape(n) == o.shape(n) by {
            if n != from.node_index {
                assert(self.node(n) == o.node(n));
            }
        }
        assert forall|n: NodeIndex| #[trigger] self.has_node(n) implies self.node(n).unwrap().wf() by {
            if n != from.node_index {
                assert(self.node(n) == o.node(n));
                assert(o.has_node(n));
            }
        }
        assert forall|q: Port| q != from && self.has_port(q) implies #[trigger] self.connections(q) == o.connections(q) by {
            if q.node_index != from.node_index {
                assert(self.node(q.node_index) == o.node(q.node_index));
            }
        }
        assert forall|p: Port, q: Port| self.has_port(p) && #[trigger] self.connections(p).contains(q) implies self.accepts(q) by {
            assert(self.shape(q.node_index) == o.shape(q.node_index));
            if p != from {
                assert(self.connections(p) == o.connections(p));
                assert(o.has_port(p));
            }
        }
    }

    /// Tells which endpoints of `from -> to` resolve.
    fn check_endpoints(&self, from: Port, to: Port) -> (r: EdgeNotFound)
        ensures
            r == self.endpoint_check(from, to),
    {
        let from_port = match self.get_node(from.node_index) {
            Some(interface) => Some(from.index < interface.num_ports()),
            None => None,
        };
        let to_port = match self.get_node(to.node_index) {
            Some(interface) => Some(to.index < interface.num_opposite_ports()),
            None => None,
        };
        EdgeNotFound { from_port, to_port }
    }

    /// Removes the edge `from -> to`. Fails, changing nothing, when an endpoint
    /// does not resolve; otherwise returns whether the edge was there.
    pub fn remove_edge(&mut self, from: Port, to: Port) -> (r: Result<bool, EdgeNotFound>)
        requires
            old(self).wf(),
        ensures
            final(self).wf(),
            old(self).acyclic() ==> final(self).acyclic(),
            !old(self).endpoint_check(from, to).spec_is_ok() ==> r == Err::<bool, EdgeNotFound>(
                old(self).endpoint_check(from, to)) && *final(self) == *old(self),
            old(self).endpoint_check(from, to).spec_is_ok() ==> {
                &&& r == Ok::<bool, EdgeNotFound>(old(self).connections(from).contains(to))
                &&& final(self).same_but_port(old(self), from)
                &&& final(self).connections(from) == old(self).connections(from).filter(|q: Port| q != to)
                &&& !final(self).connections(from).contains(to)
                &&& r == Ok::<bool, EdgeNotFound>(false) ==> final(self).connections(from) == old(self).connections(from)
            },
    {
        let error = self.check_endpoints(from, to);
        if error.is_not_error() {
            let ghost before = *self;
            let r = self.disconnect_port(from, to);
            proof {
                lemma_filter_distinct(before.connections(from), |q: Port| q != to);
                assert forall|x: NodeIndex, y: NodeIndex| #[trigger] self.edge(x, y) implies before.edge(x, y) by {
                    let (p, q) = choose|p: Port, q: Port|
                        p.node_index == x && self.has_port(p) && #[trigger] self.connections(p).contains(q) && q.node_index == y;
                    assert(self.shape(p.node_index) == before.shape(p.node_index));
                    assert(before.connections(p).contains(q));
                }
                self.lemma_fewer_edges(&before);
                if !r {
                    lemma_filter_keeps_all(before.connections(from), to);
                }
            }
            Ok(r)
        } else {
            Err(error)
        }
    }

    /// Removes processor `index` and every connection that refers to it;
    /// false, changing nothing, when there is no such processor. No other
    /// processor changes slot.
    pub fn remove_processor(&mut self, index: usize) -> (r: bool)
        requires
            old(self).wf(),
        ensures
            final(self).wf(),
            old(self).acyclic() ==> final(self).acyclic(),
            r == old(self).has_node(NodeIndex::Processor(index)),
            !r ==> *final(self) == *old(self),
            r ==> {
                &&& final(self).slots().len() == old(self).slots().len()
                &&& !final(self).has_node(NodeIndex::Processor(index))
                &&& forall|n: NodeIndex| n != NodeIndex::Processor(index) ==> #[trigger] final(self).shape(n) == old(self).shape(n)
                &&& forall|q: Port| #[trigger] final(self).has_port(q) ==> final(self).connections(q)
                    == old(self).connections(q).filter(|x: Port| x.node_index != NodeIndex::Processor(index))
                &&& forall|q: Port, x: Port| final(self).has_port(q) && #[trigger] final(self).connections(q).contains(x)
                    ==> x.node_index != NodeIndex::Processor(index)
            },
    {
        if index >= self.processors.len() || self.processors[index].is_none() {
            return false;
        }
        let gone = NodeIndex::Processor(index);
        proof {
            assert(old(self).has_node(NodeIndex::Global));
        }
        self.processors.set(index, None);
        self.global.remove_node_refs(gone);
        let ghost start = *self;
        let mut k: usize = 0;
        while k < self.processors.len()
            invariant
                self.global == start.global,
                self.processors@.len() == start.processors@.len(),
                start.processors@.len() == old(self).processors@.len(),
                0 <= index < start.processors@.len(),
                start.processors@[index as int] is None,
                k <= self.processors@.len(),
                forall|i: int| 0 <= i < start.processors@.len() && i != index ==> start.processors@[i] == old(self).processors@[i],
                forall|i: int| k <= i < self.processors@.len() ==> #[trigger] self.processors@[i] == start.processors@[i],
                forall|i: int| 0 <= i < k ==> (#[trigger] self.processors@[i] is Some) == (start.processors@[i] is Some),
                forall|i: int| 0 <= i < k && #[trigger] self.processors@[i] is Some ==> {
                    let a = self.processors@[i].unwrap();
                    let b = start.processors@[i].unwrap();
                    &&& a.wf()
                    &&& a.opposite_degree() == b.opposite_degree()
                    &&& a.port_sets().len() == b.port_sets().len()
                    &&& forall|j: int| 0 <= j < b.port_sets().len() ==> #[trigger] a.port_sets()[j]
                        == b.port_sets()[j].filter(|x: Port| x.node_index != gone)
                },
                forall|n: NodeIndex| #[trigger] old(self).has_node(n) ==> old(self).node(n).unwrap().wf(),
            decreases self.processors@.len() - k,
        {
            if self.processors[k].is_some() {
                let mut slot: Option<Interface> = None;
                core::mem::swap(&mut slot, &mut self.processors[k]);
                let mut interface = slot.unwrap();
                proof {
                    assert(old(self).has_node(NodeIndex::Processor(k)));
                }
                interface.remove_node_refs(gone);
                self.processors.set(k, Some(interface));
            }
            k = k + 1;
        }
        proof {
            self.lemma_purged(old(self), index);
            assert forall|x: NodeIndex, y: NodeIndex| #[trigger] self.edge(x, y) implies old(self).edge(x, y) by {
                let (p, q) = choose|p: Port, q: Port|
                    p.node_index == x && self.has_port(p) && #[trigger] self.connections(p).contains(q) && q.node_index == y;
                assert(self.shape(p.node_index) == old(self).shape(p.node_index));
                lemma_filter_distinct(old(self).connections(p), |x: Port| x.node_index != gone);
                assert(old(self).connections(p).contains(q));
            }
            self.lemma_fewer_edges(old(self));
            assert forall|q: Port, x: Port| self.has_port(q) && #[trigger] self.connections(q).contains(x)
                implies x.node_index != gone by {
                lemma_filter_distinct(old(self).connections(q), |x: Port| x.node_index != gone);
            }
        }
        true
    }

    proof fn lemma_purged(&self, o: &Self, index: usize)
        requires
            o.wf(),
            o.has_node(NodeIndex::Processor(index)),
            self.slots().len() == o.slots().len(),
            self.slots()[index as int] is None,
            forall|i: int| 0 <= i < o.slots().len() && i != index ==> (#[trigger] self.slots()[i] is Some) == (o.slots()[i] is Some),
            forall|n: NodeIndex| #[trigger] self.has_node(n) && n != NodeIndex::Processor(index) ==> {
                let a = self.node(n).unwrap();
                let b = o.node(n).unwrap();
                &&& a.wf()
                &&& a.opposite_degree() == b.opposite_degree()
                &&& a.port_sets().len() == b.port_sets().len()
                &&& forall|j: int| 0 <= j < b.port_sets().len() ==> #[trigger] a.port_sets()[j]
                    == b.port_sets()[j].filter(|x: Port| x.node_index != NodeIndex::Processor(index))
            },
        ensures
            self.wf(),
            !self.has_node(NodeIndex::Processor(index)),
            forall|n: NodeIndex| n != NodeIndex::Processor(index) ==> #[trigger] self.shape(n) == o.shape(n),
            forall|q: Port| #[trigger] self.has_port(q) ==> self.connections(q)
                == o.connections(q).filter(|x: Port| x.node_index != NodeIndex::Processor(index)),
    {
        let gone = NodeIndex::Processor(index);
        assert forall|n: NodeIndex| n != gone implies #[trigger] self.shape(n) == o.shape(n) by {
            if let NodeIndex::Processor(i) = n {
                if i < o.slots().len() {
                    assert((self.slots()[i as int] is Some) == (o.slots()[i as int] is Some));
                    if self.has_node(n) {
                        assert(self.node(n).unwrap().port_sets().len() == o.node(n).unwrap().port_sets().len());
                    }
                }
            } else {
                assert(self.has_node(n));
            }
        }
        assert forall|q: Port| #[trigger] self.has_port(q) implies self.connections(q)
            == o.connections(q).filter(|x: Port| x.node_index != gone) by {
            assert(self.has_node(q.node_index));
        }
        assert forall|p: Port, q: Port| self.has_port(p) && #[trigger] self.connections(p).contains(q) implies self.accepts(q) by {
            assert(self.has_node(p.node_index));
            assert(o.has_port(p));
            lemma_filter_distinct(o.connections(p), |x: Port| x.node_index != gone);
            assert(o.connections(p).contains(q));
            assert(o.accepts(q));
            assert(self.shape(q.node_index) == o.shape(q.node_index));
        }
    }
}

/// Position of a node in a table of `n` processor slots followed by the
/// global node.
pub open spec fn spec_code(x: NodeIndex, n: usize) -> usize {
    match x {
        NodeIndex::Global => n,
        NodeIndex::Processor(i) => i,
    }
}

/// The node at a position of that table.
pub open spec fn spec_node(k: int, n: usize) -> NodeIndex {
    if k == n { NodeIndex::Global } else { NodeIndex::Processor(k as usize) }
}

/// Some entry of `order` from position `lo` on sits at position `c` of the
/// table of `n` processor slots followed by the global node.
pub open spec fn listed_from(order: Seq<NodeIndex>, lo: int, c: int, n: usize) -> bool {
    exists|w: int| lo <= w < order.len() && spec_code(#[trigger] order[w], n) == c
}

proof fn lemma_listed_push(order: Seq<NodeIndex>, lo: int, x: NodeIndex, n: usize)
    requires
        0 <= lo <= order.len(),
    ensures
        forall|c: int| #[trigger] listed_from(order.push(x), lo, c, n) <==> listed_from(order, lo, c, n) || c == spec_code(x, n),
{
    let o2 = order.push(x);
    assert forall|c: int| #[trigger] listed_from(o2, lo, c, n) <==> listed_from(order, lo, c, n) || c == spec_code(x, n) by {
        if listed_from(o2, lo, c, n) {
            let w = choose|w: int| lo <= w < o2.len() && spec_code(#[trigger] o2[w], n) == c;
            if w < order.len() {
                assert(order[w] == o2[w]);
            }
        }
        if listed_from(order, lo, c, n) {
            let w = choose|w: int| lo <= w < order.len() && spec_code(#[trigger] order[w], n) == c;
            assert(o2[w] == order[w]);
        }
        if c == spec_code(x, n) {
            assert(o2[order.len() as int] == x);
        }
    }
}

proof fn lemma_listed_split(o1: Seq<NodeIndex>, o2: Seq<NodeIndex>, lo: int, n: usize)
    requires
        0 <= lo <= o1.len() <= o2.len(),
        o2.subrange(0, o1.len() as int) == o1,
    ensures
        forall|c: int| #[trigger] listed_from(o2, lo, c, n) <==> listed_from(o1, lo, c, n) || listed_from(o2, o1.len() as int, c, n),
{
    assert forall|c: int| #[trigger] listed_from(o2, lo, c, n) <==> listed_from(o1, lo, c, n) || listed_from(o2, o1.len() as int, c, n) by {
        if listed_from(o2, lo, c, n) {
            let w = choose|w: int| lo <= w < o2.len() && spec_code(#[trigger] o2[w], n) == c;
            if w < o1.len() {
                assert(o2.subrange(0, o1.len() as int)[w] == o1[w]);
            }
        }
        if listed_from(o1, lo, c, n) {
            let w = choose|w: int| lo <= w < o1.len() && spec_code(#[trigger] o1[w], n) == c;
            assert(o2.subrange(0, o1.len() as int)[w] == o2[w]);
        }
    }
}

proof fn lemma_code_inj(x: NodeIndex, y: NodeIndex, n: usize)
    requires
        x is Processor ==> x->Processor_0 < n,
        y is Processor ==> y->Processor_0 < n,
        spec_code(x, n) == spec_code(y, n),
    ensures
        x == y,
{
}

fn code_of(x: NodeIndex, n: usize) -> (r: usize)
    requires
        x is Processor ==> x->Processor_0 < n,
    ensures
        r == spec_code(x, n),
        r <= n,
        spec_node(r as int, n) == x,
{
    match x {
        NodeIndex::Global => n,
        NodeIndex::Processor(i) => i,
    }
}

fn decode(k: usize, n: usize) -> (r: NodeIndex)
    requires
        k <= n,
    ensures
        r == spec_node(k as int, n),
        spec_code(r, n) == k,
{
    if k == n {
        NodeIndex::Global
    } else {
        NodeIndex::Processor(k)
    }
}

/// Number of `true` entries.
pub open spec fn count_true(s: Seq<bool>) -> nat
    decreases s.len(),
{
    if s.len() == 0 {
        0
    } else {
        count_true(s.drop_last()) + if s.last() { 1nat } else { 0nat }
    }
}

proof fn lemma_count_none(s: Seq<bool>)
    requires
        forall|i: int| 0 <= i < s.len() ==> !(#[trigger] s[i]),
    ensures
        count_true(s) == 0,
    decreases s.len(),
{
    if s.len() > 0 {
        lemma_count_none(s.drop_last());
    }
}

proof fn lemma_count_update(s: Seq<bool>, k: int)
    requires
        0 <= k < s.len(),
        !s[k],
    ensures
        count_true(s.update(k, true)) == count_true(s) + 1,
        count_true(s) < s.len(),
    decreases s.len(),
{
    let t = s.update(k, true);
    if k == s.len() - 1 {
        assert(t.drop_last() =~= s.drop_last());
        lemma_count_bound(s.drop_last());
    } else {
        assert(t.drop_last() =~= s.drop_last().update(k, true));
        lemma_count_update(s.drop_last(), k);
    }
}

proof fn lemma_count_mono(a: Seq<bool>, b: Seq<bool>)
    requires
        a.len() == b.len(),
        forall|k: int| 0 <= k < a.len() && #[trigger] a[k] ==> b[k],
    ensures
        count_true(a) <= count_true(b),
    decreases a.len(),
{
    if a.len() > 0 {
        lemma_count_mono(a.drop_last(), b.drop_last());
        assert(a.last() ==> b.last());
    }
}

proof fn lemma_count_bound(s: Seq<bool>)
    ensures
        count_true(s) <= s.len(),
    decreases s.len(),
{
    if s.len() > 0 {
        lemma_count_bound(s.drop_last());
    }
}

fn contains_port(set: &Vec<Port>, port: Port) -> (r: bool)
    ensures
        r == set@.contains(port),
{
    let mut k: usize = 0;
    while k < set.len()
        invariant
            k <= set@.len(),
            forall|i: int| 0 <= i < k ==> set@[i] != port,
        decreases set@.len() - k,
    {
        if set[k] == port {
            return true;
        }
        k = k + 1;
    }
    false
}

} // verus!
