use vstd::prelude::*;

verus! {

/// Values that can label the nodes of a [`Graph`]: two labels name the same node
/// exactly when their views are equal.
pub trait GraphKey: View + Sized {
    /// Whether two labels name the same node.
    fn same_key(&self, other: &Self) -> (r: bool)
        ensures
            r == (self@ == other@),
    ;

    /// A fresh label naming the same node.
    fn copy_key(&self) -> (r: Self)
        ensures
            r@ == self@,
    ;
}

impl<T: GraphKey> GraphKey for Graph<T> {
    fn same_key(&self, other: &Self) -> (r: bool) {
        self.same_graph(other)
    }

    fn copy_key(&self) -> (r: Self) {
        self.copy_graph()
    }
}

impl<T: GraphKey> Clone for Graph<T> {
    /// A graph with the same nodes, in the same order, the same edges and the same
    /// kept order.
    fn clone(&self) -> (r: Self)
        ensures
            r@ == self@,
            r.node_keys() == self.node_keys(),
            r.kept_order() == self.kept_order(),
    {
        self.copy_graph()
    }
}

impl<T: GraphKey> PartialEq for Graph<T> {
    fn eq(&self, other: &Self) -> (r: bool) {
        self.same_graph(other)
    }
}

impl<T: GraphKey> vstd::std_specs::cmp::PartialEqSpecImpl for Graph<T> {
    open spec fn obeys_eq_spec() -> bool {
        true
    }

    open spec fn eq_spec(&self, other: &Self) -> bool {
        self@ == other@
    }
}

impl GraphKey for i32 {
    fn same_key(&self, other: &Self) -> (r: bool) {
        *self == *other
    }

    fn copy_key(&self) -> (r: Self) {
        *self
    }
}

impl GraphKey for u64 {
    fn same_key(&self, other: &Self) -> (r: bool) {
        *self == *other
    }

    fn copy_key(&self) -> (r: Self) {
        *self
    }
}

impl GraphKey for String {
    fn same_key(&self, other: &Self) -> (r: bool) {
        *self == *other
    }

    fn copy_key(&self) -> (r: Self) {
        self.clone()
    }
}

/// A directed graph whose nodes are labelled by distinct keys, with at most one
/// edge from one node to another.
#[derive(Debug)]
pub struct Graph<T: GraphKey> {
    nodes: Vec<T>,
    connections: Vec<Vec<usize>>,
    topological_ordering: Option<Vec<T>>,
}

/// The keys of a sequence of labels.
pub open spec fn keys_of<T: View>(s: Seq<T>) -> Seq<T::V> {
    s.map_values(|x: T| x@)
}

/// `order` lists every node of `g` exactly once, and every edge of `g` goes
/// from an earlier to a later entry.
pub open spec fn is_topological_order<V>(g: Map<V, Set<V>>, order: Seq<V>) -> bool {
    &&& order.no_duplicates()
    &&& forall|v: V| g.dom().contains(v) <==> order.contains(v)
    &&& forall|i: int, j: int|
        0 <= i < order.len() && 0 <= j < order.len() && #[trigger] g[order[i]].contains(
            #[trigger] order[j],
        ) ==> i < j
}

/// Every edge of `g` ends at a node of `g`.
pub open spec fn edges_within<V>(g: Map<V, Set<V>>) -> bool {
    forall|v: V, w: V| #[trigger] g.dom().contains(v) && #[trigger] g[v].contains(w) ==> g.dom().contains(w)
}

/// `g` has an ordering of its nodes in which every edge goes forward.
pub open spec fn is_acyclic<V>(g: Map<V, Set<V>>) -> bool {
    exists|order: Seq<V>| is_topological_order(g, order)
}

impl<T: GraphKey> Graph<T> {
    pub closed spec fn n(&self) -> int {
        self.nodes@.len() as int
    }

    pub closed spec fn key(&self, i: int) -> T::V {
        self.nodes@[i]@
    }

    pub closed spec fn has_edge(&self, i: int, j: int) -> bool {
        exists|k: int| 0 <= k < self.connections@[i]@.len() && #[trigger] self.connections@[i]@[k] as int == j
    }

    /// The topological order kept from an earlier search, if the graph holds one.
    pub closed spec fn kept_order(&self) -> Option<Seq<T::V>> {
        match self.topological_ordering {
            Some(o) => Some(keys_of(o@)),
            None => None,
        }
    }

    /// The labels of the nodes, in the order they were added.
    pub closed spec fn node_keys(&self) -> Seq<T::V> {
        keys_of(self.nodes@)
    }

    pub closed spec fn succ_keys(&self, v: T::V) -> Set<T::V> {
        Set::new(
            |w: T::V|
                exists|i: int, j: int|
                    0 <= i < self.n() && 0 <= j < self.n() && #[trigger] self.key(i) == v
                        && #[trigger] self.key(j) == w && self.has_edge(i, j),
        )
    }

    /// The edge lists are indexed like the nodes, hold only node positions, and
    /// never repeat one.
    spec fn shape_ok(&self) -> bool {
        &&& self.connections@.len() == self.nodes@.len()
        &&& forall|i: int, k: int|
            0 <= i < self.connections@.len() && 0 <= k < self.connections@[i]@.len()
                ==> #[trigger] self.connections@[i]@[k] < self.nodes@.len()
        &&& forall|i: int| 0 <= i < self.connections@.len() ==> (#[trigger] self.connections@[i]@).no_duplicates()
    }

    #[verifier::type_invariant]
    spec fn wf(&self) -> bool {
        &&& self.connections@.len() == self.nodes@.len()
        &&& forall|i: int, k: int|
            0 <= i < self.connections@.len() && 0 <= k < self.connections@[i]@.len()
                ==> #[trigger] self.connections@[i]@[k] < self.nodes@.len()
        &&& forall|i: int| 0 <= i < self.connections@.len() ==> (#[trigger] self.connections@[i]@).no_duplicates()
        &&& forall|i: int, j: int|
            0 <= i < self.nodes@.len() && 0 <= j < self.nodes@.len() && i != j
                ==> #[trigger] self.nodes@[i]@ != #[trigger] self.nodes@[j]@
        &&& self.topological_ordering matches Some(o) ==> is_topological_order(
            self.view(),
            keys_of(o@),
        )
    }
}

impl<T: GraphKey> View for Graph<T> {
    type V = Map<T::V, Set<T::V>>;

    closed spec fn view(&self) -> Map<T::V, Set<T::V>> {
        Map::new(|v: T::V| self.node_keys().contains(v), |v: T::V| self.succ_keys(v))
    }
}

impl<T: GraphKey> Graph<T> {
    /// An empty graph.
    pub fn new() -> (g: Self)
        ensures
            g@ == Map::<T::V, Set<T::V>>::empty(),
            g.kept_order() is None,
    {
        let g = Graph { nodes: Vec::new(), connections: Vec::new(), topological_ordering: None };
        assert(g@ =~= Map::<T::V, Set<T::V>>::empty());
        g
    }

    /// Every node of the graph is a key of the view, and the edges of the view are
    /// those between the nodes' keys.
    proof fn lemma_view(&self)
        requires
            self.wf(),
        ensures
            forall|i: int| 0 <= i < self.n() ==> #[trigger] self@.dom().contains(self.key(i)),
            forall|v: T::V|
                #[trigger] self@.dom().contains(v) ==> exists|i: int|
                    0 <= i < self.n() && #[trigger] self.key(i) == v,
            forall|i: int, j: int|
                0 <= i < self.n() && 0 <= j < self.n() ==> (#[trigger] self@[self.key(i)].contains(
                    #[trigger] self.key(j),
                ) <==> self.has_edge(i, j)),
            edges_within(self@),
            self@.dom().finite(),
    {
        assert(self@.dom() =~= self.node_keys().to_set());
        vstd::seq_lib::seq_to_set_is_finite(self.node_keys());
        assert forall|i: int| 0 <= i < self.n() implies #[trigger] self@.dom().contains(
            self.key(i),
        ) by {
            assert(self.node_keys()[i] == self.key(i));
        }
        assert forall|v: T::V| #[trigger] self@.dom().contains(v) implies exists|i: int|
            0 <= i < self.n() && #[trigger] self.key(i) == v by {
            let i = choose|i: int| 0 <= i < self.node_keys().len() && self.node_keys()[i] == v;
            assert(self.key(i) == v);
        }
        assert forall|i: int, j: int|
            0 <= i < self.n() && 0 <= j < self.n() implies (#[trigger] self@[self.key(i)].contains(
            #[trigger] self.key(j),
        ) <==> self.has_edge(i, j)) by {
            assert(self.node_keys()[i] == self.key(i));
            if self.has_edge(i, j) {
                assert(self.succ_keys(self.key(i)).contains(self.key(j)));
            }
            if self@[self.key(i)].contains(self.key(j)) {
                let (i2, j2) = choose|i2: int, j2: int|
                    0 <= i2 < self.n() && 0 <= j2 < self.n() && #[trigger] self.key(i2) == self.key(i)
                        && #[trigger] self.key(j2) == self.key(j) && self.has_edge(i2, j2);
                assert(i2 == i);
                assert(j2 == j);
            }
        }
        assert forall|v: T::V, w: T::V|
            #[trigger] self@.dom().contains(v) && #[trigger] self@[v].contains(w) implies self@.dom().contains(w) by {
            let (i, j) = choose|i: int, j: int|
                0 <= i < self.n() && 0 <= j < self.n() && #[trigger] self.key(i) == v
                    && #[trigger] self.key(j) == w && self.has_edge(i, j);
            assert(self.node_keys()[j] == w);
        }
    }

    /// The position of the node labelled `data`, if there is one.
    fn find(&self, data: &T) -> (r: Option<usize>)
        ensures
            r matches Some(i) ==> i < self.n() && self.key(i as int) == data@,
            r is None ==> !self@.dom().contains(data@),
            r is Some ==> self@.dom().contains(data@),
    {
        proof { use_type_invariant(self); self.lemma_view(); }
        let mut i: usize = 0;
        while i < self.nodes.len()
            invariant
                i <= self.nodes@.len(),
                forall|k: int| 0 <= k < i ==> self.key(k) != data@,
            decreases self.nodes@.len() - i,
        {
            if self.nodes[i].same_key(data) {
                proof {
                    use_type_invariant(self);
                    self.lemma_view();
                }
                assert(self@.dom().contains(self.key(i as int)));
                return Some(i);
            }
            i = i + 1;
        }
        None
    }

    /// Adds a node labelled `data`; returns whether it was new. A label that is
    /// already present leaves the graph unchanged.
    pub fn add_node(&mut self, data: &T) -> (r: bool)
        ensures
            r == !old(self)@.dom().contains(data@),
            final(self)@ == (if r {
                old(self)@.insert(data@, Set::empty())
            } else {
                old(self)@
            }),
            final(self).node_keys() == (if r {
                old(self).node_keys().push(data@)
            } else {
                old(self).node_keys()
            }),
            final(self).kept_order() == (if r {
                match old(self).kept_order() {
                    Some(o) => Some(o.push(data@)),
                    None => None,
                }
            } else {
                old(self).kept_order()
            }),
    {
        if self.find(data).is_some() {
            return false;
        }
        let mut g = Graph::new();
        std::mem::swap(self, &mut g);
        proof {
            use_type_invariant(&g);
            g.lemma_view();
        }
        let Graph { mut nodes, mut connections, topological_ordering } = g;
        let ghost old_nodes = nodes@;
        let ghost old_conns = connections@;
        nodes.push(data.copy_key());
        connections.push(Vec::new());
        let ghost h = Graph { nodes, connections, topological_ordering: None };
        assert(forall|i: int| 0 <= i < old_nodes.len() ==> nodes@[i] == old_nodes[i]);
        assert(forall|i: int| 0 <= i < old_conns.len() ==> connections@[i] == old_conns[i]);
        assert forall|i: int| 0 <= i < old_nodes.len() implies #[trigger] old_nodes[i]@ != data@ by {
            assert(g.key(i) == old_nodes[i]@);
        }
        assert(forall|i: int, k: int|
            0 <= i < old_conns.len() && 0 <= k < old_conns[i]@.len() ==> #[trigger] old_conns[i]@[k] < old_nodes.len());
        assert(connections@[old_conns.len() as int]@ =~= Seq::<usize>::empty());
        assert(h.wf());
        proof {
            h.lemma_view();
            assert forall|v: T::V| #[trigger] h@.dom().contains(v) <==> g@.insert(data@, Set::empty()).dom().contains(v) by {
                if h@.dom().contains(v) {
                    let i = choose|i: int| 0 <= i < h.n() && #[trigger] h.key(i) == v;
                    if i < g.n() {
                        assert(g.key(i) == v);
                    }
                }
                if g@.dom().contains(v) {
                    let i = choose|i: int| 0 <= i < g.n() && #[trigger] g.key(i) == v;
                    assert(h.key(i) == v);
                }
                if v == data@ {
                    assert(h.key(g.n()) == v);
                }
            }
            assert forall|v: T::V| #[trigger] h@.dom().contains(v) implies h@[v] =~= g@.insert(data@, Set::empty())[v] by {
                let i = choose|i: int| 0 <= i < h.n() && #[trigger] h.key(i) == v;
                assert forall|w: T::V| h@[v].contains(w) <==> g@.insert(data@, Set::empty())[v].contains(w) by {
                    if h@[v].contains(w) {
                        let j = choose|j: int| 0 <= j < h.n() && #[trigger] h.key(j) == w;
                        assert(h.has_edge(i, j));
                        assert(i < g.n());
                        assert(connections@[i] == old_conns[i]);
                        let k = choose|k: int| 0 <= k < connections@[i]@.len() && #[trigger] connections@[i]@[k] as int == j;
                        assert(old_conns[i]@[k] < old_nodes.len());
                        assert(j < g.n());
                        assert(g.key(i) == v && g.key(j) == w);
                    }
                    if g@.insert(data@, Set::empty())[v].contains(w) {
                        assert(v != data@);
                        let i2 = choose|i: int| 0 <= i < g.n() && #[trigger] g.key(i) == v;
                        let j = choose|j: int| 0 <= j < g.n() && #[trigger] g.key(j) == w;
                        assert(g.has_edge(i2, j));
                        assert(h.key(i2) == v && h.key(j) == w);
                    }
                }
            }
            assert(h@ =~= g@.insert(data@, Set::empty()));
        }
        let topological_ordering = match topological_ordering {
            Some(mut o) => {
                let ghost oo = o@;
                o.push(data.copy_key());
                proof {
                    assert(keys_of(o@) =~= keys_of(oo).push(data@));
                    lemma_topological_order_add_node(g@, keys_of(oo), data@);
                }
                Some(o)
            },
            None => None,
        };
        proof {
            let r = Graph { nodes, connections, topological_ordering };
            lemma_same_shape_same_view(r, h);
        }
        let r = Graph { nodes, connections, topological_ordering };
        assert(keys_of(r.nodes@) =~= keys_of(old_nodes).push(data@));
        *self = r;
        true
    }

    /// The number of nodes.
    pub fn node_count(&self) -> (r: usize)
        ensures
            r == self.node_keys().len(),
    {
        self.nodes.len()
    }

    /// The position, in the order of addition, of the node labelled `data`.
    pub fn index_of(&self, data: &T) -> (r: Option<usize>)
        ensures
            r matches Some(i) ==> i < self.node_keys().len() && self.node_keys()[i as int] == data@,
            r is None <==> !self.node_keys().contains(data@),
    {
        proof { use_type_invariant(self); self.lemma_view(); }
        let r = self.find(data);
        proof {
            if let Some(i) = r {
                assert(self.node_keys()[i as int] == data@);
            }
            if self.node_keys().contains(data@) {
                let i = choose|i: int| 0 <= i < self.node_keys().len() && self.node_keys()[i] == data@;
                assert(self.key(i) == data@);
            }
        }
        r
    }

    /// Whether node `i` has an edge to node `j`.
    fn edge_between(&self, i: usize, j: usize) -> (r: bool)
        requires
            i < self.n(),
        ensures
            r == self.has_edge(i as int, j as int),
    {
        proof { use_type_invariant(self); }
        let list = &self.connections[i];
        let mut k: usize = 0;
        while k < list.len()
            invariant
                k <= list@.len(),
                list@ == self.connections@[i as int]@,
                forall|m: int| 0 <= m < k ==> list@[m] != j,
            decreases list@.len() - k,
        {
            if list[k] == j {
                return true;
            }
            k = k + 1;
        }
        false
    }

    /// Adds an edge from the node labelled `source` to the node labelled `target`;
    /// returns whether it was added. Nothing changes when either node is missing or
    /// the edge is already there.
    pub fn add_connection(&mut self, source: &T, target: &T) -> (r: bool)
        ensures
            r == (old(self)@.dom().contains(source@) && old(self)@.dom().contains(target@)
                && !old(self)@[source@].contains(target@)),
            final(self)@ == (if r {
                old(self)@.insert(source@, old(self)@[source@].insert(target@))
            } else {
                old(self)@
            }),
            final(self).node_keys() == old(self).node_keys(),
            final(self).kept_order() == (if r {
                None
            } else {
                old(self).kept_order()
            }),
    {
        proof {
            use_type_invariant(&*self);
            self.lemma_view();
        }
        let si = match self.find(source) {
            Some(i) => i,
            None => return false,
        };
        let ti = match self.find(target) {
            Some(i) => i,
            None => return false,
        };
        if self.edge_between(si, ti) {
            return false;
        }
        let mut g = Graph::new();
        std::mem::swap(self, &mut g);
        proof {
            use_type_invariant(&g);
            g.lemma_view();
        }
        let Graph { nodes, mut connections, topological_ordering: _ } = g;
        let ghost old_conns = connections@;
        let mut list = Vec::new();
        std::mem::swap(&mut list, &mut connections[si]);
        let ghost old_list = list@;
        list.push(ti);
        connections.set(si, list);
        let ghost h = Graph { nodes, connections, topological_ordering: None };
        assert forall|i: int| 0 <= i < connections@.len() && i != si implies connections@[i] == old_conns[i] by {}
        assert(connections@[si as int]@ == old_list.push(ti));
        assert(old_list == old_conns[si as int]@);
        assert forall|i: int, k: int|
            0 <= i < connections@.len() && 0 <= k < connections@[i]@.len() implies #[trigger] connections@[i]@[k] < nodes@.len() by {
            if i != si || k < old_list.len() {
                assert(old_conns[i]@[k] < nodes@.len());
            }
        }
        assert forall|i: int| 0 <= i < connections@.len() implies (#[trigger] connections@[i]@).no_duplicates() by {
            if i == si {
                assert(old_conns[i]@.no_duplicates());
                assert forall|k: int| 0 <= k < old_list.len() implies old_list[k] != ti by {
                    assert(old_list[k] as int != ti as int);
                }
            } else {
                assert(old_conns[i]@.no_duplicates());
            }
        }
        assert(h.wf());
        proof {
            h.lemma_view();
            let expected = g@.insert(source@, g@[source@].insert(target@));
            assert(g.key(si as int) == source@ && g.key(ti as int) == target@);
            assert forall|i: int, j: int| 0 <= i < h.n() && 0 <= j < h.n() implies (h.has_edge(i, j) <==> (g.has_edge(i, j) || (i == si && j == ti))) by {
                if i != si {
                    if h.has_edge(i, j) {
                        let k = choose|k: int| 0 <= k < connections@[i]@.len() && #[trigger] connections@[i]@[k] as int == j;
                        assert(old_conns[i]@[k] as int == j);
                    }
                    if g.has_edge(i, j) {
                        let k = choose|k: int| 0 <= k < old_conns[i]@.len() && #[trigger] old_conns[i]@[k] as int == j;
                        assert(connections@[i]@[k] as int == j);
                    }
                } else {
                    if h.has_edge(i, j) && j != ti {
                        let k = choose|k: int| 0 <= k < connections@[i]@.len() && #[trigger] connections@[i]@[k] as int == j;
                        assert(old_conns[i]@[k] as int == j);
                    }
                    if g.has_edge(i, j) {
                        let k = choose|k: int| 0 <= k < old_conns[i]@.len() && #[trigger] old_conns[i]@[k] as int == j;
                        assert(connections@[i]@[k] as int == j);
                    }
                    if j == ti {
                        assert(connections@[i]@[old_list.len() as int] as int == j);
                    }
                }
            }
            assert forall|v: T::V| #[trigger] h@.dom().contains(v) <==> expected.dom().contains(v) by {
                if h@.dom().contains(v) {
                    let i = choose|i: int| 0 <= i < h.n() && #[trigger] h.key(i) == v;
                    assert(g.key(i) == v);
                }
                if g@.dom().contains(v) {
                    let i = choose|i: int| 0 <= i < g.n() && #[trigger] g.key(i) == v;
                    assert(h.key(i) == v);
                }
            }
            assert forall|v: T::V| #[trigger] h@.dom().contains(v) implies h@[v] =~= expected[v] by {
                let i = choose|i: int| 0 <= i < h.n() && #[trigger] h.key(i) == v;
                assert(g.key(i) == v);
                assert forall|w: T::V| h@[v].contains(w) <==> expected[v].contains(w) by {
                    if h@[v].contains(w) {
                        let j = choose|j: int| 0 <= j < h.n() && #[trigger] h.key(j) == w;
                        assert(g.key(j) == w);
                    }
                    if expected[v].contains(w) {
                        if v == source@ && w == target@ {
                            assert(h.key(ti as int) == w);
                        } else {
                            let j = choose|j: int| 0 <= j < g.n() && #[trigger] g.key(j) == w;
                            assert(h.key(j) == w);
                        }
                    }
                }
            }
            assert(h@ =~= expected);
        }
        *self = Graph { nodes, connections, topological_ordering: None };
        proof {
            lemma_same_shape_same_view(*self, h);
        }
        true
    }

    /// The number of nodes `w` below `lim` with an edge to `v` that are not in `done`.
    closed spec fn pending(&self, v: int, done: Set<int>, lim: int) -> nat
        decreases lim,
    {
        if lim <= 0 {
            0
        } else {
            self.pending(v, done, lim - 1) + if self.has_edge(lim - 1, v) && !done.contains(lim - 1) {
                1nat
            } else {
                0nat
            }
        }
    }

    proof fn lemma_pending_bound(&self, v: int, done: Set<int>, lim: int)
        requires
            lim >= 0,
        ensures
            self.pending(v, done, lim) <= lim,
        decreases lim,
    {
        if lim > 0 {
            self.lemma_pending_bound(v, done, lim - 1);
        }
    }

    proof fn lemma_pending_emit(&self, v: int, done: Set<int>, u: int, lim: int)
        requires
            !done.contains(u),
        ensures
            self.pending(v, done.insert(u), lim) + (if 0 <= u < lim && self.has_edge(u, v) {
                1int
            } else {
                0int
            }) == self.pending(v, done, lim),
        decreases lim,
    {
        if lim > 0 {
            self.lemma_pending_emit(v, done, u, lim - 1);
        }
    }

    proof fn lemma_pending_zero(&self, v: int, done: Set<int>, lim: int, w: int)
        requires
            self.pending(v, done, lim) == 0,
            0 <= w < lim,
            self.has_edge(w, v),
        ensures
            done.contains(w),
        decreases lim,
    {
        if w < lim - 1 {
            self.lemma_pending_zero(v, done, lim - 1, w);
        }
    }

    proof fn lemma_pending_positive(&self, v: int, done: Set<int>, lim: int)
        requires
            self.pending(v, done, lim) > 0,
        ensures
            exists|w: int| 0 <= w < lim && self.has_edge(w, v) && !done.contains(w),
        decreases lim,
    {
        if lim > 0 && self.pending(v, done, lim - 1) > 0 {
            self.lemma_pending_positive(v, done, lim - 1);
        }
    }

    /// When every node outside `done` has a predecessor outside `done`, no
    /// topological order exists: follow predecessors backwards through the order.
    proof fn lemma_no_topological_order(&self, done: Set<int>, order: Seq<T::V>, r: int, p: int)
        requires
            self.wf(),
            0 <= r < self.n(),
            !done.contains(r),
            0 <= p < order.len(),
            order[p] == self.key(r),
            forall|v: int|
                0 <= v < self.n() && !done.contains(v) ==> exists|w: int|
                    0 <= w < self.n() && self.has_edge(w, v) && !done.contains(w),
        ensures
            !is_topological_order(self@, order),
        decreases p,
    {
        if !is_topological_order(self@, order) {
            return;
        }
        self.lemma_view();
        let w = choose|w: int| 0 <= w < self.n() && self.has_edge(w, r) && !done.contains(w);
        assert(self@.dom().contains(self.key(w)));
        assert(order.contains(self.key(w)));
        let p2 = choose|p2: int| 0 <= p2 < order.len() && order[p2] == self.key(w);
        assert(self@[self.key(w)].contains(self.key(r)));
        assert(self@[order[p2]].contains(order[p]));
        self.lemma_no_topological_order(done, order, w, p2);
    }

    /// Copies of the labels in `v`.
    fn copy_keys(v: &Vec<T>) -> (r: Vec<T>)
        ensures
            keys_of(r@) == keys_of(v@),
    {
        let mut r: Vec<T> = Vec::new();
        let mut i: usize = 0;
        while i < v.len()
            invariant
                i <= v@.len(),
                r@.len() == i,
                forall|k: int| 0 <= k < i ==> #[trigger] r@[k]@ == v@[k]@,
            decreases v@.len() - i,
        {
            r.push(v[i].copy_key());
            i = i + 1;
        }
        assert(keys_of(r@) =~= keys_of(v@));
        r
    }

    /// An ordering of all nodes in which every edge goes forward, or `None` when the
    /// graph has a cycle. The graph is unchanged; a found ordering is kept and handed
    /// out again until the edges change.
    pub fn topological_order(&mut self) -> (r: Option<Vec<T>>)
        ensures
            final(self)@ == old(self)@,
            final(self).node_keys() == old(self).node_keys(),
            r matches Some(o) ==> is_topological_order(old(self)@, keys_of(o@)),
            r is None ==> !is_acyclic(old(self)@),
            old(self).kept_order() matches Some(k) ==> r matches Some(o) && keys_of(o@) == k,
            final(self).kept_order() == (match r {
                Some(o) => Some(keys_of(o@)),
                None => None,
            }),
    {
        proof {
            use_type_invariant(&*self);
            self.lemma_view();
        }
        assert(self.shape_ok());
        if let Some(o) = &self.topological_ordering {
            return Some(Self::copy_keys(o));
        }
        let n = self.nodes.len();
        let mut in_degrees: Vec<usize> = vec![0usize; n];
        let ghost empty = Set::<int>::empty();
        let mut i: usize = 0;
        while i < n
            invariant
                n == self.nodes@.len(),
                self.shape_ok(),
                i <= n,
                in_degrees@.len() == n,
                empty == Set::<int>::empty(),
                forall|v: int| 0 <= v < n ==> #[trigger] in_degrees@[v] == self.pending(v, empty, i as int),
            decreases n - i,
        {
            let list = &self.connections[i];
            let mut k: usize = 0;
            while k < list.len()
                invariant
                    n == self.nodes@.len(),
                    self.shape_ok(),
                    i < n,
                    k <= list@.len(),
                    list@ == self.connections@[i as int]@,
                    in_degrees@.len() == n,
                    empty == Set::<int>::empty(),
                    forall|v: int| 0 <= v < n ==> #[trigger] in_degrees@[v] == self.pending(v, empty, i as int) + (
                        if exists|m: int| 0 <= m < k && #[trigger] list@[m] as int == v { 1int } else { 0int }),
                decreases list@.len() - k,
            {
                let c = list[k];
                assert(c < n);
                proof {
                    self.lemma_pending_bound(c as int, empty, i as int);
                    assert(list@.no_duplicates());
                    assert(!exists|m: int| 0 <= m < k && #[trigger] list@[m] as int == c as int);
                }
                let d = in_degrees[c];
                in_degrees.set(c, d + 1);
                k = k + 1;
                assert forall|v: int| 0 <= v < n implies #[trigger] in_degrees@[v] == self.pending(v, empty, i as int) + (
                        if exists|m: int| 0 <= m < k && #[trigger] list@[m] as int == v { 1int } else { 0int }) by {
                    if v == c as int {
                        assert(list@[k - 1] as int == v);
                    } else {
                        if exists|m: int| 0 <= m < k && #[trigger] list@[m] as int == v {
                            let m = choose|m: int| 0 <= m < k && #[trigger] list@[m] as int == v;
                            assert(m < k - 1);
                        }
                    }
                }
            }
            assert forall|v: int| 0 <= v < n implies #[trigger] in_degrees@[v] == self.pending(v, empty, i + 1) by {
                assert(self.has_edge(i as int, v) == exists|m: int| 0 <= m < list@.len() && #[trigger] list@[m] as int == v);
                assert(!empty.contains(i as int));
                assert(self.pending(v, empty, i + 1) == self.pending(v, empty, i as int) + if self.has_edge(i as int, v) { 1nat } else { 0nat });
            }
            i = i + 1;
        }
        let mut zero: Vec<usize> = Vec::new();
        let mut i: usize = 0;
        while i < n
            invariant
                n == self.nodes@.len(),
                i <= n,
                in_degrees@.len() == n,
                zero@.no_duplicates(),
                forall|k: int| 0 <= k < zero@.len() ==> #[trigger] zero@[k] < i,
                forall|v: int| 0 <= v < i ==> (stacked(zero@, v) == (#[trigger] in_degrees@[v] == 0usize)),
            decreases n - i,
        {
            let ghost z0 = zero@;
            if in_degrees[i] == 0 {
                zero.push(i);
            }
            assert forall|v: int| 0 <= v < i + 1 implies (stacked(zero@, v) == (#[trigger] in_degrees@[v] == 0usize)) by {
                reveal(stacked);
                if v < i {
                    if stacked(z0, v) {
                        let k = choose|k: int| 0 <= k < z0.len() && z0[k] == v as usize;
                        assert(zero@[k] == v as usize);
                    }
                    if stacked(zero@, v) {
                        let k = choose|k: int| 0 <= k < zero@.len() && zero@[k] == v as usize;
                        if k < z0.len() {
                            assert(z0[k] == v as usize);
                        }
                    }
                } else {
                    if in_degrees@[v] == 0 {
                        assert(zero@[zero@.len() - 1] == i);
                    } else if stacked(zero@, v) {
                        let k = choose|k: int| 0 <= k < zero@.len() && zero@[k] == v as usize;
                        assert(z0[k] < i);
                    }
                }
            }
            i = i + 1;
        }
        let mut order: Vec<T> = Vec::new();
        let ghost mut done = Set::<int>::empty();
        let ghost mut out = Seq::<int>::empty();
        proof {
            assert forall|v: int| 0 <= v < n implies #[trigger] in_degrees@[v] == self.pending(v, done, n as int) by {
                assert(in_degrees@[v] == self.pending(v, empty, n as int));
            }
            reveal(zero_ok);
        }
        while zero.len() > 0
            invariant
                n == self.nodes@.len(),
                self.shape_ok(),
                in_degrees@.len() == n,
                zero_ok(zero@, in_degrees@, done, n as int),
                forall|v: int| 0 <= v < n ==> #[trigger] in_degrees@[v] == self.pending(v, done, n as int),
                out.no_duplicates(),
                forall|k: int| 0 <= k < out.len() ==> 0 <= #[trigger] out[k] < n,
                forall|v: int| done.contains(v) <==> out.contains(v),
                forall|w: int, v: int| 0 <= w < n && 0 <= v < n && self.has_edge(w, v) && #[trigger] done.contains(v) ==> #[trigger] done.contains(w),
                forall|a: int, b: int| 0 <= a < out.len() && 0 <= b < out.len() && self.has_edge(#[trigger] out[a], #[trigger] out[b]) ==> a < b,
                order@.len() == out.len(),
                forall|k: int| 0 <= k < out.len() ==> #[trigger] order@[k]@ == self.key(out[k]),
            decreases n - out.len(),
        {
            proof { lemma_index_sequence(out, n as int); }
            let ghost z0 = zero@;
            let ghost old_done = done;
            proof { lemma_zero_pop(z0, in_degrees@, done, n as int); }
            let u = zero.pop().unwrap();
            proof {
                assert(u == z0.last());
                assert(zero@ == z0.drop_last());
                assert(in_degrees@[u as int] == self.pending(u as int, done, n as int));
                assert forall|w: int| 0 <= w < n && self.has_edge(w, u as int) implies done.contains(w) by {
                    self.lemma_pending_zero(u as int, done, n as int, w);
                }
                if !out.contains(u as int) && out.len() >= n {
                    assert(forall|v: int| 0 <= v < n ==> out.contains(v));
                }
                let out0 = out;
                done = done.insert(u as int);
                out = out.push(u as int);
                assert forall|v: int| done.contains(v) <==> out.contains(v) by {
                    if out0.contains(v) {
                        let k = choose|k: int| 0 <= k < out0.len() && out0[k] == v;
                        assert(out[k] == v);
                    }
                    if out.contains(v) && v != u as int {
                        let k = choose|k: int| 0 <= k < out.len() && out[k] == v;
                        assert(out0[k] == v);
                    }
                    if v == u as int {
                        assert(out[out0.len() as int] == v);
                    }
                }
            }
            order.push(self.nodes[u].copy_key());
            assert forall|a: int, b: int| 0 <= a < out.len() && 0 <= b < out.len() && self.has_edge(#[trigger] out[a], #[trigger] out[b]) implies a < b by {
                if b == out.len() - 1 && a == out.len() - 1 {
                    assert(old_done.contains(u as int));
                } else if a == out.len() - 1 {
                    assert(old_done.contains(out[b]));
                    assert(old_done.contains(u as int));
                }
            }
            assert forall|v: int| 0 <= v < n implies #[trigger] in_degrees@[v] == self.pending(v, done, n as int) + (
                    if exists|m: int| 0 <= m < self.connections@[u as int]@.len() && #[trigger] self.connections@[u as int]@[m] as int == v { 1int } else { 0int }) by {
                self.lemma_pending_emit(v, old_done, u as int, n as int);
            }
            let list = &self.connections[u];
            let mut k: usize = 0;
            while k < list.len()
                invariant
                    n == self.nodes@.len(),
                    self.shape_ok(),
                    u < n,
                    done.contains(u as int),
                    k <= list@.len(),
                    list@ == self.connections@[u as int]@,
                    in_degrees@.len() == n,
                    zero_ok(zero@, in_degrees@, done, n as int),
                    forall|v: int| 0 <= v < n ==> #[trigger] in_degrees@[v] == self.pending(v, done, n as int) + (
                        if exists|m: int| k <= m < list@.len() && #[trigger] list@[m] as int == v { 1int } else { 0int }),
                    old_done == done.remove(u as int),
                    !old_done.contains(u as int),
                    self.pending(u as int, old_done, n as int) == 0,
                    forall|w: int, v: int| 0 <= w < n && 0 <= v < n && self.has_edge(w, v) && #[trigger] old_done.contains(v) ==> #[trigger] old_done.contains(w),
                decreases list@.len() - k,
            {
                let c = list[k];
                assert(c < n);
                assert(list@.no_duplicates());
                assert(list@[k as int] as int == c as int);
                assert(in_degrees@[c as int] >= 1);
                proof {
                    assert(self.has_edge(u as int, c as int));
                    if c == u {
                        self.lemma_pending_emit(u as int, old_done, u as int, n as int);
                    }
                    if c != u && done.contains(c as int) {
                        assert(old_done.contains(c as int));
                    }
                    assert(!done.contains(c as int));
                }
                let d = in_degrees[c];
                let ghost deg0 = in_degrees@;
                in_degrees.set(c, d - 1);
                proof { lemma_zero_decrement(zero@, deg0, done, n as int, c); }
                if d - 1 == 0 {
                    zero.push(c);
                }
                k = k + 1;
                assert forall|v: int| 0 <= v < n implies #[trigger] in_degrees@[v] == self.pending(v, done, n as int) + (
                        if exists|m: int| k <= m < list@.len() && #[trigger] list@[m] as int == v { 1int } else { 0int }) by {
                    if v != c as int {
                        if exists|m: int| k - 1 <= m < list@.len() && #[trigger] list@[m] as int == v {
                            let m = choose|m: int| k - 1 <= m < list@.len() && #[trigger] list@[m] as int == v;
                            assert(m != k - 1);
                        }
                    } else {
                        if exists|m: int| k <= m < list@.len() && #[trigger] list@[m] as int == v {
                            let m = choose|m: int| k <= m < list@.len() && #[trigger] list@[m] as int == v;
                            assert(list@[m] == list@[k - 1]);
                        }
                    }
                }
            }
            assert forall|v: int| 0 <= v < n implies #[trigger] in_degrees@[v] == self.pending(v, done, n as int) by {}
        }
        proof {
            lemma_index_sequence(out, n as int);
            assert forall|v: int| 0 <= v < n && !done.contains(v) implies exists|w: int|
                0 <= w < n && self.has_edge(w, v) && !done.contains(w) by {
                lemma_zero_empty(zero@, in_degrees@, done, n as int, v);
                assert(in_degrees@[v] == self.pending(v, done, n as int));
                self.lemma_pending_positive(v, done, n as int);
            }
        }
        if order.len() == n {
            proof {
                assert(forall|v: int| 0 <= v < n ==> out.contains(v));
                let ko = keys_of(order@);
                assert forall|a: int, b: int| 0 <= a < ko.len() && 0 <= b < ko.len() && a != b implies ko[a] != ko[b] by {
                    assert(out[a] != out[b]);
                }
                assert forall|v: T::V| self@.dom().contains(v) <==> ko.contains(v) by {
                    if self@.dom().contains(v) {
                        let i = choose|i: int| 0 <= i < self.n() && #[trigger] self.key(i) == v;
                        assert(out.contains(i));
                        let k = choose|k: int| 0 <= k < out.len() && out[k] == i;
                        assert(ko[k] == v);
                    }
                    if ko.contains(v) {
                        let k = choose|k: int| 0 <= k < ko.len() && ko[k] == v;
                        assert(self.key(out[k]) == v);
                    }
                }
                assert forall|a: int, b: int|
                    0 <= a < ko.len() && 0 <= b < ko.len() && #[trigger] self@[ko[a]].contains(#[trigger] ko[b]) implies a < b by {
                    assert(ko[a] == self.key(out[a]) && ko[b] == self.key(out[b]));
                }
                assert(is_topological_order(self@, ko));
            }
            let cached = Self::copy_keys(&order);
            proof {
                lemma_same_shape_same_view(
                    Graph { nodes: self.nodes, connections: self.connections, topological_ordering: Some(cached) },
                    *self,
                );
            }
            self.topological_ordering = Some(cached);
            Some(order)
        } else {
            proof {
                if exists|ord: Seq<T::V>| is_topological_order(self@, ord) {
                    let ord = choose|ord: Seq<T::V>| is_topological_order(self@, ord);
                    let r = choose|r: int| 0 <= r < n && !out.contains(r);
                    assert(self@.dom().contains(self.key(r)));
                    assert(ord.contains(self.key(r)));
                    let p = choose|p: int| 0 <= p < ord.len() && ord[p] == self.key(r);
                    self.lemma_no_topological_order(done, ord, r, p);
                    assert(false);
                }
            }
            None
        }
    }

    /// Whether node `j` has an edge to a node labelled `data`.
    fn has_successor_labelled(&self, j: usize, data: &T) -> (r: bool)
        requires
            j < self.n(),
        ensures
            r == self@[self.key(j as int)].contains(data@),
    {
        proof {
            use_type_invariant(self);
            self.lemma_view();
        }
        let list = &self.connections[j];
        let mut k: usize = 0;
        while k < list.len()
            invariant
                self.shape_ok(),
                j < self.n(),
                k <= list@.len(),
                list@ == self.connections@[j as int]@,
                forall|m: int| 0 <= m < k ==> self.key(list@[m] as int) != data@,
            decreases list@.len() - k,
        {
            let t = list[k];
            if self.nodes[t].same_key(data) {
                proof {
                    use_type_invariant(self);
                    self.lemma_view();
                    assert(self.connections@[j as int]@[k as int] as int == t as int);
                    assert(self.has_edge(j as int, t as int));
                    assert(self@[self.key(j as int)].contains(self.key(t as int)));
                }
                return true;
            }
            k = k + 1;
        }
        proof {
            use_type_invariant(self);
            self.lemma_view();
            if self@[self.key(j as int)].contains(data@) {
                assert(self@.dom().contains(data@));
                let t = choose|t: int| 0 <= t < self.n() && #[trigger] self.key(t) == data@;
                assert(self.has_edge(j as int, t));
                let m = choose|m: int| 0 <= m < self.connections@[j as int]@.len() && #[trigger] self.connections@[j as int]@[m] as int == t;
                assert(self.key(list@[m] as int) == data@);
            }
        }
        false
    }

    /// Whether every node and edge of `self` is also one of `other`.
    fn included_in(&self, other: &Self) -> (r: bool)
        ensures
            r == (self@.dom().subset_of(other@.dom()) && forall|v: T::V| #[trigger] self@.dom().contains(v) ==> self@[v].subset_of(other@[v])),
    {
        proof {
            use_type_invariant(self);
            use_type_invariant(other);
            self.lemma_view();
            other.lemma_view();
        }
        let mut i: usize = 0;
        while i < self.nodes.len()
            invariant
                self.shape_ok(),
                other.shape_ok(),
                i <= self.n(),
                forall|a: int| 0 <= a < i ==> #[trigger] other@.dom().contains(self.key(a)),
                forall|a: int| 0 <= a < i ==> #[trigger] self@[self.key(a)].subset_of(other@[self.key(a)]),
            decreases self.n() - i,
        {
            let j = match other.find(&self.nodes[i]) {
                Some(j) => j,
                None => {
                    proof {
                        use_type_invariant(self);
                        self.lemma_view();
                        assert(self@.dom().contains(self.key(i as int)));
                    }
                    return false;
                },
            };
            let list = &self.connections[i];
            let mut k: usize = 0;
            while k < list.len()
                invariant
                    self.shape_ok(),
                    other.shape_ok(),
                    i < self.n(),
                    j < other.n(),
                    other.key(j as int) == self.key(i as int),
                    k <= list@.len(),
                    list@ == self.connections@[i as int]@,
                    forall|m: int| 0 <= m < k ==> #[trigger] other@[self.key(i as int)].contains(self.key(list@[m] as int)),
                decreases list@.len() - k,
            {
                let t = list[k];
                if !other.has_successor_labelled(j, &self.nodes[t]) {
                    proof {
                        use_type_invariant(self);
                        self.lemma_view();
                        assert(self.has_edge(i as int, t as int));
                        assert(self@[self.key(i as int)].contains(self.key(t as int)));
                        assert(self@.dom().contains(self.key(i as int)));
                        assert(!self@[self.key(i as int)].subset_of(other@[self.key(i as int)]));
                    }
                    return false;
                }
                k = k + 1;
            }
            proof {
                use_type_invariant(self);
                self.lemma_view();
                assert(self@.dom().contains(self.key(i as int)));
                assert forall|w: T::V| #[trigger] self@[self.key(i as int)].contains(w) implies other@[self.key(i as int)].contains(w) by {
                    assert(self@.dom().contains(w));
                    let t = choose|t: int| 0 <= t < self.n() && #[trigger] self.key(t) == w;
                    assert(self@[self.key(i as int)].contains(self.key(t)));
                    assert(self.has_edge(i as int, t));
                    let m = choose|m: int| 0 <= m < self.connections@[i as int]@.len() && #[trigger] self.connections@[i as int]@[m] as int == t;
                    assert(other@[self.key(i as int)].contains(self.key(list@[m] as int)));
                }
            }
            i = i + 1;
        }
        proof {
            use_type_invariant(self);
            self.lemma_view();
            assert forall|v: T::V| #[trigger] self@.dom().contains(v) implies other@.dom().contains(v) && self@[v].subset_of(other@[v]) by {
                let a = choose|a: int| 0 <= a < self.n() && #[trigger] self.key(a) == v;
                assert(other@.dom().contains(self.key(a)));
            }
        }
        true
    }

    /// Whether the two graphs have the same nodes and the same edges, whatever
    /// order they were added in.
    pub fn same_graph(&self, other: &Self) -> (r: bool)
        ensures
            r == (self@ == other@),
    {
        let a = self.included_in(other);
        let b = other.included_in(self);
        proof {
            if a && b {
                assert(self@.dom() =~= other@.dom());
                assert forall|v: T::V| #[trigger] self@.dom().contains(v) implies self@[v] =~= other@[v] by {}
                assert(self@ =~~= other@);
            }
        }
        a && b
    }

    /// A graph with the same nodes and edges.
    pub fn copy_graph(&self) -> (r: Self)
        ensures
            r@ == self@,
            r.node_keys() == self.node_keys(),
            r.kept_order() == self.kept_order(),
    {
        proof { use_type_invariant(self); }
        let nodes = Self::copy_keys(&self.nodes);
        let mut connections: Vec<Vec<usize>> = Vec::new();
        let mut i: usize = 0;
        while i < self.connections.len()
            invariant
                self.shape_ok(),
                i <= self.connections@.len(),
                connections@.len() == i,
                forall|a: int| 0 <= a < i ==> #[trigger] connections@[a]@ == self.connections@[a]@,
            decreases self.connections@.len() - i,
        {
            let list = &self.connections[i];
            let mut copy: Vec<usize> = Vec::new();
            let mut k: usize = 0;
            while k < list.len()
                invariant
                    k <= list@.len(),
                    copy@ == list@.subrange(0, k as int),
                decreases list@.len() - k,
            {
                copy.push(list[k]);
                k = k + 1;
                assert(copy@ =~= list@.subrange(0, k as int));
            }
            assert(copy@ =~= list@);
            connections.push(copy);
            i = i + 1;
        }
        let ghost g = Graph { nodes, connections, topological_ordering: None };
        assert(keys_of(nodes@).len() == keys_of(self.nodes@).len());
        assert forall|a: int| 0 <= a < nodes@.len() implies #[trigger] nodes@[a]@ == self.nodes@[a]@ by {
            assert(keys_of(nodes@)[a] == keys_of(self.nodes@)[a]);
        }
        proof {
            assert(g.key(0) == g.key(0));
            assert forall|a: int, b: int| 0 <= a < nodes@.len() && 0 <= b < nodes@.len() && a != b implies #[trigger] nodes@[a]@ != #[trigger] nodes@[b]@ by {
                assert(self.nodes@[a]@ != self.nodes@[b]@);
            }
            assert forall|a: int, k: int| 0 <= a < connections@.len() && 0 <= k < connections@[a]@.len() implies #[trigger] connections@[a]@[k] < nodes@.len() by {
                assert(self.connections@[a]@[k] < self.nodes@.len());
            }
            assert forall|a: int| 0 <= a < connections@.len() implies (#[trigger] connections@[a]@).no_duplicates() by {
                assert(self.connections@[a]@.no_duplicates());
            }
            assert forall|v: T::V| g.succ_keys(v) =~= self.succ_keys(v) by {
                assert forall|w: T::V| g.succ_keys(v).contains(w) implies self.succ_keys(v).contains(w) by {
                    let (i, j) = choose|i: int, j: int|
                        0 <= i < g.n() && 0 <= j < g.n() && #[trigger] g.key(i) == v
                            && #[trigger] g.key(j) == w && g.has_edge(i, j);
                    assert(g.connections@[i]@ == self.connections@[i]@);
                    assert(self.key(i) == v && self.key(j) == w);
                    let k = choose|k: int| 0 <= k < g.connections@[i]@.len() && #[trigger] g.connections@[i]@[k] as int == j;
                    assert(self.connections@[i]@[k] as int == j);
                    assert(self.has_edge(i, j));
                }
                assert forall|w: T::V| self.succ_keys(v).contains(w) implies g.succ_keys(v).contains(w) by {
                    let (i, j) = choose|i: int, j: int|
                        0 <= i < self.n() && 0 <= j < self.n() && #[trigger] self.key(i) == v
                            && #[trigger] self.key(j) == w && self.has_edge(i, j);
                    assert(g.connections@[i]@ == self.connections@[i]@);
                    assert(g.key(i) == v && g.key(j) == w);
                    let k = choose|k: int| 0 <= k < self.connections@[i]@.len() && #[trigger] self.connections@[i]@[k] as int == j;
                    assert(g.connections@[i]@[k] as int == j);
                    assert(g.has_edge(i, j));
                }
            }
            assert(g.node_keys() =~= self.node_keys());
            assert(g@ =~~= self@);
        }
        let topological_ordering = match &self.topological_ordering {
            Some(o) => Some(Self::copy_keys(o)),
            None => None,
        };
        proof {
            lemma_same_shape_same_view(Graph { nodes, connections, topological_ordering }, g);
        }
        Graph { nodes, connections, topological_ordering }
    }
}

/// Whether the index `v` is on the stack `zero`.
#[verifier::opaque]
spec fn stacked(zero: Seq<usize>, v: int) -> bool {
    zero.contains(v as usize)
}

/// The stack `zero` holds, once each, exactly the nodes below `n` that are not
/// in `done` and have no pending predecessor.
#[verifier::opaque]
spec fn zero_ok(zero: Seq<usize>, deg: Seq<usize>, done: Set<int>, n: int) -> bool {
    &&& zero.no_duplicates()
    &&& forall|k: int| 0 <= k < zero.len() ==> #[trigger] zero[k] < n
    &&& forall|v: int| 0 <= v < n ==> (#[trigger] stacked(zero, v) == (!done.contains(v) && deg[v] == 0usize))
}

proof fn lemma_zero_pop(zero: Seq<usize>, deg: Seq<usize>, done: Set<int>, n: int)
    requires
        zero_ok(zero, deg, done, n),
        zero.len() > 0,
        n <= usize::MAX,
    ensures
        zero.last() < n,
        !done.contains(zero.last() as int),
        deg[zero.last() as int] == 0,
        zero_ok(zero.drop_last(), deg, done.insert(zero.last() as int), n),
{
    reveal(zero_ok);
    reveal(stacked);
    let u = zero.last();
    assert(zero[zero.len() - 1] == u);
    assert(stacked(zero, u as int));
    let d = zero.drop_last();
    assert forall|v: int| 0 <= v < n implies (#[trigger] stacked(d, v) == (!done.insert(u as int).contains(v) && deg[v] == 0usize)) by {
        assert(stacked(zero, v) == (!done.contains(v) && deg[v] == 0usize));
        if stacked(zero, v) && v != u as int {
            let k = choose|k: int| 0 <= k < zero.len() && zero[k] == v as usize;
            assert(k != zero.len() - 1);
            assert(d[k] == v as usize);
        }
        if stacked(d, v) {
            let k = choose|k: int| 0 <= k < d.len() && d[k] == v as usize;
            assert(zero[k] == v as usize);
            assert(k != zero.len() - 1);
        }
    }
    assert forall|k: int| 0 <= k < d.len() implies #[trigger] d[k] < n by {
        assert(zero[k] < n);
    }
}

proof fn lemma_zero_decrement(zero: Seq<usize>, deg: Seq<usize>, done: Set<int>, n: int, c: usize)
    requires
        zero_ok(zero, deg, done, n),
        c < n,
        n <= usize::MAX,
        deg.len() == n,
        deg[c as int] >= 1,
        !done.contains(c as int),
    ensures
        ({
            let deg2 = deg.update(c as int, (deg[c as int] - 1) as usize);
            if deg2[c as int] == 0 {
                zero_ok(zero.push(c), deg2, done, n)
            } else {
                zero_ok(zero, deg2, done, n)
            }
        }),
{
    reveal(zero_ok);
    reveal(stacked);
    let deg2 = deg.update(c as int, (deg[c as int] - 1) as usize);
    assert(stacked(zero, c as int) == (!done.contains(c as int) && deg[c as int] == 0usize));
    if deg2[c as int] == 0 {
        let p = zero.push(c);
        assert(!zero.contains(c));
        assert forall|v: int| 0 <= v < n implies (#[trigger] stacked(p, v) == (!done.contains(v) && deg2[v] == 0usize)) by {
            assert(stacked(zero, v) == (!done.contains(v) && deg[v] == 0usize));
            if stacked(zero, v) {
                let k = choose|k: int| 0 <= k < zero.len() && zero[k] == v as usize;
                assert(p[k] == v as usize);
            }
            if v == c as int {
                assert(p[zero.len() as int] == c);
            }
            if stacked(p, v) && v != c as int {
                let k = choose|k: int| 0 <= k < p.len() && p[k] == v as usize;
                assert(zero[k] == v as usize);
            }
        }
        assert forall|k: int| 0 <= k < p.len() implies #[trigger] p[k] < n by {
            if k < zero.len() {
                assert(zero[k] < n);
            }
        }
    } else {
        assert forall|v: int| 0 <= v < n implies (#[trigger] stacked(zero, v) == (!done.contains(v) && deg2[v] == 0usize)) by {
            assert(stacked(zero, v) == (!done.contains(v) && deg[v] == 0usize));
        }
    }
}

proof fn lemma_zero_empty(zero: Seq<usize>, deg: Seq<usize>, done: Set<int>, n: int, v: int)
    requires
        zero_ok(zero, deg, done, n),
        zero.len() == 0,
        0 <= v < n,
        !done.contains(v),
    ensures
        deg[v] != 0,
{
    reveal(zero_ok);
    reveal(stacked);
    assert(stacked(zero, v) == (!done.contains(v) && deg[v] == 0usize));
}

/// A duplicate-free sequence of indices below `n` has at most `n` entries, and
/// has exactly `n` just when it holds every index below `n`.
proof fn lemma_index_sequence(s: Seq<int>, n: int)
    requires
        s.no_duplicates(),
        n >= 0,
        forall|k: int| 0 <= k < s.len() ==> 0 <= #[trigger] s[k] < n,
    ensures
        s.len() <= n,
        s.len() == n <==> forall|v: int| 0 <= v < n ==> s.contains(v),
{
    let range = vstd::set_lib::set_int_range(0, n);
    vstd::set_lib::lemma_int_range(0, n);
    s.unique_seq_to_set();
    assert(s.to_set().subset_of(range));
    vstd::set_lib::lemma_len_subset(s.to_set(), range);
    if s.len() == n {
        vstd::set_lib::lemma_subset_equality(s.to_set(), range);
        assert forall|v: int| 0 <= v < n implies s.contains(v) by {
            assert(range.contains(v));
            assert(s.to_set().contains(v));
        }
    }
    if forall|v: int| 0 <= v < n ==> s.contains(v) {
        assert(range.subset_of(s.to_set()));
        vstd::set_lib::lemma_len_subset(range, s.to_set());
    }
}

/// Two graphs with the same nodes and edges have the same view, whatever they
/// have cached.
proof fn lemma_same_shape_same_view<T: GraphKey>(a: Graph<T>, b: Graph<T>)
    requires
        a.nodes == b.nodes,
        a.connections == b.connections,
    ensures
        a@ == b@,
{
    assert forall|v: T::V| a.succ_keys(v) =~= b.succ_keys(v) by {
        assert forall|w: T::V| a.succ_keys(v).contains(w) implies b.succ_keys(v).contains(w) by {
            let (i, j) = choose|i: int, j: int|
                0 <= i < a.n() && 0 <= j < a.n() && #[trigger] a.key(i) == v
                    && #[trigger] a.key(j) == w && a.has_edge(i, j);
            assert(b.key(i) == v && b.key(j) == w && b.has_edge(i, j));
        }
        assert forall|w: T::V| b.succ_keys(v).contains(w) implies a.succ_keys(v).contains(w) by {
            let (i, j) = choose|i: int, j: int|
                0 <= i < b.n() && 0 <= j < b.n() && #[trigger] b.key(i) == v
                    && #[trigger] b.key(j) == w && b.has_edge(i, j);
            assert(a.key(i) == v && a.key(j) == w && a.has_edge(i, j));
        }
    }
    assert(a.node_keys() =~= b.node_keys());
    assert(a@ =~~= b@);
}

/// Appending a fresh, unconnected node to a topological order gives a
/// topological order of the extended graph.
proof fn lemma_topological_order_add_node<V>(g: Map<V, Set<V>>, order: Seq<V>, v: V)
    requires
        is_topological_order(g, order),
        !g.dom().contains(v),
        edges_within(g),
    ensures
        is_topological_order(g.insert(v, Set::empty()), order.push(v)),
{
    let g2 = g.insert(v, Set::empty());
    let o2 = order.push(v);
    assert forall|i: int, j: int|
        0 <= i < o2.len() && 0 <= j < o2.len() && #[trigger] g2[o2[i]].contains(#[trigger] o2[j]) implies i < j by {
        if i == order.len() {
            assert(g2[o2[i]] == Set::<V>::empty());
        } else if j == order.len() {
            assert(order.contains(order[i]));
            assert(g2[o2[i]] == g[order[i]]);
            assert(g.dom().contains(order[i]));
        } else {
            assert(o2[i] == order[i] && o2[j] == order[j]);
            assert(order.contains(order[i]));
        }
    }
    assert(o2.no_duplicates()) by {
        assert(!order.contains(v));
    }
    assert forall|w: V| g2.dom().contains(w) <==> o2.contains(w) by {
        if o2.contains(w) && w != v {
            let k = choose|k: int| 0 <= k < o2.len() && o2[k] == w;
            assert(order[k] == w);
        }
        if order.contains(w) {
            let k = choose|k: int| 0 <= k < order.len() && order[k] == w;
            assert(o2[k] == w);
        }
        if w == v {
            assert(o2[order.len() as int] == w);
        }
    }
}

// ----- Walks, reachability and strongly connected components -----

/// `p` is a walk in `g`: nodes of `g`, each with an edge to the next.
pub open spec fn is_walk<V>(g: Map<V, Set<V>>, p: Seq<V>) -> bool {
    &&& p.len() >= 1
    &&& forall|k: int| 0 <= k < p.len() ==> g.dom().contains(#[trigger] p[k])
    &&& forall|k: int| 0 <= k < p.len() - 1 ==> #[trigger] g[p[k]].contains(p[k + 1])
}

/// Some walk in `g` leads from `a` to `b`.
pub open spec fn reaches<V>(g: Map<V, Set<V>>, a: V, b: V) -> bool {
    exists|p: Seq<V>| is_walk(g, p) && p[0] == a && p.last() == b
}

/// `a` and `b` each reach the other.
pub open spec fn mutually_reachable<V>(g: Map<V, Set<V>>, a: V, b: V) -> bool {
    reaches(g, a, b) && reaches(g, b, a)
}

/// `c` is a strongly connected component of `g`: the nodes of `g` that reach a
/// node `v` of `c` and are reached from it, with the edges of `g` among them.
pub open spec fn is_component<V>(g: Map<V, Set<V>>, c: Map<V, Set<V>>) -> bool {
    &&& exists|v: V|
        c.dom().contains(v) && forall|w: V| #[trigger] c.dom().contains(w) <==> (g.dom().contains(w) && mutually_reachable(g, v, w))
    &&& forall|w: V| #[trigger] c.dom().contains(w) ==> c[w] == g[w].intersect(c.dom())
}

/// `dag` is the graph of the strongly connected components of `g`: each of its
/// nodes is a component, every node of `g` lies in one, and one component has an
/// edge to another exactly when one of its nodes has an edge in `g` to one of the
/// other's.
#[verifier::opaque]
pub open spec fn is_condensation<V>(g: Map<V, Set<V>>, dag: Map<Map<V, Set<V>>, Set<Map<V, Set<V>>>>) -> bool {
    &&& forall|c: Map<V, Set<V>>| #[trigger] dag.dom().contains(c) ==> is_component(g, c)
    &&& forall|v: V| #[trigger] g.dom().contains(v) ==> exists|c: Map<V, Set<V>>| #[trigger] dag.dom().contains(c) && c.dom().contains(v)
    &&& forall|c1: Map<V, Set<V>>, c2: Map<V, Set<V>>|
        #[trigger] dag.dom().contains(c1) && #[trigger] dag.dom().contains(c2) ==> (dag[c1].contains(c2) <==> (c1 != c2
            && exists|v: V, w: V| c1.dom().contains(v) && c2.dom().contains(w) && #[trigger] g[v].contains(w)))
}

/// A node of `g` reaches itself.
pub proof fn lemma_reaches_itself<V>(g: Map<V, Set<V>>, a: V)
    requires
        g.dom().contains(a),
    ensures
        reaches(g, a, a),
{
    let p = seq![a];
    assert(is_walk(g, p));
    assert(p.last() == a);
}

/// A walk to `b` continues along an edge from `b`.
pub proof fn lemma_reaches_step<V>(g: Map<V, Set<V>>, a: V, b: V, c: V)
    requires
        reaches(g, a, b),
        g.dom().contains(c),
        g[b].contains(c),
    ensures
        reaches(g, a, c),
{
    let p = choose|p: Seq<V>| is_walk(g, p) && p[0] == a && p.last() == b;
    let q = p.push(c);
    assert forall|k: int| 0 <= k < q.len() - 1 implies #[trigger] g[q[k]].contains(q[k + 1]) by {
        if k < p.len() - 1 {
            assert(q[k] == p[k] && q[k + 1] == p[k + 1]);
        } else {
            assert(q[k] == p.last());
        }
    }
    assert forall|k: int| 0 <= k < q.len() implies g.dom().contains(#[trigger] q[k]) by {
        if k < p.len() {
            assert(q[k] == p[k]);
        }
    }
    assert(is_walk(g, q));
    assert(q[0] == a && q.last() == c);
}

/// Reachability is transitive.
pub proof fn lemma_reaches_trans<V>(g: Map<V, Set<V>>, a: V, b: V, c: V)
    requires
        reaches(g, a, b),
        reaches(g, b, c),
    ensures
        reaches(g, a, c),
{
    let p = choose|p: Seq<V>| is_walk(g, p) && p[0] == a && p.last() == b;
    let q = choose|q: Seq<V>| is_walk(g, q) && q[0] == b && q.last() == c;
    let r = p + q.drop_first();
    assert forall|k: int| 0 <= k < r.len() implies g.dom().contains(#[trigger] r[k]) by {
        if k < p.len() {
            assert(r[k] == p[k]);
        } else {
            assert(r[k] == q[k - p.len() + 1]);
        }
    }
    assert forall|k: int| 0 <= k < r.len() - 1 implies #[trigger] g[r[k]].contains(r[k + 1]) by {
        if k < p.len() - 1 {
            assert(r[k] == p[k] && r[k + 1] == p[k + 1]);
        } else if k == p.len() - 1 {
            assert(r[k] == p.last());
            assert(r[k + 1] == q[1]);
            assert(g[q[0]].contains(q[1]));
        } else {
            assert(r[k] == q[k - p.len() + 1] && r[k + 1] == q[k - p.len() + 2]);
        }
    }
    assert(is_walk(g, r));
    if q.len() == 1 {
        assert(r =~= p);
    } else {
        assert(r.last() == q.last());
    }
}

/// How many entries are true.
spec fn count_true(s: Seq<bool>) -> nat
    decreases s.len(),
{
    if s.len() == 0 {
        0
    } else {
        count_true(s.drop_last()) + if s.last() {
            1nat
        } else {
            0nat
        }
    }
}

proof fn lemma_count_true(s: Seq<bool>, j: int)
    requires
        0 <= j < s.len(),
        !s[j],
    ensures
        count_true(s.update(j, true)) == count_true(s) + 1,
        count_true(s) < s.len(),
    decreases s.len(),
{
    let t = s.update(j, true);
    if j == s.len() - 1 {
        assert(t.drop_last() =~= s.drop_last());
        lemma_count_true_bound(s.drop_last());
    } else {
        assert(t.drop_last() =~= s.drop_last().update(j, true));
        lemma_count_true(s.drop_last(), j);
    }
}

proof fn lemma_count_true_bound(s: Seq<bool>)
    ensures
        count_true(s) <= s.len(),
    decreases s.len(),
{
    if s.len() > 0 {
        lemma_count_true_bound(s.drop_last());
    }
}

impl<T: GraphKey> Graph<T> {
    /// Every node of a walk from `key(s)` is marked, when the marked nodes include
    /// `s` and every successor of a marked node.
    proof fn lemma_walk_marked(&self, marked: Seq<bool>, s: int, p: Seq<T::V>, k: int)
        requires
            self.wf(),
            marked.len() == self.n(),
            0 <= s < self.n(),
            marked[s],
            forall|u: int, w: int| 0 <= u < self.n() && 0 <= w < self.n() && marked[u] && #[trigger] self.has_edge(u, w) ==> marked[w],
            is_walk(self@, p),
            p[0] == self.key(s),
            0 <= k < p.len(),
        ensures
            forall|i: int| 0 <= i < self.n() && #[trigger] self.key(i) == p[k] ==> marked[i],
        decreases k,
    {
        self.lemma_view();
        if k == 0 {
            assert forall|i: int| 0 <= i < self.n() && #[trigger] self.key(i) == p[k] implies marked[i] by {
                assert(i == s);
            }
        } else {
            self.lemma_walk_marked(marked, s, p, k - 1);
            assert(self@.dom().contains(p[k - 1]));
            let u = choose|u: int| 0 <= u < self.n() && #[trigger] self.key(u) == p[k - 1];
            assert(marked[u]);
            let j = k - 1;
            assert(self@[p[j]].contains(p[j + 1]));
            assert(p[j + 1] == p[k]);
            assert forall|i: int| 0 <= i < self.n() && #[trigger] self.key(i) == p[k] implies marked[i] by {
                assert(self@[self.key(u)].contains(self.key(i)));
                assert(self.has_edge(u, i));
            }
        }
    }

    /// The nodes that node `s` reaches.
    #[verifier::loop_isolation(false)]
    fn reach_from(&self, s: usize) -> (r: Vec<bool>)
        requires
            s < self.n(),
        ensures
            r@.len() == self.n(),
            forall|j: int| 0 <= j < self.n() ==> #[trigger] r@[j] == reaches(self@, self.key(s as int), self.key(j)),
    {
        proof {
            use_type_invariant(self);
            self.lemma_view();
        }
        let n = self.nodes.len();
        let mut marked: Vec<bool> = Vec::new();
        let mut i: usize = 0;
        while i < n
            invariant
                i <= n,
                marked@.len() == i,
                forall|j: int| 0 <= j < i ==> !marked@[j],
            decreases n - i,
        {
            marked.push(false);
            i = i + 1;
        }
        proof {
            lemma_count_true(marked@, s as int);
            assert(count_true(marked@) == 0) by {
                assert forall|m: int| 0 <= m <= n implies count_true(#[trigger] marked@.take(m)) == 0 by {
                    lemma_prefix_count_false(marked@, m);
                }
                assert(marked@.take(n as int) =~= marked@);
            }
            lemma_reaches_itself(self@, self.key(s as int));
        }
        let ghost unmarked = marked@;
        marked.set(s, true);
        let mut stack: Vec<usize> = Vec::new();
        stack.push(s);
        let mut pushes: usize = 1;
        proof {
            assert(stack@ =~= seq![s]);
            assert forall|u: int| 0 <= u < n && #[trigger] marked@[u] implies u == s by {
                if u != s {
                    assert(marked@[u] == unmarked[u]);
                }
            }
            assert(stack@[0] == s);
            assert(stack@.contains(s));
        }
        while stack.len() > 0
            invariant
                n == self.n(),
                marked@.len() == n,
                marked@[s as int],
                pushes == count_true(marked@),
                pushes <= n,
                stack@.no_duplicates(),
                forall|k: int| 0 <= k < stack@.len() ==> #[trigger] stack@[k] < n && marked@[stack@[k] as int],
                forall|j: int| 0 <= j < n && #[trigger] marked@[j] ==> reaches(self@, self.key(s as int), self.key(j)),
                forall|u: int, w: int|
                    0 <= u < n && 0 <= w < n && marked@[u] && !stack@.contains(u as usize) && #[trigger] self.has_edge(u, w)
                        ==> marked@[w],
            decreases n - pushes, stack@.len(),
        {
            let ghost stack0 = stack@;
            let u = match stack.pop() {
                Some(u) => u,
                None => 0,
            };
            assert(stack0.last() == u);
            assert(stack@ =~= stack0.drop_last());
            assert(!stack@.contains(u)) by {
                if stack@.contains(u) {
                    let k = choose|k: int| 0 <= k < stack@.len() && stack@[k] == u;
                    assert(stack0[k] == stack0[stack0.len() - 1]);
                }
            }
            assert forall|k: int| 0 <= k < stack@.len() implies #[trigger] stack@[k] < n && marked@[stack@[k] as int] by {
                assert(stack@[k] == stack0[k]);
            }
            assert(marked@[u as int]);
            assert forall|v: usize| v != u implies (#[trigger] stack@.contains(v) == stack0.contains(v)) by {
                if stack0.contains(v) {
                    let m = choose|m: int| 0 <= m < stack0.len() && stack0[m] == v;
                    assert(m != stack0.len() - 1);
                    assert(stack@[m] == v);
                }
                if stack@.contains(v) {
                    let m = choose|m: int| 0 <= m < stack@.len() && stack@[m] == v;
                    assert(stack0[m] == v);
                }
            }
            let list = &self.connections[u];
            let ghost p0 = pushes;
            let ghost l0 = stack@.len();
            let mut k: usize = 0;
            while k < list.len()
                invariant
                    pushes >= p0,
                    stack@.len() == l0 + (pushes - p0),
                    n == self.n(),
                    u < n,
                    list@ == self.connections@[u as int]@,
                    k <= list@.len(),
                    marked@.len() == n,
                    marked@[s as int],
                    marked@[u as int],
                    !stack@.contains(u),
                    pushes == count_true(marked@),
                    pushes <= n,
                    stack@.no_duplicates(),
                    forall|m: int| 0 <= m < stack@.len() ==> #[trigger] stack@[m] < n && marked@[stack@[m] as int],
                    forall|j: int| 0 <= j < n && #[trigger] marked@[j] ==> reaches(self@, self.key(s as int), self.key(j)),
                    forall|v: int, w: int|
                        0 <= v < n && 0 <= w < n && v != u && marked@[v] && !stack@.contains(v as usize)
                            && #[trigger] self.has_edge(v, w) ==> marked@[w],
                    forall|m: int| 0 <= m < k ==> marked@[#[trigger] list@[m] as int],
                decreases list@.len() - k,
            {
                let w = list[k];
                assert(w < n);
                if !marked[w] {
                    proof {
                        lemma_count_true(marked@, w as int);
                        assert(self.has_edge(u as int, w as int));
                        assert(self@[self.key(u as int)].contains(self.key(w as int)));
                        lemma_reaches_step(self@, self.key(s as int), self.key(u as int), self.key(w as int));
                    }
                    let ghost st0 = stack@;
                    marked.set(w, true);
                    stack.push(w);
                    pushes = pushes + 1;
                    proof {
                        assert(!st0.contains(w)) by {
                            if st0.contains(w) {
                                let m = choose|m: int| 0 <= m < st0.len() && st0[m] == w;
                                assert(marked@.len() == n);
                            }
                        }
                        assert forall|v: usize| v != w implies (#[trigger] stack@.contains(v) == st0.contains(v)) by {
                            if stack@.contains(v) {
                                let m = choose|m: int| 0 <= m < stack@.len() && stack@[m] == v;
                                if m < st0.len() {
                                    assert(st0[m] == v);
                                }
                            }
                            if st0.contains(v) {
                                let m = choose|m: int| 0 <= m < st0.len() && st0[m] == v;
                                assert(stack@[m] == v);
                            }
                        }
                        assert(stack@[stack@.len() - 1] == w);
                    }
                }
                k = k + 1;
            }
            assert forall|w: int| 0 <= w < n && #[trigger] self.has_edge(u as int, w) implies marked@[w] by {
                let m = choose|m: int| 0 <= m < self.connections@[u as int]@.len() && #[trigger] self.connections@[u as int]@[m] as int == w;
                assert(list@[m] as int == w);
            }
        }
        proof {
            assert forall|j: int| 0 <= j < n implies #[trigger] marked@[j] == reaches(self@, self.key(s as int), self.key(j)) by {
                if reaches(self@, self.key(s as int), self.key(j)) {
                    let p = choose|p: Seq<T::V>| is_walk(self@, p) && p[0] == self.key(s as int) && p.last() == self.key(j);
                    self.lemma_walk_marked(marked@, s as int, p, p.len() - 1);
                }
            }
        }
        marked
    }
}

proof fn lemma_prefix_count_false(s: Seq<bool>, m: int)
    requires
        0 <= m <= s.len(),
        forall|j: int| 0 <= j < s.len() ==> !s[j],
    ensures
        count_true(s.take(m)) == 0,
    decreases m,
{
    if m > 0 {
        assert(s.take(m).drop_last() =~= s.take(m - 1));
        lemma_prefix_count_false(s, m - 1);
    }
}

/// The subgraph of `g` on the nodes of `keep`: those nodes, with the edges of `g`
/// between them.
pub open spec fn restrict<V>(g: Map<V, Set<V>>, keep: Set<V>) -> Map<V, Set<V>> {
    Map::new(|v: V| g.dom().contains(v) && keep.contains(v), |v: V| g[v].intersect(keep))
}

impl<T: GraphKey> Graph<T> {
    /// The keys of the nodes whose flag is set.
    spec fn kept_keys(&self, keep: Seq<bool>) -> Set<T::V> {
        Set::new(|v: T::V| exists|i: int| 0 <= i < self.n() && keep[i] && #[trigger] self.key(i) == v)
    }

    /// The edge from node `u` to node `w` comes before the `k`-th edge of node `ul`.
    spec fn edge_before(&self, u: int, w: int, ul: int, k: int) -> bool {
        ||| u < ul && self.has_edge(u, w)
        ||| u == ul && exists|m: int| 0 <= m < k && m < self.connections@[u]@.len() && #[trigger] self.connections@[u]@[m] as int == w
    }

    /// The kept successors of `v` along the edges before the `k`-th edge of node `ul`.
    spec fn edges_so_far(&self, keep: Seq<bool>, ul: int, k: int, v: T::V) -> Set<T::V> {
        Set::new(
            |x: T::V|
                exists|u: int, w: int|
                    0 <= u < self.n() && 0 <= w < self.n() && keep[u] && keep[w] && #[trigger] self.key(u) == v
                        && #[trigger] self.key(w) == x && self.edge_before(u, w, ul, k),
        )
    }

    /// The subgraph on the nodes whose flag is set in `keep`.
    #[verifier::loop_isolation(false)]
    fn induced(&self, keep: &Vec<bool>) -> (r: Self)
        requires
            keep@.len() == self.n(),
        ensures
            r@ == restrict(self@, self.kept_keys(keep@)),
    {
        proof {
            use_type_invariant(self);
            self.lemma_view();
        }
        let n = self.nodes.len();
        let ghost kk = self.kept_keys(keep@);
        let mut g: Graph<T> = Graph::new();
        let mut i: usize = 0;
        while i < n
            invariant
                n == self.n(),
                i <= n,
                g@ == Map::new(
                    |v: T::V| exists|a: int| 0 <= a < i && keep@[a] && #[trigger] self.key(a) == v,
                    |v: T::V| Set::<T::V>::empty(),
                ),
            decreases n - i,
        {
            if keep[i] {
                let ghost g0 = g@;
                assert(!g0.dom().contains(self.key(i as int))) by {
                    if g0.dom().contains(self.key(i as int)) {
                        let a = choose|a: int| 0 <= a < i && keep@[a] && #[trigger] self.key(a) == self.key(i as int);
                        assert(self.nodes@[a]@ != self.nodes@[i as int]@);
                    }
                }
                g.add_node(&self.nodes[i]);
                assert(g@ =~~= Map::new(
                    |v: T::V| exists|a: int| 0 <= a < i + 1 && keep@[a] && #[trigger] self.key(a) == v,
                    |v: T::V| Set::<T::V>::empty(),
                )) by {
                    assert forall|v: T::V| g@.dom().contains(v) <==> (exists|a: int| 0 <= a < i + 1 && keep@[a] && #[trigger] self.key(a) == v) by {
                        if g0.dom().contains(v) {
                            let a = choose|a: int| 0 <= a < i && keep@[a] && #[trigger] self.key(a) == v;
                            assert(0 <= a < i + 1 && keep@[a] && self.key(a) == v);
                        }
                        if exists|a: int| 0 <= a < i + 1 && keep@[a] && #[trigger] self.key(a) == v {
                            let a = choose|a: int| 0 <= a < i + 1 && keep@[a] && #[trigger] self.key(a) == v;
                            if a < i {
                                assert(g0.dom().contains(v));
                            }
                        }
                    }
                }
            } else {
                assert(g@ =~~= Map::new(
                    |v: T::V| exists|a: int| 0 <= a < i + 1 && keep@[a] && #[trigger] self.key(a) == v,
                    |v: T::V| Set::<T::V>::empty(),
                )) by {
                    assert forall|v: T::V| g@.dom().contains(v) <==> (exists|a: int| 0 <= a < i + 1 && keep@[a] && #[trigger] self.key(a) == v) by {
                        if exists|a: int| 0 <= a < i + 1 && keep@[a] && #[trigger] self.key(a) == v {
                            let a = choose|a: int| 0 <= a < i + 1 && keep@[a] && #[trigger] self.key(a) == v;
                            assert(a != i);
                            assert(g@.dom().contains(v));
                        }
                    }
                }
            }
            i = i + 1;
        }
        proof {
            assert forall|v: T::V| g@.dom().contains(v) implies g@[v] =~= self.edges_so_far(keep@, 0, 0, v) by {
                assert forall|x: T::V| !self.edges_so_far(keep@, 0, 0, v).contains(x) by {
                    if self.edges_so_far(keep@, 0, 0, v).contains(x) {
                        let (u, w) = choose|u: int, w: int|
                            0 <= u < self.n() && 0 <= w < self.n() && keep@[u] && keep@[w] && #[trigger] self.key(u) == v
                                && #[trigger] self.key(w) == x && self.edge_before(u, w, 0, 0);
                        assert(!self.edge_before(u, w, 0, 0));
                    }
                }
            }
        }
        let mut u: usize = 0;
        while u < n
            invariant
                n == self.n(),
                u <= n,
                forall|v: T::V| #[trigger] g@.dom().contains(v) <==> kk.contains(v),
                forall|v: T::V| #[trigger] g@.dom().contains(v) ==> g@[v] == self.edges_so_far(keep@, u as int, 0, v),
            decreases n - u,
        {
            let list = &self.connections[u];
            let mut k: usize = 0;
            while k < list.len()
                invariant
                    n == self.n(),
                    u < n,
                    list@ == self.connections@[u as int]@,
                    k <= list@.len(),
                    forall|v: T::V| #[trigger] g@.dom().contains(v) <==> kk.contains(v),
                    forall|v: T::V| #[trigger] g@.dom().contains(v) ==> g@[v] == self.edges_so_far(keep@, u as int, k as int, v),
                decreases list@.len() - k,
            {
                let w = list[k];
                let ghost g0 = g@;
                if keep[u] && keep[w] {
                    g.add_connection(&self.nodes[u], &self.nodes[w]);
                    proof {
                        assert(kk.contains(self.key(u as int)));
                        assert(kk.contains(self.key(w as int)));
                        self.lemma_edges_step(keep@, u as int, k as int, g0, g@, true);
                    }
                } else {
                    proof {
                        self.lemma_edges_step(keep@, u as int, k as int, g0, g@, false);
                    }
                }
                k = k + 1;
            }
            proof {
                assert forall|v: T::V| #[trigger] g@.dom().contains(v) implies g@[v] =~= self.edges_so_far(keep@, u + 1, 0, v) by {
                    assert forall|x: T::V| self.edges_so_far(keep@, u as int, list@.len() as int, v).contains(x)
                        == self.edges_so_far(keep@, u + 1, 0, v).contains(x) by {
                        if self.edges_so_far(keep@, u as int, list@.len() as int, v).contains(x) {
                            let (a, b) = choose|a: int, b: int|
                                0 <= a < self.n() && 0 <= b < self.n() && keep@[a] && keep@[b] && #[trigger] self.key(a) == v
                                    && #[trigger] self.key(b) == x && self.edge_before(a, b, u as int, list@.len() as int);
                            if a == u {
                                assert(self.has_edge(a, b));
                            }
                            assert(self.edge_before(a, b, u + 1, 0));
                        }
                        if self.edges_so_far(keep@, u + 1, 0, v).contains(x) {
                            let (a, b) = choose|a: int, b: int|
                                0 <= a < self.n() && 0 <= b < self.n() && keep@[a] && keep@[b] && #[trigger] self.key(a) == v
                                    && #[trigger] self.key(b) == x && self.edge_before(a, b, u + 1, 0);
                            if a == u {
                                let m = choose|m: int| 0 <= m < self.connections@[a]@.len() && #[trigger] self.connections@[a]@[m] as int == b;
                                assert(self.edge_before(a, b, u as int, list@.len() as int));
                            }
                        }
                    }
                }
            }
            u = u + 1;
        }
        proof {
            let target = restrict(self@, kk);
            assert forall|v: T::V| #[trigger] g@.dom().contains(v) <==> target.dom().contains(v) by {
                if kk.contains(v) {
                    let a = choose|a: int| 0 <= a < self.n() && keep@[a] && #[trigger] self.key(a) == v;
                    assert(self@.dom().contains(v));
                }
            }
            assert forall|v: T::V| #[trigger] g@.dom().contains(v) implies g@[v] =~= target[v] by {
                let a = choose|a: int| 0 <= a < self.n() && keep@[a] && #[trigger] self.key(a) == v;
                assert forall|x: T::V| g@[v].contains(x) <==> target[v].contains(x) by {
                    if g@[v].contains(x) {
                        let (a2, b) = choose|a2: int, b: int|
                            0 <= a2 < self.n() && 0 <= b < self.n() && keep@[a2] && keep@[b] && #[trigger] self.key(a2) == v
                                && #[trigger] self.key(b) == x && self.edge_before(a2, b, n as int, 0);
                        assert(self@[self.key(a2)].contains(self.key(b)));
                        assert(kk.contains(x));
                    }
                    if target[v].contains(x) {
                        assert(self@[v].contains(x));
                        assert(kk.contains(x));
                        let b = choose|b: int| 0 <= b < self.n() && keep@[b] && #[trigger] self.key(b) == x;
                        assert(self@[self.key(a)].contains(self.key(b)));
                        assert(self.has_edge(a, b));
                        assert(self.edge_before(a, b, n as int, 0));
                        assert(self.edges_so_far(keep@, n as int, 0, v).contains(x));
                    }
                }
            }
            assert(g@ =~~= target);
        }
        g
    }

    /// One more edge considered: the edge to `conn[ul][k]` is added when both its
    /// nodes are kept.
    proof fn lemma_edges_step(&self, keep: Seq<bool>, ul: int, k: int, g0: Map<T::V, Set<T::V>>, g1: Map<T::V, Set<T::V>>, added: bool)
        requires
            self.wf(),
            keep.len() == self.n(),
            0 <= ul < self.n(),
            0 <= k < self.connections@[ul]@.len(),
            forall|v: T::V| #[trigger] g0.dom().contains(v) <==> self.kept_keys(keep).contains(v),
            forall|v: T::V| #[trigger] g0.dom().contains(v) ==> g0[v] == self.edges_so_far(keep, ul, k, v),
            added == (keep[ul] && keep[self.connections@[ul]@[k] as int]),
            added ==> g1 == (if g0.dom().contains(self.key(ul)) && g0.dom().contains(self.key(self.connections@[ul]@[k] as int))
                && !g0[self.key(ul)].contains(self.key(self.connections@[ul]@[k] as int)) {
                g0.insert(self.key(ul), g0[self.key(ul)].insert(self.key(self.connections@[ul]@[k] as int)))
            } else {
                g0
            }),
            !added ==> g1 == g0,
        ensures
            forall|v: T::V| #[trigger] g1.dom().contains(v) <==> self.kept_keys(keep).contains(v),
            forall|v: T::V| #[trigger] g1.dom().contains(v) ==> g1[v] == self.edges_so_far(keep, ul, k + 1, v),
    {
        self.lemma_view();
        let w0 = self.connections@[ul]@[k] as int;
        assert(w0 < self.n());
        assert forall|v: T::V| #[trigger] g1.dom().contains(v) implies g1[v] =~= self.edges_so_far(keep, ul, k + 1, v) by {
            assert(g0.dom().contains(v));
            assert forall|x: T::V| g1[v].contains(x) <==> self.edges_so_far(keep, ul, k + 1, v).contains(x) by {
                if self.edges_so_far(keep, ul, k + 1, v).contains(x) {
                    let (a, b) = choose|a: int, b: int|
                        0 <= a < self.n() && 0 <= b < self.n() && keep[a] && keep[b] && #[trigger] self.key(a) == v
                            && #[trigger] self.key(b) == x && self.edge_before(a, b, ul, k + 1);
                    if a == ul && !(exists|m: int| 0 <= m < k && m < self.connections@[a]@.len() && #[trigger] self.connections@[a]@[m] as int == b) {
                        let m = choose|m: int| 0 <= m < k + 1 && m < self.connections@[a]@.len() && #[trigger] self.connections@[a]@[m] as int == b;
                        assert(m == k);
                        assert(b == w0);
                        assert(added);
                        assert(self.kept_keys(keep).contains(self.key(ul)));
                        assert(self.kept_keys(keep).contains(self.key(w0)));
                    } else {
                        assert(self.edge_before(a, b, ul, k));
                        assert(self.edges_so_far(keep, ul, k, v).contains(x));
                    }
                }
                if g1[v].contains(x) {
                    if g0[v].contains(x) {
                        let (a, b) = choose|a: int, b: int|
                            0 <= a < self.n() && 0 <= b < self.n() && keep[a] && keep[b] && #[trigger] self.key(a) == v
                                && #[trigger] self.key(b) == x && self.edge_before(a, b, ul, k);
                        if a == ul {
                            let m = choose|m: int| 0 <= m < k && m < self.connections@[a]@.len() && #[trigger] self.connections@[a]@[m] as int == b;
                            assert(self.edge_before(a, b, ul, k + 1));
                        } else {
                            assert(self.edge_before(a, b, ul, k + 1));
                        }
                    } else {
                        assert(added);
                        assert(v == self.key(ul) && x == self.key(w0));
                        assert(self.connections@[ul]@[k] as int == w0);
                        assert(self.edge_before(ul, w0, ul, k + 1));
                    }
                }
            }
        }
    }
}

/// Mutual reachability is an equivalence on the nodes of `g`.
pub proof fn lemma_mutual_equivalence<V>(g: Map<V, Set<V>>, a: V, b: V, c: V)
    ensures
        g.dom().contains(a) ==> mutually_reachable(g, a, a),
        mutually_reachable(g, a, b) ==> mutually_reachable(g, b, a),
        mutually_reachable(g, a, b) && mutually_reachable(g, b, c) ==> mutually_reachable(g, a, c),
{
    if g.dom().contains(a) {
        lemma_reaches_itself(g, a);
    }
    if mutually_reachable(g, a, b) && mutually_reachable(g, b, c) {
        lemma_reaches_trans(g, a, b, c);
        lemma_reaches_trans(g, c, b, a);
    }
}

impl<T: GraphKey> Graph<T> {
    /// The nodes of component `c`, by their keys.
    spec fn class_keys(&self, comp: Seq<usize>, c: int) -> Set<T::V> {
        Set::new(|v: T::V| exists|j: int| 0 <= j < self.n() && comp[j] as int == c && #[trigger] self.key(j) == v)
    }

    /// For each node, the nodes it reaches.
    fn reach_table(&self) -> (r: Vec<Vec<bool>>)
        ensures
            r@.len() == self.n(),
            forall|a: int| 0 <= a < self.n() ==> (#[trigger] r@[a])@.len() == self.n(),
            forall|a: int, j: int| 0 <= a < self.n() && 0 <= j < self.n() ==> (#[trigger] r@[a]@[j]) == reaches(self@, self.key(a), self.key(j)),
    {
        let n = self.nodes.len();
        let mut reach: Vec<Vec<bool>> = Vec::new();
        let mut i: usize = 0;
        while i < n
            invariant
                n == self.n(),
                i <= n,
                reach@.len() == i,
                forall|a: int| 0 <= a < i ==> (#[trigger] reach@[a])@.len() == n,
                forall|a: int, j: int| 0 <= a < i && 0 <= j < n ==> (#[trigger] reach@[a]@[j]) == reaches(self@, self.key(a), self.key(j)),
            decreases n - i,
        {
            let row = self.reach_from(i);
            reach.push(row);
            i = i + 1;
        }
        reach
    }

    /// Numbers the strongly connected components: two nodes get the same number
    /// exactly when they reach each other. Returns the numbers and how many there
    /// are, with a node of each component.
    fn number_components(&self, reach: &Vec<Vec<bool>>) -> (r: (Vec<usize>, usize, Ghost<Seq<int>>))
        requires
            reach@.len() == self.n(),
            forall|a: int| 0 <= a < self.n() ==> (#[trigger] reach@[a])@.len() == self.n(),
            forall|a: int, j: int| 0 <= a < self.n() && 0 <= j < self.n() ==> (#[trigger] reach@[a]@[j]) == reaches(self@, self.key(a), self.key(j)),
        ensures
            r.0@.len() == self.n(),
            r.1 <= self.n(),
            r.2@.len() == r.1,
            forall|j: int| 0 <= j < self.n() ==> (#[trigger] r.0@[j]) < r.1,
            forall|c: int| 0 <= c < r.1 ==> 0 <= #[trigger] r.2@[c] < self.n() && r.0@[r.2@[c]] as int == c,
            forall|j: int, c: int| 0 <= j < self.n() && 0 <= c < r.1 ==> ((#[trigger] r.0@[j] as int == c) == mutually_reachable(
                self@,
                self.key(#[trigger] r.2@[c]),
                self.key(j),
            )),
    {
        proof {
            use_type_invariant(self);
            self.lemma_view();
        }
        let n = self.nodes.len();
        let mut comp: Vec<usize> = Vec::new();
        let mut j: usize = 0;
        while j < n
            invariant
                j <= n,
                comp@.len() == j,
                forall|a: int| 0 <= a < j ==> comp@[a] == n,
            decreases n - j,
        {
            comp.push(n);
            j = j + 1;
        }
        let mut count: usize = 0;
        let ghost mut reps: Seq<int> = Seq::empty();
        let mut i: usize = 0;
        while i < n
            invariant
                n == self.n(),
                i <= n,
                comp@.len() == n,
                reach@.len() == n,
                forall|a: int| 0 <= a < n ==> (#[trigger] reach@[a])@.len() == n,
                forall|a: int, b: int| 0 <= a < n && 0 <= b < n ==> (#[trigger] reach@[a]@[b]) == reaches(self@, self.key(a), self.key(b)),
                count <= i,
                reps.len() == count,
                forall|b: int| 0 <= b < n ==> comp@[b] == n || (#[trigger] comp@[b]) < count,
                forall|b: int| 0 <= b < i ==> (#[trigger] comp@[b]) < count,
                forall|c: int| 0 <= c < count ==> 0 <= #[trigger] reps[c] < n && comp@[reps[c]] as int == c,
                forall|b: int, c: int| 0 <= b < n && 0 <= c < count ==> ((#[trigger] comp@[b] as int == c) == mutually_reachable(
                    self@,
                    self.key(#[trigger] reps[c]),
                    self.key(b),
                )),
            decreases n - i,
        {
            if comp[i] == n {
                let ghost comp0 = comp@;
                let mut j: usize = 0;
                while j < n
                    invariant
                        n == self.n(),
                        i < n,
                        j <= n,
                        comp@.len() == n,
                        comp0[i as int] == n,
                        reach@.len() == n,
                        forall|a: int| 0 <= a < n ==> (#[trigger] reach@[a])@.len() == n,
                        forall|a: int, b: int| 0 <= a < n && 0 <= b < n ==> (#[trigger] reach@[a]@[b]) == reaches(self@, self.key(a), self.key(b)),
                        forall|b: int| 0 <= b < j ==> (#[trigger] comp@[b]) == (if mutually_reachable(self@, self.key(i as int), self.key(b)) {
                            count
                        } else {
                            comp0[b]
                        }),
                        forall|b: int| j <= b < n ==> (#[trigger] comp@[b]) == comp0[b],
                    decreases n - j,
                {
                    if reach[i][j] && reach[j][i] {
                        comp.set(j, count);
                    }
                    j = j + 1;
                }
                proof {
                    let ki = self.key(i as int);
                    assert forall|b: int| 0 <= b < n && mutually_reachable(self@, ki, self.key(b)) implies comp0[b] == n by {
                        if comp0[b] != n {
                            let c = comp0[b] as int;
                            assert(comp0[b] as int == c);
                            lemma_mutual_equivalence(self@, self.key(reps[c]), self.key(b), ki);
                            lemma_mutual_equivalence(self@, ki, self.key(b), self.key(reps[c]));
                            assert(mutually_reachable(self@, self.key(reps[c]), ki));
                            assert(comp0[i as int] as int == c);
                        }
                    }
                    use_type_invariant(self);
                    self.lemma_view();
                    assert(self@.dom().contains(ki));
                    lemma_mutual_equivalence(self@, ki, ki, ki);
                    assert(mutually_reachable(self@, ki, self.key(i as int)));
                    assert(comp@[i as int] == count);
                    reps = reps.push(i as int);
                    assert forall|b: int, c: int| 0 <= b < n && 0 <= c < count + 1 implies ((#[trigger] comp@[b] as int == c) == mutually_reachable(
                        self@,
                        self.key(#[trigger] reps[c]),
                        self.key(b),
                    )) by {
                        if c < count {
                            assert(reps[c] == reps.drop_last()[c]);
                            if mutually_reachable(self@, ki, self.key(b)) {
                                assert(comp0[b] == n);
                                assert(!mutually_reachable(self@, self.key(reps[c]), self.key(b)));
                            }
                        } else {
                            assert(reps[c] == i);
                        }
                    }
                    assert forall|b: int| 0 <= b < i + 1 implies (#[trigger] comp@[b]) < count + 1 by {
                        if b < i {
                            assert(comp0[b] < count);
                        }
                    }
                    assert forall|c: int| 0 <= c < count + 1 implies 0 <= #[trigger] reps[c] < n && comp@[reps[c]] as int == c by {
                        if c < count {
                            assert(reps[c] == reps.drop_last()[c]);
                            let r = reps[c];
                            assert(comp0[r] as int == c);
                            if mutually_reachable(self@, ki, self.key(r)) {
                                assert(comp0[r] == n);
                            }
                        }
                    }
                }
                count = count + 1;
            } else {
                assert(comp@[i as int] < count);
            }
            i = i + 1;
        }
        (comp, count, Ghost(reps))
    }
}

impl<T: GraphKey> Graph<T> {
    /// The edges between components found before the `k`-th edge of node `ul`:
    /// from the component of `C` to that of `D`, for an edge between different
    /// components.
    spec fn dag_edges(
        &self,
        comp: Seq<usize>,
        views: Seq<Map<T::V, Set<T::V>>>,
        ul: int,
        k: int,
        c: Map<T::V, Set<T::V>>,
    ) -> Set<Map<T::V, Set<T::V>>> {
        Set::new(
            |d: Map<T::V, Set<T::V>>|
                exists|a: int, b: int|
                    0 <= a < self.n() && 0 <= b < self.n() && comp[a] != comp[b] && #[trigger] views[comp[a] as int] == c
                        && #[trigger] views[comp[b] as int] == d && self.edge_before(a, b, ul, k),
        )
    }

    proof fn lemma_dag_step(
        &self,
        comp: Seq<usize>,
        views: Seq<Map<T::V, Set<T::V>>>,
        ul: int,
        k: int,
        g0: Map<Map<T::V, Set<T::V>>, Set<Map<T::V, Set<T::V>>>>,
        g1: Map<Map<T::V, Set<T::V>>, Set<Map<T::V, Set<T::V>>>>,
    )
        requires
            self.wf(),
            comp.len() == self.n(),
            forall|j: int| 0 <= j < self.n() ==> (#[trigger] comp[j]) < views.len(),
            0 <= ul < self.n(),
            0 <= k < self.connections@[ul]@.len(),
            forall|c: Map<T::V, Set<T::V>>| #[trigger] g0.dom().contains(c) ==> g0[c] == self.dag_edges(comp, views, ul, k, c),
            comp[ul] != comp[self.connections@[ul]@[k] as int] ==> g1 == (if g0.dom().contains(views[comp[ul] as int])
                && g0.dom().contains(views[comp[self.connections@[ul]@[k] as int] as int])
                && !g0[views[comp[ul] as int]].contains(views[comp[self.connections@[ul]@[k] as int] as int]) {
                g0.insert(
                    views[comp[ul] as int],
                    g0[views[comp[ul] as int]].insert(views[comp[self.connections@[ul]@[k] as int] as int]),
                )
            } else {
                g0
            }),
            comp[ul] == comp[self.connections@[ul]@[k] as int] ==> g1 == g0,
            forall|d: int| 0 <= d < views.len() ==> g0.dom().contains(#[trigger] views[d]),
        ensures
            g1.dom() == g0.dom(),
            forall|c: Map<T::V, Set<T::V>>| #[trigger] g1.dom().contains(c) ==> g1[c] == self.dag_edges(comp, views, ul, k + 1, c),
    {
        let w0 = self.connections@[ul]@[k] as int;
        assert(w0 < self.n());
        assert(comp[ul] < views.len() && comp[w0] < views.len());
        assert forall|c: Map<T::V, Set<T::V>>| #[trigger] g1.dom().contains(c) implies g1[c] =~= self.dag_edges(comp, views, ul, k + 1, c) by {
            assert(g0.dom().contains(c));
            assert forall|d: Map<T::V, Set<T::V>>| g1[c].contains(d) <==> self.dag_edges(comp, views, ul, k + 1, c).contains(d) by {
                if self.dag_edges(comp, views, ul, k + 1, c).contains(d) {
                    let (a, b) = choose|a: int, b: int|
                        0 <= a < self.n() && 0 <= b < self.n() && comp[a] != comp[b] && #[trigger] views[comp[a] as int] == c
                            && #[trigger] views[comp[b] as int] == d && self.edge_before(a, b, ul, k + 1);
                    if a == ul && !(exists|m: int| 0 <= m < k && m < self.connections@[a]@.len() && #[trigger] self.connections@[a]@[m] as int == b) {
                        let m = choose|m: int| 0 <= m < k + 1 && m < self.connections@[a]@.len() && #[trigger] self.connections@[a]@[m] as int == b;
                        assert(m == k);
                        assert(b == w0);
                    } else {
                        assert(self.edge_before(a, b, ul, k));
                        assert(self.dag_edges(comp, views, ul, k, c).contains(d));
                    }
                }
                if g1[c].contains(d) {
                    if g0[c].contains(d) {
                        let (a, b) = choose|a: int, b: int|
                            0 <= a < self.n() && 0 <= b < self.n() && comp[a] != comp[b] && #[trigger] views[comp[a] as int] == c
                                && #[trigger] views[comp[b] as int] == d && self.edge_before(a, b, ul, k);
                        if a == ul {
                            let m = choose|m: int| 0 <= m < k && m < self.connections@[a]@.len() && #[trigger] self.connections@[a]@[m] as int == b;
                            assert(self.edge_before(a, b, ul, k + 1));
                        } else {
                            assert(self.edge_before(a, b, ul, k + 1));
                        }
                    } else {
                        assert(comp[ul] != comp[w0]);
                        assert(c == views[comp[ul] as int] && d == views[comp[w0] as int]);
                        assert(self.edge_before(ul, w0, ul, k + 1));
                    }
                }
            }
        }
    }

    /// The strongly connected components of the graph and how they connect: each
    /// node of the result is a component, with the edges among its nodes; every
    /// node lies in a component; and one component has an edge to another exactly
    /// when one of its nodes has an edge to one of the other's.
    #[verifier::loop_isolation(false)]
    pub fn scc_dag(&self) -> (dag: Graph<Graph<T>>)
        ensures
            is_condensation(self@, dag@),
            edges_within(dag@),
            is_acyclic(dag@),
    {
        proof {
            use_type_invariant(self);
            self.lemma_view();
        }
        let n = self.nodes.len();
        let reach = self.reach_table();
        let (comp, count, Ghost(reps)) = self.number_components(&reach);
        let mut comps: Vec<Graph<T>> = Vec::new();
        let mut c: usize = 0;
        while c < count
            invariant
                n == self.n(),
                comp@.len() == n,
                c <= count,
                comps@.len() == c,
                forall|d: int| 0 <= d < c ==> (#[trigger] comps@[d])@ == restrict(self@, self.class_keys(comp@, d)),
            decreases count - c,
        {
            let mut keep: Vec<bool> = Vec::new();
            let mut j: usize = 0;
            while j < n
                invariant
                    n == self.n(),
                    comp@.len() == n,
                    j <= n,
                    keep@.len() == j,
                    forall|b: int| 0 <= b < j ==> (#[trigger] keep@[b]) == (comp@[b] == c),
                decreases n - j,
            {
                keep.push(comp[j] == c);
                j = j + 1;
            }
            assert(self.kept_keys(keep@) =~= self.class_keys(comp@, c as int));
            let g = self.induced(&keep);
            comps.push(g);
            c = c + 1;
        }
        let ghost views: Seq<Map<T::V, Set<T::V>>> = comps@.map_values(|g: Graph<T>| g@);
        proof {
            assert forall|d: int, v: T::V| 0 <= d < count implies (#[trigger] views[d].dom().contains(v)) == (exists|j: int|
                0 <= j < n && comp@[j] as int == d && #[trigger] self.key(j) == v) by {
                if exists|j: int| 0 <= j < n && comp@[j] as int == d && #[trigger] self.key(j) == v {
                    let j = choose|j: int| 0 <= j < n && comp@[j] as int == d && #[trigger] self.key(j) == v;
                    assert(self.class_keys(comp@, d).contains(v));
                }
            }
            assert forall|d1: int, d2: int| 0 <= d1 < count && 0 <= d2 < count && d1 != d2 implies #[trigger] views[d1] != #[trigger] views[d2] by {
                let r = reps[d1];
                assert(comp@[r] as int == d1);
                assert(views[d1].dom().contains(self.key(r)));
                if views[d2].dom().contains(self.key(r)) {
                    let j = choose|j: int| 0 <= j < n && comp@[j] as int == d2 && #[trigger] self.key(j) == self.key(r);
                    assert(j == r);
                }
            }
        }
        let mut dag: Graph<Graph<T>> = Graph::new();
        let mut d: usize = 0;
        while d < count
            invariant
                n == self.n(),
                d <= count,
                comps@.len() == count,
                views == comps@.map_values(|g: Graph<T>| g@),
                forall|d1: int, d2: int| 0 <= d1 < count && 0 <= d2 < count && d1 != d2 ==> #[trigger] views[d1] != #[trigger] views[d2],
                dag@ == Map::new(
                    |cv: Map<T::V, Set<T::V>>| exists|e: int| 0 <= e < d && #[trigger] views[e] == cv,
                    |cv: Map<T::V, Set<T::V>>| Set::<Map<T::V, Set<T::V>>>::empty(),
                ),
            decreases count - d,
        {
            let ghost g0 = dag@;
            assert(comps@[d as int]@ == views[d as int]);
            assert(!g0.dom().contains(views[d as int])) by {
                if g0.dom().contains(views[d as int]) {
                    let e = choose|e: int| 0 <= e < d && #[trigger] views[e] == views[d as int];
                }
            }
            dag.add_node(&comps[d]);
            assert(dag@ =~~= Map::new(
                |cv: Map<T::V, Set<T::V>>| exists|e: int| 0 <= e < d + 1 && #[trigger] views[e] == cv,
                |cv: Map<T::V, Set<T::V>>| Set::<Map<T::V, Set<T::V>>>::empty(),
            )) by {
                assert forall|cv: Map<T::V, Set<T::V>>| dag@.dom().contains(cv) <==> (exists|e: int| 0 <= e < d + 1 && #[trigger] views[e] == cv) by {
                    if exists|e: int| 0 <= e < d + 1 && #[trigger] views[e] == cv {
                        let e = choose|e: int| 0 <= e < d + 1 && #[trigger] views[e] == cv;
                        if e < d {
                            assert(g0.dom().contains(cv));
                        }
                    }
                    if g0.dom().contains(cv) {
                        let e = choose|e: int| 0 <= e < d && #[trigger] views[e] == cv;
                        assert(0 <= e < d + 1 && views[e] == cv);
                    }
                }
            }
            d = d + 1;
        }
        proof {
            assert forall|e: int| 0 <= e < views.len() implies dag@.dom().contains(#[trigger] views[e]) by {}
            assert forall|cv: Map<T::V, Set<T::V>>| #[trigger] dag@.dom().contains(cv) implies dag@[cv] =~= self.dag_edges(comp@, views, 0, 0, cv) by {
                assert forall|dv: Map<T::V, Set<T::V>>| !self.dag_edges(comp@, views, 0, 0, cv).contains(dv) by {
                    if self.dag_edges(comp@, views, 0, 0, cv).contains(dv) {
                        let (a, b) = choose|a: int, b: int|
                            0 <= a < self.n() && 0 <= b < self.n() && comp@[a] != comp@[b] && #[trigger] views[comp@[a] as int] == cv
                                && #[trigger] views[comp@[b] as int] == dv && self.edge_before(a, b, 0, 0);
                        assert(!self.edge_before(a, b, 0, 0));
                    }
                }
            }
        }
        let ghost dom = dag@.dom();
        let mut u: usize = 0;
        while u < n
            invariant
                n == self.n(),
                u <= n,
                comp@.len() == n,
                comps@.len() == count,
                views == comps@.map_values(|g: Graph<T>| g@),
                forall|j: int| 0 <= j < n ==> (#[trigger] comp@[j]) < count,
                forall|e: int| 0 <= e < views.len() ==> dag@.dom().contains(#[trigger] views[e]),
                dag@.dom() == dom,
                forall|cv: Map<T::V, Set<T::V>>| #[trigger] dag@.dom().contains(cv) ==> dag@[cv] == self.dag_edges(comp@, views, u as int, 0, cv),
            decreases n - u,
        {
            let list = &self.connections[u];
            let mut k: usize = 0;
            while k < list.len()
                invariant
                    n == self.n(),
                    u < n,
                    list@ == self.connections@[u as int]@,
                    k <= list@.len(),
                    comp@.len() == n,
                    comps@.len() == count,
                    views == comps@.map_values(|g: Graph<T>| g@),
                    forall|j: int| 0 <= j < n ==> (#[trigger] comp@[j]) < count,
                    forall|e: int| 0 <= e < views.len() ==> dag@.dom().contains(#[trigger] views[e]),
                    dag@.dom() == dom,
                    forall|cv: Map<T::V, Set<T::V>>| #[trigger] dag@.dom().contains(cv) ==> dag@[cv] == self.dag_edges(comp@, views, u as int, k as int, cv),
                decreases list@.len() - k,
            {
                let w = list[k];
                let ghost g0 = dag@;
                assert(w < n);
                if comp[u] != comp[w] {
                    assert(comps@[comp@[u as int] as int]@ == views[comp@[u as int] as int]);
                    assert(comps@[comp@[w as int] as int]@ == views[comp@[w as int] as int]);
                    dag.add_connection(&comps[comp[u]], &comps[comp[w]]);
                }
                proof {
                    use_type_invariant(self);
                    self.lemma_dag_step(comp@, views, u as int, k as int, g0, dag@);
                }
                k = k + 1;
            }
            proof {
                assert forall|cv: Map<T::V, Set<T::V>>| #[trigger] dag@.dom().contains(cv) implies dag@[cv] =~= self.dag_edges(comp@, views, u + 1, 0, cv) by {
                    assert forall|dv: Map<T::V, Set<T::V>>| self.dag_edges(comp@, views, u as int, list@.len() as int, cv).contains(dv)
                        == self.dag_edges(comp@, views, u + 1, 0, cv).contains(dv) by {
                        if self.dag_edges(comp@, views, u as int, list@.len() as int, cv).contains(dv) {
                            let (a, b) = choose|a: int, b: int|
                                0 <= a < self.n() && 0 <= b < self.n() && comp@[a] != comp@[b] && #[trigger] views[comp@[a] as int] == cv
                                    && #[trigger] views[comp@[b] as int] == dv && self.edge_before(a, b, u as int, list@.len() as int);
                            if a == u {
                                assert(self.has_edge(a, b));
                            }
                            assert(self.edge_before(a, b, u + 1, 0));
                        }
                        if self.dag_edges(comp@, views, u + 1, 0, cv).contains(dv) {
                            let (a, b) = choose|a: int, b: int|
                                0 <= a < self.n() && 0 <= b < self.n() && comp@[a] != comp@[b] && #[trigger] views[comp@[a] as int] == cv
                                    && #[trigger] views[comp@[b] as int] == dv && self.edge_before(a, b, u + 1, 0);
                            if a == u {
                                let m = choose|m: int| 0 <= m < self.connections@[a]@.len() && #[trigger] self.connections@[a]@[m] as int == b;
                                assert(self.edge_before(a, b, u as int, list@.len() as int));
                            }
                        }
                    }
                }
            }
            u = u + 1;
        }
        proof {
            self.lemma_scc_dag_facts(comp@, count as int, reps, views, dag@);
            reveal(is_condensation);
            use_type_invariant(&dag);
            dag.lemma_view();
            lemma_condensation_ordered(self@, dag@);
        }
        dag
    }
}

impl<T: GraphKey> Graph<T> {
    /// `comp` numbers the components from 0 to `count`, with `reps[c]` a node of
    /// component `c`, and `views[c]` the subgraph on it.
    spec fn numbered(&self, comp: Seq<usize>, count: int, reps: Seq<int>, views: Seq<Map<T::V, Set<T::V>>>) -> bool {
        &&& comp.len() == self.n()
        &&& reps.len() == count
        &&& views.len() == count
        &&& forall|j: int| 0 <= j < self.n() ==> (#[trigger] comp[j]) < count
        &&& forall|c: int| 0 <= c < count ==> 0 <= #[trigger] reps[c] < self.n() && comp[reps[c]] as int == c
        &&& forall|j: int, c: int| 0 <= j < self.n() && 0 <= c < count ==> ((#[trigger] comp[j] as int == c) == mutually_reachable(
            self@,
            self.key(#[trigger] reps[c]),
            self.key(j),
        ))
        &&& forall|d: int| 0 <= d < count ==> #[trigger] views[d] == restrict(self@, self.class_keys(comp, d))
    }

    proof fn lemma_numbered_views(&self, comp: Seq<usize>, count: int, reps: Seq<int>, views: Seq<Map<T::V, Set<T::V>>>)
        requires
            self.wf(),
            self.numbered(comp, count, reps, views),
        ensures
            forall|d: int, v: T::V| 0 <= d < count ==> (#[trigger] views[d].dom().contains(v)) == (exists|j: int|
                0 <= j < self.n() && comp[j] as int == d && #[trigger] self.key(j) == v),
            forall|d1: int, d2: int| 0 <= d1 < count && 0 <= d2 < count && d1 != d2 ==> #[trigger] views[d1] != #[trigger] views[d2],
    {
        self.lemma_view();
        let n = self.n();
        assert forall|d: int, v: T::V| 0 <= d < count implies (#[trigger] views[d].dom().contains(v)) == (exists|j: int|
            0 <= j < n && comp[j] as int == d && #[trigger] self.key(j) == v) by {
            if exists|j: int| 0 <= j < n && comp[j] as int == d && #[trigger] self.key(j) == v {
                let j = choose|j: int| 0 <= j < n && comp[j] as int == d && #[trigger] self.key(j) == v;
                assert(self.class_keys(comp, d).contains(v));
            }
        }
        assert forall|d1: int, d2: int| 0 <= d1 < count && 0 <= d2 < count && d1 != d2 implies #[trigger] views[d1] != #[trigger] views[d2] by {
            let r = reps[d1];
            assert(views[d1].dom().contains(self.key(r)));
            if views[d2].dom().contains(self.key(r)) {
                let j = choose|j: int| 0 <= j < n && comp[j] as int == d2 && #[trigger] self.key(j) == self.key(r);
                assert(j == r);
            }
        }
    }

    proof fn lemma_numbered_component(&self, comp: Seq<usize>, count: int, reps: Seq<int>, views: Seq<Map<T::V, Set<T::V>>>, d: int)
        requires
            self.wf(),
            self.numbered(comp, count, reps, views),
            0 <= d < count,
        ensures
            is_component(self@, views[d]),
    {
        self.lemma_view();
        self.lemma_numbered_views(comp, count, reps, views);
        let n = self.n();
        let c = views[d];
        let r = reps[d];
        let v = self.key(r);
        assert(c.dom().contains(v));
        assert forall|w: T::V| #[trigger] c.dom().contains(w) <==> (self@.dom().contains(w) && mutually_reachable(self@, v, w)) by {
            if c.dom().contains(w) {
                let j = choose|j: int| 0 <= j < n && comp[j] as int == d && #[trigger] self.key(j) == w;
                assert(comp[j] as int == d);
            }
            if self@.dom().contains(w) && mutually_reachable(self@, v, w) {
                let j = choose|j: int| 0 <= j < n && #[trigger] self.key(j) == w;
                assert(mutually_reachable(self@, self.key(reps[d]), self.key(j)));
                assert(comp[j] as int == d);
            }
        }
        assert forall|w: T::V| #[trigger] c.dom().contains(w) implies c[w] == self@[w].intersect(c.dom()) by {
            assert(self@.dom().contains(w));
            assert(c[w] =~= self@[w].intersect(c.dom())) by {
                assert forall|x: T::V| self@[w].contains(x) implies self@.dom().contains(x) by {}
            }
        }
    }

    proof fn lemma_numbered_edges(
        &self,
        comp: Seq<usize>,
        count: int,
        reps: Seq<int>,
        views: Seq<Map<T::V, Set<T::V>>>,
        d1: int,
        d2: int,
        out: Set<Map<T::V, Set<T::V>>>,
    )
        requires
            self.wf(),
            self.numbered(comp, count, reps, views),
            0 <= d1 < count,
            0 <= d2 < count,
            out == self.dag_edges(comp, views, self.n(), 0, views[d1]),
        ensures
            out.contains(views[d2]) <==> (views[d1] != views[d2] && exists|v: T::V, w: T::V|
                views[d1].dom().contains(v) && views[d2].dom().contains(w) && #[trigger] self@[v].contains(w)),
    {
        self.lemma_view();
        self.lemma_numbered_views(comp, count, reps, views);
        let n = self.n();
        let c1 = views[d1];
        let c2 = views[d2];
        if out.contains(c2) {
            let (a, b) = choose|a: int, b: int|
                0 <= a < self.n() && 0 <= b < self.n() && comp[a] != comp[b] && #[trigger] views[comp[a] as int] == c1
                    && #[trigger] views[comp[b] as int] == c2 && self.edge_before(a, b, n, 0);
            assert(views[comp[a] as int] != views[comp[b] as int]);
            assert(c1.dom().contains(self.key(a)));
            assert(c2.dom().contains(self.key(b)));
            assert(self@[self.key(a)].contains(self.key(b)));
        }
        if c1 != c2 && exists|v: T::V, w: T::V| c1.dom().contains(v) && c2.dom().contains(w) && #[trigger] self@[v].contains(w) {
            let (v, w) = choose|v: T::V, w: T::V| c1.dom().contains(v) && c2.dom().contains(w) && #[trigger] self@[v].contains(w);
            let a = choose|j: int| 0 <= j < n && comp[j] as int == d1 && #[trigger] self.key(j) == v;
            let b = choose|j: int| 0 <= j < n && comp[j] as int == d2 && #[trigger] self.key(j) == w;
            assert(self.has_edge(a, b));
            assert(d1 != d2);
            assert(self.edge_before(a, b, n, 0));
        }
    }

    proof fn lemma_scc_dag_facts(
        &self,
        comp: Seq<usize>,
        count: int,
        reps: Seq<int>,
        views: Seq<Map<T::V, Set<T::V>>>,
        dagv: Map<Map<T::V, Set<T::V>>, Set<Map<T::V, Set<T::V>>>>,
    )
        requires
            self.wf(),
            self.numbered(comp, count, reps, views),
            forall|cv: Map<T::V, Set<T::V>>| #[trigger] dagv.dom().contains(cv) <==> exists|e: int| 0 <= e < count && #[trigger] views[e] == cv,
            forall|cv: Map<T::V, Set<T::V>>| #[trigger] dagv.dom().contains(cv) ==> dagv[cv] == self.dag_edges(comp, views, self.n(), 0, cv),
        ensures
            forall|c: Map<T::V, Set<T::V>>| #[trigger] dagv.dom().contains(c) ==> is_component(self@, c),
            forall|v: T::V|
                #[trigger] self@.dom().contains(v) ==> exists|c: Map<T::V, Set<T::V>>|
                    #[trigger] dagv.dom().contains(c) && c.dom().contains(v),
            forall|c1: Map<T::V, Set<T::V>>, c2: Map<T::V, Set<T::V>>|
                #[trigger] dagv.dom().contains(c1) && #[trigger] dagv.dom().contains(c2) ==> (dagv[c1].contains(c2) <==> (c1
                    != c2 && exists|v: T::V, w: T::V| c1.dom().contains(v) && c2.dom().contains(w) && #[trigger] self@[v].contains(w))),
    {
        self.lemma_view();
        self.lemma_numbered_views(comp, count, reps, views);
        assert forall|c: Map<T::V, Set<T::V>>| #[trigger] dagv.dom().contains(c) implies is_component(self@, c) by {
            let d = choose|e: int| 0 <= e < count && #[trigger] views[e] == c;
            self.lemma_numbered_component(comp, count, reps, views, d);
        }
        assert forall|v: T::V| #[trigger] self@.dom().contains(v) implies exists|c: Map<T::V, Set<T::V>>|
            #[trigger] dagv.dom().contains(c) && c.dom().contains(v) by {
            let j = choose|j: int| 0 <= j < self.n() && #[trigger] self.key(j) == v;
            let d = comp[j] as int;
            assert(views[d].dom().contains(v));
            assert(dagv.dom().contains(views[d]));
        }
        assert forall|c1: Map<T::V, Set<T::V>>, c2: Map<T::V, Set<T::V>>|
            #[trigger] dagv.dom().contains(c1) && #[trigger] dagv.dom().contains(c2) implies (dagv[c1].contains(c2) <==> (c1
                != c2 && exists|v: T::V, w: T::V| c1.dom().contains(v) && c2.dom().contains(w) && #[trigger] self@[v].contains(w))) by {
            let d1 = choose|e: int| 0 <= e < count && #[trigger] views[e] == c1;
            let d2 = choose|e: int| 0 <= e < count && #[trigger] views[e] == c2;
            self.lemma_numbered_edges(comp, count, reps, views, d1, d2, dagv[c1]);
        }
    }
}

// ----- Elementary cycles -----

/// `c` is an elementary cycle of `g`: distinct nodes of `g`, each with an edge to
/// the next, and the last with an edge to the first.
pub open spec fn is_cycle<V>(g: Map<V, Set<V>>, c: Seq<V>) -> bool {
    &&& c.len() >= 1
    &&& c.no_duplicates()
    &&& forall|k: int| 0 <= k < c.len() ==> g.dom().contains(#[trigger] c[k])
    &&& forall|k: int| 0 <= k < c.len() - 1 ==> #[trigger] g[c[k]].contains(c[k + 1])
    &&& g[c.last()].contains(c[0])
}

/// `b` lists the nodes of `a` in the same cyclic order, starting elsewhere.
pub open spec fn is_rotation<V>(a: Seq<V>, b: Seq<V>) -> bool {
    exists|r: int| 0 <= r < a.len() && b == a.skip(r) + a.take(r)
}

pub open spec fn seqs_of(v: Seq<Vec<usize>>) -> Seq<Seq<usize>> {
    v.map_values(|x: Vec<usize>| x@)
}

proof fn lemma_no_duplicates_concat<A>(a: Seq<A>, b: Seq<A>)
    requires
        a.no_duplicates(),
        b.no_duplicates(),
        forall|x: A| a.contains(x) ==> !b.contains(x),
    ensures
        (a + b).no_duplicates(),
{
    assert forall|i: int, j: int| 0 <= i < j < (a + b).len() implies (a + b)[i] != (a + b)[j] by {
        if i < a.len() && j >= a.len() {
            assert((a + b)[i] == a[i]);
            assert((a + b)[j] == b[j - a.len()]);
            assert(a.contains(a[i]));
            assert(b.contains(b[j - a.len()]));
        } else if i < a.len() {
            assert((a + b)[i] == a[i] && (a + b)[j] == a[j]);
        } else {
            assert((a + b)[i] == b[i - a.len()] && (a + b)[j] == b[j - a.len()]);
        }
    }
}

impl<T: GraphKey> Graph<T> {
    /// A path of distinct nodes, each with an edge to the next, whose nodes after
    /// the first all come later than the first.
    spec fn simple_path(&self, p: Seq<usize>) -> bool {
        &&& p.len() >= 1
        &&& p.no_duplicates()
        &&& forall|k: int| 0 <= k < p.len() ==> #[trigger] p[k] < self.n()
        &&& forall|k: int| 0 <= k < p.len() - 1 ==> #[trigger] self.has_edge(p[k] as int, p[k + 1] as int)
        &&& forall|k: int| 0 < k < p.len() ==> #[trigger] p[k] > p[0]
    }

    /// An elementary cycle listed from its earliest node.
    spec fn canonical_cycle(&self, c: Seq<usize>) -> bool {
        &&& self.simple_path(c)
        &&& self.has_edge(c.last() as int, c[0] as int)
    }

    /// The cycles, listed from their earliest node, that begin with `p`.
    spec fn cycles_through(&self, p: Seq<usize>) -> Set<Seq<usize>> {
        Set::new(|c: Seq<usize>| self.canonical_cycle(c) && p.len() <= c.len() && c.take(p.len() as int) == p)
    }

    /// Among the first `k` successors `list` of the path's last node: the path
    /// itself when one of them is its first node, and the cycles through the path
    /// extended by each of them that lies later than the first node and off the
    /// path.
    spec fn cycles_before(&self, p: Seq<usize>, list: Seq<usize>, k: int) -> Set<Seq<usize>> {
        Set::new(
            |c: Seq<usize>|
                exists|m: int|
                    0 <= m < k && ((#[trigger] list[m] == p[0] && c == p) || (list[m] > p[0] && !p.contains(list[m])
                        && self.cycles_through(p.push(list[m])).contains(c))),
        )
    }

    proof fn lemma_cycles_before_step(&self, p: Seq<usize>, list: Seq<usize>, k: int, c: Seq<usize>)
        requires
            0 <= k < list.len(),
        ensures
            self.cycles_before(p, list, k + 1).contains(c) <==> (self.cycles_before(p, list, k).contains(c) || (list[k] == p[0]
                && c == p) || (list[k] > p[0] && !p.contains(list[k]) && self.cycles_through(p.push(list[k])).contains(c))),
    {
        if self.cycles_before(p, list, k + 1).contains(c) {
            let m = choose|m: int|
                0 <= m < k + 1 && ((#[trigger] list[m] == p[0] && c == p) || (list[m] > p[0] && !p.contains(list[m])
                    && self.cycles_through(p.push(list[m])).contains(c)));
            if m < k {
                assert(self.cycles_before(p, list, k).contains(c));
            }
        }
        if self.cycles_before(p, list, k).contains(c) {
            let m = choose|m: int|
                0 <= m < k && ((#[trigger] list[m] == p[0] && c == p) || (list[m] > p[0] && !p.contains(list[m])
                    && self.cycles_through(p.push(list[m])).contains(c)));
            assert(0 <= m < k + 1);
        }
    }

    proof fn lemma_cycles_split(&self, p: Seq<usize>)
        requires
            self.wf(),
            self.simple_path(p),
        ensures
            forall|c: Seq<usize>| #[trigger] self.cycles_through(p).contains(c) <==> self.cycles_before(
                p,
                self.connections@[p.last() as int]@,
                self.connections@[p.last() as int]@.len() as int,
            ).contains(c),
    {
        let u = p.last() as int;
        let list = self.connections@[u]@;
        assert(p[p.len() - 1] < self.n());
        assert forall|c: Seq<usize>| #[trigger] self.cycles_through(p).contains(c) <==> self.cycles_before(p, list, list.len() as int).contains(c) by {
            if self.cycles_through(p).contains(c) {
                if c.len() == p.len() {
                    assert(c =~= p);
                    assert(self.has_edge(u, p[0] as int));
                    let m = choose|m: int| 0 <= m < list.len() && #[trigger] list[m] as int == p[0] as int;
                    assert(list[m] == p[0]);
                } else {
                    let w = c[p.len() as int];
                    let j = p.len() - 1;
                    assert(c[j] == p[j]);
                    assert(self.has_edge(c[j] as int, c[j + 1] as int));
                    let m = choose|m: int| 0 <= m < list.len() && #[trigger] list[m] as int == w as int;
                    assert(w > c[0]);
                    assert(c[0] == p[0]);
                    assert(!p.contains(w)) by {
                        if p.contains(w) {
                            let i = choose|i: int| 0 <= i < p.len() && p[i] == w;
                            assert(c[i] == p[i]);
                        }
                    }
                    assert(c.take(p.len() + 1int) =~= p.push(w));
                    assert(self.cycles_through(p.push(w)).contains(c));
                    assert(list[m] > p[0]);
                }
            }
            if self.cycles_before(p, list, list.len() as int).contains(c) {
                let m = choose|m: int|
                    0 <= m < list.len() && ((#[trigger] list[m] == p[0] && c == p) || (list[m] > p[0] && !p.contains(list[m])
                        && self.cycles_through(p.push(list[m])).contains(c)));
                if list[m] == p[0] && c == p {
                    assert(self.has_edge(u, list[m] as int));
                    assert(c.take(p.len() as int) =~= p);
                } else {
                    let q = p.push(list[m]);
                    assert(c.take(p.len() as int) =~= q.take(p.len() as int)) by {
                        assert(c.take(q.len() as int) == q);
                        assert forall|i: int| 0 <= i < p.len() implies c[i] == q[i] by {
                            assert(c.take(q.len() as int)[i] == q[i]);
                        }
                    }
                    assert(q.take(p.len() as int) =~= p);
                }
            }
        }
    }

    /// Appends to `out` every cycle, listed from its earliest node, that begins
    /// with `path`, each once.
    #[verifier::loop_isolation(false)]
    fn cycles_from(&self, path: &mut Vec<usize>, on_path: &mut Vec<bool>, out: &mut Vec<Vec<usize>>)
        requires
            self.simple_path(old(path)@),
            old(on_path)@.len() == self.n(),
            forall|j: int| 0 <= j < self.n() ==> #[trigger] old(on_path)@[j] == old(path)@.contains(j as usize),
        ensures
            final(path)@ == old(path)@,
            final(on_path)@ == old(on_path)@,
            final(out)@.len() >= old(out)@.len(),
            final(out)@.subrange(0, old(out)@.len() as int) == old(out)@,
            seqs_of(final(out)@.skip(old(out)@.len() as int)).no_duplicates(),
            forall|c: Seq<usize>| #[trigger] seqs_of(final(out)@.skip(old(out)@.len() as int)).contains(c)
                <==> self.cycles_through(old(path)@).contains(c),
        decreases self.n() - path@.len(),
    {
        proof {
            use_type_invariant(self);
        }
        let ghost p = path@;
        let ghost op = on_path@;
        let ghost out0 = out@;
        let s = path[0];
        let u = path[path.len() - 1];
        assert(u < self.n());
        let list = &self.connections[u];
        let mut k: usize = 0;
        proof {
            lemma_distinct_bounded(p, self.n());
            assert(out@.skip(out0.len() as int) =~= Seq::<Vec<usize>>::empty());
            assert forall|c: Seq<usize>| !self.cycles_before(p, list@, 0).contains(c) by {}
        }
        while k < list.len()
            invariant
                self.wf(),
                self.simple_path(p),
                p.len() <= self.n(),
                path@ == p,
                on_path@ == op,
                op.len() == self.n(),
                forall|j: int| 0 <= j < self.n() ==> #[trigger] op[j] == p.contains(j as usize),
                s == p[0],
                u == p.last(),
                list@ == self.connections@[u as int]@,
                k <= list@.len(),
                out@.len() >= out0.len(),
                out@.subrange(0, out0.len() as int) == out0,
                seqs_of(out@.skip(out0.len() as int)).no_duplicates(),
                forall|c: Seq<usize>| #[trigger] seqs_of(out@.skip(out0.len() as int)).contains(c) ==> c.len() >= p.len(),
                forall|c: Seq<usize>| #[trigger] seqs_of(out@.skip(out0.len() as int)).contains(c) <==> self.cycles_before(p, list@, k as int).contains(c),
            decreases list@.len() - k,
        {
            let w = list[k];
            let ghost before = out@;
            let ghost produced = seqs_of(before.skip(out0.len() as int));
            assert(w < self.n());
            if w == s {
                let mut copy: Vec<usize> = Vec::new();
                let mut i: usize = 0;
                while i < path.len()
                    invariant
                        path@ == p,
                        i <= p.len(),
                        copy@ == p.take(i as int),
                    decreases p.len() - i,
                {
                    copy.push(path[i]);
                    i = i + 1;
                    assert(copy@ =~= p.take(i as int));
                }
                assert(copy@ =~= p);
                out.push(copy);
                proof {
                    assert(out@.skip(out0.len() as int) =~= before.skip(out0.len() as int).push(copy));
                    assert(seqs_of(out@.skip(out0.len() as int)) =~= produced.push(p));
                    assert(!produced.contains(p)) by {
                        if produced.contains(p) {
                            let m = choose|m: int|
                                0 <= m < k && ((#[trigger] list@[m] == p[0] && p == p) || (list@[m] > p[0] && !p.contains(list@[m])
                                    && self.cycles_through(p.push(list@[m])).contains(p)));
                            if list@[m] == p[0] {
                                assert(self.connections@[u as int]@.no_duplicates());
                            } else {
                                assert(self.cycles_through(p.push(list@[m])).contains(p));
                            }
                        }
                    }
                    assert forall|c: Seq<usize>| #[trigger] seqs_of(out@.skip(out0.len() as int)).contains(c) <==> self.cycles_before(p, list@, k + 1).contains(c) by {
                        self.lemma_cycles_before_step(p, list@, k as int, c);
                        lemma_push_contains(produced, p, c);
                    }
                    assert(out@.subrange(0, out0.len() as int) =~= out0);
                    assert forall|c: Seq<usize>| #[trigger] seqs_of(out@.skip(out0.len() as int)).contains(c) implies c.len() >= p.len() by {
                        if c != p {
                            assert(produced.contains(c));
                        }
                    }
                }
            } else if w > s && !on_path[w] {
                assert(!p.contains(w));
                let ghost q = p.push(w);
                proof {
                    assert(self.has_edge(u as int, w as int)) by {
                        assert(self.connections@[u as int]@[k as int] as int == w as int);
                    }
                    assert forall|i: int| 0 <= i < q.len() - 1 implies #[trigger] self.has_edge(q[i] as int, q[i + 1] as int) by {
                        if i < p.len() - 1 {
                            assert(q[i] == p[i] && q[i + 1] == p[i + 1]);
                        } else {
                            assert(q[i] == u && q[i + 1] == w);
                        }
                    }
                    assert forall|i: int| 0 <= i < q.len() implies #[trigger] q[i] < self.n() by {
                        if i < p.len() {
                            assert(q[i] == p[i]);
                        }
                    }
                    assert forall|i: int| 0 < i < q.len() implies #[trigger] q[i] > q[0] by {
                        if i < p.len() {
                            assert(q[i] == p[i]);
                        }
                    }
                    assert(q.no_duplicates()) by {
                        assert forall|i: int, j: int| 0 <= i < j < q.len() implies q[i] != q[j] by {
                            if j == p.len() {
                                assert(q[i] == p[i]);
                                assert(p.contains(p[i]));
                            } else {
                                assert(q[i] == p[i] && q[j] == p[j]);
                            }
                        }
                    }
                    assert(self.simple_path(q));
                    assert(q.len() <= self.n()) by {
                        lemma_distinct_bounded(q, self.n());
                    }
                }
                path.push(w);
                on_path.set(w, true);
                proof {
                    assert(path@ == q);
                    assert forall|j: int| 0 <= j < self.n() implies #[trigger] on_path@[j] == path@.contains(j as usize) by {
                        if j == w {
                            assert(path@[p.len() as int] == w);
                        } else {
                            if p.contains(j as usize) {
                                let i = choose|i: int| 0 <= i < p.len() && p[i] == j as usize;
                                assert(path@[i] == j as usize);
                            }
                            if path@.contains(j as usize) {
                                let i = choose|i: int| 0 <= i < path@.len() && path@[i] == j as usize;
                                if i == p.len() {
                                    assert(path@[i] == w);
                                    assert(j < self.nodes@.len());
                                    assert(self.nodes.len() == self.nodes@.len());
                                    assert((j as usize) as int == j);
                                }
                                assert(p[i] == j as usize);
                            }
                        }
                    }
                }
                assert(path@.len() == p.len() + 1);
                assert(self.n() - path@.len() >= 0);
                assert(decreases_to!(self.n() - p.len() => self.n() - path@.len()));
                self.cycles_from(path, on_path, out);
                let ghost after = out@;
                let ghost batch = seqs_of(after.skip(before.len() as int));
                path.pop();
                on_path.set(w, false);
                proof {
                    assert(path@ =~= p);
                    assert(on_path@ =~= op);
                    assert(after.skip(out0.len() as int) =~= before.skip(out0.len() as int) + after.skip(before.len() as int)) by {
                        assert(after.subrange(0, before.len() as int) == before);
                        assert forall|i: int| 0 <= i < after.len() - out0.len() implies after.skip(out0.len() as int)[i]
                            == (before.skip(out0.len() as int) + after.skip(before.len() as int))[i] by {
                            if i < before.len() - out0.len() {
                                assert(after[out0.len() + i] == after.subrange(0, before.len() as int)[out0.len() + i]);
                            }
                        }
                    }
                    assert(seqs_of(after.skip(out0.len() as int)) =~= produced + batch);
                    assert forall|c: Seq<usize>| produced.contains(c) implies !batch.contains(c) by {
                        if batch.contains(c) {
                            assert(self.cycles_through(q).contains(c));
                            assert(c.take(q.len() as int) == q);
                            assert(c[p.len() as int] == c.take(q.len() as int)[p.len() as int]);
                            assert(c[p.len() as int] == w);
                            assert(self.cycles_before(p, list@, k as int).contains(c));
                            let m = choose|m: int|
                                0 <= m < k && ((#[trigger] list@[m] == p[0] && c == p) || (list@[m] > p[0] && !p.contains(list@[m])
                                    && self.cycles_through(p.push(list@[m])).contains(c)));
                            if list@[m] == p[0] && c == p {
                                assert(c.len() == p.len());
                            } else {
                                let q2 = p.push(list@[m]);
                                assert(c.take(q2.len() as int) == q2);
                                assert(c[p.len() as int] == c.take(q2.len() as int)[p.len() as int]);
                                assert(list@[m] == w);
                                assert(self.connections@[u as int]@.no_duplicates());
                            }
                        }
                    }
                    lemma_no_duplicates_concat(produced, batch);
                    assert forall|c: Seq<usize>| #[trigger] seqs_of(out@.skip(out0.len() as int)).contains(c) <==> self.cycles_before(p, list@, k + 1).contains(c) by {
                        if (produced + batch).contains(c) {
                            let i = choose|i: int| 0 <= i < (produced + batch).len() && (produced + batch)[i] == c;
                            if i < produced.len() {
                                assert(produced.contains(c));
                                let m = choose|m: int|
                                    0 <= m < k && ((#[trigger] list@[m] == p[0] && c == p) || (list@[m] > p[0] && !p.contains(list@[m])
                                        && self.cycles_through(p.push(list@[m])).contains(c)));
                                assert(0 <= m < k + 1);
                            } else {
                                assert(batch.contains(c)) by {
                                    assert(batch[i - produced.len()] == c);
                                }
                                assert(list@[k as int] == w);
                            }
                        }
                        if self.cycles_before(p, list@, k + 1).contains(c) {
                            let m = choose|m: int|
                                0 <= m < k + 1 && ((#[trigger] list@[m] == p[0] && c == p) || (list@[m] > p[0] && !p.contains(list@[m])
                                    && self.cycles_through(p.push(list@[m])).contains(c)));
                            if m < k {
                                assert(self.cycles_before(p, list@, k as int).contains(c));
                                assert(produced.contains(c));
                                let i = choose|i: int| 0 <= i < produced.len() && produced[i] == c;
                                assert((produced + batch)[i] == c);
                            } else {
                                assert(batch.contains(c));
                                let i = choose|i: int| 0 <= i < batch.len() && batch[i] == c;
                                assert((produced + batch)[produced.len() + i] == c);
                            }
                        }
                    }
                    assert(out@.subrange(0, out0.len() as int) =~= out0) by {
                        assert forall|i: int| 0 <= i < out0.len() implies out@[i] == out0[i] by {
                            assert(after.subrange(0, before.len() as int)[i] == before[i]);
                            assert(before.subrange(0, out0.len() as int)[i] == out0[i]);
                        }
                    }
                    assert forall|c: Seq<usize>| #[trigger] seqs_of(out@.skip(out0.len() as int)).contains(c) implies c.len() >= p.len() by {
                        if self.cycles_before(p, list@, k + 1).contains(c) {
                            let m = choose|m: int|
                                0 <= m < k + 1 && ((#[trigger] list@[m] == p[0] && c == p) || (list@[m] > p[0] && !p.contains(list@[m])
                                    && self.cycles_through(p.push(list@[m])).contains(c)));
                        }
                    }
                }
            } else {
                proof {
                    assert forall|c: Seq<usize>| self.cycles_before(p, list@, k + 1).contains(c) == self.cycles_before(p, list@, k as int).contains(c) by {
                        if self.cycles_before(p, list@, k + 1).contains(c) {
                            let m = choose|m: int|
                                0 <= m < k + 1 && ((#[trigger] list@[m] == p[0] && c == p) || (list@[m] > p[0] && !p.contains(list@[m])
                                    && self.cycles_through(p.push(list@[m])).contains(c)));
                            if m == k {
                                assert(list@[m] == w);
                                assert(w != s);
                                assert(!(w > s && !p.contains(w)));
                            }
                        }
                    }
                }
            }
            k = k + 1;
        }
        proof {
            self.lemma_cycles_split(p);
        }
    }
}

proof fn lemma_push_contains<A>(s: Seq<A>, x: A, c: A)
    ensures
        s.push(x).contains(c) <==> (s.contains(c) || c == x),
{
    if s.contains(c) {
        let i = choose|i: int| 0 <= i < s.len() && s[i] == c;
        assert(s.push(x)[i] == c);
    }
    if c == x {
        assert(s.push(x)[s.len() as int] == c);
    }
    if s.push(x).contains(c) {
        let i = choose|i: int| 0 <= i < s.push(x).len() && s.push(x)[i] == c;
        if i < s.len() {
            assert(s[i] == c);
        }
    }
}

proof fn lemma_distinct_bounded(q: Seq<usize>, n: int)
    requires
        n >= 0,
        q.no_duplicates(),
        forall|k: int| 0 <= k < q.len() ==> #[trigger] q[k] < n,
    ensures
        q.len() <= n,
{
    let s = q.to_set();
    assert(s.subset_of(Set::new(|x: usize| (x as int) < n)));
    vstd::set_lib::lemma_int_range(0, n);
    let m = q.map_values(|x: usize| x as int);
    assert(m.no_duplicates()) by {
        assert forall|i: int, j: int| 0 <= i < j < m.len() implies m[i] != m[j] by {
            assert(q[i] != q[j]);
        }
    }
    m.unique_seq_to_set();
    assert(m.to_set().subset_of(vstd::set_lib::set_int_range(0, n))) by {
        assert forall|x: int| m.to_set().contains(x) implies vstd::set_lib::set_int_range(0, n).contains(x) by {
            let i = choose|i: int| 0 <= i < m.len() && m[i] == x;
            assert(q[i] < n);
        }
    }
    vstd::set_lib::lemma_len_subset(m.to_set(), vstd::set_lib::set_int_range(0, n));
}

/// The position of a smallest entry.
proof fn lemma_min_position(c: Seq<usize>) -> (m: int)
    requires
        c.len() >= 1,
    ensures
        0 <= m < c.len(),
        forall|k: int| 0 <= k < c.len() ==> c[m] <= #[trigger] c[k],
    decreases c.len(),
{
    if c.len() == 1 {
        0
    } else {
        let m0 = lemma_min_position(c.drop_last());
        assert forall|k: int| 0 <= k < c.len() - 1 implies c[m0] <= #[trigger] c[k] by {
            assert(c.drop_last()[k] == c[k]);
        }
        if c[m0] <= c.last() {
            m0
        } else {
            c.len() - 1
        }
    }
}

/// `a` turned so that it starts at position `r`.
pub open spec fn rotate<A>(a: Seq<A>, r: int) -> Seq<A> {
    a.skip(r) + a.take(r)
}

proof fn lemma_rotate_back<A>(a: Seq<A>, m: int)
    requires
        0 <= m < a.len(),
    ensures
        is_rotation(rotate(a, m), a),
{
    let b = rotate(a, m);
    if m == 0 {
        assert(b =~= a);
        assert(b.skip(0) + b.take(0) =~= a);
    } else {
        let r = a.len() - m;
        assert(b.skip(r) =~= a.take(m));
        assert(b.take(r) =~= a.skip(m));
        assert(b.skip(r) + b.take(r) =~= a);
    }
}

impl<T: GraphKey> Graph<T> {
    /// The keys of a list of node positions.
    spec fn ikeys(&self, c: Seq<usize>) -> Seq<T::V> {
        c.map_values(|x: usize| self.key(x as int))
    }

    proof fn lemma_canonical_is_cycle(&self, c: Seq<usize>)
        requires
            self.wf(),
            self.canonical_cycle(c),
        ensures
            is_cycle(self@, self.ikeys(c)),
    {
        self.lemma_view();
        let kc = self.ikeys(c);
        assert forall|i: int, j: int| 0 <= i < j < kc.len() implies kc[i] != kc[j] by {
            assert(c[i] != c[j]);
            assert(c[i] < self.n() && c[j] < self.n());
        }
        assert forall|k: int| 0 <= k < kc.len() implies self@.dom().contains(#[trigger] kc[k]) by {
            assert(c[k] < self.n());
        }
        assert forall|k: int| 0 <= k < kc.len() - 1 implies #[trigger] self@[kc[k]].contains(kc[k + 1]) by {
            assert(self.has_edge(c[k] as int, c[k + 1] as int));
            assert(c[k] < self.n() && c[k + 1] < self.n());
        }
        assert(c[c.len() - 1] < self.n() && c[0] < self.n());
        assert(kc.last() == self.key(c.last() as int));
    }

    /// Two cycles listed from their earliest nodes that are rotations of each other
    /// are the same.
    proof fn lemma_canonical_rotation(&self, a: Seq<usize>, b: Seq<usize>)
        requires
            self.wf(),
            self.canonical_cycle(a),
            self.canonical_cycle(b),
            is_rotation(self.ikeys(a), self.ikeys(b)),
        ensures
            a == b,
    {
        let r = choose|r: int| 0 <= r < self.ikeys(a).len() && self.ikeys(b) == self.ikeys(a).skip(r) + self.ikeys(a).take(r);
        let ra = a.skip(r) + a.take(r);
        assert(self.ikeys(b).len() == b.len());
        assert(self.ikeys(a).len() == a.len());
        assert((self.ikeys(a).skip(r) + self.ikeys(a).take(r)).len() == a.len());
        assert(b.len() == a.len());
        assert forall|i: int| 0 <= i < b.len() implies b[i] == ra[i] by {
            assert(self.ikeys(b)[i] == (self.ikeys(a).skip(r) + self.ikeys(a).take(r))[i]);
            if i < a.len() - r {
                assert(ra[i] == a[i + r]);
                assert((self.ikeys(a).skip(r) + self.ikeys(a).take(r))[i] == self.key(a[i + r] as int));
            } else {
                assert(ra[i] == a[i - (a.len() - r)]);
                assert((self.ikeys(a).skip(r) + self.ikeys(a).take(r))[i] == self.key(a[i - (a.len() - r)] as int));
            }
            assert(b[i] < self.n() && ra[i] < self.n());
        }
        assert(b =~= ra);
        if r > 0 {
            let j = a.len() - r;
            assert(b[j] == a[0]);
            assert(b[0] == a[r]);
            assert(a[r] > a[0]);
            assert(b[j] > b[0]);
        } else {
            assert(ra =~= a);
        }
    }

    /// Every elementary cycle of the graph, each once, listed from one of its
    /// nodes: no two listed cycles are the same cycle started elsewhere, and every
    /// elementary cycle is a listed one started elsewhere.
    #[verifier::loop_isolation(false)]
    pub fn list_cycles(&self) -> (r: Option<Vec<Vec<T>>>)
        ensures
            r is Some,
            forall|i: int| 0 <= i < r->0@.len() ==> is_cycle(self@, keys_of(#[trigger] r->0@[i]@)),
            forall|i: int, j: int|
                0 <= i < r->0@.len() && 0 <= j < r->0@.len() && i != j ==> !is_rotation(
                    keys_of(#[trigger] r->0@[i]@),
                    keys_of(#[trigger] r->0@[j]@),
                ),
            forall|c: Seq<T::V>|
                #[trigger] is_cycle(self@, c) ==> exists|i: int| 0 <= i < r->0@.len() && is_rotation(keys_of(#[trigger] r->0@[i]@), c),
    {
        proof {
            use_type_invariant(self);
            self.lemma_view();
        }
        let n = self.nodes.len();
        let mut on_path: Vec<bool> = Vec::new();
        let mut i: usize = 0;
        while i < n
            invariant
                i <= n,
                on_path@.len() == i,
                forall|j: int| 0 <= j < i ==> !on_path@[j],
            decreases n - i,
        {
            on_path.push(false);
            i = i + 1;
        }
        let mut out: Vec<Vec<usize>> = Vec::new();
        let mut s: usize = 0;
        while s < n
            invariant
                n == self.n(),
                s <= n,
                on_path@.len() == n,
                forall|j: int| 0 <= j < n ==> !on_path@[j],
                seqs_of(out@).no_duplicates(),
                forall|c: Seq<usize>| #[trigger] seqs_of(out@).contains(c) <==> (self.canonical_cycle(c) && c[0] < s),
            decreases n - s,
        {
            let mut path: Vec<usize> = Vec::new();
            path.push(s);
            on_path.set(s, true);
            let ghost out0 = out@;
            proof {
                assert(path@ =~= seq![s]);
                assert forall|j: int| 0 <= j < n implies #[trigger] on_path@[j] == path@.contains(j as usize) by {
                    if path@.contains(j as usize) {
                        let k = choose|k: int| 0 <= k < path@.len() && path@[k] == j as usize;
                        assert(k == 0);
                        assert(j < self.nodes@.len());
                        assert((j as usize) as int == j);
                    }
                    if j == s {
                        assert(path@[0] == s);
                    }
                }
                assert(self.simple_path(path@));
            }
            self.cycles_from(&mut path, &mut on_path, &mut out);
            on_path.set(s, false);
            proof {
                assert(on_path@ =~= on_path@);
                let batch = seqs_of(out@.skip(out0.len() as int));
                assert(out@ =~= out0 + out@.skip(out0.len() as int)) by {
                    assert(out@.subrange(0, out0.len() as int) == out0);
                    assert forall|i: int| 0 <= i < out0.len() implies out@[i] == out0[i] by {
                        assert(out@.subrange(0, out0.len() as int)[i] == out0[i]);
                    }
                }
                assert(seqs_of(out@) =~= seqs_of(out0) + batch);
                assert forall|c: Seq<usize>| seqs_of(out0).contains(c) implies !batch.contains(c) by {
                    if batch.contains(c) {
                        assert(self.cycles_through(seq![s]).contains(c));
                        assert(c.take(1)[0] == c[0]);
                    }
                }
                lemma_no_duplicates_concat(seqs_of(out0), batch);
                assert forall|c: Seq<usize>| #[trigger] seqs_of(out@).contains(c) <==> (self.canonical_cycle(c) && c[0] < s + 1) by {
                    if (seqs_of(out0) + batch).contains(c) {
                        let i = choose|i: int| 0 <= i < (seqs_of(out0) + batch).len() && (seqs_of(out0) + batch)[i] == c;
                        if i < seqs_of(out0).len() {
                            assert(seqs_of(out0).contains(c));
                        } else {
                            assert(batch.contains(c)) by {
                                assert(batch[i - seqs_of(out0).len()] == c);
                            }
                            assert(self.cycles_through(seq![s]).contains(c));
                            assert(c.take(1)[0] == c[0]);
                        }
                    }
                    if self.canonical_cycle(c) && c[0] < s + 1 {
                        if c[0] < s {
                            assert(seqs_of(out0).contains(c));
                            let i = choose|i: int| 0 <= i < seqs_of(out0).len() && seqs_of(out0)[i] == c;
                            assert((seqs_of(out0) + batch)[i] == c);
                        } else {
                            assert(c.take(1) =~= seq![s]);
                            assert(self.cycles_through(seq![s]).contains(c));
                            assert(batch.contains(c));
                            let i = choose|i: int| 0 <= i < batch.len() && batch[i] == c;
                            assert((seqs_of(out0) + batch)[seqs_of(out0).len() + i] == c);
                        }
                    }
                }
            }
            s = s + 1;
        }
        let mut result: Vec<Vec<T>> = Vec::new();
        let mut i: usize = 0;
        while i < out.len()
            invariant
                n == self.n(),
                i <= out@.len(),
                result@.len() == i,
                forall|c: Seq<usize>| #[trigger] seqs_of(out@).contains(c) ==> self.canonical_cycle(c),
                forall|a: int| 0 <= a < i ==> keys_of((#[trigger] result@[a])@) == self.ikeys(out@[a]@),
            decreases out@.len() - i,
        {
            let cyc = &out[i];
            assert(seqs_of(out@).contains(cyc@)) by {
                assert(seqs_of(out@)[i as int] == cyc@);
            }
            let mut ks: Vec<T> = Vec::new();
            let mut k: usize = 0;
            while k < cyc.len()
                invariant
                    n == self.n(),
                    self.canonical_cycle(cyc@),
                    k <= cyc@.len(),
                    ks@.len() == k,
                    forall|m: int| 0 <= m < k ==> (#[trigger] ks@[m])@ == self.key(cyc@[m] as int),
                decreases cyc@.len() - k,
            {
                assert(cyc@[k as int] < n);
                ks.push(self.nodes[cyc[k]].copy_key());
                k = k + 1;
            }
            assert(keys_of(ks@) =~= self.ikeys(cyc@));
            result.push(ks);
            i = i + 1;
        }
        proof {
            self.lemma_list_cycles_facts(seqs_of(out@), result@);
        }
        let ghost rv = result@;
        let r = Some(result);
        assert(r->0@ == rv);
        assert forall|c: Seq<T::V>| #[trigger] is_cycle(self@, c) implies exists|i: int| 0 <= i < r->0@.len() && is_rotation(keys_of(#[trigger] r->0@[i]@), c) by {
            let i = choose|i: int| 0 <= i < rv.len() && is_rotation(keys_of(#[trigger] rv[i]@), c);
            assert(rv[i] == r->0@[i]);
        }
        r
    }

    proof fn lemma_list_cycles_facts(&self, found: Seq<Seq<usize>>, result: Seq<Vec<T>>)
        requires
            self.wf(),
            found.no_duplicates(),
            forall|c: Seq<usize>| #[trigger] found.contains(c) <==> (self.canonical_cycle(c) && c[0] < self.n()),
            result.len() == found.len(),
            forall|a: int| 0 <= a < result.len() ==> keys_of((#[trigger] result[a])@) == self.ikeys(found[a]),
        ensures
            forall|i: int| 0 <= i < result.len() ==> is_cycle(self@, keys_of(#[trigger] result[i]@)),
            forall|i: int, j: int|
                0 <= i < result.len() && 0 <= j < result.len() && i != j ==> !is_rotation(
                    keys_of(#[trigger] result[i]@),
                    keys_of(#[trigger] result[j]@),
                ),
            forall|c: Seq<T::V>|
                #[trigger] is_cycle(self@, c) ==> exists|i: int| 0 <= i < result.len() && is_rotation(keys_of(#[trigger] result[i]@), c),
    {
        self.lemma_view();
        assert forall|i: int| 0 <= i < result.len() implies is_cycle(self@, keys_of(#[trigger] result[i]@)) by {
            assert(found.contains(found[i]));
            self.lemma_canonical_is_cycle(found[i]);
        }
        assert forall|i: int, j: int|
            0 <= i < result.len() && 0 <= j < result.len() && i != j implies !is_rotation(
                keys_of(#[trigger] result[i]@),
                keys_of(#[trigger] result[j]@),
            ) by {
            if is_rotation(keys_of(result[i]@), keys_of(result[j]@)) {
                assert(found.contains(found[i]) && found.contains(found[j]));
                self.lemma_canonical_rotation(found[i], found[j]);
            }
        }
        assert forall|c: Seq<T::V>|
            #[trigger] is_cycle(self@, c) implies exists|i: int| 0 <= i < result.len() && is_rotation(keys_of(#[trigger] result[i]@), c) by {
            let ic = self.cycle_positions(c);
            let m = lemma_min_position(ic);
            let canon = rotate(ic, m);
            self.lemma_rotated_canonical(ic, m);
            assert(found.contains(canon));
            let i = choose|i: int| 0 <= i < found.len() && found[i] == canon;
            assert(keys_of(result[i]@) == self.ikeys(canon));
            assert(self.ikeys(canon) =~= rotate(c, m)) by {
                assert(self.ikeys(ic) =~= c);
            }
            lemma_rotate_back(c, m);
        }
    }

    /// The positions of the nodes of a cycle given by keys.
    proof fn cycle_positions(&self, c: Seq<T::V>) -> (ic: Seq<usize>)
        requires
            self.wf(),
            is_cycle(self@, c),
        ensures
            ic.len() == c.len(),
            self.ikeys(ic) == c,
            ic.no_duplicates(),
            forall|k: int| 0 <= k < ic.len() ==> #[trigger] ic[k] < self.n(),
            forall|k: int| 0 <= k < ic.len() - 1 ==> #[trigger] self.has_edge(ic[k] as int, ic[k + 1] as int),
            self.has_edge(ic.last() as int, ic[0] as int),
    {
        self.lemma_view();
        let ic = Seq::new(c.len(), |k: int| (choose|i: int| 0 <= i < self.n() && #[trigger] self.key(i) == c[k]) as usize);
        assert forall|k: int| 0 <= k < ic.len() implies #[trigger] ic[k] < self.n() && self.key(ic[k] as int) == c[k] by {
            assert(self@.dom().contains(c[k]));
            let i = choose|i: int| 0 <= i < self.n() && #[trigger] self.key(i) == c[k];
            assert(i < self.nodes@.len());
            assert(self.nodes.len() == self.nodes@.len());
            assert((i as usize) as int == i);
        }
        assert(self.ikeys(ic) =~= c);
        assert forall|i: int, j: int| 0 <= i < j < ic.len() implies ic[i] != ic[j] by {
            assert(c[i] != c[j]);
        }
        assert forall|k: int| 0 <= k < ic.len() - 1 implies #[trigger] self.has_edge(ic[k] as int, ic[k + 1] as int) by {
            assert(self@[c[k]].contains(c[k + 1]));
            assert(ic[k] < self.n() && ic[k + 1] < self.n());
        }
        assert(ic[ic.len() - 1] < self.n() && ic[0] < self.n());
        assert(self@[c.last()].contains(c[0]));
        ic
    }

    /// A cycle of positions turned to start at its smallest position is listed from
    /// its earliest node.
    proof fn lemma_rotated_canonical(&self, ic: Seq<usize>, m: int)
        requires
            ic.len() >= 1,
            ic.no_duplicates(),
            forall|k: int| 0 <= k < ic.len() ==> #[trigger] ic[k] < self.n(),
            forall|k: int| 0 <= k < ic.len() - 1 ==> #[trigger] self.has_edge(ic[k] as int, ic[k + 1] as int),
            self.has_edge(ic.last() as int, ic[0] as int),
            0 <= m < ic.len(),
            forall|k: int| 0 <= k < ic.len() ==> ic[m] <= #[trigger] ic[k],
        ensures
            self.canonical_cycle(rotate(ic, m)),
            rotate(ic, m)[0] < self.n(),
    {
        let c = rotate(ic, m);
        let len = ic.len() as int;
        assert forall|k: int| 0 <= k < len implies #[trigger] c[k] == ic[turn(k, m, len)] by {
            if k < len - m {
                assert(c[k] == ic[k + m]);
            } else {
                assert(c[k] == ic[k + m - len]);
            }
        }
        assert forall|i: int, j: int| 0 <= i < j < c.len() implies c[i] != c[j] by {
            assert(c[i] == ic[turn(i, m, len)] && c[j] == ic[turn(j, m, len)]);
            assert(turn(i, m, len) != turn(j, m, len));
        }
        assert forall|k: int| 0 <= k < c.len() implies #[trigger] c[k] < self.n() by {
            assert(c[k] == ic[turn(k, m, len)]);
        }
        assert forall|k: int| 0 <= k < c.len() - 1 implies #[trigger] self.has_edge(c[k] as int, c[k + 1] as int) by {
            assert(c[k] == ic[turn(k, m, len)] && c[k + 1] == ic[turn(k + 1, m, len)]);
            if k + m + 1 < len {
                let j = k + m;
                assert(self.has_edge(ic[j] as int, ic[j + 1] as int));
            } else if k + m + 1 == len {
                assert(turn(k, m, len) == len - 1 && turn(k + 1, m, len) == 0);
                assert(ic.last() == ic[len - 1]);
            } else {
                let j = k + m - len;
                assert(self.has_edge(ic[j] as int, ic[j + 1] as int));
            }
        }
        assert(c[0] == ic[m]);
        assert forall|k: int| 0 < k < c.len() implies #[trigger] c[k] > c[0] by {
            assert(c[k] == ic[turn(k, m, len)]);
            assert(ic[m] <= ic[turn(k, m, len)]);
            assert(turn(k, m, len) != m);
        }
        assert(c.last() == c[len - 1]);
        assert(c[len - 1] == ic[turn(len - 1, m, len)]);
        if m == 0 {
            assert(turn(len - 1, m, len) == len - 1);
            assert(ic.last() == ic[len - 1]);
        } else {
            assert(turn(len - 1, m, len) == m - 1);
            let k = m - 1;
            assert(self.has_edge(ic[k] as int, ic[k + 1] as int));
        }
    }
}

/// Position `k` of a sequence of length `len` turned to start at `m`, in the
/// sequence before it was turned.
spec fn turn(k: int, m: int, len: int) -> int {
    if k + m < len {
        k + m
    } else {
        k + m - len
    }
}

/// What a graph of components says of one component, and of an edge between two.
pub proof fn lemma_condensation_parts<V>(
    g: Map<V, Set<V>>,
    dag: Map<Map<V, Set<V>>, Set<Map<V, Set<V>>>>,
    c1: Map<V, Set<V>>,
    c2: Map<V, Set<V>>,
)
    requires
        is_condensation(g, dag),
        dag.dom().contains(c1),
        dag.dom().contains(c2),
    ensures
        is_component(g, c1),
        dag[c1].contains(c2) ==> exists|v: V, w: V| c1.dom().contains(v) && c2.dom().contains(w) && #[trigger] g[v].contains(w),
        dag[c1].contains(c2) ==> c1 != c2,
{
    reveal(is_condensation);
}

/// Any two nodes of a component reach each other.
pub proof fn lemma_component_connected<V>(g: Map<V, Set<V>>, c: Map<V, Set<V>>, x: V, y: V)
    requires
        is_component(g, c),
        c.dom().contains(x),
        c.dom().contains(y),
    ensures
        reaches(g, x, y),
        g.dom().contains(x),
{
    let v = choose|v: V|
        c.dom().contains(v) && forall|w: V| #[trigger] c.dom().contains(w) <==> (g.dom().contains(w) && mutually_reachable(g, v, w));
    assert(mutually_reachable(g, v, x) && mutually_reachable(g, v, y));
    lemma_reaches_trans(g, x, v, y);
}

/// Along a walk of components, every node of the first component reaches every
/// node of the `k`-th.
proof fn lemma_walk_of_components<V>(
    g: Map<V, Set<V>>,
    dag: Map<Map<V, Set<V>>, Set<Map<V, Set<V>>>>,
    p: Seq<Map<V, Set<V>>>,
    k: int,
    x: V,
    y: V,
)
    requires
        is_condensation(g, dag),
        is_walk(dag, p),
        0 <= k < p.len(),
        p[0].dom().contains(x),
        p[k].dom().contains(y),
    ensures
        reaches(g, x, y),
    decreases k,
{
    if k == 0 {
        assert(dag.dom().contains(p[0]));
        lemma_condensation_parts(g, dag, p[0], p[0]);
        lemma_component_connected(g, p[0], x, y);
    } else {
        let j = k - 1;
        assert(dag[p[j]].contains(p[j + 1]));
        assert(dag.dom().contains(p[j]) && dag.dom().contains(p[k]));
        lemma_condensation_parts(g, dag, p[j], p[k]);
        lemma_condensation_parts(g, dag, p[k], p[k]);
        let (v, w) = choose|v: V, w: V| p[j].dom().contains(v) && p[k].dom().contains(w) && #[trigger] g[v].contains(w);
        lemma_walk_of_components(g, dag, p, j, x, v);
        lemma_component_connected(g, p[k], w, y);
        lemma_reaches_step(g, x, v, w);
        lemma_reaches_trans(g, x, w, y);
    }
}

/// The graph of components has no cycle: two components that reach each other
/// are the same.
pub proof fn lemma_condensation_acyclic<V>(
    g: Map<V, Set<V>>,
    dag: Map<Map<V, Set<V>>, Set<Map<V, Set<V>>>>,
    c1: Map<V, Set<V>>,
    c2: Map<V, Set<V>>,
)
    requires
        is_condensation(g, dag),
        reaches(dag, c1, c2),
        reaches(dag, c2, c1),
    ensures
        c1 == c2,
{
    let p = choose|p: Seq<Map<V, Set<V>>>| is_walk(dag, p) && p[0] == c1 && p.last() == c2;
    let q = choose|q: Seq<Map<V, Set<V>>>| is_walk(dag, q) && q[0] == c2 && q.last() == c1;
    assert(dag.dom().contains(p[0]) && dag.dom().contains(q[0]));
    lemma_condensation_parts(g, dag, c1, c1);
    lemma_condensation_parts(g, dag, c2, c2);
    let r1 = choose|v: V|
        c1.dom().contains(v) && forall|w: V| #[trigger] c1.dom().contains(w) <==> (g.dom().contains(w) && mutually_reachable(g, v, w));
    let r2 = choose|v: V|
        c2.dom().contains(v) && forall|w: V| #[trigger] c2.dom().contains(w) <==> (g.dom().contains(w) && mutually_reachable(g, v, w));
    assert(p[p.len() - 1] == c2 && q[q.len() - 1] == c1);
    lemma_walk_of_components(g, dag, p, p.len() - 1, r1, r2);
    lemma_walk_of_components(g, dag, q, q.len() - 1, r2, r1);
    assert(mutually_reachable(g, r1, r2));
    assert forall|w: V| c1.dom().contains(w) <==> c2.dom().contains(w) by {
        if c1.dom().contains(w) {
            lemma_mutual_equivalence(g, r2, r1, w);
        }
        if c2.dom().contains(w) {
            lemma_mutual_equivalence(g, r1, r2, w);
        }
    }
    assert(c1.dom() =~= c2.dom());
    assert forall|w: V| c1.dom().contains(w) implies c1[w] =~= c2[w] by {}
    assert(c1 =~= c2);
}


// ----- Graphs without cycles have a topological order -----

/// Nodes of `g` that reach each other are the same, and no node has an edge to
/// itself.
pub open spec fn no_cycle<V>(g: Map<V, Set<V>>) -> bool {
    &&& forall|a: V, b: V| #![trigger reaches(g, a, b), reaches(g, b, a)] reaches(g, a, b) && reaches(g, b, a) ==> a == b
    &&& forall|a: V| #[trigger] g.dom().contains(a) ==> !g[a].contains(a)
}

/// The nodes of `g` that `v` reaches.
spec fn reach_set<V>(g: Map<V, Set<V>>, v: V) -> Set<V> {
    Set::new(|w: V| g.dom().contains(w) && reaches(g, v, w))
}

/// Following edges from `v` ends at a node with no edge to a node of `g`.
proof fn lemma_sink<V>(g: Map<V, Set<V>>, v: V) -> (s: V)
    requires
        g.dom().finite(),
        no_cycle(g),
        g.dom().contains(v),
    ensures
        g.dom().contains(s),
        forall|w: V| g.dom().contains(w) ==> !(#[trigger] g[s].contains(w)),
    decreases reach_set(g, v).len(),
{
    if exists|w: V| g.dom().contains(w) && #[trigger] g[v].contains(w) {
        let w = choose|w: V| g.dom().contains(w) && #[trigger] g[v].contains(w);
        lemma_reaches_itself(g, v);
        lemma_reaches_step(g, v, v, w);
        assert(reach_set(g, v).subset_of(g.dom()));
        vstd::set_lib::lemma_len_subset(reach_set(g, v), g.dom());
        assert(reach_set(g, v).contains(v));
        assert(!reach_set(g, w).contains(v)) by {
            if reaches(g, w, v) {
                assert(v == w);
            }
        }
        assert forall|x: V| reach_set(g, w).contains(x) implies #[trigger] reach_set(g, v).remove(v).contains(x) by {
            lemma_reaches_trans(g, v, w, x);
        }
        assert(reach_set(g, w).subset_of(reach_set(g, v).remove(v)));
        vstd::set_lib::lemma_len_subset(reach_set(g, w), reach_set(g, v).remove(v));
        lemma_sink(g, w)
    } else {
        v
    }
}

/// `g` without the node `s` and the edges that end at it.
spec fn without_node<V>(g: Map<V, Set<V>>, s: V) -> Map<V, Set<V>> {
    Map::new(|x: V| g.dom().contains(x) && x != s, |x: V| g[x].remove(s))
}

/// A walk of `g` without a node is a walk of `g`.
proof fn lemma_without_node_reaches<V>(g: Map<V, Set<V>>, s: V, a: V, b: V)
    requires
        reaches(without_node(g, s), a, b),
    ensures
        reaches(g, a, b),
{
    let h = without_node(g, s);
    let p = choose|p: Seq<V>| is_walk(h, p) && p[0] == a && p.last() == b;
    assert forall|k: int| 0 <= k < p.len() implies g.dom().contains(#[trigger] p[k]) by {
        assert(h.dom().contains(p[k]));
    }
    assert forall|k: int| 0 <= k < p.len() - 1 implies #[trigger] g[p[k]].contains(p[k + 1]) by {
        assert(h[p[k]].contains(p[k + 1]));
    }
    assert(is_walk(g, p));
}

/// A finite graph without cycles has a topological order.
pub proof fn lemma_no_cycle_acyclic<V>(g: Map<V, Set<V>>)
    requires
        g.dom().finite(),
        edges_within(g),
        no_cycle(g),
    ensures
        is_acyclic(g),
    decreases g.dom().len(),
{
    if g.dom().len() == 0 {
        assert(g.dom() =~= Set::<V>::empty());
        assert(is_topological_order(g, Seq::<V>::empty()));
    } else {
        let v = g.dom().choose();
        let s = lemma_sink(g, v);
        let h = without_node(g, s);
        assert(h.dom() =~= g.dom().remove(s));
        assert forall|x: V, y: V| #[trigger] h.dom().contains(x) && #[trigger] h[x].contains(y) implies h.dom().contains(y) by {
            assert(g[x].contains(y));
        }
        assert forall|a: V, b: V| #![trigger reaches(h, a, b), reaches(h, b, a)] reaches(h, a, b) && reaches(h, b, a) implies a == b by {
            lemma_without_node_reaches(g, s, a, b);
            lemma_without_node_reaches(g, s, b, a);
        }
        assert forall|a: V| #[trigger] h.dom().contains(a) implies !h[a].contains(a) by {}
        lemma_no_cycle_acyclic(h);
        let o = choose|o: Seq<V>| is_topological_order(h, o);
        let order = o.push(s);
        assert(!o.contains(s));
        assert forall|i: int, j: int| 0 <= i < order.len() && 0 <= j < order.len() && i != j implies order[i] != order[j] by {
            if i < o.len() && j < o.len() {
                assert(order[i] == o[i] && order[j] == o[j]);
            } else if i < o.len() {
                assert(o.contains(order[i]));
            } else {
                assert(o.contains(order[j]));
            }
        }
        assert forall|x: V| g.dom().contains(x) <==> order.contains(x) by {
            if g.dom().contains(x) && x != s {
                assert(h.dom().contains(x));
                assert(o.contains(x));
                let k = choose|k: int| 0 <= k < o.len() && o[k] == x;
                assert(order[k] == x);
            }
            if x == s {
                assert(order[o.len() as int] == x);
            }
            if order.contains(x) {
                let k = choose|k: int| 0 <= k < order.len() && order[k] == x;
                if k < o.len() {
                    assert(o[k] == x);
                    assert(o.contains(x));
                }
            }
        }
        assert forall|i: int, j: int|
            0 <= i < order.len() && 0 <= j < order.len() && #[trigger] g[order[i]].contains(#[trigger] order[j]) implies i < j by {
            if i == o.len() {
                assert(order[i] == s);
                assert(g.dom().contains(order[j])) by {
                    if j < o.len() {
                        assert(o.contains(order[j]));
                        assert(h.dom().contains(order[j]));
                    }
                }
            } else if j < o.len() {
                assert(order[i] == o[i] && order[j] == o[j]);
                assert(o.contains(o[i]));
                assert(h.dom().contains(o[i]));
                assert(o[j] != s) by {
                    assert(o.contains(o[j]));
                }
                assert(h[o[i]].contains(o[j]));
            }
        }
        assert(is_topological_order(g, order));
    }
}

/// A graph of components that is finite and whose edges stay among its nodes has
/// a topological order.
pub proof fn lemma_condensation_ordered<V>(g: Map<V, Set<V>>, dag: Map<Map<V, Set<V>>, Set<Map<V, Set<V>>>>)
    requires
        is_condensation(g, dag),
        dag.dom().finite(),
        edges_within(dag),
    ensures
        is_acyclic(dag),
{
    assert forall|a: Map<V, Set<V>>, b: Map<V, Set<V>>| #![trigger reaches(dag, a, b), reaches(dag, b, a)]
        reaches(dag, a, b) && reaches(dag, b, a) implies a == b by {
        lemma_condensation_acyclic(g, dag, a, b);
    }
    assert forall|a: Map<V, Set<V>>| #[trigger] dag.dom().contains(a) implies !dag[a].contains(a) by {
        lemma_condensation_parts(g, dag, a, a);
    }
    lemma_no_cycle_acyclic(dag);
}

} // verus!
