use vstd::prelude::*;

verus! {

/// Index of a route in the route table.
pub type RouteId = u32;

/// `p` is a prefix of `q`.
pub open spec fn is_prefix(p: Seq<u8>, q: Seq<u8>) -> bool {
    p.len() <= q.len() && p == q.take(p.len() as int)
}

proof fn lemma_prefix_step(prefix: Seq<u8>, i: int, p: Seq<u8>)
    requires
        0 <= i < prefix.len(),
    ensures
        is_prefix(p, prefix.take(i + 1)) <==> is_prefix(p, prefix.take(i)) || p == prefix.take(i + 1),
{
    if is_prefix(p, prefix.take(i + 1)) && p.len() <= i {
        assert(p =~= prefix.take(i).take(p.len() as int));
    }
    if is_prefix(p, prefix.take(i)) {
        assert(p =~= prefix.take(i + 1).take(p.len() as int));
    }
    if p == prefix.take(i + 1) {
        assert(p =~= prefix.take(i + 1).take(p.len() as int));
    }
    if is_prefix(p, prefix.take(i + 1)) && p.len() == i + 1 {
        assert(p =~= prefix.take(i + 1));
    }
}

/// `v` with `x` appended unless it is already there.
pub open spec fn push_unique(v: Seq<u32>, x: u32) -> Seq<u32> {
    if v.contains(x) { v } else { v.push(x) }
}

/// What `Router::insert_prefix` of `route` on `prefix` leaves of `a`: every
/// prefix of `prefix` has a node, and `route` is registered on `prefix`
/// unless it already was; nothing else changes.
pub open spec fn prefix_insert_post(a: Router, prefix: Seq<u8>, route: RouteId, b: Router) -> bool {
    &&& b.wf()
    &&& b.node_count() <= a.node_count() + prefix.len()
    &&& forall|p: Seq<u8>| #[trigger] b.has_node(p) <==> a.has_node(p) || is_prefix(p, prefix)
    &&& forall|p: Seq<u8>|
        #[trigger] b.routes_for(p) == (if p == prefix {
            push_unique(a.routes_for(p), route)
        } else {
            a.routes_for(p)
        })
}

#[derive(Debug)]
struct Node {
    /// Child edges `(byte, node index)`, strictly ascending by byte.
    children: Vec<(u8, usize)>,
    /// Routes registered on this node's prefix, each once.
    routes: Vec<RouteId>,
}

/// A byte trie of path prefixes; each prefix node holds the routes
/// registered on it.
pub struct Router {
    nodes: Vec<Node>,
    /// The prefix that each node stands for.
    paths: Ghost<Seq<Seq<u8>>>,
    /// The node that each non-root node hangs from.
    parent: Ghost<Seq<int>>,
}

/// Position of byte `b` among sorted child edges, or where it would go.
fn find_child(ch: &Vec<(u8, usize)>, b: u8) -> (r: Result<usize, usize>)
    requires
        forall|k1: int, k2: int| 0 <= k1 < k2 < ch@.len() ==> ch@[k1].0 < ch@[k2].0,
    ensures
        r is Ok ==> r->Ok_0 < ch@.len() && ch@[r->Ok_0 as int].0 == b,
        r is Err ==> {
            &&& r->Err_0 <= ch@.len()
            &&& forall|k: int| 0 <= k < r->Err_0 ==> ch@[k].0 < b
            &&& forall|k: int| r->Err_0 <= k < ch@.len() ==> ch@[k].0 > b
        },
{
    let mut k: usize = 0;
    while k < ch.len() && ch[k].0 < b
        invariant
            k <= ch@.len(),
            forall|j: int| 0 <= j < k ==> ch@[j].0 < b,
        decreases ch@.len() - k,
    {
        k = k + 1;
    }
    if k < ch.len() && ch[k].0 == b {
        Ok(k)
    } else {
        proof {
            assert forall|j: int| k <= j < ch@.len() implies ch@[j].0 > b by {
                if j > k {
                    assert(ch@[k as int].0 < ch@[j].0);
                }
            }
        }
        Err(k)
    }
}

fn contains_route(v: &Vec<RouteId>, x: RouteId) -> (r: bool)
    ensures
        r == v@.contains(x),
{
    let mut i: usize = 0;
    while i < v.len()
        invariant
            i <= v@.len(),
            forall|j: int| 0 <= j < i ==> v@[j] != x,
        decreases v@.len() - i,
    {
        if v[i] == x {
            assert(v@[i as int] == x);
            return true;
        }
        i = i + 1;
    }
    false
}

impl Router {
    spec fn parent_ok(&self, c: int) -> bool {
        let p = self.parent@[c];
        &&& 0 <= p < self.nodes@.len()
        &&& self.paths@[c].len() >= 1
        &&& self.paths@[p] == self.paths@[c].drop_last()
        &&& exists|k: int|
            0 <= k < self.nodes@[p].children@.len() && #[trigger] self.nodes@[p].children@[k] == (
                self.paths@[c].last(),
                c as usize,
            )
    }

    spec fn edge_ok(&self, i: int, e: (u8, usize)) -> bool {
        &&& 1 <= e.1 < self.nodes@.len()
        &&& self.paths@[e.1 as int] == self.paths@[i].push(e.0)
    }

    spec fn children_ok(&self, i: int) -> bool {
        let ch = self.nodes@[i].children@;
        &&& forall|k: int| 0 <= k < ch.len() ==> #[trigger] self.edge_ok(i, ch[k])
        &&& forall|k1: int, k2: int| 0 <= k1 < k2 < ch.len() ==> ch[k1].0 < ch[k2].0
    }

    /// The trie's shape: the root stands for the empty prefix, each node for
    /// one prefix, each edge extends its node's prefix by its byte, and every
    /// non-root node is reachable by an edge from the node of its prefix
    /// without the last byte.
    pub closed spec fn wf(&self) -> bool {
        let n = self.nodes@.len();
        &&& n >= 1
        &&& self.paths@.len() == n
        &&& self.parent@.len() == n
        &&& self.paths@[0] == Seq::<u8>::empty()
        &&& forall|i: int, j: int|
            0 <= i < n && 0 <= j < n && i != j ==> #[trigger] self.paths@[i] != #[trigger] self.paths@[j]
        &&& forall|c: int| 1 <= c < n ==> #[trigger] self.parent_ok(c)
        &&& forall|i: int| 0 <= i < n ==> #[trigger] self.children_ok(i)
    }

    /// Number of prefix nodes.
    pub closed spec fn node_count(&self) -> nat {
        self.nodes@.len()
    }

    /// The trie has a node for prefix `p`.
    pub closed spec fn has_node(&self, p: Seq<u8>) -> bool {
        exists|i: int| 0 <= i < self.nodes@.len() && #[trigger] self.paths@[i] == p
    }

    /// The routes registered on prefix `p`, in registration order.
    pub closed spec fn routes_for(&self, p: Seq<u8>) -> Seq<RouteId> {
        if self.has_node(p) {
            let i = choose|i: int| 0 <= i < self.nodes@.len() && #[trigger] self.paths@[i] == p;
            self.nodes@[i].routes@
        } else {
            Seq::empty()
        }
    }

    /// The candidates of `path` from depth `i` on: the routes of each node
    /// along `path`, shortest prefix first, up to the first prefix that has
    /// no node.
    pub open spec fn cands_from(&self, path: Seq<u8>, i: nat) -> Seq<RouteId>
        decreases path.len() + 1 - i,
    {
        if i > path.len() || !self.has_node(path.take(i as int)) {
            Seq::empty()
        } else {
            self.routes_for(path.take(i as int)) + self.cands_from(path, i + 1)
        }
    }

    /// All candidate routes of `path`.
    pub open spec fn candidates(&self, path: Seq<u8>) -> Seq<RouteId> {
        self.cands_from(path, 0)
    }

    proof fn lemma_node_routes(&self, i: int)
        requires
            self.wf(),
            0 <= i < self.nodes@.len(),
        ensures
            self.has_node(self.paths@[i]),
            self.routes_for(self.paths@[i]) == self.nodes@[i].routes@,
    {
        let p = self.paths@[i];
        assert(self.paths@[i] == p);
        let j = choose|j: int| 0 <= j < self.nodes@.len() && #[trigger] self.paths@[j] == p;
        if j != i {
            assert(self.paths@[i] != self.paths@[j]);
        }
    }

    /// No node stands for `paths[cur] + [b]` when `cur` has no edge for `b`.
    proof fn lemma_missing_child(&self, cur: int, b: u8)
        requires
            self.wf(),
            0 <= cur < self.nodes@.len(),
            forall|k: int| 0 <= k < self.nodes@[cur].children@.len() ==> self.nodes@[cur].children@[k].0 != b,
        ensures
            !self.has_node(self.paths@[cur].push(b)),
    {
        let q = self.paths@[cur].push(b);
        if self.has_node(q) {
            let c = choose|c: int| 0 <= c < self.nodes@.len() && #[trigger] self.paths@[c] == q;
            if c == 0 {
                assert(self.paths@[0].len() == 0);
            } else {
                assert(self.parent_ok(c));
                let p = self.parent@[c];
                assert(q.drop_last() =~= self.paths@[cur]);
                if p != cur {
                    assert(self.paths@[p] != self.paths@[cur]);
                }
                let k = choose|k: int|
                    0 <= k < self.nodes@[p].children@.len() && #[trigger] self.nodes@[p].children@[k] == (
                        self.paths@[c].last(),
                        c as usize,
                    );
                assert(self.nodes@[cur].children@[k].0 == b);
            }
        }
    }

    /// A trie with only the root node and no routes.
    pub fn new() -> (r: Self)
        ensures
            r.wf(),
            r.node_count() == 1,
            forall|p: Seq<u8>| #[trigger] r.has_node(p) <==> p == Seq::<u8>::empty(),
            forall|p: Seq<u8>| #[trigger] r.routes_for(p) == Seq::<RouteId>::empty(),
    {
        let mut nodes: Vec<Node> = Vec::new();
        nodes.push(Node { children: Vec::new(), routes: Vec::new() });
        let ghost p0: Seq<Seq<u8>> = Seq::<Seq<u8>>::empty().push(Seq::<u8>::empty());
        let ghost q0: Seq<int> = Seq::<int>::empty().push(0int);
        let r = Router { nodes, paths: Ghost(p0), parent: Ghost(q0) };
        proof {
            assert forall|p: Seq<u8>| #[trigger] r.has_node(p) <==> p == Seq::<u8>::empty() by {
                if p == Seq::<u8>::empty() {
                    assert(r.paths@[0] == p);
                }
            }
            assert forall|p: Seq<u8>| #[trigger] r.routes_for(p) == Seq::<RouteId>::empty() by {
                if r.has_node(p) {
                    r.lemma_node_routes(0);
                    assert(p == r.paths@[0]);
                }
            }
        }
        r
    }

    /// Registers `route` on the prefix `prefix`, creating the nodes of every
    /// prefix of it that has none; a route already registered on that prefix
    /// is not added twice.
    pub fn insert_prefix(&mut self, prefix: &[u8], route: RouteId)
        requires
            old(self).wf(),
            old(self).node_count() + prefix@.len() <= usize::MAX,
        ensures
            prefix_insert_post(*old(self), prefix@, route, *final(self)),
    {
        let mut cur: usize = 0;
        let mut i: usize = 0;
        proof {
            assert(self.paths@[0] =~= prefix@.take(0));
            assert forall|p: Seq<u8>| #[trigger] self.has_node(p) <==> old(self).has_node(p) || is_prefix(p, prefix@.take(0)) by {
                if is_prefix(p, prefix@.take(0)) {
                    assert(p =~= Seq::<u8>::empty());
                    assert(self.paths@[0] == p);
                }
            }
        }
        while i < prefix.len()
            invariant
                self.wf(),
                i <= prefix@.len(),
                cur < self.nodes@.len(),
                self.paths@[cur as int] == prefix@.take(i as int),
                self.nodes@.len() <= old(self).nodes@.len() + i,
                old(self).node_count() + prefix@.len() <= usize::MAX,
                forall|p: Seq<u8>| #[trigger] self.has_node(p) <==> old(self).has_node(p) || is_prefix(p, prefix@.take(i as int)),
                forall|p: Seq<u8>| #[trigger] self.routes_for(p) == old(self).routes_for(p),
            decreases prefix@.len() - i,
        {
            let b = prefix[i];
            let ghost pre = *self;
            let ghost next_path = prefix@.take(i as int + 1);
            proof {
                assert(next_path =~= prefix@.take(i as int).push(b));
                assert(self.children_ok(cur as int));
            }
            match find_child(&self.nodes[cur].children, b) {
                Ok(pos) => {
                    let nxt = self.nodes[cur].children[pos].1;
                    proof {
                        assert(self.edge_ok(cur as int, self.nodes@[cur as int].children@[pos as int]));
                        assert(self.paths@[nxt as int] == next_path);
                        assert forall|p: Seq<u8>| #[trigger] self.has_node(p) <==> old(self).has_node(p) || is_prefix(p, next_path) by {
                            lemma_prefix_step(prefix@, i as int, p);
                            if p == next_path {
                                assert(self.paths@[nxt as int] == p);
                            }
                        }
                    }
                    cur = nxt;
                },
                Err(pos) => {
                    proof {
                        self.lemma_missing_child(cur as int, b);
                    }
                    let idx = self.nodes.len();
                    self.nodes.push(Node { children: Vec::new(), routes: Vec::new() });
                    self.nodes[cur].children.insert(pos, (b, idx));
                    proof {
                        self.paths@ = self.paths@.push(next_path);
                        self.parent@ = self.parent@.push(cur as int);
                        self.lemma_grow_wf(pre, cur as int, pos as int, b, idx as int);
                        self.lemma_grow_view(pre, idx as int, next_path);
                        assert forall|p: Seq<u8>| #[trigger] self.has_node(p) <==> old(self).has_node(p) || is_prefix(p, next_path) by {
                            lemma_prefix_step(prefix@, i as int, p);
                        }
                    }
                    cur = idx;
                },
            }
            i = i + 1;
        }
        proof {
            assert(prefix@.take(prefix@.len() as int) =~= prefix@);
            self.lemma_node_routes(cur as int);
        }
        let present = contains_route(&self.nodes[cur].routes, route);
        if !present {
            let ghost pre = *self;
            self.nodes[cur].routes.push(route);
            proof {
                self.lemma_routes_changed(pre, cur as int);
            }
        }
    }

    /// Growing the trie by one node hanging from `cur` by byte `b` (its edge
    /// placed at the insertion point `pos`) keeps the shape.
    proof fn lemma_grow_wf(&self, pre: Router, cur: int, pos: int, b: u8, idx: int)
        requires
            pre.wf(),
            0 <= cur < pre.nodes@.len(),
            idx == pre.nodes@.len(),
            idx < usize::MAX,
            !pre.has_node(pre.paths@[cur].push(b)),
            0 <= pos <= pre.nodes@[cur].children@.len(),
            forall|k: int| 0 <= k < pos ==> pre.nodes@[cur].children@[k].0 < b,
            forall|k: int| pos <= k < pre.nodes@[cur].children@.len() ==> pre.nodes@[cur].children@[k].0 > b,
            self.nodes@.len() == idx + 1,
            self.paths@ == pre.paths@.push(pre.paths@[cur].push(b)),
            self.parent@ == pre.parent@.push(cur),
            self.nodes@[idx].children@.len() == 0,
            self.nodes@[cur].children@ == pre.nodes@[cur].children@.insert(pos, (b, idx as usize)),
            forall|j: int| 0 <= j < idx && j != cur ==> #[trigger] self.nodes@[j] == pre.nodes@[j],
        ensures
            self.wf(),
    {
        let n = self.nodes@.len();
        let q = pre.paths@[cur].push(b);
        pre.nodes@[cur].children@.insert_ensures(pos, (b, idx as usize));
        assert(self.paths@[cur] == pre.paths@[cur]);
        assert(self.paths@[idx] == q);
        assert forall|i: int, j: int| 0 <= i < n && 0 <= j < n && i != j implies #[trigger] self.paths@[i] != #[trigger] self.paths@[j] by {
            if i == idx {
                assert(pre.paths@[j] != q);
            } else if j == idx {
                assert(pre.paths@[i] != q);
            } else {
                assert(pre.paths@[i] != pre.paths@[j]);
            }
        }
        assert forall|c: int| 1 <= c < n implies #[trigger] self.parent_ok(c) by {
            if c == idx {
                assert(q.drop_last() =~= pre.paths@[cur]);
                assert(self.nodes@[cur].children@[pos] == (q.last(), c as usize));
            } else {
                assert(pre.parent_ok(c));
                let p = pre.parent@[c];
                let k = choose|k: int|
                    0 <= k < pre.nodes@[p].children@.len() && #[trigger] pre.nodes@[p].children@[k] == (
                        pre.paths@[c].last(),
                        c as usize,
                    );
                if p == cur {
                    let k2 = if k < pos { k } else { k + 1 };
                    assert(self.nodes@[p].children@[k2] == (self.paths@[c].last(), c as usize));
                } else {
                    assert(self.nodes@[p].children@[k] == (self.paths@[c].last(), c as usize));
                }
            }
        }
        assert forall|i: int| 0 <= i < n implies #[trigger] self.children_ok(i) by {
            if i == idx {
            } else if i == cur {
                assert(pre.children_ok(cur));
                let ch = self.nodes@[cur].children@;
                let old_ch = pre.nodes@[cur].children@;
                assert forall|k: int| 0 <= k < ch.len() implies #[trigger] self.edge_ok(i, ch[k]) by {
                    if k < pos {
                        assert(pre.edge_ok(i, old_ch[k]));
                        assert(ch[k] == old_ch[k]);
                    } else if k > pos {
                        assert(pre.edge_ok(i, old_ch[k - 1]));
                        assert(ch[k] == old_ch[k - 1]);
                    } else {
                        assert(ch[k] == (b, idx as usize));
                        assert((idx as usize) as int == idx);
                        assert(self.paths@[idx] == self.paths@[i].push(b));
                    }
                }
                assert forall|k1: int, k2: int| 0 <= k1 < k2 < ch.len() implies ch[k1].0 < ch[k2].0 by {
                    if k2 < pos {
                    } else if k1 > pos {
                        assert(old_ch[k1 - 1].0 < old_ch[k2 - 1].0);
                    } else if k1 == pos {
                    } else if k2 == pos {
                    } else {
                    }
                }
            } else {
                assert(pre.children_ok(i));
                let ch = self.nodes@[i].children@;
                assert forall|k: int| 0 <= k < ch.len() implies #[trigger] self.edge_ok(i, ch[k]) by {
                    assert(pre.edge_ok(i, ch[k]));
                }
            }
        }
    }

    /// After growing by a routeless node for `q`, the nodes are those before
    /// plus `q`, with the same routes everywhere.
    proof fn lemma_grow_view(&self, pre: Router, idx: int, q: Seq<u8>)
        requires
            pre.wf(),
            self.wf(),
            idx == pre.nodes@.len(),
            self.nodes@.len() == idx + 1,
            self.paths@ == pre.paths@.push(q),
            !pre.has_node(q),
            self.nodes@[idx].routes@.len() == 0,
            forall|j: int| 0 <= j < idx ==> #[trigger] self.nodes@[j].routes@ == pre.nodes@[j].routes@,
        ensures
            forall|p: Seq<u8>| #[trigger] self.has_node(p) <==> pre.has_node(p) || p == q,
            forall|p: Seq<u8>| #[trigger] self.routes_for(p) == pre.routes_for(p),
    {
        assert forall|p: Seq<u8>| #[trigger] self.has_node(p) <==> pre.has_node(p) || p == q by {
            if pre.has_node(p) {
                let i = choose|i: int| 0 <= i < pre.nodes@.len() && #[trigger] pre.paths@[i] == p;
                assert(self.paths@[i] == p);
            }
            if p == q {
                assert(self.paths@[idx] == p);
            }
            if self.has_node(p) {
                let i = choose|i: int| 0 <= i < self.nodes@.len() && #[trigger] self.paths@[i] == p;
                if i < idx {
                    assert(pre.paths@[i] == p);
                }
            }
        }
        assert forall|p: Seq<u8>| #[trigger] self.routes_for(p) == pre.routes_for(p) by {
            if self.has_node(p) {
                let i = choose|i: int| 0 <= i < self.nodes@.len() && #[trigger] self.paths@[i] == p;
                self.lemma_node_routes(i);
                if i < idx {
                    assert(pre.paths@[i] == p);
                    pre.lemma_node_routes(i);
                }
            }
        }
    }

    /// Only the routes of node `cur` changed: only its prefix sees new routes.
    proof fn lemma_routes_changed(&self, pre: Router, cur: int)
        requires
            pre.wf(),
            0 <= cur < pre.nodes@.len(),
            self.nodes@.len() == pre.nodes@.len(),
            self.paths@ == pre.paths@,
            self.parent@ == pre.parent@,
            forall|j: int| 0 <= j < pre.nodes@.len() ==> #[trigger] self.nodes@[j].children@ == pre.nodes@[j].children@,
            forall|j: int| 0 <= j < pre.nodes@.len() && j != cur ==> #[trigger] self.nodes@[j].routes@ == pre.nodes@[j].routes@,
        ensures
            self.wf(),
            forall|p: Seq<u8>| #[trigger] self.has_node(p) <==> pre.has_node(p),
            forall|p: Seq<u8>|
                #[trigger] self.routes_for(p) == (if p == pre.paths@[cur] {
                    self.nodes@[cur].routes@
                } else {
                    pre.routes_for(p)
                }),
    {
        let n = self.nodes@.len();
        assert forall|c: int| 1 <= c < n implies #[trigger] self.parent_ok(c) by {
            assert(pre.parent_ok(c));
            let p = pre.parent@[c];
            let k = choose|k: int|
                0 <= k < pre.nodes@[p].children@.len() && #[trigger] pre.nodes@[p].children@[k] == (
                    pre.paths@[c].last(),
                    c as usize,
                );
            assert(self.nodes@[p].children@[k] == (self.paths@[c].last(), c as usize));
        }
        assert forall|i: int| 0 <= i < n implies #[trigger] self.children_ok(i) by {
            assert(pre.children_ok(i));
            let ch = self.nodes@[i].children@;
            assert forall|k: int| 0 <= k < ch.len() implies #[trigger] self.edge_ok(i, ch[k]) by {
                assert(pre.edge_ok(i, ch[k]));
            }
        }
        assert(self.wf());
        assert forall|p: Seq<u8>| #[trigger] self.has_node(p) <==> pre.has_node(p) by {
            if pre.has_node(p) {
                let i = choose|i: int| 0 <= i < pre.nodes@.len() && #[trigger] pre.paths@[i] == p;
                assert(self.paths@[i] == p);
            }
            if self.has_node(p) {
                let i = choose|i: int| 0 <= i < self.nodes@.len() && #[trigger] self.paths@[i] == p;
                assert(pre.paths@[i] == p);
            }
        }
        assert forall|p: Seq<u8>|
            #[trigger] self.routes_for(p) == (if p == pre.paths@[cur] {
                self.nodes@[cur].routes@
            } else {
                pre.routes_for(p)
            }) by {
            if self.has_node(p) {
                let i = choose|i: int| 0 <= i < self.nodes@.len() && #[trigger] self.paths@[i] == p;
                self.lemma_node_routes(i);
                pre.lemma_node_routes(i);
                if i != cur {
                    assert(pre.paths@[i] != pre.paths@[cur]);
                }
            }
        }
    }

    proof fn lemma_cands_step(&self, path: Seq<u8>, i: nat)
        requires
            i <= path.len(),
            self.has_node(path.take(i as int)),
        ensures
            self.cands_from(path, i) == self.routes_for(path.take(i as int)) + self.cands_from(path, i + 1),
    {
    }

    /// The candidate routes of `path`: the routes registered on every prefix
    /// of `path` that the trie reaches, shortest prefix first ("/foo/bar"
    /// gives those of "", "/", "/f", ..., "/foo/bar" that have routes).
    pub fn for_each_candidate(&self, path: &[u8]) -> (r: Vec<RouteId>)
        requires
            self.wf(),
        ensures
            r@ == self.candidates(path@),
    {
        let mut out: Vec<RouteId> = Vec::new();
        let mut cur: usize = 0;
        let mut i: usize = 0;
        proof {
            assert(path@.take(0) =~= self.paths@[0]);
        }
        loop
            invariant
                self.wf(),
                i <= path@.len(),
                cur < self.nodes@.len(),
                self.paths@[cur as int] == path@.take(i as int),
                self.candidates(path@) == out@ + self.cands_from(path@, i as nat),
            decreases path@.len() - i,
        {
            proof {
                self.lemma_node_routes(cur as int);
                self.lemma_cands_step(path@, i as nat);
            }
            let rs = &self.nodes[cur].routes;
            let ghost before = out@;
            let mut k: usize = 0;
            while k < rs.len()
                invariant
                    k <= rs@.len(),
                    out@ == before + rs@.take(k as int),
                decreases rs@.len() - k,
            {
                out.push(rs[k]);
                proof {
                    assert(rs@.take(k as int + 1) =~= rs@.take(k as int).push(rs@[k as int]));
                }
                k = k + 1;
            }
            proof {
                assert(rs@.take(rs@.len() as int) =~= rs@);
                assert(self.candidates(path@) =~= out@ + self.cands_from(path@, (i + 1) as nat));
            }
            if i >= path.len() {
                return out;
            }
            let b = path[i];
            proof {
                assert(path@.take(i as int + 1) =~= path@.take(i as int).push(b));
                assert(self.children_ok(cur as int));
            }
            match find_child(&self.nodes[cur].children, b) {
                Ok(pos) => {
                    proof {
                        assert(self.edge_ok(cur as int, self.nodes@[cur as int].children@[pos as int]));
                    }
                    cur = self.nodes[cur].children[pos].1;
                    i = i + 1;
                },
                Err(_) => {
                    proof {
                        self.lemma_missing_child(cur as int, b);
                        assert(self.cands_from(path@, (i + 1) as nat) =~= Seq::<RouteId>::empty());
                        assert(out@ + Seq::<RouteId>::empty() =~= out@);
                    }
                    return out;
                },
            }
        }
    }

    /// The first candidate route of `path`, if any.
    pub fn at(&self, path: &[u8]) -> (r: Option<RouteId>)
        requires
            self.wf(),
        ensures
            r == (if self.candidates(path@).len() > 0 {
                Some(self.candidates(path@)[0])
            } else {
                None::<RouteId>
            }),
    {
        let c = self.for_each_candidate(path);
        if c.len() > 0 {
            Some(c[0])
        } else {
            None
        }
    }
}

/// The candidates of `path` hold the routes of its prefix `q` when every
/// prefix of `q` has a node.
proof fn lemma_cands_contain(r: &Router, path: Seq<u8>, q: Seq<u8>, i: nat)
    requires
        is_prefix(q, path),
        i <= q.len(),
        forall|j: int| i <= j <= q.len() ==> #[trigger] r.has_node(path.take(j)),
    ensures
        forall|x: RouteId| r.routes_for(q).contains(x) ==> #[trigger] r.cands_from(path, i).contains(x),
    decreases q.len() - i,
{
    assert(r.has_node(path.take(i as int)));
    assert(r.cands_from(path, i) == r.routes_for(path.take(i as int)) + r.cands_from(path, i + 1));
    if i == q.len() {
        assert(path.take(i as int) =~= q);
        assert forall|x: RouteId| r.routes_for(q).contains(x) implies #[trigger] r.cands_from(path, i).contains(x) by {
            let rq = r.routes_for(q);
            let k = choose|k: int| 0 <= k < rq.len() && rq[k] == x;
            assert(r.cands_from(path, i)[k] == x);
        }
    } else {
        lemma_cands_contain(r, path, q, i + 1);
        assert forall|x: RouteId| r.routes_for(q).contains(x) implies #[trigger] r.cands_from(path, i).contains(x) by {
            assert(r.cands_from(path, i + 1).contains(x));
            let c = r.cands_from(path, i + 1);
            let k = choose|k: int| 0 <= k < c.len() && c[k] == x;
            let a = r.routes_for(path.take(i as int));
            assert(r.cands_from(path, i)[a.len() + k] == x);
        }
    }
}

/// A route registered on prefix `q` is a candidate of every path that starts
/// with `q`, once every prefix of `q` has a node (as `insert_prefix` makes
/// them).
pub proof fn lemma_registered_route_is_candidate(r: &Router, q: Seq<u8>, path: Seq<u8>, route: RouteId)
    requires
        r.wf(),
        is_prefix(q, path),
        forall|p: Seq<u8>| is_prefix(p, q) ==> #[trigger] r.has_node(p),
        r.routes_for(q).contains(route),
    ensures
        r.candidates(path).contains(route),
{
    assert forall|j: int| 0 <= j <= q.len() implies #[trigger] r.has_node(path.take(j)) by {
        assert(path.take(j) =~= q.take(j));
        assert(is_prefix(path.take(j), q));
    }
    lemma_cands_contain(r, path, q, 0);
}

impl Router {
    /// Every prefix of a prefix that has a node has one too.
    pub proof fn lemma_nodes_prefix_closed(&self, p: Seq<u8>, q: Seq<u8>)
        requires
            self.wf(),
            self.has_node(q),
            is_prefix(p, q),
        ensures
            self.has_node(p),
        decreases q.len(),
    {
        if p.len() < q.len() {
            let c = choose|c: int| 0 <= c < self.nodes@.len() && #[trigger] self.paths@[c] == q;
            if c == 0 {
                assert(q.len() == 0);
            } else {
                assert(self.parent_ok(c));
                let par = self.parent@[c];
                assert(self.paths@[par] == q.drop_last());
                assert(self.has_node(q.drop_last()));
                assert(p =~= q.drop_last().take(p.len() as int));
                self.lemma_nodes_prefix_closed(p, q.drop_last());
            }
        } else {
            assert(p =~= q);
        }
    }
}

/// Past the first prefix of `path` that `a` has no node for, `b` (which
/// differs from `a` only by nodes without routes) offers no candidates.
proof fn lemma_cands_none_past(a: Router, b: Router, prefix: Seq<u8>, route: RouteId, path: Seq<u8>, i: nat)
    requires
        a.wf(),
        prefix_insert_post(a, prefix, route, b),
        !is_prefix(prefix, path),
        i <= path.len() ==> !a.has_node(path.take(i as int)),
    ensures
        b.cands_from(path, i) == Seq::<RouteId>::empty(),
    decreases path.len() + 1 - i,
{
    if i <= path.len() && b.has_node(path.take(i as int)) {
        let t = path.take(i as int);
        if t == prefix {
            assert(is_prefix(prefix, path));
        }
        assert(b.routes_for(t) == a.routes_for(t));
        assert(a.routes_for(t) == Seq::<RouteId>::empty());
        if i + 1 <= path.len() && a.has_node(path.take(i as int + 1)) {
            assert(path.take(i as int) =~= path.take(i as int + 1).take(i as int));
            a.lemma_nodes_prefix_closed(path.take(i as int), path.take(i as int + 1));
        }
        lemma_cands_none_past(a, b, prefix, route, path, i + 1);
        assert(b.cands_from(path, i) =~= Seq::<RouteId>::empty());
    }
}

/// For a path that does not start with `prefix`, registering a route on
/// `prefix` changes none of its candidates from depth `i` on.
proof fn lemma_cands_unchanged(a: Router, b: Router, prefix: Seq<u8>, route: RouteId, path: Seq<u8>, i: nat)
    requires
        a.wf(),
        prefix_insert_post(a, prefix, route, b),
        !is_prefix(prefix, path),
    ensures
        b.cands_from(path, i) == a.cands_from(path, i),
    decreases path.len() + 1 - i,
{
    if i > path.len() {
    } else if !a.has_node(path.take(i as int)) {
        lemma_cands_none_past(a, b, prefix, route, path, i);
    } else {
        let t = path.take(i as int);
        if t == prefix {
            assert(is_prefix(prefix, path));
        }
        assert(b.has_node(t));
        assert(b.routes_for(t) == a.routes_for(t));
        lemma_cands_unchanged(a, b, prefix, route, path, i + 1);
    }
}

/// Two tries with the same nodes and the same routes on them give the same
/// candidates.
proof fn lemma_cands_same(b: Router, c: Router, path: Seq<u8>, i: nat)
    requires
        forall|q: Seq<u8>| #[trigger] c.has_node(q) == b.has_node(q),
        forall|q: Seq<u8>| #[trigger] c.routes_for(q) == b.routes_for(q),
    ensures
        c.cands_from(path, i) == b.cands_from(path, i),
    decreases path.len() + 1 - i,
{
    if i <= path.len() && b.has_node(path.take(i as int)) {
        assert(c.has_node(path.take(i as int)));
        assert(c.routes_for(path.take(i as int)) == b.routes_for(path.take(i as int)));
        lemma_cands_same(b, c, path, i + 1);
    } else if i <= path.len() {
        assert(!c.has_node(path.take(i as int)));
    }
}

/// Registering `route` on `prefix` (`a` to `b`) makes it a candidate of
/// every path that starts with `prefix` ("/foo" covers "/foobar" too),
/// leaves the candidates of every other path as they were, and registering
/// it again (`b` to `c`) changes no node, no route and no candidate.
pub proof fn law_insert_prefix_candidates(
    a: Router,
    b: Router,
    c: Router,
    prefix: Seq<u8>,
    route: RouteId,
    path: Seq<u8>,
)
    requires
        a.wf(),
        prefix_insert_post(a, prefix, route, b),
        prefix_insert_post(b, prefix, route, c),
    ensures
        is_prefix(prefix, path) ==> b.candidates(path).contains(route),
        !is_prefix(prefix, path) ==> b.candidates(path) == a.candidates(path),
        forall|q: Seq<u8>| #[trigger] c.has_node(q) == b.has_node(q),
        forall|q: Seq<u8>| #[trigger] c.routes_for(q) == b.routes_for(q),
        c.candidates(path) == b.candidates(path),
{
    let rs = push_unique(a.routes_for(prefix), route);
    assert(b.routes_for(prefix) == rs);
    assert(rs.contains(route)) by {
        if !a.routes_for(prefix).contains(route) {
            assert(rs[a.routes_for(prefix).len() as int] == route);
        }
    }
    if is_prefix(prefix, path) {
        assert forall|p: Seq<u8>| is_prefix(p, prefix) implies #[trigger] b.has_node(p) by {}
        lemma_registered_route_is_candidate(&b, prefix, path, route);
    } else {
        lemma_cands_unchanged(a, b, prefix, route, path, 0);
    }
    assert forall|q: Seq<u8>| #[trigger] c.has_node(q) == b.has_node(q) by {
        if is_prefix(q, prefix) {
            assert(b.has_node(q));
        }
    }
    assert forall|q: Seq<u8>| #[trigger] c.routes_for(q) == b.routes_for(q) by {
        if q == prefix {
            assert(push_unique(rs, route) == rs);
        }
    }
    lemma_cands_same(b, c, path, 0);
}

} // verus!
