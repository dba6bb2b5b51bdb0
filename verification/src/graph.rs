//! A property graph: labelled nodes and directed edges, both with properties, and traversals
//! that follow the edges.
//!
//! Edge weights and node embeddings are floating-point data; they are kept beside the graph by
//! its users, keyed by edge and node id, and take no part in the logic here.
use std::collections::{HashMap, HashSet};
use vstd::prelude::*;
use crate::strmap::StrMap;
use crate::text::{chars_are, chars_of, decimal, push_decimal, push_str, string_of};
use crate::value::Value;

verus! {

pub struct GraphNode {
    pub id: u64,
    pub label: String,
    pub properties: StrMap<Value>,
}

pub struct GraphEdge {
    pub id: u64,
    pub from: u64,
    pub to: u64,
    pub label: String,
    pub properties: StrMap<Value>,
}

/// Nodes and edges by id; for each node, the ids of its outgoing and incoming edges in the
/// order they were added.
pub struct PropertyGraph {
    pub id: u64,
    pub name: String,
    pub nodes: HashMap<u64, GraphNode>,
    pub edges: HashMap<u64, GraphEdge>,
    pub outgoing: HashMap<u64, Vec<u64>>,
    pub incoming: HashMap<u64, Vec<u64>>,
    pub next_node_id: u64,
    pub next_edge_id: u64,
}

/// The far ends (`forward`) or near ends of the edges `eids`, in order, skipping unknown ids.
pub open spec fn edge_ends(edges: Map<u64, GraphEdge>, eids: Seq<u64>, forward: bool) -> Seq<u64>
    decreases eids.len(),
{
    if eids.len() == 0 {
        Seq::empty()
    } else {
        let rest = edge_ends(edges, eids.drop_last(), forward);
        let e = eids.last();
        if edges.contains_key(e) {
            rest.push(
                if forward {
                    edges[e].to
                } else {
                    edges[e].from
                },
            )
        } else {
            rest
        }
    }
}

/// `acc` followed by the members of `vs`, in order, that are neither in `seen` nor already listed.
pub open spec fn add_fresh(acc: Seq<u64>, vs: Seq<u64>, seen: Set<u64>) -> Seq<u64>
    decreases vs.len(),
{
    if vs.len() == 0 {
        acc
    } else {
        let a = add_fresh(acc, vs.drop_last(), seen);
        if seen.contains(vs.last()) || a.contains(vs.last()) {
            a
        } else {
            a.push(vs.last())
        }
    }
}

pub open spec fn graph_not_found_message(id: u64) -> Seq<char> {
    "AetherGraph: Graph "@ + decimal(id as nat) + " not found"@
}

pub open spec fn node_missing_message(id: u64) -> Seq<char> {
    "AetherGraph: Node "@ + decimal(id as nat) + " does not exist"@
}

proof fn lemma_to_set_push(s: Seq<u64>, x: u64)
    ensures
        s.push(x).to_set() == s.to_set().insert(x),
{
    assert forall|y: u64| #[trigger] s.push(x).to_set().contains(y) <==> s.to_set().insert(x).contains(y) by {
        if s.push(x).contains(y) {
            let i = choose|i: int| 0 <= i < s.push(x).len() && s.push(x)[i] == y;
            if i < s.len() {
                assert(s[i] == y);
            }
        }
        if s.contains(y) {
            let i = choose|i: int| 0 <= i < s.len() && s[i] == y;
            assert(s.push(x)[i] == y);
        }
        if y == x {
            assert(s.push(x)[s.len() as int] == y);
        }
    }
    assert(s.push(x).to_set() =~= s.to_set().insert(x));
}

/// Edge ends read the same from two edge maps that agree on the listed ids.
proof fn lemma_edge_ends_same(a: Map<u64, GraphEdge>, b: Map<u64, GraphEdge>, eids: Seq<u64>, forward: bool)
    requires
        forall|i: int|
            0 <= i < eids.len() ==> (a.contains_key(#[trigger] eids[i]) == b.contains_key(eids[i]) && (
            a.contains_key(eids[i]) ==> a[eids[i]].to == b[eids[i]].to && a[eids[i]].from == b[eids[i]].from)),
    ensures
        edge_ends(a, eids, forward) == edge_ends(b, eids, forward),
    decreases eids.len(),
{
    if eids.len() > 0 {
        let d = eids.drop_last();
        assert forall|i: int| 0 <= i < d.len() implies (a.contains_key(#[trigger] d[i]) == b.contains_key(d[i]) && (
            a.contains_key(d[i]) ==> a[d[i]].to == b[d[i]].to && a[d[i]].from == b[d[i]].from)) by {
            assert(d[i] == eids[i]);
        }
        lemma_edge_ends_same(a, b, d, forward);
        assert(eids.last() == eids[eids.len() - 1]);
    }
}

impl PropertyGraph {
    /// Every node and edge id is below the next one to be handed out.
    pub open spec fn wf(&self) -> bool {
        &&& forall|k: u64| self.nodes@.contains_key(k) ==> k < self.next_node_id
        &&& forall|k: u64| self.edges@.contains_key(k) ==> k < self.next_edge_id
        &&& forall|u: u64, i: int|
            self.outgoing@.contains_key(u) && 0 <= i < self.outgoing@[u]@.len()
                ==> #[trigger] self.outgoing@[u]@[i] < self.next_edge_id
        &&& forall|u: u64, i: int|
            self.incoming@.contains_key(u) && 0 <= i < self.incoming@[u]@.len()
                ==> #[trigger] self.incoming@[u]@[i] < self.next_edge_id
    }

    /// The nodes that the outgoing edges of `u` lead to, in the order the edges were added.
    pub open spec fn out_nbrs(&self, u: u64) -> Seq<u64> {
        if self.outgoing@.contains_key(u) {
            edge_ends(self.edges@, self.outgoing@[u]@, true)
        } else {
            Seq::empty()
        }
    }

    /// The nodes that the incoming edges of `u` come from, in the order the edges were added.
    pub open spec fn in_nbrs(&self, u: u64) -> Seq<u64> {
        if self.incoming@.contains_key(u) {
            edge_ends(self.edges@, self.incoming@[u]@, false)
        } else {
            Seq::empty()
        }
    }

    pub fn new(id: u64, name: String) -> (g: Self)
        ensures
            g.wf(),
            g.id == id,
            g.name == name,
            g.nodes@ == Map::<u64, GraphNode>::empty(),
            g.edges@ == Map::<u64, GraphEdge>::empty(),
            g.outgoing@ == Map::<u64, Vec<u64>>::empty(),
            g.incoming@ == Map::<u64, Vec<u64>>::empty(),
            g.next_node_id == 1,
            g.next_edge_id == 1,
    {
        PropertyGraph {
            id,
            name,
            nodes: HashMap::new(),
            edges: HashMap::new(),
            outgoing: HashMap::new(),
            incoming: HashMap::new(),
            next_node_id: 1,
            next_edge_id: 1,
        }
    }

    /// Adds a node with no edges and returns its id, the next one in turn.
    pub fn add_node(&mut self, label: &str, properties: StrMap<Value>) -> (id: u64)
        requires
            old(self).wf(),
            old(self).next_node_id < u64::MAX,
        ensures
            final(self).wf(),
            id == old(self).next_node_id,
            final(self).next_node_id == id + 1,
            final(self).next_edge_id == old(self).next_edge_id,
            !old(self).nodes@.contains_key(id),
            final(self).nodes@.dom() == old(self).nodes@.dom().insert(id),
            forall|k: u64| k != id ==> #[trigger] final(self).nodes@.get(k) == old(self).nodes@.get(k),
            final(self).nodes@[id].id == id,
            final(self).nodes@[id].label@ == label@,
            final(self).nodes@[id].properties == properties,
            final(self).edges@ == old(self).edges@,
            final(self).outgoing@.dom() == old(self).outgoing@.dom().insert(id),
            final(self).incoming@.dom() == old(self).incoming@.dom().insert(id),
            final(self).outgoing@[id]@.len() == 0,
            final(self).incoming@[id]@.len() == 0,
            forall|k: u64| k != id ==> #[trigger] final(self).outgoing@.get(k) == old(self).outgoing@.get(k),
            forall|k: u64| k != id ==> #[trigger] final(self).incoming@.get(k) == old(self).incoming@.get(k),
            final(self).id == old(self).id,
            final(self).name == old(self).name,
    {
        let node_id = self.next_node_id;
        self.next_node_id = self.next_node_id + 1;
        self.nodes.insert(node_id, GraphNode { id: node_id, label: string_of(label), properties });
        self.outgoing.insert(node_id, Vec::new());
        self.incoming.insert(node_id, Vec::new());
        node_id
    }

    /// Appends `eid` to the edge list of `node` in `lists`, creating the list if there is none.
    fn append_edge(lists: &mut HashMap<u64, Vec<u64>>, node: u64, eid: u64)
        ensures
            final(lists)@.dom() == old(lists)@.dom().insert(node),
            forall|u: u64| u != node ==> #[trigger] final(lists)@.get(u) == old(lists)@.get(u),
            final(lists)@[node]@ == (if old(lists)@.contains_key(node) {
                old(lists)@[node]@.push(eid)
            } else {
                seq![eid]
            }),
    {
        let ghost before = lists@;
        let mut list = match lists.remove(&node) {
            Some(v) => v,
            None => Vec::new(),
        };
        list.push(eid);
        lists.insert(node, list);
    }

    /// Adds an edge between two existing nodes and returns its id; fails, naming the first missing
    /// node, when `from` or `to` does not exist.
    pub fn add_edge(&mut self, from: u64, to: u64, label: &str, properties: StrMap<Value>) -> (r:
        Result<u64, String>)
        requires
            old(self).wf(),
            old(self).next_edge_id < u64::MAX,
        ensures
            final(self).wf(),
            !old(self).nodes@.contains_key(from) ==> (r matches Err(e) && e@ == node_missing_message(
                from,
            ) && *final(self) == *old(self)),
            old(self).nodes@.contains_key(from) && !old(self).nodes@.contains_key(to) ==> (r matches Err(
                e,
            ) && e@ == node_missing_message(to) && *final(self) == *old(self)),
            old(self).nodes@.contains_key(from) && old(self).nodes@.contains_key(to) ==> {
                let id = old(self).next_edge_id;
                &&& r == Ok::<u64, String>(id)
                &&& !old(self).edges@.contains_key(id)
                &&& final(self).next_edge_id == id + 1
                &&& final(self).edges@.dom() == old(self).edges@.dom().insert(id)
                &&& forall|k: u64| k != id ==> #[trigger] final(self).edges@.get(k) == old(self).edges@.get(k)
                &&& final(self).edges@[id].id == id
                &&& final(self).edges@[id].from == from
                &&& final(self).edges@[id].to == to
                &&& final(self).edges@[id].label@ == label@
                &&& final(self).edges@[id].properties == properties
                &&& final(self).outgoing@.contains_key(from)
                &&& final(self).outgoing@[from]@ == (if old(self).outgoing@.contains_key(from) {
                    old(self).outgoing@[from]@.push(id)
                } else {
                    seq![id]
                })
                &&& final(self).incoming@.contains_key(to)
                &&& final(self).incoming@[to]@ == (if old(self).incoming@.contains_key(to) {
                    old(self).incoming@[to]@.push(id)
                } else {
                    seq![id]
                })
                &&& forall|u: u64| u != from ==> #[trigger] final(self).outgoing@.get(u) == old(self).outgoing@.get(u)
                &&& forall|u: u64| u != to ==> #[trigger] final(self).incoming@.get(u) == old(self).incoming@.get(u)
                &&& final(self).nodes@ == old(self).nodes@
                &&& final(self).next_node_id == old(self).next_node_id
                &&& final(self).out_nbrs(from) == old(self).out_nbrs(from).push(to)
                &&& final(self).in_nbrs(to) == old(self).in_nbrs(to).push(from)
                &&& forall|u: u64| u != from ==> #[trigger] final(self).out_nbrs(u) == old(self).out_nbrs(u)
                &&& forall|u: u64| u != to ==> #[trigger] final(self).in_nbrs(u) == old(self).in_nbrs(u)
            },
    {
        if !self.nodes.contains_key(&from) {
            let mut e = string_of("AetherGraph: Node ");
            push_decimal(&mut e, from);
            push_str(&mut e, " does not exist");
            return Err(e);
        }
        if !self.nodes.contains_key(&to) {
            let mut e = string_of("AetherGraph: Node ");
            push_decimal(&mut e, to);
            push_str(&mut e, " does not exist");
            return Err(e);
        }
        let edge_id = self.next_edge_id;
        self.next_edge_id = self.next_edge_id + 1;
        self.edges.insert(
            edge_id,
            GraphEdge { id: edge_id, from, to, label: string_of(label), properties },
        );
        Self::append_edge(&mut self.outgoing, from, edge_id);
        Self::append_edge(&mut self.incoming, to, edge_id);
        proof {
            let e0 = old(self).edges@;
            let e1 = self.edges@;
            assert forall|u: u64| #[trigger] old(self).outgoing@.contains_key(u) implies edge_ends(e1, old(self).outgoing@[u]@, true)
                == edge_ends(e0, old(self).outgoing@[u]@, true) by {
                let l = old(self).outgoing@[u]@;
                assert forall|i: int| 0 <= i < l.len() implies (e1.contains_key(#[trigger] l[i]) == e0.contains_key(l[i]) && (
                    e1.contains_key(l[i]) ==> e1[l[i]].to == e0[l[i]].to && e1[l[i]].from == e0[l[i]].from)) by {
                    assert(l[i] < edge_id);
                }
                lemma_edge_ends_same(e1, e0, l, true);
            }
            assert forall|u: u64| #[trigger] old(self).incoming@.contains_key(u) implies edge_ends(e1, old(self).incoming@[u]@, false)
                == edge_ends(e0, old(self).incoming@[u]@, false) by {
                let l = old(self).incoming@[u]@;
                assert forall|i: int| 0 <= i < l.len() implies (e1.contains_key(#[trigger] l[i]) == e0.contains_key(l[i]) && (
                    e1.contains_key(l[i]) ==> e1[l[i]].to == e0[l[i]].to && e1[l[i]].from == e0[l[i]].from)) by {
                    assert(l[i] < edge_id);
                }
                lemma_edge_ends_same(e1, e0, l, false);
            }
            let lo = self.outgoing@[from]@;
            assert(lo.drop_last() =~= (if old(self).outgoing@.contains_key(from) { old(self).outgoing@[from]@ } else { Seq::<u64>::empty() }));
            let li = self.incoming@[to]@;
            assert(li.drop_last() =~= (if old(self).incoming@.contains_key(to) { old(self).incoming@[to]@ } else { Seq::<u64>::empty() }));
            assert(lo.last() == edge_id && e1.contains_key(edge_id) && e1[edge_id].to == to);
            assert(edge_ends(e1, lo, true) == edge_ends(e1, lo.drop_last(), true).push(to));
            assert(edge_ends(e1, lo.drop_last(), true) == old(self).out_nbrs(from));
            assert(self.out_nbrs(from) == old(self).out_nbrs(from).push(to));
            assert(li.last() == edge_id && e1[edge_id].from == from);
            assert(edge_ends(e1, li, false) == edge_ends(e1, li.drop_last(), false).push(from));
            assert(edge_ends(e1, li.drop_last(), false) == old(self).in_nbrs(to));
            assert(self.in_nbrs(to) == old(self).in_nbrs(to).push(from));
            assert forall|u: u64| u != from implies #[trigger] self.out_nbrs(u) == old(self).out_nbrs(u) by {
                assert(self.outgoing@.get(u) == old(self).outgoing@.get(u));
            }
            assert forall|u: u64| u != to implies #[trigger] self.in_nbrs(u) == old(self).in_nbrs(u) by {
                assert(self.incoming@.get(u) == old(self).incoming@.get(u));
            }
            assert forall|u: u64, i: int|
                self.outgoing@.contains_key(u) && 0 <= i < self.outgoing@[u]@.len()
                    implies #[trigger] self.outgoing@[u]@[i] < self.next_edge_id by {
                if u != from {
                    assert(self.outgoing@.get(u) == old(self).outgoing@.get(u));
                } else if i < self.outgoing@[u]@.len() - 1 {
                    assert(self.outgoing@[u]@[i] == lo.drop_last()[i]);
                }
            }
            assert forall|u: u64, i: int|
                self.incoming@.contains_key(u) && 0 <= i < self.incoming@[u]@.len()
                    implies #[trigger] self.incoming@[u]@[i] < self.next_edge_id by {
                if u != to {
                    assert(self.incoming@.get(u) == old(self).incoming@.get(u));
                } else if i < self.incoming@[u]@.len() - 1 {
                    assert(self.incoming@[u]@[i] == li.drop_last()[i]);
                }
            }
        }
        Ok(edge_id)
    }

    /// Appends to `out` the far ends (`forward`) or near ends of the edges `eids`.
    fn push_edge_ends(&self, eids: &Vec<u64>, forward: bool, out: &mut Vec<u64>)
        ensures
            final(out)@ == old(out)@ + edge_ends(self.edges@, eids@, forward),
    {
        let ghost start = out@;
        let mut i: usize = 0;
        assert(eids@.take(0) =~= Seq::<u64>::empty());
        assert(start + Seq::<u64>::empty() =~= start);
        while i < eids.len()
            invariant
                i <= eids@.len(),
                out@ == start + edge_ends(self.edges@, eids@.take(i as int), forward),
            decreases eids@.len() - i,
        {
            let ghost before = edge_ends(self.edges@, eids@.take(i as int), forward);
            assert(eids@.take(i + 1).drop_last() =~= eids@.take(i as int));
            if let Some(edge) = self.edges.get(&eids[i]) {
                out.push(
                    if forward {
                        edge.to
                    } else {
                        edge.from
                    },
                );
                assert(out@ =~= start + before.push(
                    if forward {
                        edge.to
                    } else {
                        edge.from
                    },
                ));
            }
            i = i + 1;
        }
        assert(eids@.take(eids@.len() as int) =~= eids@);
    }

    /// The nodes that the outgoing edges of `u` lead to.
    fn out_neighbors(&self, u: u64) -> (r: Vec<u64>)
        ensures
            r@ == self.out_nbrs(u),
    {
        let mut r: Vec<u64> = Vec::new();
        if let Some(eids) = self.outgoing.get(&u) {
            self.push_edge_ends(eids, true, &mut r);
            assert(r@ =~= self.out_nbrs(u));
        }
        r
    }

    /// The neighbors of `node_id` along its outgoing edges (`"outgoing"`), its incoming edges
    /// (`"incoming"`), or both (`"both"`, outgoing first); any other direction gives none.
    pub fn neighbors(&self, node_id: u64, direction: &str) -> (r: Vec<u64>)
        ensures
            r@ == (if direction@ == "outgoing"@ || direction@ == "both"@ {
                self.out_nbrs(node_id)
            } else {
                Seq::empty()
            }) + (if direction@ == "incoming"@ || direction@ == "both"@ {
                self.in_nbrs(node_id)
            } else {
                Seq::empty()
            }),
    {
        let d = chars_of(direction);
        let both = chars_are(&d, "both");
        let mut r: Vec<u64> = Vec::new();
        if chars_are(&d, "outgoing") || both {
            if let Some(eids) = self.outgoing.get(&node_id) {
                self.push_edge_ends(eids, true, &mut r);
            }
        }
        let ghost first = r@;
        if chars_are(&d, "incoming") || both {
            if let Some(eids) = self.incoming.get(&node_id) {
                self.push_edge_ends(eids, false, &mut r);
            }
        }
        assert(Seq::<u64>::empty() + Seq::<u64>::empty() =~= Seq::<u64>::empty());
        assert(first =~= (if direction@ == "outgoing"@ || direction@ == "both"@ {
            self.out_nbrs(node_id)
        } else {
            Seq::empty()
        }));
        assert(r@ =~= first + (if direction@ == "incoming"@ || direction@ == "both"@ {
            self.in_nbrs(node_id)
        } else {
            Seq::empty()
        }));
        r
    }
}

impl PropertyGraph {
    /// The nodes first reached from `frontier`: for each node of it in order, its outgoing
    /// neighbors in order, leaving out those in `seen` and those already listed.
    pub open spec fn next_layer(&self, frontier: Seq<u64>, seen: Set<u64>) -> Seq<u64>
        decreases frontier.len(),
    {
        if frontier.len() == 0 {
            Seq::empty()
        } else {
            add_fresh(
                self.next_layer(frontier.drop_last(), seen),
                self.out_nbrs(frontier.last()),
                seen,
            )
        }
    }

    /// Breadth-first layers from `start`, `d` steps deep: all nodes reached so far in the order
    /// they were reached, and the last layer.
    pub open spec fn bfs_layers(&self, start: u64, d: nat) -> (Seq<u64>, Seq<u64>)
        decreases d,
    {
        if d == 0 {
            (seq![start], seq![start])
        } else {
            let (order, frontier) = self.bfs_layers(start, (d - 1) as nat);
            let next = self.next_layer(frontier, order.to_set());
            (order + next, next)
        }
    }

    /// The nodes within `max_depth` steps of `start` along outgoing edges, in breadth-first
    /// order; nothing when `start` is not a node.
    pub open spec fn bfs_order(&self, start: u64, max_depth: nat) -> Seq<u64> {
        if self.nodes@.contains_key(start) {
            self.bfs_layers(start, max_depth).0
        } else {
            Seq::empty()
        }
    }

    /// Once a layer is empty, the later layers add nothing.
    pub proof fn lemma_bfs_settles(&self, start: u64, d: nat, k: nat)
        requires
            self.bfs_layers(start, d).1.len() == 0,
        ensures
            self.bfs_layers(start, d + k) == self.bfs_layers(start, d),
        decreases k,
    {
        if k > 0 {
            self.lemma_bfs_settles(start, d, (k - 1) as nat);
            let (o, f) = self.bfs_layers(start, (d + k - 1) as nat);
            assert(f =~= Seq::<u64>::empty());
            assert(self.next_layer(f, o.to_set()) =~= Seq::<u64>::empty());
            assert(o + Seq::<u64>::empty() =~= o);
        }
    }

    /// Breadth-first traversal from `start_id` along outgoing edges, at most `max_depth` steps
    /// deep; each reachable node is listed once, when first reached.
    pub fn bfs(&self, start_id: u64, max_depth: usize) -> (r: Vec<u64>)
        ensures
            r@ == self.bfs_order(start_id, max_depth as nat),
    {
        if !self.nodes.contains_key(&start_id) {
            return Vec::new();
        }
        let mut order: Vec<u64> = Vec::new();
        order.push(start_id);
        let mut visited: HashSet<u64> = HashSet::new();
        visited.insert(start_id);
        let mut frontier: Vec<u64> = Vec::new();
        frontier.push(start_id);
        let mut depth: usize = 0;
        proof {
            lemma_to_set_push(Seq::<u64>::empty(), start_id);
            assert(Seq::<u64>::empty().push(start_id) =~= seq![start_id]);
            assert(Seq::<u64>::empty().to_set() =~= Set::<u64>::empty());
        }
        while depth < max_depth && frontier.len() > 0
            invariant
                depth <= max_depth,
                (order@, frontier@) == self.bfs_layers(start_id, depth as nat),
                visited@ == order@.to_set(),
            decreases max_depth - depth,
        {
            let ghost order0 = order@;
            let ghost seen = order@.to_set();
            let mut next: Vec<u64> = Vec::new();
            let mut i: usize = 0;
            assert(order0 + next@ =~= order0);
            while i < frontier.len()
                invariant
                    i <= frontier@.len(),
                    seen == order0.to_set(),
                    next@ == self.next_layer(frontier@.take(i as int), seen),
                    order@ == order0 + next@,
                    visited@ == order@.to_set(),
                decreases frontier@.len() - i,
            {
                let u = frontier[i];
                let nbs = self.out_neighbors(u);
                let ghost base = next@;
                let mut j: usize = 0;
                assert(nbs@.take(0) =~= Seq::<u64>::empty());
                while j < nbs.len()
                    invariant
                        j <= nbs@.len(),
                        seen == order0.to_set(),
                        next@ == add_fresh(base, nbs@.take(j as int), seen),
                        order@ == order0 + next@,
                        visited@ == order@.to_set(),
                    decreases nbs@.len() - j,
                {
                    let v = nbs[j];
                    assert(nbs@.take(j + 1).drop_last() =~= nbs@.take(j as int));
                    assert((order0 + next@).contains(v) <==> (seen.contains(v) || next@.contains(v))) by {
                        if (order0 + next@).contains(v) {
                            let q = choose|q: int| 0 <= q < (order0 + next@).len() && (order0 + next@)[q] == v;
                            if q < order0.len() {
                                assert(order0[q] == v);
                            } else {
                                assert(next@[q - order0.len()] == v);
                            }
                        }
                        if order0.contains(v) {
                            let q = choose|q: int| 0 <= q < order0.len() && order0[q] == v;
                            assert((order0 + next@)[q] == v);
                        }
                        if next@.contains(v) {
                            let q = choose|q: int| 0 <= q < next@.len() && next@[q] == v;
                            assert((order0 + next@)[order0.len() + q] == v);
                        }
                    }
                    if !visited.contains(&v) {
                        proof {
                            lemma_to_set_push(order@, v);
                        }
                        visited.insert(v);
                        order.push(v);
                        next.push(v);
                        assert(order@ =~= order0 + next@);
                    }
                    j = j + 1;
                }
                proof {
                    assert(nbs@.take(nbs@.len() as int) =~= nbs@);
                    assert(frontier@.take(i + 1).drop_last() =~= frontier@.take(i as int));
                }
                i = i + 1;
            }
            proof {
                assert(frontier@.take(frontier@.len() as int) =~= frontier@);
            }
            frontier = next;
            depth = depth + 1;
        }
        proof {
            if depth < max_depth {
                self.lemma_bfs_settles(start_id, depth as nat, (max_depth - depth) as nat);
            }
        }
        order
    }
}

impl PropertyGraph {
    /// Depth-first visit of `u` with `rem` more steps allowed, after the nodes in `visited`:
    /// the nodes listed in visiting order, and the visited nodes afterwards. `u` is listed first,
    /// then, while steps remain, the unvisited outgoing neighbors of `u` are visited in order.
    pub open spec fn dfs_from(&self, u: u64, rem: nat, visited: Set<u64>) -> (Seq<u64>, Set<u64>)
        decreases rem, 1nat, 0nat,
    {
        let vis = visited.insert(u);
        if rem > 0 {
            let (o, v) = self.dfs_seq(self.out_nbrs(u), (rem - 1) as nat, vis);
            (seq![u] + o, v)
        } else {
            (seq![u], vis)
        }
    }

    /// Depth-first visits of the nodes `vs` in turn, skipping those already visited.
    pub open spec fn dfs_seq(&self, vs: Seq<u64>, rem: nat, visited: Set<u64>) -> (Seq<u64>, Set<u64>)
        decreases rem + 1, 0nat, vs.len(),
    {
        if vs.len() == 0 {
            (Seq::empty(), visited)
        } else {
            let (o, v) = self.dfs_seq(vs.drop_last(), rem, visited);
            let x = vs.last();
            if v.contains(x) {
                (o, v)
            } else {
                let (o2, v2) = self.dfs_from(x, rem, v);
                (o + o2, v2)
            }
        }
    }

    /// The nodes within `max_depth` steps of `start` along outgoing edges, in depth-first
    /// order; nothing when `start` is not a node.
    pub open spec fn dfs_order(&self, start: u64, max_depth: nat) -> Seq<u64> {
        if self.nodes@.contains_key(start) {
            self.dfs_from(start, max_depth, Set::empty()).0
        } else {
            Seq::empty()
        }
    }

    fn dfs_visit(&self, u: u64, rem: usize, visited: &mut HashSet<u64>, order: &mut Vec<u64>)
        requires
            !old(visited)@.contains(u),
            old(visited)@ == old(order)@.to_set(),
        ensures
            final(order)@ == old(order)@ + self.dfs_from(u, rem as nat, old(visited)@).0,
            final(visited)@ == self.dfs_from(u, rem as nat, old(visited)@).1,
            final(visited)@ == final(order)@.to_set(),
        decreases rem, 1nat,
    {
        let ghost order_in = order@;
        proof {
            lemma_to_set_push(order@, u);
        }
        visited.insert(u);
        order.push(u);
        if rem > 0 {
            let nbs = self.out_neighbors(u);
            let ghost vis1 = visited@;
            let ghost ord1 = order@;
            let mut i: usize = 0;
            assert(nbs@.take(0) =~= Seq::<u64>::empty());
            assert(ord1 + Seq::<u64>::empty() =~= ord1);
            while i < nbs.len()
                invariant
                    i <= nbs@.len(),
                    0 < rem,
                    order@ == ord1 + self.dfs_seq(nbs@.take(i as int), (rem - 1) as nat, vis1).0,
                    visited@ == self.dfs_seq(nbs@.take(i as int), (rem - 1) as nat, vis1).1,
                    visited@ == order@.to_set(),
                decreases nbs@.len() - i,
            {
                let x = nbs[i];
                assert(nbs@.take(i + 1).drop_last() =~= nbs@.take(i as int));
                let ghost before = order@;
                if !visited.contains(&x) {
                    self.dfs_visit(x, rem - 1, visited, order);
                    assert(order@ =~= ord1 + (self.dfs_seq(nbs@.take(i as int), (rem - 1) as nat, vis1).0
                        + self.dfs_from(x, (rem - 1) as nat, self.dfs_seq(nbs@.take(i as int), (rem - 1) as nat, vis1).1).0));
                }
                i = i + 1;
            }
            assert(nbs@.take(nbs@.len() as int) =~= nbs@);
            assert(order@ =~= order_in + (seq![u] + self.dfs_seq(nbs@, (rem - 1) as nat, vis1).0));
        } else {
            assert(order@ =~= order_in + seq![u]);
        }
    }

    /// Depth-first traversal from `start_id` along outgoing edges, at most `max_depth` steps
    /// deep; each reachable node is listed once, when first visited.
    pub fn dfs(&self, start_id: u64, max_depth: usize) -> (r: Vec<u64>)
        ensures
            r@ == self.dfs_order(start_id, max_depth as nat),
    {
        let mut order: Vec<u64> = Vec::new();
        if !self.nodes.contains_key(&start_id) {
            return order;
        }
        let mut visited: HashSet<u64> = HashSet::new();
        assert(order@.to_set() =~= Set::<u64>::empty());
        self.dfs_visit(start_id, max_depth, &mut visited, &mut order);
        assert(order@ =~= Seq::<u64>::empty() + self.dfs_from(start_id, max_depth as nat, Set::empty()).0);
        order
    }
}

/// The members of `s`, none in `avoid`, none repeated.
pub open spec fn fresh_list(s: Seq<u64>, avoid: Set<u64>) -> bool {
    &&& s.no_duplicates()
    &&& forall|i: int| 0 <= i < s.len() ==> !avoid.contains(#[trigger] s[i])
}

proof fn lemma_concat_fresh(a: Seq<u64>, b: Seq<u64>, avoid: Set<u64>)
    requires
        fresh_list(a, avoid),
        fresh_list(b, avoid.union(a.to_set())),
    ensures
        fresh_list(a + b, avoid),
{
    let c = a + b;
    assert forall|i: int, j: int| 0 <= i < c.len() && 0 <= j < c.len() && i != j implies c[i] != c[j] by {
        if i < a.len() && j >= a.len() {
            assert(a.to_set().contains(a[i]));
            assert(!avoid.union(a.to_set()).contains(b[j - a.len()]));
        } else if j < a.len() && i >= a.len() {
            assert(a.to_set().contains(a[j]));
            assert(!avoid.union(a.to_set()).contains(b[i - a.len()]));
        }
    }
    assert forall|i: int| 0 <= i < c.len() implies !avoid.contains(#[trigger] c[i]) by {
        if i >= a.len() {
            assert(!avoid.union(a.to_set()).contains(b[i - a.len()]));
        }
    }
}

proof fn lemma_add_fresh(acc: Seq<u64>, vs: Seq<u64>, seen: Set<u64>)
    requires
        fresh_list(acc, seen),
    ensures
        fresh_list(add_fresh(acc, vs, seen), seen),
    decreases vs.len(),
{
    if vs.len() > 0 {
        let a = add_fresh(acc, vs.drop_last(), seen);
        lemma_add_fresh(acc, vs.drop_last(), seen);
        let x = vs.last();
        if !(seen.contains(x) || a.contains(x)) {
            assert forall|i: int, j: int| 0 <= i < a.push(x).len() && 0 <= j < a.push(x).len() && i != j implies a.push(x)[i] != a.push(x)[j] by {
                if i == a.len() {
                    assert(a[j] != x);
                } else if j == a.len() {
                    assert(a[i] != x);
                }
            }
        }
    }
}

impl PropertyGraph {
    proof fn lemma_next_layer_fresh(&self, frontier: Seq<u64>, seen: Set<u64>)
        ensures
            fresh_list(self.next_layer(frontier, seen), seen),
        decreases frontier.len(),
    {
        if frontier.len() > 0 {
            self.lemma_next_layer_fresh(frontier.drop_last(), seen);
            lemma_add_fresh(self.next_layer(frontier.drop_last(), seen), self.out_nbrs(frontier.last()), seen);
        }
    }

    proof fn lemma_bfs_layers_fresh(&self, start: u64, d: nat)
        ensures
            fresh_list(self.bfs_layers(start, d).0, Set::empty()),
            self.bfs_layers(start, d).0.len() >= 1,
            self.bfs_layers(start, d).0[0] == start,
        decreases d,
    {
        if d > 0 {
            self.lemma_bfs_layers_fresh(start, (d - 1) as nat);
            let (o, f) = self.bfs_layers(start, (d - 1) as nat);
            self.lemma_next_layer_fresh(f, o.to_set());
            assert(Set::<u64>::empty().union(o.to_set()) =~= o.to_set());
            lemma_concat_fresh(o, self.next_layer(f, o.to_set()), Set::empty());
        } else {
            assert(seq![start].no_duplicates());
        }
    }

    /// A breadth-first traversal lists no node twice, and lists the start first.
    pub proof fn lemma_bfs_lists_once(&self, start: u64, max_depth: nat)
        ensures
            self.bfs_order(start, max_depth).no_duplicates(),
            self.nodes@.contains_key(start) ==> self.bfs_order(start, max_depth).len() >= 1
                && self.bfs_order(start, max_depth)[0] == start,
    {
        if self.nodes@.contains_key(start) {
            self.lemma_bfs_layers_fresh(start, max_depth);
        }
    }

    proof fn lemma_dfs_from_fresh(&self, u: u64, rem: nat, visited: Set<u64>)
        requires
            !visited.contains(u),
        ensures
            fresh_list(self.dfs_from(u, rem, visited).0, visited),
            self.dfs_from(u, rem, visited).1 == visited.union(self.dfs_from(u, rem, visited).0.to_set()),
            self.dfs_from(u, rem, visited).0.len() >= 1,
            self.dfs_from(u, rem, visited).0[0] == u,
        decreases rem, 1nat, 0nat,
    {
        let vis = visited.insert(u);
        assert(seq![u].no_duplicates());
        assert(fresh_list(seq![u], visited));
        assert(seq![u].to_set() =~= set![u]) by {
            assert forall|x: u64| seq![u].to_set().contains(x) <==> x == u by {
                if x == u {
                    assert(seq![u][0] == x);
                }
            }
        }
        if rem > 0 {
            self.lemma_dfs_seq_fresh(self.out_nbrs(u), (rem - 1) as nat, vis);
            let (o, v) = self.dfs_seq(self.out_nbrs(u), (rem - 1) as nat, vis);
            assert(visited.union(seq![u].to_set()) =~= vis);
            lemma_concat_fresh(seq![u], o, visited);
            assert((seq![u] + o).to_set() =~= seq![u].to_set().union(o.to_set())) by {
                assert forall|x: u64| (seq![u] + o).to_set().contains(x) <==> seq![u].to_set().union(o.to_set()).contains(x) by {
                    if (seq![u] + o).contains(x) {
                        let i = choose|i: int| 0 <= i < (seq![u] + o).len() && (seq![u] + o)[i] == x;
                        if i >= 1 {
                            assert(o[i - 1] == x);
                        }
                    }
                    if o.contains(x) {
                        let i = choose|i: int| 0 <= i < o.len() && o[i] == x;
                        assert((seq![u] + o)[i + 1] == x);
                    }
                    if x == u {
                        assert((seq![u] + o)[0] == x);
                    }
                }
            }
            assert(v =~= visited.union((seq![u] + o).to_set()));
        } else {
            assert(vis =~= visited.union(seq![u].to_set()));
        }
    }

    proof fn lemma_dfs_seq_fresh(&self, vs: Seq<u64>, rem: nat, visited: Set<u64>)
        ensures
            fresh_list(self.dfs_seq(vs, rem, visited).0, visited),
            self.dfs_seq(vs, rem, visited).1 == visited.union(self.dfs_seq(vs, rem, visited).0.to_set()),
        decreases rem + 1, 0nat, vs.len(),
    {
        if vs.len() == 0 {
            assert(visited.union(Seq::<u64>::empty().to_set()) =~= visited);
            assert(Seq::<u64>::empty().no_duplicates());
        } else {
            self.lemma_dfs_seq_fresh(vs.drop_last(), rem, visited);
            let (o, v) = self.dfs_seq(vs.drop_last(), rem, visited);
            let x = vs.last();
            if !v.contains(x) {
                self.lemma_dfs_from_fresh(x, rem, v);
                let (o2, v2) = self.dfs_from(x, rem, v);
                lemma_concat_fresh(o, o2, visited);
                assert((o + o2).to_set() =~= o.to_set().union(o2.to_set())) by {
                    assert forall|y: u64| (o + o2).to_set().contains(y) <==> o.to_set().union(o2.to_set()).contains(y) by {
                        if (o + o2).contains(y) {
                            let i = choose|i: int| 0 <= i < (o + o2).len() && (o + o2)[i] == y;
                            if i < o.len() {
                                assert(o[i] == y);
                            } else {
                                assert(o2[i - o.len()] == y);
                            }
                        }
                        if o.contains(y) {
                            let i = choose|i: int| 0 <= i < o.len() && o[i] == y;
                            assert((o + o2)[i] == y);
                        }
                        if o2.contains(y) {
                            let i = choose|i: int| 0 <= i < o2.len() && o2[i] == y;
                            assert((o + o2)[o.len() + i] == y);
                        }
                    }
                }
                assert(v2 =~= visited.union((o + o2).to_set()));
            }
        }
    }

    /// A depth-first traversal lists no node twice, and lists the start first.
    pub proof fn lemma_dfs_lists_once(&self, start: u64, max_depth: nat)
        ensures
            self.dfs_order(start, max_depth).no_duplicates(),
            self.nodes@.contains_key(start) ==> self.dfs_order(start, max_depth).len() >= 1
                && self.dfs_order(start, max_depth)[0] == start,
    {
        if self.nodes@.contains_key(start) {
            self.lemma_dfs_from_fresh(start, max_depth, Set::empty());
        }
    }
}

/// The open graphs, with the id the next one gets.
pub struct GraphRegistry {
    pub next_id: u64,
    pub graphs: Vec<PropertyGraph>,
}

impl GraphRegistry {
    /// Ids are handed out from 1 upwards; every open graph has a distinct id below `next_id`.
    pub open spec fn wf(&self) -> bool {
        &&& self.next_id >= 1
        &&& forall|i: int| 0 <= i < self.graphs@.len() ==> (#[trigger] self.graphs@[i]).id < self.next_id
        &&& forall|i: int, j: int|
            0 <= i < j < self.graphs@.len() ==> #[trigger] self.graphs@[i].id != #[trigger] self.graphs@[j].id
    }

    pub fn new() -> (r: Self)
        ensures
            r.wf(),
            r.next_id == 1,
            r.graphs@.len() == 0,
    {
        GraphRegistry { next_id: 1, graphs: Vec::new() }
    }
}

/// Opens a new empty graph named `name` and returns its id.
pub fn create_graph(reg: &mut GraphRegistry, name: &str) -> (id: u64)
    requires
        old(reg).wf(),
        old(reg).next_id < u64::MAX,
    ensures
        final(reg).wf(),
        id == old(reg).next_id,
        final(reg).next_id == id + 1,
        final(reg).graphs@.len() == old(reg).graphs@.len() + 1,
        final(reg).graphs@.last().id == id,
        final(reg).graphs@.last().name@ == name@,
        final(reg).graphs@.last().wf(),
        final(reg).graphs@.last().nodes@.len() == 0,
        final(reg).graphs@.last().edges@.len() == 0,
        final(reg).graphs@.last().next_node_id == 1,
        final(reg).graphs@.last().next_edge_id == 1,
        forall|i: int| 0 <= i < old(reg).graphs@.len() ==> #[trigger] final(reg).graphs@[i] == old(reg).graphs@[i],
{
    let id = reg.next_id;
    reg.next_id = reg.next_id + 1;
    let g = PropertyGraph::new(id, string_of(name));
    reg.graphs.push(g);
    id
}

/// The index of the graph with id `id`, if it is open.
pub fn graph_index(reg: &GraphRegistry, id: u64) -> (r: Option<usize>)
    ensures
        r matches Some(i) ==> i < reg.graphs@.len() && reg.graphs@[i as int].id == id,
        r is None ==> forall|i: int| 0 <= i < reg.graphs@.len() ==> #[trigger] reg.graphs@[i].id != id,
{
    let mut i: usize = 0;
    while i < reg.graphs.len()
        invariant
            i <= reg.graphs.len(),
            forall|j: int| 0 <= j < i ==> #[trigger] reg.graphs@[j].id != id,
        decreases reg.graphs.len() - i,
    {
        if reg.graphs[i].id == id {
            return Some(i);
        }
        i = i + 1;
    }
    None
}

/// The graph with id `id`.
pub fn get_graph(reg: &GraphRegistry, id: u64) -> (r: Result<&PropertyGraph, String>)
    ensures
        r matches Ok(g) ==> g.id == id && exists|i: int| 0 <= i < reg.graphs@.len() && reg.graphs@[i] == *g,
        r is Err ==> forall|i: int| 0 <= i < reg.graphs@.len() ==> #[trigger] reg.graphs@[i].id != id,
        r matches Err(e) ==> e@ == graph_not_found_message(id),
{
    match graph_index(reg, id) {
        Some(i) => Ok(&reg.graphs[i]),
        None => {
            let mut e = string_of("AetherGraph: Graph ");
            push_decimal(&mut e, id);
            push_str(&mut e, " not found");
            Err(e)
        },
    }
}

} // verus!
