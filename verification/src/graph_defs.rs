//! The graph model: an undirected, edge-weighted graph held as adjacency
//! lists, with unique vertex identifiers and unique labels, plus the plain
//! description structs a caller hands in to describe such a graph.

use vstd::prelude::*;

verus! {

// ---------------------------------------------------------------------------
// Plain description structs, as supplied by the transport layer.
// ---------------------------------------------------------------------------

/// One node of a graph description: an identifier string and a display label.
pub struct Node {
    pub id: String,
    pub label: String,
}

/// One edge of a graph description. `label` and `id` belong to the supplying
/// collaborator and are ignored by the solver.
pub struct Edge {
    pub from: String,
    pub to: String,
    pub weight: u32,
    pub label: String,
    pub id: String,
}

/// A whole graph description: nodes, edges, and the label of the vertex the
/// tour must start and end at.
pub struct Graph {
    pub nodes: Vec<Node>,
    pub edges: Vec<Edge>,
    pub starting_node: String,
}

/// Mathematical image of a `Node`.
pub struct NodeV {
    pub id: Seq<char>,
    pub label: Seq<char>,
}

/// Mathematical image of an `Edge`.
pub struct EdgeV {
    pub from: Seq<char>,
    pub to: Seq<char>,
    pub weight: u32,
    pub label: Seq<char>,
    pub id: Seq<char>,
}

/// Mathematical image of a `Graph`.
pub struct GraphDescV {
    pub nodes: Seq<NodeV>,
    pub edges: Seq<EdgeV>,
    pub starting_node: Seq<char>,
}

impl View for Node {
    type V = NodeV;

    open spec fn view(&self) -> NodeV {
        NodeV { id: self.id@, label: self.label@ }
    }
}

impl View for Edge {
    type V = EdgeV;

    open spec fn view(&self) -> EdgeV {
        EdgeV {
            from: self.from@,
            to: self.to@,
            weight: self.weight,
            label: self.label@,
            id: self.id@,
        }
    }
}

impl View for Graph {
    type V = GraphDescV;

    open spec fn view(&self) -> GraphDescV {
        GraphDescV {
            nodes: self.nodes@.map_values(|n: Node| n@),
            edges: self.edges@.map_values(|e: Edge| e@),
            starting_node: self.starting_node@,
        }
    }
}

// ---------------------------------------------------------------------------
// Spec-level helpers over association sequences.
// ---------------------------------------------------------------------------

/// First identifier in `s` paired with label `l`, if any.
pub open spec fn find_id_in(s: Seq<(u32, Seq<char>)>, l: Seq<char>) -> Option<u32>
    decreases s.len(),
{
    if s.len() == 0 {
        None
    } else if s[0].1 == l {
        Some(s[0].0)
    } else {
        find_id_in(s.drop_first(), l)
    }
}

/// First label in `s` paired with identifier `v`, if any.
pub open spec fn find_label_in(s: Seq<(u32, Seq<char>)>, v: u32) -> Option<Seq<char>>
    decreases s.len(),
{
    if s.len() == 0 {
        None
    } else if s[0].0 == v {
        Some(s[0].1)
    } else {
        find_label_in(s.drop_first(), v)
    }
}

/// First adjacency list in `s` recorded for vertex `v`, if any.
pub open spec fn find_adj_in(s: Seq<(u32, Seq<(u32, u32)>)>, v: u32) -> Option<Seq<(u32, u32)>>
    decreases s.len(),
{
    if s.len() == 0 {
        None
    } else if s[0].0 == v {
        Some(s[0].1)
    } else {
        find_adj_in(s.drop_first(), v)
    }
}

/// Whether the neighbour list `l` mentions vertex `v` at all.
pub open spec fn has_edge_l(l: Seq<(u32, u32)>, v: u32) -> bool
    decreases l.len(),
{
    l.len() > 0 && (l[0].0 == v || has_edge_l(l.drop_first(), v))
}

/// Weight of the first entry for `v` in the neighbour list `l`
/// (0 when there is none; meaningful only under `has_edge_l`).
pub open spec fn edge_w_l(l: Seq<(u32, u32)>, v: u32) -> int
    decreases l.len(),
{
    if l.len() == 0 {
        0
    } else if l[0].0 == v {
        l[0].1 as int
    } else {
        edge_w_l(l.drop_first(), v)
    }
}

// ---------------------------------------------------------------------------
// The mathematical graph model.
// ---------------------------------------------------------------------------

/// Mathematical model of an `UndirectedPerformantGraph`: the label table and
/// the adjacency table as association sequences in insertion order, and the
/// designated start vertex (0 meaning "unset").
pub struct GraphV {
    pub labels: Seq<(u32, Seq<char>)>,
    pub adj: Seq<(u32, Seq<(u32, u32)>)>,
    pub key: u32,
}

impl GraphV {
    /// The model of a freshly constructed graph.
    pub open spec fn empty() -> GraphV {
        GraphV { labels: Seq::empty(), adj: Seq::empty(), key: 0 }
    }

    pub open spec fn has_id(self, v: u32) -> bool {
        exists|i: int| 0 <= i < self.labels.len() && #[trigger] self.labels[i].0 == v
    }

    pub open spec fn has_label(self, l: Seq<char>) -> bool {
        exists|i: int| 0 <= i < self.labels.len() && #[trigger] self.labels[i].1 == l
    }

    /// The vertex identifiers, in insertion order.
    pub open spec fn ids(self) -> Seq<u32> {
        self.labels.map_values(|e: (u32, Seq<char>)| e.0)
    }

    /// The set of vertex identifiers.
    pub open spec fn id_set(self) -> Set<u32> {
        self.ids().to_set()
    }

    pub open spec fn find_id(self, l: Seq<char>) -> Option<u32> {
        find_id_in(self.labels, l)
    }

    pub open spec fn label_opt(self, v: u32) -> Option<Seq<char>> {
        find_label_in(self.labels, v)
    }

    /// The recorded adjacency list of `v`, if `v` has one.
    pub open spec fn adj_opt(self, v: u32) -> Option<Seq<(u32, u32)>> {
        find_adj_in(self.adj, v)
    }

    /// The neighbour list of `v`, empty when none is recorded.
    pub open spec fn nlist(self, v: u32) -> Seq<(u32, u32)> {
        match self.adj_opt(v) {
            Some(l) => l,
            None => Seq::empty(),
        }
    }

    /// `u`'s neighbour list holds the entry `(v, w)`.
    pub open spec fn is_step(self, u: u32, v: u32, w: u32) -> bool {
        self.nlist(u).contains((v, w))
    }

    /// `v`'s neighbour list mentions `start`, so a tour ending at `v` closes.
    pub open spec fn closes(self, v: u32, start: u32) -> bool {
        has_edge_l(self.nlist(v), start)
    }

    /// Weight of the first edge from `v` back to `start` — the one the search
    /// uses to close a tour.
    pub open spec fn close_w(self, v: u32, start: u32) -> int {
        edge_w_l(self.nlist(v), start)
    }

    /// Structural invariant: identifiers unique, labels unique, at most one
    /// adjacency list per vertex, and the start vertex (when set) exists.
    pub open spec fn wf(self) -> bool {
        &&& forall|i: int, j: int|
            0 <= i < j < self.labels.len() ==> (#[trigger] self.labels[i]).0 != (
            #[trigger] self.labels[j]).0
        &&& forall|i: int, j: int|
            0 <= i < j < self.labels.len() ==> (#[trigger] self.labels[i]).1 != (
            #[trigger] self.labels[j]).1
        &&& forall|i: int, j: int|
            0 <= i < j < self.adj.len() ==> (#[trigger] self.adj[i]).0 != (
            #[trigger] self.adj[j]).0
        &&& self.key == 0 || self.has_id(self.key)
    }

    /// What adding a vertex does to the model: a duplicate identifier or a
    /// duplicate label leaves the graph unchanged.
    pub open spec fn add_vertex_m(self, v: u32, l: Seq<char>) -> GraphV {
        if self.has_id(v) || self.has_label(l) {
            self
        } else {
            GraphV { labels: self.labels.push((v, l)), adj: self.adj, key: self.key }
        }
    }

    /// What adding an edge does to the model: both labels are resolved; if
    /// either is unknown the graph is unchanged, otherwise the edge is
    /// recorded symmetrically at both endpoints.
    pub open spec fn add_edge_m(self, from_l: Seq<char>, to_l: Seq<char>, w: u32) -> GraphV {
        match (self.find_id(from_l), self.find_id(to_l)) {
            (Some(from), Some(to)) => {
                let a1 = ensure_adj(self.adj, from);
                let a2 = ensure_adj(a1, to);
                let a3 = append_adj(a2, from, (to, w));
                let a4 = append_adj(a3, to, (from, w));
                GraphV { labels: self.labels, adj: a4, key: self.key }
            },
            _ => self,
        }
    }

    /// What designating the start vertex does to the model: an unknown label
    /// leaves the start as it was.
    pub open spec fn set_key_m(self, l: Seq<char>) -> GraphV {
        match self.find_id(l) {
            Some(k) => GraphV { labels: self.labels, adj: self.adj, key: k },
            None => self,
        }
    }
}

/// The adjacency table with an (empty) list guaranteed for `v`.
pub open spec fn ensure_adj(s: Seq<(u32, Seq<(u32, u32)>)>, v: u32) -> Seq<(u32, Seq<(u32, u32)>)> {
    if find_adj_in(s, v) is Some {
        s
    } else {
        s.push((v, Seq::empty()))
    }
}

/// The adjacency table with `p` appended to every list recorded for `v`
/// (under well-formedness there is at most one such list).
pub open spec fn append_adj(
    s: Seq<(u32, Seq<(u32, u32)>)>,
    v: u32,
    p: (u32, u32),
) -> Seq<(u32, Seq<(u32, u32)>)> {
    s.map_values(|e: (u32, Seq<(u32, u32)>)| if e.0 == v { (e.0, e.1.push(p)) } else { e })
}

// ---------------------------------------------------------------------------
// First-match characterisations of the lookup functions.
// ---------------------------------------------------------------------------

pub proof fn lemma_find_id_in_found(s: Seq<(u32, Seq<char>)>, l: Seq<char>, i: int)
    requires
        0 <= i < s.len(),
        s[i].1 == l,
        forall|k: int| 0 <= k < i ==> (#[trigger] s[k]).1 != l,
    ensures
        find_id_in(s, l) == Some(s[i].0),
    decreases i,
{
    if i > 0 {
        assert(s[0].1 != l);
        assert forall|k: int| 0 <= k < i - 1 implies (#[trigger] s.drop_first()[k]).1 != l by {
            assert(s.drop_first()[k] == s[k + 1]);
        }
        assert(s.drop_first()[i - 1] == s[i]);
        lemma_find_id_in_found(s.drop_first(), l, i - 1);
    }
}

pub proof fn lemma_find_id_in_none(s: Seq<(u32, Seq<char>)>, l: Seq<char>)
    requires
        forall|k: int| 0 <= k < s.len() ==> (#[trigger] s[k]).1 != l,
    ensures
        find_id_in(s, l) is None,
    decreases s.len(),
{
    if s.len() > 0 {
        assert(s[0].1 != l);
        assert forall|k: int| 0 <= k < s.drop_first().len() implies (
        #[trigger] s.drop_first()[k]).1 != l by {
            assert(s.drop_first()[k] == s[k + 1]);
        }
        lemma_find_id_in_none(s.drop_first(), l);
    }
}

pub proof fn lemma_find_id_in_some(s: Seq<(u32, Seq<char>)>, l: Seq<char>)
    requires
        find_id_in(s, l) is Some,
    ensures
        exists|i: int|
            0 <= i < s.len() && (#[trigger] s[i]).1 == l && s[i].0 == find_id_in(s, l).unwrap(),
    decreases s.len(),
{
    if s.len() > 0 && s[0].1 != l {
        lemma_find_id_in_some(s.drop_first(), l);
        let i = choose|i: int|
            0 <= i < s.drop_first().len() && (#[trigger] s.drop_first()[i]).1 == l
                && s.drop_first()[i].0 == find_id_in(s.drop_first(), l).unwrap();
        assert(s[i + 1] == s.drop_first()[i]);
    }
}

pub proof fn lemma_find_label_in_found(s: Seq<(u32, Seq<char>)>, v: u32, i: int)
    requires
        0 <= i < s.len(),
        s[i].0 == v,
        forall|k: int| 0 <= k < i ==> (#[trigger] s[k]).0 != v,
    ensures
        find_label_in(s, v) == Some(s[i].1),
    decreases i,
{
    if i > 0 {
        assert(s[0].0 != v);
        assert forall|k: int| 0 <= k < i - 1 implies (#[trigger] s.drop_first()[k]).0 != v by {
            assert(s.drop_first()[k] == s[k + 1]);
        }
        assert(s.drop_first()[i - 1] == s[i]);
        lemma_find_label_in_found(s.drop_first(), v, i - 1);
    }
}

pub proof fn lemma_find_label_in_none(s: Seq<(u32, Seq<char>)>, v: u32)
    requires
        forall|k: int| 0 <= k < s.len() ==> (#[trigger] s[k]).0 != v,
    ensures
        find_label_in(s, v) is None,
    decreases s.len(),
{
    if s.len() > 0 {
        assert(s[0].0 != v);
        assert forall|k: int| 0 <= k < s.drop_first().len() implies (
        #[trigger] s.drop_first()[k]).0 != v by {
            assert(s.drop_first()[k] == s[k + 1]);
        }
        lemma_find_label_in_none(s.drop_first(), v);
    }
}

pub proof fn lemma_find_adj_in_found(s: Seq<(u32, Seq<(u32, u32)>)>, v: u32, i: int)
    requires
        0 <= i < s.len(),
        s[i].0 == v,
        forall|k: int| 0 <= k < i ==> (#[trigger] s[k]).0 != v,
    ensures
        find_adj_in(s, v) == Some(s[i].1),
    decreases i,
{
    if i > 0 {
        assert(s[0].0 != v);
        assert forall|k: int| 0 <= k < i - 1 implies (#[trigger] s.drop_first()[k]).0 != v by {
            assert(s.drop_first()[k] == s[k + 1]);
        }
        assert(s.drop_first()[i - 1] == s[i]);
        lemma_find_adj_in_found(s.drop_first(), v, i - 1);
    }
}

pub proof fn lemma_find_adj_in_none(s: Seq<(u32, Seq<(u32, u32)>)>, v: u32)
    requires
        forall|k: int| 0 <= k < s.len() ==> (#[trigger] s[k]).0 != v,
    ensures
        find_adj_in(s, v) is None,
    decreases s.len(),
{
    if s.len() > 0 {
        assert(s[0].0 != v);
        assert forall|k: int| 0 <= k < s.drop_first().len() implies (
        #[trigger] s.drop_first()[k]).0 != v by {
            assert(s.drop_first()[k] == s[k + 1]);
        }
        lemma_find_adj_in_none(s.drop_first(), v);
    }
}

pub proof fn lemma_find_label_in_exists(s: Seq<(u32, Seq<char>)>, v: u32)
    ensures
        find_label_in(s, v) is Some <==> exists|i: int|
            0 <= i < s.len() && (#[trigger] s[i]).0 == v,
    decreases s.len(),
{
    if s.len() > 0 {
        lemma_find_label_in_exists(s.drop_first(), v);
        if s[0].0 != v {
            if find_label_in(s.drop_first(), v) is Some {
                let i = choose|i: int|
                    0 <= i < s.drop_first().len() && (#[trigger] s.drop_first()[i]).0 == v;
                assert(s[i + 1] == s.drop_first()[i]);
            }
            if exists|i: int| 0 <= i < s.len() && (#[trigger] s[i]).0 == v {
                let i = choose|i: int| 0 <= i < s.len() && (#[trigger] s[i]).0 == v;
                assert(s.drop_first()[i - 1] == s[i]);
            }
        }
    }
}

pub proof fn lemma_find_adj_in_exists(s: Seq<(u32, Seq<(u32, u32)>)>, v: u32)
    ensures
        find_adj_in(s, v) is Some <==> exists|i: int| 0 <= i < s.len() && (#[trigger] s[i]).0 == v,
    decreases s.len(),
{
    if s.len() > 0 {
        lemma_find_adj_in_exists(s.drop_first(), v);
        if s[0].0 != v {
            if find_adj_in(s.drop_first(), v) is Some {
                let i = choose|i: int|
                    0 <= i < s.drop_first().len() && (#[trigger] s.drop_first()[i]).0 == v;
                assert(s[i + 1] == s.drop_first()[i]);
            }
            if exists|i: int| 0 <= i < s.len() && (#[trigger] s[i]).0 == v {
                let i = choose|i: int| 0 <= i < s.len() && (#[trigger] s[i]).0 == v;
                assert(s.drop_first()[i - 1] == s[i]);
            }
        }
    }
}

pub proof fn lemma_edge_l_found(l: Seq<(u32, u32)>, v: u32, j: int)
    requires
        0 <= j < l.len(),
        l[j].0 == v,
        forall|k: int| 0 <= k < j ==> (#[trigger] l[k]).0 != v,
    ensures
        has_edge_l(l, v),
        edge_w_l(l, v) == l[j].1 as int,
    decreases j,
{
    if j > 0 {
        assert(l[0].0 != v);
        assert forall|k: int| 0 <= k < j - 1 implies (#[trigger] l.drop_first()[k]).0 != v by {
            assert(l.drop_first()[k] == l[k + 1]);
        }
        assert(l.drop_first()[j - 1] == l[j]);
        lemma_edge_l_found(l.drop_first(), v, j - 1);
    }
}

pub proof fn lemma_edge_l_none(l: Seq<(u32, u32)>, v: u32)
    requires
        forall|k: int| 0 <= k < l.len() ==> (#[trigger] l[k]).0 != v,
    ensures
        !has_edge_l(l, v),
    decreases l.len(),
{
    if l.len() > 0 {
        assert(l[0].0 != v);
        assert forall|k: int| 0 <= k < l.drop_first().len() implies (
        #[trigger] l.drop_first()[k]).0 != v by {
            assert(l.drop_first()[k] == l[k + 1]);
        }
        lemma_edge_l_none(l.drop_first(), v);
    }
}

/// The closing weight of a neighbour list is never negative.
pub proof fn lemma_edge_w_l_nonneg(l: Seq<(u32, u32)>, v: u32)
    ensures
        edge_w_l(l, v) >= 0,
    decreases l.len(),
{
    if l.len() > 0 && l[0].0 != v {
        lemma_edge_w_l_nonneg(l.drop_first(), v);
    }
}

// ---------------------------------------------------------------------------
// The executable graph.
// ---------------------------------------------------------------------------

/// An undirected, edge-weighted graph held as adjacency lists, with a label
/// per vertex and a designated start vertex (identifier 0 meaning "unset").
pub struct UndirectedPerformantGraph {
    vertices: Vec<(u32, Vec<(u32, u32)>)>,
    labels: Vec<(u32, String)>,
    key_vertex: u32,
}

impl View for UndirectedPerformantGraph {
    type V = GraphV;

    closed spec fn view(&self) -> GraphV {
        GraphV {
            labels: self.labels@.map_values(|e: (u32, String)| (e.0, e.1@)),
            adj: self.vertices@.map_values(|e: (u32, Vec<(u32, u32)>)| (e.0, e.1@)),
            key: self.key_vertex,
        }
    }
}

impl UndirectedPerformantGraph {
    /// A graph with no vertices, no edges, and no start vertex.
    pub fn new() -> (g: Self)
        ensures
            g@ == GraphV::empty(),
            g@.wf(),
    {
        let g = Self { vertices: Vec::new(), labels: Vec::new(), key_vertex: 0 };
        proof {
            assert(g@.labels =~= GraphV::empty().labels);
            assert(g@.adj =~= GraphV::empty().adj);
        }
        g
    }

    /// Index of the label entry for identifier `v`, if there is one.
    fn id_index(&self, v: u32) -> (r: Option<usize>)
        ensures
            match r {
                Some(i) => i < self@.labels.len() && self@.labels[i as int].0 == v,
                None => !self@.has_id(v),
            },
    {
        let n = self.labels.len();
        let mut i: usize = 0;
        while i < n
            invariant
                i <= n,
                n == self.labels.len(),
                forall|k: int| 0 <= k < i ==> (#[trigger] self@.labels[k]).0 != v,
            decreases n - i,
        {
            if self.labels[i].0 == v {
                return Some(i);
            }
            i += 1;
        }
        None
    }

    /// Whether some vertex already carries the label `l`.
    fn has_label_exec(&self, l: &String) -> (r: bool)
        ensures
            r == self@.has_label(l@),
    {
        let n = self.labels.len();
        let mut i: usize = 0;
        while i < n
            invariant
                i <= n,
                n == self.labels.len(),
                forall|k: int| 0 <= k < i ==> (#[trigger] self@.labels[k]).1 != l@,
            decreases n - i,
        {
            if self.labels[i].1 == *l {
                assert(self@.labels[i as int].1 == l@);
                return true;
            }
            i += 1;
        }
        false
    }

    /// First-match lookup of a label, shared by the public operations.
    fn find_id_ref(&self, label: &String) -> (r: Option<u32>)
        ensures
            r == self@.find_id(label@),
    {
        let n = self.labels.len();
        let mut i: usize = 0;
        while i < n
            invariant
                i <= n,
                n == self.labels.len(),
                forall|k: int| 0 <= k < i ==> (#[trigger] self@.labels[k]).1 != label@,
            decreases n - i,
        {
            if self.labels[i].1 == *label {
                proof {
                    lemma_find_id_in_found(self@.labels, label@, i as int);
                }
                return Some(self.labels[i].0);
            }
            i += 1;
        }
        proof {
            lemma_find_id_in_none(self@.labels, label@);
        }
        None
    }

    /// Index of the adjacency entry for vertex `v`, if there is one.
    fn adj_index(&self, v: u32) -> (r: Option<usize>)
        ensures
            match r {
                Some(i) => {
                    &&& i < self@.adj.len()
                    &&& self@.adj[i as int].0 == v
                    &&& forall|k: int| 0 <= k < i ==> (#[trigger] self@.adj[k]).0 != v
                },
                None => find_adj_in(self@.adj, v) is None,
            },
    {
        let n = self.vertices.len();
        let mut i: usize = 0;
        while i < n
            invariant
                i <= n,
                n == self.vertices.len(),
                forall|k: int| 0 <= k < i ==> (#[trigger] self@.adj[k]).0 != v,
            decreases n - i,
        {
            if self.vertices[i].0 == v {
                return Some(i);
            }
            i += 1;
        }
        proof {
            lemma_find_adj_in_none(self@.adj, v);
        }
        None
    }

    /// Inserts a vertex. A duplicate identifier or a duplicate label leaves
    /// the graph unchanged and reports which conflict was found.
    pub fn add_vertex(&mut self, vertex: u32, label: String) -> (r: Result<(), GraphError>)
        requires
            old(self)@.wf(),
        ensures
            final(self)@ == old(self)@.add_vertex_m(vertex, label@),
            final(self)@.wf(),
            match r {
                Ok(()) => !old(self)@.has_id(vertex) && !old(self)@.has_label(label@),
                Err(GraphError::DuplicateVertex) => old(self)@.has_id(vertex),
                Err(GraphError::DuplicateLabel) => !old(self)@.has_id(vertex) && old(
                    self,
                )@.has_label(label@),
                Err(_) => false,
            },
    {
        if let Some(_) = self.id_index(vertex) {
            return Err(GraphError::DuplicateVertex);
        }
        if self.has_label_exec(&label) {
            return Err(GraphError::DuplicateLabel);
        }
        let ghost m0 = self@;
        self.labels.push((vertex, label));
        proof {
            assert(self@.labels =~= m0.labels.push((vertex, label@)));
            assert(self@.adj =~= m0.adj);
            assert(self@ == m0.add_vertex_m(vertex, label@));
            assert forall|i: int, j: int|
                0 <= i < j < self@.labels.len() implies (#[trigger] self@.labels[i]).0 != (
            #[trigger] self@.labels[j]).0 by {
                if j == self@.labels.len() - 1 {
                    assert(self@.labels[i] == m0.labels[i]);
                }
            }
            assert forall|i: int, j: int|
                0 <= i < j < self@.labels.len() implies (#[trigger] self@.labels[i]).1 != (
            #[trigger] self@.labels[j]).1 by {
                if j == self@.labels.len() - 1 {
                    assert(self@.labels[i] == m0.labels[i]);
                }
            }
            if m0.key != 0 {
                let i = choose|i: int| 0 <= i < m0.labels.len() && #[trigger] m0.labels[i].0
                    == m0.key;
                assert(self@.labels[i].0 == m0.key);
            }
        }
        Ok(())
    }

    /// Resolves a label to its vertex identifier.
    pub fn find_vertex_id(&self, label: String) -> (r: Option<u32>)
        ensures
            r == self@.find_id(label@),
    {
        self.find_id_ref(&label)
    }

    /// Designates the start vertex by label; an unknown label leaves the
    /// start vertex as it was and reports the miss.
    pub fn set_key_vertex(&mut self, key_v_label: String) -> (r: Result<(), GraphError>)
        requires
            old(self)@.wf(),
        ensures
            final(self)@ == old(self)@.set_key_m(key_v_label@),
            final(self)@.wf(),
            match r {
                Ok(()) => old(self)@.find_id(key_v_label@) is Some,
                Err(GraphError::UnknownLabel) => old(self)@.find_id(key_v_label@) is None,
                Err(_) => false,
            },
    {
        match self.find_id_ref(&key_v_label) {
            Some(key) => {
                self.key_vertex = key;
                proof {
                    lemma_find_id_in_some(self@.labels, key_v_label@);
                }
                Ok(())
            },
            None => Err(GraphError::UnknownLabel),
        }
    }

    /// The designated start vertex, if one was successfully set.
    pub fn get_key_vertex(&self) -> (r: Option<u32>)
        ensures
            r == if self@.key != 0 {
                Some(self@.key)
            } else {
                None::<u32>
            },
    {
        if self.key_vertex != 0 {
            Some(self.key_vertex)
        } else {
            None
        }
    }

    /// All vertex identifiers in insertion order, or `None` for an empty
    /// graph.
    pub fn get_vertices(&self) -> (r: Option<Vec<u32>>)
        ensures
            match r {
                Some(ids) => self@.labels.len() > 0 && ids@ == self@.ids(),
                None => self@.labels.len() == 0,
            },
    {
        let n = self.labels.len();
        if n == 0 {
            return None;
        }
        let mut keys: Vec<u32> = Vec::new();
        let mut i: usize = 0;
        while i < n
            invariant
                i <= n,
                n == self.labels.len(),
                keys@ =~= self@.ids().take(i as int),
            decreases n - i,
        {
            keys.push(self.labels[i].0);
            i += 1;
        }
        proof {
            assert(keys@ =~= self@.ids());
        }
        Some(keys)
    }

    /// The recorded adjacency list of a vertex, if it has one.
    pub fn get_neighbors(&self, vertex: u32) -> (r: Option<&Vec<(u32, u32)>>)
        ensures
            match r {
                Some(l) => self@.adj_opt(vertex) == Some(l@),
                None => self@.adj_opt(vertex) is None,
            },
    {
        match self.adj_index(vertex) {
            Some(i) => {
                proof {
                    lemma_find_adj_in_found(self@.adj, vertex, i as int);
                }
                Some(&self.vertices[i].1)
            },
            None => None,
        }
    }

    /// The label of a vertex, if the vertex exists.
    pub fn get_label(&self, vertex: u32) -> (r: Option<String>)
        ensures
            match r {
                Some(s) => self@.label_opt(vertex) == Some(s@),
                None => self@.label_opt(vertex) is None,
            },
    {
        let n = self.labels.len();
        let mut i: usize = 0;
        while i < n
            invariant
                i <= n,
                n == self.labels.len(),
                forall|k: int| 0 <= k < i ==> (#[trigger] self@.labels[k]).0 != vertex,
            decreases n - i,
        {
            if self.labels[i].0 == vertex {
                proof {
                    lemma_find_label_in_found(self@.labels, vertex, i as int);
                }
                return Some(self.labels[i].1.clone());
            }
            i += 1;
        }
        proof {
            lemma_find_label_in_none(self@.labels, vertex);
        }
        None
    }

    /// Makes sure `v` has an adjacency entry, adding an empty one if needed.
    fn ensure_vertex_list(&mut self, v: u32)
        requires
            old(self)@.wf(),
        ensures
            final(self)@.labels == old(self)@.labels,
            final(self)@.key == old(self)@.key,
            final(self)@.adj == ensure_adj(old(self)@.adj, v),
            find_adj_in(final(self)@.adj, v) is Some,
            final(self)@.wf(),
    {
        let ghost m0 = self@;
        match self.adj_index(v) {
            Some(i) => {
                proof {
                    lemma_find_adj_in_found(m0.adj, v, i as int);
                }
            },
            None => {
                self.vertices.push((v, Vec::new()));
                proof {
                    assert(self@.adj =~= m0.adj.push((v, Seq::empty())));
                    lemma_find_adj_in_exists(m0.adj, v);
                    assert(self@.adj[m0.adj.len() as int].0 == v);
                    lemma_find_adj_in_exists(self@.adj, v);
                    assert forall|i: int, j: int|
                        0 <= i < j < self@.adj.len() implies (#[trigger] self@.adj[i]).0 != (
                    #[trigger] self@.adj[j]).0 by {
                        if j == self@.adj.len() - 1 {
                            assert(self@.adj[i] == m0.adj[i]);
                        }
                    }
                }
            },
        }
    }

    /// Appends `p` to the adjacency list of `v`, which must exist.
    fn push_neighbor(&mut self, v: u32, p: (u32, u32))
        requires
            old(self)@.wf(),
            find_adj_in(old(self)@.adj, v) is Some,
        ensures
            final(self)@.labels == old(self)@.labels,
            final(self)@.key == old(self)@.key,
            final(self)@.adj == append_adj(old(self)@.adj, v, p),
            final(self)@.wf(),
    {
        let ghost m0 = self@;
        proof {
            lemma_find_adj_in_exists(m0.adj, v);
        }
        match self.adj_index(v) {
            Some(i) => {
                self.vertices[i].1.push(p);
                proof {
                    assert forall|k: int| 0 <= k < self@.adj.len() implies self@.adj[k]
                        == append_adj(m0.adj, v, p)[k] by {
                        if k != i {
                            assert(self@.adj[k] == m0.adj[k]);
                            assert(m0.adj[k].0 != v);
                        }
                    }
                    assert(self@.adj =~= append_adj(m0.adj, v, p));
                    assert forall|i2: int, j2: int|
                        0 <= i2 < j2 < self@.adj.len() implies (#[trigger] self@.adj[i2]).0 != (
                    #[trigger] self@.adj[j2]).0 by {
                        assert(self@.adj[i2].0 == m0.adj[i2].0);
                        assert(self@.adj[j2].0 == m0.adj[j2].0);
                    }
                }
            },
            None => {
                proof {
                    assert(false);
                }
            },
        }
    }

    /// Records an undirected edge between the vertices labelled `from_label`
    /// and `to_label`, appending it to both neighbour lists with the same
    /// weight. If either label is unknown the edge is skipped and reported.
    pub fn add_edge(&mut self, from_label: String, to_label: String, weight: u32) -> (r: Result<
        (),
        GraphError,
    >)
        requires
            old(self)@.wf(),
        ensures
            final(self)@ == old(self)@.add_edge_m(from_label@, to_label@, weight),
            final(self)@.wf(),
            match r {
                Ok(()) => old(self)@.find_id(from_label@) is Some && old(self)@.find_id(to_label@)
                    is Some,
                Err(GraphError::UnknownLabel) => old(self)@.find_id(from_label@) is None || old(
                    self,
                )@.find_id(to_label@) is None,
                Err(_) => false,
            },
    {
        let ghost m0 = self@;
        let from = match self.find_id_ref(&from_label) {
            Some(f) => f,
            None => {
                return Err(GraphError::UnknownLabel);
            },
        };
        let to = match self.find_id_ref(&to_label) {
            Some(t) => t,
            None => {
                return Err(GraphError::UnknownLabel);
            },
        };
        self.ensure_vertex_list(from);
        self.ensure_vertex_list(to);
        proof {
            let mid = ensure_adj(m0.adj, from);
            lemma_find_adj_in_exists(mid, from);
            let i = choose|i: int| 0 <= i < mid.len() && (#[trigger] mid[i]).0 == from;
            assert(self@.adj[i].0 == from);
            lemma_find_adj_in_exists(self@.adj, from);
        }
        self.push_neighbor(from, (to, weight));
        proof {
            let pre = ensure_adj(ensure_adj(m0.adj, from), to);
            lemma_find_adj_in_exists(pre, to);
            let i = choose|i: int| 0 <= i < pre.len() && (#[trigger] pre[i]).0 == to;
            assert(self@.adj[i] == append_adj(pre, from, (to, weight))[i]);
            assert(self@.adj[i].0 == to);
            lemma_find_adj_in_exists(self@.adj, to);
        }
        self.push_neighbor(to, (from, weight));
        proof {
            assert(self@ == m0.add_edge_m(from_label@, to_label@, weight));
        }
        Ok(())
    }
}

/// A recoverable conflict while building a graph: the operation is skipped
/// and the reason reported.
#[derive(Clone, Copy, Debug, PartialEq, Eq, Structural)]
pub enum GraphError {
    DuplicateVertex,
    DuplicateLabel,
    UnknownLabel,
}

} // verus!
