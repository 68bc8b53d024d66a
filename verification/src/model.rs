//! The pipeline topology the graph code reads: named vertices of four kinds,
//! and edges between them that may carry a tag condition.

use vstd::prelude::*;

use crate::text::chars_of;

verus! {

/// Longest vertex name: a DNS label.
pub const MAX_NAME: usize = 63;

pub open spec fn is_lower_alnum(c: char) -> bool {
    ('a' <= c && c <= 'z') || ('0' <= c && c <= '9')
}

/// A DNS label: 1 to 63 characters, lower-case letters, digits and `-`,
/// starting and ending with a letter or digit.
pub open spec fn valid_name(s: Seq<char>) -> bool {
    &&& 1 <= s.len() <= MAX_NAME
    &&& forall|i: int| 0 <= i < s.len() ==> is_lower_alnum(#[trigger] s[i]) || s[i] == '-'
    &&& is_lower_alnum(s[0])
    &&& is_lower_alnum(s[s.len() - 1])
}

/// Why a string is not a vertex name.
#[derive(Debug, Clone, Copy, PartialEq, Eq)]
pub enum NameError {
    Empty,
    TooLong,
    BadChar,
    BadEdge,
}

/// A vertex name: a DNS label, so `-` is its only non-alphanumeric character.
#[derive(Debug, Clone, PartialEq, Eq, PartialOrd, Ord, Hash)]
pub struct VertexName {
    name: String,
}

impl View for VertexName {
    type V = Seq<char>;

    closed spec fn view(&self) -> Seq<char> {
        self.name@
    }
}

fn lower_alnum(c: char) -> (b: bool)
    ensures
        b == is_lower_alnum(c),
{
    ('a' <= c && c <= 'z') || ('0' <= c && c <= '9')
}

impl VertexName {
    /// A valid name; every `VertexName` holds one.
    pub closed spec fn wf(&self) -> bool {
        valid_name(self.name@)
    }

    pub proof fn lemma_wf(&self)
        requires
            self.wf(),
        ensures
            valid_name(self@),
    {
    }

    /// The name, when `s` is a DNS label; otherwise why not, checked in the
    /// order empty, too long, a bad character, a bad first or last character.
    pub fn new(s: &str) -> (r: Result<VertexName, NameError>)
        ensures
            r matches Ok(n) ==> n@ == s@ && n.wf(),
            r is Ok <==> valid_name(s@),
            r == Err::<VertexName, NameError>(NameError::Empty) <==> s@.len() == 0,
            r == Err::<VertexName, NameError>(NameError::TooLong) <==> s@.len() > MAX_NAME,
    {
        let cs = chars_of(s);
        if cs.len() == 0 {
            return Err(NameError::Empty);
        }
        if cs.len() > MAX_NAME {
            return Err(NameError::TooLong);
        }
        let mut i: usize = 0;
        while i < cs.len()
            invariant
                i <= cs@.len(),
                1 <= cs@.len() <= MAX_NAME,
                cs@ == s@,
                forall|j: int| 0 <= j < i ==> is_lower_alnum(#[trigger] cs@[j]) || cs@[j] == '-',
            decreases cs.len() - i,
        {
            if !(lower_alnum(cs[i]) || cs[i] == '-') {
                return Err(NameError::BadChar);
            }
            i += 1;
        }
        if !lower_alnum(cs[0]) || !lower_alnum(cs[cs.len() - 1]) {
            return Err(NameError::BadEdge);
        }
        Ok(VertexName { name: s.to_owned() })
    }

    pub fn as_str(&self) -> (s: &str)
        ensures
            s@ == self@,
    {
        self.name.as_str()
    }

    /// The same name, as a new value.
    pub fn copy(&self) -> (n: VertexName)
        ensures
            n@ == self@,
            self.wf() ==> n.wf(),
    {
        VertexName { name: self.name.clone() }
    }

    /// Whether two names are the same name.
    pub fn same(&self, o: &VertexName) -> (b: bool)
        ensures
            b == (self@ == o@),
    {
        self.name == o.name
    }
}

/// What a vertex does; the Mermaid shape and DOT shape follow from it.
#[derive(Debug, Clone, Copy, PartialEq, Eq, Structural, PartialOrd, Ord, Hash)]
pub enum VertexKind {
    Source,
    Sink,
    MapUdf,
    Reduce,
}

impl VertexKind {
    pub open spec fn word(self) -> Seq<char> {
        match self {
            VertexKind::Source => seq!['s', 'o', 'u', 'r', 'c', 'e'],
            VertexKind::Sink => seq!['s', 'i', 'n', 'k'],
            VertexKind::MapUdf => seq!['m', 'a', 'p'],
            VertexKind::Reduce => seq!['r', 'e', 'd', 'u', 'c', 'e'],
        }
    }

    /// The kind as a word: `source`, `sink`, `map` or `reduce`.
    pub fn as_str(self) -> (s: &'static str)
        ensures
            s@ == self.word(),
    {
        let s = match self {
            VertexKind::Source => "source",
            VertexKind::Sink => "sink",
            VertexKind::MapUdf => "map",
            VertexKind::Reduce => "reduce",
        };
        proof {
            reveal_strlit("source");
            reveal_strlit("sink");
            reveal_strlit("map");
            reveal_strlit("reduce");
        }
        s
    }
}

/// How the values of a tag condition combine.
#[derive(Debug, Clone, Copy, PartialEq, Eq, Structural, Hash)]
pub enum TagOperator {
    And,
    Or,
    Not,
}

/// The tags a message must carry (or not) to take an edge.
#[derive(Debug, Clone, PartialEq, Eq)]
pub struct TagCondition {
    pub operator: TagOperator,
    pub values: Vec<String>,
}

/// What a full buffer does to a writer on this edge.
#[derive(Debug, Clone, Copy, PartialEq, Eq, Structural, Hash)]
pub enum OnFull {
    RetryUntilSuccess,
    DiscardLatest,
}

impl Default for OnFull {
    fn default() -> (r: Self)
        ensures
            r == OnFull::RetryUntilSuccess,
    {
        OnFull::RetryUntilSuccess
    }
}

/// Autoscaling bounds of a vertex.
#[derive(Debug, Clone, Copy, PartialEq, Eq)]
pub struct ScaleSpec {
    pub min: Option<u32>,
    pub max: Option<u32>,
    pub disabled: bool,
}

impl Default for ScaleSpec {
    fn default() -> (r: Self)
        ensures
            r.min is None && r.max is None && !r.disabled,
    {
        ScaleSpec { min: None, max: None, disabled: false }
    }
}

#[derive(Debug, Clone, PartialEq, Eq)]
pub struct Vertex {
    pub name: VertexName,
    pub kind: VertexKind,
    pub partitions: u32,
    pub scale: ScaleSpec,
    pub image: Option<String>,
}

#[derive(Debug, Clone, PartialEq, Eq)]
pub struct Edge {
    pub from: VertexName,
    pub to: VertexName,
    pub conditions: Option<TagCondition>,
    pub on_full: OnFull,
}

/// Why vertices and edges do not make a topology.
#[derive(Debug, Clone, PartialEq, Eq)]
pub enum TopologyError {
    /// Two vertices share this name.
    DuplicateVertex(VertexName),
    /// An edge names a vertex that is not there.
    UnknownVertex(VertexName),
    /// Two edges join the same pair of vertices.
    DuplicateEdge(VertexName, VertexName),
}

pub open spec fn names_of(vs: Seq<Vertex>) -> Seq<Seq<char>> {
    vs.map_values(|v: Vertex| v.name@)
}

pub open spec fn has_name(vs: Seq<Vertex>, n: Seq<char>) -> bool {
    exists|i: int| 0 <= i < vs.len() && vs[i].name@ == n
}

/// Distinct vertex names, every edge between two of them, no pair of
/// vertices joined twice.
pub open spec fn topology_ok(vs: Seq<Vertex>, es: Seq<Edge>) -> bool {
    &&& forall|i: int, j: int|
        0 <= i < j < vs.len() ==> #[trigger] vs[i].name@ != #[trigger] vs[j].name@
    &&& forall|k: int|
        0 <= k < es.len() ==> has_name(vs, #[trigger] es[k].from@) && has_name(vs, es[k].to@)
    &&& forall|k: int, l: int|
        0 <= k < l < es.len() ==> !(#[trigger] es[k].from@ == #[trigger] es[l].from@ && es[k].to@
            == es[l].to@)
}

/// Vertices in spec order and the edges between them.
#[derive(Debug, Clone, PartialEq, Eq)]
pub struct Topology {
    vertices: Vec<Vertex>,
    edges: Vec<Edge>,
}

impl Topology {
    pub closed spec fn spec_vertices(&self) -> Seq<Vertex> {
        self.vertices@
    }

    pub closed spec fn spec_edges(&self) -> Seq<Edge> {
        self.edges@
    }

    /// Every topology satisfies `topology_ok`.
    pub open spec fn wf(&self) -> bool {
        topology_ok(self.spec_vertices(), self.spec_edges())
    }

    /// The topology, or the first rule the input breaks: a repeated vertex
    /// name, then an edge naming an unknown vertex, then a repeated edge.
    pub fn new(vertices: Vec<Vertex>, edges: Vec<Edge>) -> (r: Result<Topology, TopologyError>)
        ensures
            r is Ok <==> topology_ok(vertices@, edges@),
            r matches Ok(t) ==> t.spec_vertices() == vertices@ && t.spec_edges() == edges@,
    {
        let mut i: usize = 0;
        while i < vertices.len()
            invariant
                i <= vertices.len(),
                forall|a: int, b: int|
                    0 <= a < b < vertices@.len() && a < i ==> #[trigger] vertices@[a].name@
                        != #[trigger] vertices@[b].name@,
            decreases vertices.len() - i,
        {
            let mut j: usize = i + 1;
            while j < vertices.len()
                invariant
                    i < vertices.len(),
                    i + 1 <= j <= vertices.len(),
                    forall|a: int, b: int|
                        0 <= a < b < vertices@.len() && a < i ==> #[trigger] vertices@[a].name@
                            != #[trigger] vertices@[b].name@,
                    forall|b: int| i < b < j ==> vertices@[i as int].name@ != #[trigger] vertices@[b].name@,
                decreases vertices.len() - j,
            {
                if vertices[i].name.same(&vertices[j].name) {
                    return Err(TopologyError::DuplicateVertex(vertices[j].name.copy()));
                }
                j += 1;
            }
            i += 1;
        }
        let mut k: usize = 0;
        while k < edges.len()
            invariant
                k <= edges.len(),
                forall|a: int|
                    0 <= a < k ==> has_name(vertices@, #[trigger] edges@[a].from@) && has_name(
                        vertices@,
                        edges@[a].to@,
                    ),
            decreases edges.len() - k,
        {
            if !Self::knows(&vertices, &edges[k].from) {
                return Err(TopologyError::UnknownVertex(edges[k].from.copy()));
            }
            if !Self::knows(&vertices, &edges[k].to) {
                return Err(TopologyError::UnknownVertex(edges[k].to.copy()));
            }
            k += 1;
        }
        let mut k: usize = 0;
        while k < edges.len()
            invariant
                k <= edges.len(),
                forall|a: int, b: int|
                    0 <= a < b < edges@.len() && a < k ==> !(#[trigger] edges@[a].from@
                        == #[trigger] edges@[b].from@ && edges@[a].to@ == edges@[b].to@),
            decreases edges.len() - k,
        {
            let mut l: usize = k + 1;
            while l < edges.len()
                invariant
                    k < edges.len(),
                    k + 1 <= l <= edges.len(),
                    forall|a: int, b: int|
                        0 <= a < b < edges@.len() && a < k ==> !(#[trigger] edges@[a].from@
                            == #[trigger] edges@[b].from@ && edges@[a].to@ == edges@[b].to@),
                    forall|b: int|
                        k < b < l ==> !(edges@[k as int].from@ == #[trigger] edges@[b].from@
                            && edges@[k as int].to@ == edges@[b].to@),
                decreases edges.len() - l,
            {
                if edges[k].from.same(&edges[l].from) && edges[k].to.same(&edges[l].to) {
                    return Err(
                        TopologyError::DuplicateEdge(edges[l].from.copy(), edges[l].to.copy()),
                    );
                }
                l += 1;
            }
            k += 1;
        }
        Ok(Topology { vertices, edges })
    }

    fn knows(vs: &Vec<Vertex>, n: &VertexName) -> (b: bool)
        ensures
            b == has_name(vs@, n@),
    {
        let mut i: usize = 0;
        while i < vs.len()
            invariant
                i <= vs.len(),
                forall|a: int| 0 <= a < i ==> #[trigger] vs@[a].name@ != n@,
            decreases vs.len() - i,
        {
            if vs[i].name.same(n) {
                return true;
            }
            i += 1;
        }
        false
    }

    /// Vertices in spec order.
    pub fn vertices(&self) -> (v: &Vec<Vertex>)
        ensures
            v@ == self.spec_vertices(),
    {
        &self.vertices
    }

    /// Edges in spec order.
    pub fn edges(&self) -> (e: &Vec<Edge>)
        ensures
            e@ == self.spec_edges(),
    {
        &self.edges
    }

    /// The vertex of this name.
    pub fn vertex(&self, n: &VertexName) -> (r: Option<&Vertex>)
        ensures
            r is Some <==> has_name(self.spec_vertices(), n@),
            r matches Some(v) ==> v.name@ == n@ && self.spec_vertices().contains(*v),
    {
        let mut i: usize = 0;
        while i < self.vertices.len()
            invariant
                i <= self.vertices.len(),
                forall|a: int| 0 <= a < i ==> #[trigger] self.vertices@[a].name@ != n@,
            decreases self.vertices.len() - i,
        {
            if self.vertices[i].name.same(n) {
                return Some(&self.vertices[i]);
            }
            i += 1;
        }
        None
    }
}

} // verus!
