use vstd::prelude::*;

verus! {

/// A directed edge: source and target vertex identifiers.
#[derive(Clone, Copy, PartialEq, Eq, Structural, Debug)]
pub struct Edge(pub u32, pub u32);

/// Lexicographic order on edges: source first, then target.
pub open spec fn edge_le(a: Edge, b: Edge) -> bool {
    a.0 < b.0 || (a.0 == b.0 && a.1 <= b.1)
}

/// Numeric key whose order agrees with `edge_le`.
pub open spec fn edge_key_spec(e: Edge) -> int {
    e.0 * 0x1_0000_0000 + e.1
}

/// Packs an edge into one `u64` so that numeric order on keys is
/// lexicographic order on edges.
pub fn edge_key(e: &Edge) -> (r: u64)
    ensures
        r as int == edge_key_spec(*e),
{
    (e.0 as u64) * 0x1_0000_0000u64 + (e.1 as u64)
}

impl From<(u32, u32)> for Edge {
    fn from(t: (u32, u32)) -> (r: Edge) {
        Edge(t.0, t.1)
    }
}

impl vstd::std_specs::convert::FromSpecImpl<(u32, u32)> for Edge {
    open spec fn obeys_from_spec() -> bool {
        true
    }

    open spec fn from_spec(t: (u32, u32)) -> Edge {
        Edge(t.0, t.1)
    }
}

impl From<[u32; 2]> for Edge {
    fn from(arr: [u32; 2]) -> (r: Edge) {
        Edge(arr[0], arr[1])
    }
}

impl vstd::std_specs::convert::FromSpecImpl<[u32; 2]> for Edge {
    open spec fn obeys_from_spec() -> bool {
        true
    }

    open spec fn from_spec(arr: [u32; 2]) -> Edge {
        Edge(arr[0], arr[1])
    }
}

impl From<Edge> for (u32, u32) {
    fn from(e: Edge) -> (r: (u32, u32)) {
        (e.0, e.1)
    }
}

impl vstd::std_specs::convert::FromSpecImpl<Edge> for (u32, u32) {
    open spec fn obeys_from_spec() -> bool {
        true
    }

    open spec fn from_spec(e: Edge) -> (u32, u32) {
        (e.0, e.1)
    }
}

pub proof fn lemma_edge_key_order(a: Edge, b: Edge)
    ensures
        edge_key_spec(a) <= edge_key_spec(b) <==> edge_le(a, b),
{
    if a.0 < b.0 {
        assert((a.0 + 1) * 0x1_0000_0000 <= b.0 * 0x1_0000_0000) by (nonlinear_arith)
            requires a.0 + 1 <= b.0;
    }
    if b.0 < a.0 {
        assert((b.0 + 1) * 0x1_0000_0000 <= a.0 * 0x1_0000_0000) by (nonlinear_arith)
            requires b.0 + 1 <= a.0;
    }
}

} // verus!
