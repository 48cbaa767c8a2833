use vstd::prelude::*;

verus! {

/// Number of real vertices in the demonstration world graph.
pub const NUM_VERTICES: usize = 20000;

/// Number of real edges in the demonstration world graph: about 2.25 edges
/// per vertex on average, plus some slack.
pub const NUM_EDGES: usize = 2 * NUM_VERTICES + NUM_VERTICES / 4 + 500;

/// Vertices are addressed by `u16`, so the backing arrays are padded to the
/// full index range: any `u16` index is in bounds by construction, and no
/// bounds validation is needed on the traversal hot path.
pub const NUM_VERTICES_PADDED: usize = 65536;

/// Edges are addressed by `u16` as well.
pub const NUM_EDGES_PADDED: usize = 65536;

/// Number of 64-bit words in a per-vertex bitset.
pub const VISITED_BITFIELD_LEN: usize = 1024;

/// Number of 64-bit words in a per-edge bitset.
pub const ACCESS_BITFIELD_LEN: usize = 1024;

/// Capacity of the depth-first frontier stack. A power of two, sized so that
/// every addressable vertex can be pending at once: a vertex enters the
/// frontier at most once per traversal, so the frontier can never overflow.
pub const SEARCH_STACK_SIZE: usize = 65536;

/// Capacity of the breadth-first frontier queue, sized like the stack.
pub const SEARCH_QUEUE_SIZE: usize = 65536;

/// The most-significant bit of a 64-bit bitset word. Bit `i` of a word is the
/// mask `HI_BIT >> i`: bit order is most-significant-bit-first.
pub const HI_BIT: u64 = 0x8000_0000_0000_0000;

} // verus!
