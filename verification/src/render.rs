//! Control decisions of the renderer.
//!
//! The per-bounce color arithmetic of the integrator runs on floating
//! point outside this library. The decisions that drive it — when a traced
//! ray terminates, misses, or bounces again, and which pixel a buffer
//! position belongs to — are exact, and are verified here.

use vstd::prelude::*;

verus! {

/// What the integrator does with a ray at a given bounce depth.
#[derive(Debug, PartialEq, Eq, Clone, Copy)]
pub enum TraceStep {
    /// The bounce budget is exhausted: the ray contributes black.
    Terminate,
    /// Nothing was hit: the ray sees the ambient light color.
    Miss,
    /// A surface was hit: scatter and trace again with the budget left.
    Bounce { remaining: u32 },
}

/// Decide one step of the recursive trace.
///
/// A ray with no bounce budget left is cut off before any intersection is
/// even considered, so a trace at depth zero yields black whatever the
/// scene holds.
pub fn trace_step(depth: u32, hit_found: bool) -> (r: TraceStep)
    ensures
        (r is Terminate) <==> depth == 0,
        (r is Miss) <==> (depth > 0 && !hit_found),
        (r is Bounce) <==> (depth > 0 && hit_found),
        r is Bounce ==> r->remaining == depth - 1,
{
    if depth == 0 {
        TraceStep::Terminate
    } else if !hit_found {
        TraceStep::Miss
    } else {
        TraceStep::Bounce { remaining: depth - 1 }
    }
}

/// The pixel a row-major buffer position belongs to: `index` counts pixels
/// left to right, top to bottom, in an image `width` pixels wide.
pub fn pixel_coords(index: usize, width: usize) -> (r: (usize, usize))
    requires
        width > 0,
    ensures
        r.0 == index % width,
        r.1 == index / width,
        r.0 < width,
        r.1 * width + r.0 == index,
{
    proof {
        vstd::arithmetic::div_mod::lemma_fundamental_div_mod(index as int, width as int);
        vstd::arithmetic::mul::lemma_mul_is_commutative(index as int / width as int, width as int);
    }
    (index % width, index / width)
}

/// The object the ray hits first: the position of the smallest distance
/// key, taking the earliest on a tie, as the scene's linear scan does.
/// Yields a position exactly when there is at least one candidate.
pub fn nearest_index(distances: &Vec<u32>) -> (r: Option<usize>)
    ensures
        match r {
            Some(i) => {
                &&& i < distances@.len()
                &&& forall|j: int|
                    0 <= j < distances@.len() ==> distances@[i as int] <= distances@[j]
                &&& forall|j: int| 0 <= j < i ==> distances@[i as int] < distances@[j]
            },
            None => distances@.len() == 0,
        },
{
    if distances.len() == 0 {
        return None;
    }
    let mut best: usize = 0;
    let mut k: usize = 1;
    while k < distances.len()
        invariant
            best < k <= distances@.len(),
            forall|j: int| 0 <= j < k ==> distances@[best as int] <= distances@[j],
            forall|j: int| 0 <= j < best ==> distances@[best as int] < distances@[j],
        decreases distances@.len() - k,
    {
        if distances[k] < distances[best] {
            best = k;
        }
        k = k + 1;
    }
    Some(best)
}

/// The row-major buffer position of pixel (x, y).
pub fn pixel_index(x: usize, y: usize, width: usize) -> (r: usize)
    requires
        x < width,
        y * width + x <= usize::MAX,
    ensures
        r == y * width + x,
{
    y * width + x
}

} // verus!
