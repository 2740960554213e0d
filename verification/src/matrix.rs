//! The travel-time matrix.
//!
//! The times live in a petgraph `MatrixGraph` whose type Verus cannot
//! examine, so the matrix is held in an opaque struct and reached only
//! through the trusted wrappers below.  What the matrix holds is named by
//! `matrix_times`; everything else is proved against that name.

use vstd::prelude::*;
use crate::resource::Distance;

verus! {

/// The pairwise travel-time matrix: a directed petgraph matrix graph over
/// 16-bit node ids with `Distance` edge weights.
#[verifier::external_body]
pub struct DistanceMatrix {
    inner: petgraph::matrix_graph::DiMatrix<petgraph::matrix_graph::NodeIndex<u16>, Distance>,
}

/// The travel times the matrix holds: for each present edge `(a, b)`, the
/// stored `travel_time`.
pub uninterp spec fn matrix_times(m: DistanceMatrix) -> Map<(u16, u16), i64>;

/// Whether the matrix has an edge from `a` to `b`.
pub open spec fn has_time(m: DistanceMatrix, a: u16, b: u16) -> bool {
    matrix_times(m).dom().contains((a, b))
}

/// The stored travel time of the edge from `a` to `b`.
pub open spec fn time_of(m: DistanceMatrix, a: u16, b: u16) -> i64 {
    matrix_times(m)[(a, b)]
}

/// Travel time with the diagonal rule: zero between equal ids.
pub open spec fn tt(m: DistanceMatrix, a: u16, b: u16) -> int {
    if a == b {
        0
    } else {
        time_of(m, a, b) as int
    }
}

/// The matrix covers all node ids below `n`: every off-diagonal pair has an
/// edge, and its travel time lies in `[0, cap]`.
pub open spec fn matrix_ok(m: DistanceMatrix, n: int, cap: int) -> bool {
    forall|a: u16, b: u16|
        a < n && b < n && a != b ==> #[trigger] has_time(m, a, b) && 0 <= time_of(m, a, b) <= cap
}

impl DistanceMatrix {
    /// Relies on petgraph's MatrixGraph::new: a fresh graph holds no edges.
    #[verifier::external_body]
    pub fn new() -> (r: DistanceMatrix)
        ensures
            matrix_times(r).dom() =~= Set::<(u16, u16)>::empty(),
    {
        DistanceMatrix { inner: petgraph::matrix_graph::MatrixGraph::new() }
    }

    /// Relies on petgraph's MatrixGraph::update_edge: it stores the weight
    /// for the pair, extending the matrix as needed, and leaves every other
    /// pair alone.
    #[verifier::external_body]
    pub fn set_edge(&mut self, a: u16, b: u16, d: Distance)
        ensures
            matrix_times(*final(self)) =~= matrix_times(*old(self)).insert(
                (a, b),
                d.travel_time,
            ),
    {
        self.inner.update_edge(a.into(), b.into(), d);
    }

    /// Relies on petgraph's MatrixGraph::get_edge_weight: `None` when the
    /// edge is absent, never panicking; otherwise the stored edge weight, of
    /// which this wrapper passes on the travel time.
    #[verifier::external_body]
    pub fn edge_travel_time(&self, a: u16, b: u16) -> (r: Option<i64>)
        ensures
            r is Some <==> matrix_times(*self).dom().contains((a, b)),
            r matches Some(t) ==> t == matrix_times(*self)[(a, b)],
    {
        self.inner.get_edge_weight(a.into(), b.into()).map(|d| d.travel_time)
    }
}

/// Travel time between two node ids covered by the matrix; zero between
/// equal ids, as the depot-to-depot case requires.
pub fn time_between_two_nodes(m: &DistanceMatrix, a: u16, b: u16, Ghost(n): Ghost<int>, Ghost(
    cap,
): Ghost<int>) -> (t: i64)
    requires
        matrix_ok(*m, n, cap),
        (a as int) < n,
        (b as int) < n,
        0 <= cap,
    ensures
        t == tt(*m, a, b),
        0 <= t <= cap,
{
    if a == b {
        0
    } else {
        proof {
            assert(has_time(*m, a, b));
            assert(0 <= time_of(*m, a, b) <= cap);
        }
        m.edge_travel_time(a, b).unwrap()
    }
}

/// Travel time of the two legs `a -> b -> c`.
pub fn time_between_three_nodes(m: &DistanceMatrix, a: u16, b: u16, c: u16, Ghost(n): Ghost<int>, Ghost(
    cap,
): Ghost<int>) -> (t: i64)
    requires
        matrix_ok(*m, n, cap),
        (a as int) < n,
        (b as int) < n,
        (c as int) < n,
        0 <= cap <= 0x1000_0000_0000_0000,
    ensures
        t == tt(*m, a, b) + tt(*m, b, c),
        0 <= t <= 2 * cap,
{
    let first = time_between_two_nodes(m, a, b, Ghost(n), Ghost(cap));
    let second = time_between_two_nodes(m, b, c, Ghost(n), Ghost(cap));
    first + second
}

/// Scan all pairs below `n` and test that the matrix covers them with travel
/// times in `[0, cap]`.  Returns true exactly when `matrix_ok` holds for
/// those bounds.
pub fn check_matrix(m: &DistanceMatrix, n: u16, cap: i64) -> (r: bool)
    requires
        cap >= 0,
    ensures
        r <==> matrix_ok(*m, n as int, cap as int),
{
    let mut a: u16 = 0;
    while a < n
        invariant
            a <= n,
            cap >= 0,
            forall|x: u16, y: u16|
                x < a && y < n && x != y ==> #[trigger] has_time(*m, x, y) && 0 <= time_of(*m, x, y)
                    <= cap,
        decreases n - a,
    {
        let mut b: u16 = 0;
        while b < n
            invariant
                a < n,
                b <= n,
                cap >= 0,
                forall|x: u16, y: u16|
                    x < a && y < n && x != y ==> #[trigger] has_time(*m, x, y) && 0 <= time_of(
                        *m,
                        x,
                        y,
                    ) <= cap,
                forall|y: u16|
                    y < b && y != a ==> #[trigger] has_time(*m, a, y) && 0 <= time_of(*m, a, y)
                        <= cap,
            decreases n - b,
        {
            if b != a {
                match m.edge_travel_time(a, b) {
                    Some(t) => {
                        if t < 0 || t > cap {
                            proof {
                                if matrix_ok(*m, n as int, cap as int) {
                                    assert(has_time(*m, a, b));
                                    assert(0 <= time_of(*m, a, b) <= cap);
                                }
                            }
                            return false;
                        }
                    },
                    None => {
                        proof {
                            if matrix_ok(*m, n as int, cap as int) {
                                assert(has_time(*m, a, b));
                                assert(0 <= time_of(*m, a, b) <= cap);
                            }
                        }
                        return false;
                    },
                }
            }
            b = b + 1;
        }
        a = a + 1;
    }
    true
}

} // verus!
