//! The navigation field: for each open cell of a room, the number of steps
//! to the target cell through open cells.

use vstd::prelude::*;
use crate::grid::{
    adjacent, has_neighbor, is_cell, neighbor, opposite, BLOCKED, ROOM_CELLS, ROOM_WIDTH,
    UNREACHED,
};

verus! {

/// The cell `p` holds a distance.
pub open spec fn reached(g: Seq<i32>, p: int) -> bool {
    is_cell(p) && 0 <= g[p] < UNREACHED
}

/// The neighbor of `p` in direction `k` exists and is open.
pub open spec fn open_neighbor(g: Seq<i32>, p: int, k: int) -> bool {
    has_neighbor(p, k) && g[neighbor(p, k)] >= 0
}

/// The neighbor of `p` in direction `k` is one step closer to the target.
pub open spec fn steps_down(g: Seq<i32>, p: int, k: int) -> bool {
    open_neighbor(g, p, k) && g[neighbor(p, k)] == g[p] - 1
}

/// Some neighbor of `p` is one step closer to the target.
pub open spec fn has_lower_neighbor(g: Seq<i32>, p: int) -> bool {
    steps_down(g, p, 0) || steps_down(g, p, 1) || steps_down(g, p, 2) || steps_down(g, p, 3)
}

/// The values of a grid have the shape that a grid's invariant asks for.
pub open spec fn is_grid(g: Seq<i32>) -> bool {
    &&& g.len() == ROOM_CELLS
    &&& forall|p: int| is_cell(p) ==> #[trigger] g[p] >= BLOCKED
}

/// `g` is the navigation field of its open cells for `target`:
/// only the target holds zero, and it does if it is open; a distance is
/// less than the number of cells; every other cell that holds a distance
/// has a neighbor that holds one less; the open neighbors of a cell that
/// holds a distance hold at most one more.
/// An open cell without a distance holds `UNREACHED`.
pub open spec fn is_field(g: Seq<i32>, target: int) -> bool {
    &&& is_grid(g)
    &&& is_cell(target)
    &&& g[target] >= 0 ==> g[target] == 0
    &&& forall|p: int| is_cell(p) && #[trigger] g[p] == 0 ==> p == target
    &&& forall|p: int| #[trigger] reached(g, p) ==> g[p] < ROOM_CELLS
    &&& forall|p: int| is_cell(p) && 0 < #[trigger] g[p] < UNREACHED ==> has_lower_neighbor(g, p)
    &&& forall|p: int, k: int|
        reached(g, p) && #[trigger] open_neighbor(g, p, k) ==> g[neighbor(p, k)] <= g[p] + 1
}

/// Number of cells among the first `n` that hold `UNREACHED`.
pub open spec fn unreached_count(g: Seq<i32>, n: int) -> int
    decreases n,
{
    if n <= 0 {
        0
    } else {
        unreached_count(g, n - 1) + if g[n - 1] == UNREACHED {
            1int
        } else {
            0int
        }
    }
}

proof fn lemma_count_bounds(g: Seq<i32>, n: int)
    requires
        0 <= n,
    ensures
        0 <= unreached_count(g, n) <= n,
    decreases n,
{
    if n > 0 {
        lemma_count_bounds(g, n - 1);
    }
}

proof fn lemma_count_assign(g: Seq<i32>, p: int, v: i32, n: int)
    requires
        0 <= p < g.len(),
        0 <= n <= g.len(),
        g[p] == UNREACHED,
        v != UNREACHED,
    ensures
        unreached_count(g.update(p, v), n) == unreached_count(g, n) - if p < n {
            1int
        } else {
            0int
        },
    decreases n,
{
    if n > 0 {
        lemma_count_assign(g, p, v, n - 1);
    }
}

/// A neighbor is a cell, and the opposite direction leads back.
pub proof fn lemma_neighbor_back(p: int, k: int)
    requires
        has_neighbor(p, k),
    ensures
        is_cell(neighbor(p, k)),
        neighbor(p, k) != p,
        has_neighbor(neighbor(p, k), opposite(k)),
        neighbor(neighbor(p, k), opposite(k)) == p,
{
}

/// The queue of a fill in progress: it starts with the target, holds
/// exactly the cells that have a distance, in the order of their
/// distances, each but the first next to a cell one step closer.
spec fn queue_ok(g: Seq<i32>, q: Seq<usize>, idx: Map<int, int>, target: int) -> bool {
    &&& q.len() >= 1
    &&& q[0] == target
    &&& g[target] == 0
    &&& forall|i: int| 0 <= i < q.len() ==> reached(g, #[trigger] q[i] as int)
    &&& forall|i: int| 0 <= i < q.len() ==> g[#[trigger] q[i] as int] <= i
    &&& forall|p: int| #[trigger] reached(g, p) ==> 0 <= idx[p] < q.len() && q[idx[p]] == p
    &&& forall|i: int, j: int|
        0 <= i <= j < q.len() ==> g[#[trigger] q[i] as int] <= g[#[trigger] q[j] as int]
    &&& forall|i: int|
        0 < i < q.len() ==> g[#[trigger] q[i] as int] >= 1 && has_lower_neighbor(g, q[i] as int)
    &&& forall|p: int| is_cell(p) && #[trigger] g[p] == 0 ==> p == target
}

/// The cells before `head` have been expanded, the cell at `head` in its
/// first `done` directions, and no distance exceeds that of the cell at
/// `head` by more than one.
spec fn frontier_ok(g: Seq<i32>, q: Seq<usize>, head: int, done: int) -> bool {
    &&& 0 <= head <= q.len()
    &&& 0 <= done <= 4
    &&& forall|i: int, k: int|
        0 <= i < head && #[trigger] open_neighbor(g, q[i] as int, k) ==> reached(
            g,
            neighbor(q[i] as int, k),
        )
    &&& head < q.len() ==> forall|k: int|
        0 <= k < done && #[trigger] open_neighbor(g, q[head] as int, k) ==> reached(
            g,
            neighbor(q[head] as int, k),
        )
    &&& head < q.len() ==> forall|j: int|
        0 <= j < q.len() ==> g[#[trigger] q[j] as int] <= g[q[head] as int] + 1
}

/// Two neighboring cells that both hold a distance differ by at most one.
spec fn gentle(g: Seq<i32>) -> bool {
    forall|p: int, k: int|
        reached(g, p) && #[trigger] open_neighbor(g, p, k) && reached(g, neighbor(p, k))
            ==> g[neighbor(p, k)] <= g[p] + 1
}

#[verifier::opaque]
spec fn filling(
    g: Seq<i32>,
    q: Seq<usize>,
    idx: Map<int, int>,
    head: int,
    done: int,
    target: int,
) -> bool {
    &&& is_grid(g)
    &&& is_cell(target)
    &&& queue_ok(g, q, idx, target)
    &&& frontier_ok(g, q, head, done)
    &&& gentle(g)
    &&& unreached_count(g, ROOM_CELLS as int) + q.len() <= ROOM_CELLS
}

/// What an assignment starts from: the fill is in order, and the next
/// neighbor `n` of the cell at `head` has no distance yet.
spec fn about_to_assign(
    g: Seq<i32>,
    q: Seq<usize>,
    idx: Map<int, int>,
    head: int,
    done: int,
    target: int,
    n: usize,
) -> bool {
    &&& filling(g, q, idx, head, done, target)
    &&& head < q.len()
    &&& done < 4
    &&& has_neighbor(q[head] as int, done)
    &&& n == neighbor(q[head] as int, done)
    &&& g[n as int] == UNREACHED
}

proof fn lemma_assign_basics(
    g: Seq<i32>,
    q: Seq<usize>,
    idx: Map<int, int>,
    head: int,
    done: int,
    target: int,
    n: usize,
)
    requires
        about_to_assign(g, q, idx, head, done, target, n),
    ensures
        is_cell(n as int),
        n != q[head],
        0 <= g[q[head] as int] <= head,
        g[q[head] as int] + 1 < UNREACHED,
        q.len() < ROOM_CELLS,
        forall|i: int| 0 <= i < q.len() ==> #[trigger] q[i] != n,
        forall|m: int| #[trigger] reached(g, m) ==> m != n,
        is_grid(g.update(n as int, (g[q[head] as int] + 1) as i32)),
        unreached_count(g.update(n as int, (g[q[head] as int] + 1) as i32), ROOM_CELLS as int)
            + q.len() + 1 <= ROOM_CELLS,
{
    reveal(filling);
    let p = q[head] as int;
    let v = (g[p] + 1) as i32;
    lemma_neighbor_back(p, done);
    lemma_count_bounds(g, ROOM_CELLS as int);
    lemma_count_assign(g, n as int, v, ROOM_CELLS as int);
    lemma_count_bounds(g.update(n as int, v), ROOM_CELLS as int);
    assert(reached(g, p));
    assert forall|i: int| 0 <= i < q.len() implies #[trigger] q[i] != n by {
        assert(reached(g, q[i] as int));
    }
}

proof fn lemma_assign_queue(
    g: Seq<i32>,
    q: Seq<usize>,
    idx: Map<int, int>,
    head: int,
    done: int,
    target: int,
    n: usize,
)
    requires
        about_to_assign(g, q, idx, head, done, target, n),
    ensures
        queue_ok(
            g.update(n as int, (g[q[head] as int] + 1) as i32),
            q.push(n),
            idx.insert(n as int, q.len() as int),
            target,
        ),
{
    reveal(filling);
    let p = q[head] as int;
    let d = g[p];
    let v = (d + 1) as i32;
    let g2 = g.update(n as int, v);
    let q2 = q.push(n);
    let idx2 = idx.insert(n as int, q.len() as int);
    lemma_assign_basics(g, q, idx, head, done, target, n);
    lemma_neighbor_back(p, done);
    assert forall|i: int| 0 <= i < q2.len() implies reached(g2, #[trigger] q2[i] as int)
        && g2[q2[i] as int] <= i by {
        if i < q.len() {
            assert(q2[i] == q[i]);
            assert(reached(g, q[i] as int));
            assert(g[q[i] as int] <= i);
        }
    }
    assert forall|m: int| #[trigger] reached(g2, m) implies 0 <= idx2[m] < q2.len()
        && q2[idx2[m]] == m by {
        if m != n {
            assert(reached(g, m));
            assert(q2[idx[m]] == q[idx[m]]);
        }
    }
    assert forall|i: int, j: int| 0 <= i <= j < q2.len() implies g2[#[trigger] q2[i] as int]
        <= g2[#[trigger] q2[j] as int] by {
        if i < q.len() {
            assert(q2[i] == q[i]);
            assert(q[i] != n);
        }
        if j < q.len() {
            assert(q2[j] == q[j]);
            assert(q[j] != n);
            assert(g[q[i] as int] <= g[q[j] as int]);
        } else if i < q.len() {
            assert(g[q[i] as int] <= g[q[head] as int] + 1);
        }
    }
    assert forall|i: int| 0 < i < q2.len() implies g2[#[trigger] q2[i] as int] >= 1
        && has_lower_neighbor(g2, q2[i] as int) by {
        if i < q.len() {
            let c = q[i] as int;
            assert(q2[i] == q[i]);
            assert(q[i] != n);
            assert(reached(g, c));
            assert(g[c] >= 1 && has_lower_neighbor(g, c));
            lemma_lower_neighbor_kept(g, c, n as int, v);
        } else {
            assert(q2[i] == n);
            assert(steps_down(g2, n as int, opposite(done)));
        }
    }
    assert forall|c: int| is_cell(c) && #[trigger] g2[c] == 0 implies c == target by {
        if c != n {
            assert(g[c] == 0);
        }
    }
    assert(q2[0] == q[0]);
    assert(reached(g, target));
}

proof fn lemma_assign_frontier(
    g: Seq<i32>,
    q: Seq<usize>,
    idx: Map<int, int>,
    head: int,
    done: int,
    target: int,
    n: usize,
)
    requires
        about_to_assign(g, q, idx, head, done, target, n),
    ensures
        frontier_ok(
            g.update(n as int, (g[q[head] as int] + 1) as i32),
            q.push(n),
            head,
            done + 1,
        ),
{
    reveal(filling);
    let p = q[head] as int;
    let d = g[p];
    let v = (d + 1) as i32;
    let g2 = g.update(n as int, v);
    let q2 = q.push(n);
    lemma_assign_basics(g, q, idx, head, done, target, n);
    assert(q2[head] == q[head]);
    assert forall|i: int, k: int|
        0 <= i < head && #[trigger] open_neighbor(g2, q2[i] as int, k) implies reached(
        g2,
        neighbor(q2[i] as int, k),
    ) by {
        assert(q2[i] == q[i]);
        let m = neighbor(q[i] as int, k);
        lemma_neighbor_back(q[i] as int, k);
        if m != n {
            assert(open_neighbor(g, q[i] as int, k));
            assert(reached(g, m));
        }
    }
    assert forall|k: int|
        0 <= k < done + 1 && #[trigger] open_neighbor(g2, q2[head] as int, k) implies reached(
        g2,
        neighbor(q2[head] as int, k),
    ) by {
        let m = neighbor(p, k);
        lemma_neighbor_back(p, k);
        if m != n {
            assert(open_neighbor(g, p, k));
            assert(k != done);
            assert(reached(g, m));
        }
    }
    assert forall|j: int| 0 <= j < q2.len() implies g2[#[trigger] q2[j] as int] <= g2[q2[head] as int]
        + 1 by {
        if j < q.len() {
            assert(q2[j] == q[j]);
            assert(q[j] != n);
            assert(g[q[j] as int] <= g[q[head] as int] + 1);
        }
    }
}

proof fn lemma_assign_gentle(
    g: Seq<i32>,
    q: Seq<usize>,
    idx: Map<int, int>,
    head: int,
    done: int,
    target: int,
    n: usize,
)
    requires
        about_to_assign(g, q, idx, head, done, target, n),
    ensures
        gentle(g.update(n as int, (g[q[head] as int] + 1) as i32)),
{
    reveal(filling);
    let p = q[head] as int;
    let d = g[p];
    let v = (d + 1) as i32;
    let g2 = g.update(n as int, v);
    lemma_assign_basics(g, q, idx, head, done, target, n);
    assert forall|c: int, k: int|
        reached(g2, c) && #[trigger] open_neighbor(g2, c, k) && reached(
            g2,
            neighbor(c, k),
        ) implies g2[neighbor(c, k)] <= g2[c] + 1 by {
        let m = neighbor(c, k);
        lemma_neighbor_back(c, k);
        if c == n {
            assert(reached(g, m));
            let j = idx[m];
            assert(q[j] == m);
            assert(g[q[j] as int] <= g[q[head] as int] + 1);
        } else if m == n {
            assert(reached(g, c));
            let j = idx[c];
            assert(q[j] == c);
            assert(open_neighbor(g, q[j] as int, k));
            if j < head {
                assert(reached(g, neighbor(q[j] as int, k)));
            }
            assert(g[q[head] as int] <= g[q[j] as int]);
        } else {
            assert(reached(g, c) && reached(g, m));
            assert(open_neighbor(g, c, k));
        }
    }
}

/// A neighbor one step closer stays so when a cell without a distance gets one.
proof fn lemma_lower_neighbor_kept(g: Seq<i32>, c: int, n: int, v: i32)
    requires
        is_grid(g),
        reached(g, c),
        g[c] >= 1,
        has_lower_neighbor(g, c),
        is_cell(n),
        g[n] == UNREACHED,
    ensures
        has_lower_neighbor(g.update(n, v), c),
{
    let g2 = g.update(n, v);
    let k = if steps_down(g, c, 0) {
        0int
    } else if steps_down(g, c, 1) {
        1int
    } else if steps_down(g, c, 2) {
        2int
    } else {
        3int
    };
    assert(steps_down(g, c, k));
    lemma_neighbor_back(c, k);
    assert(steps_down(g2, c, k));
}

/// Giving the next neighbor of the cell at `head` its distance keeps the
/// fill in order.
proof fn lemma_assign(
    g: Seq<i32>,
    q: Seq<usize>,
    idx: Map<int, int>,
    head: int,
    done: int,
    target: int,
    n: usize,
)
    requires
        about_to_assign(g, q, idx, head, done, target, n),
    ensures
        g[q[head] as int] + 1 < UNREACHED,
        filling(
            g.update(n as int, (g[q[head] as int] + 1) as i32),
            q.push(n),
            idx.insert(n as int, q.len() as int),
            head,
            done + 1,
            target,
        ),
{
    lemma_assign_basics(g, q, idx, head, done, target, n);
    lemma_assign_queue(g, q, idx, head, done, target, n);
    lemma_assign_frontier(g, q, idx, head, done, target, n);
    lemma_assign_gentle(g, q, idx, head, done, target, n);
    reveal(filling);
}

/// What the cell at `head` of a fill in progress is.
proof fn lemma_head(g: Seq<i32>, q: Seq<usize>, idx: Map<int, int>, head: int, done: int, target: int)
    requires
        filling(g, q, idx, head, done, target),
        head < q.len(),
    ensures
        g.len() == ROOM_CELLS,
        0 <= head,
        q.len() <= ROOM_CELLS,
        reached(g, q[head] as int),
        forall|k: int| has_neighbor(q[head] as int, k) ==> is_cell(#[trigger] neighbor(q[head] as int, k)),
{
    reveal(filling);
    lemma_count_bounds(g, ROOM_CELLS as int);
    assert forall|k: int| has_neighbor(q[head] as int, k) implies is_cell(
        #[trigger] neighbor(q[head] as int, k),
    ) by {
        lemma_neighbor_back(q[head] as int, k);
    }
}

/// A direction in which the cell at `head` has no open neighbor without a
/// distance needs no work.
proof fn lemma_skip(g: Seq<i32>, q: Seq<usize>, idx: Map<int, int>, head: int, done: int, target: int)
    requires
        filling(g, q, idx, head, done, target),
        head < q.len(),
        done < 4,
        has_neighbor(q[head] as int, done) ==> g[neighbor(q[head] as int, done)] != UNREACHED,
    ensures
        filling(g, q, idx, head, done + 1, target),
{
    reveal(filling);
    assert forall|k: int|
        0 <= k < done + 1 && #[trigger] open_neighbor(g, q[head] as int, k) implies reached(
        g,
        neighbor(q[head] as int, k),
    ) by {
        lemma_neighbor_back(q[head] as int, k);
    }
}

/// Once all four directions of the cell at `head` are done, the next cell is expanded.
proof fn lemma_advance(g: Seq<i32>, q: Seq<usize>, idx: Map<int, int>, head: int, target: int)
    requires
        filling(g, q, idx, head, 4, target),
        head < q.len(),
    ensures
        filling(g, q, idx, head + 1, 0, target),
{
    reveal(filling);
    assert forall|i: int, k: int|
        0 <= i < head + 1 && #[trigger] open_neighbor(g, q[i] as int, k) implies reached(
        g,
        neighbor(q[i] as int, k),
    ) by {
        if i == head {
            assert(0 <= k < 4);
        }
    }
    if head + 1 < q.len() {
        assert forall|j: int| 0 <= j < q.len() implies g[#[trigger] q[j] as int] <= g[q[head + 1] as int]
            + 1 by {
            assert(g[q[j] as int] <= g[q[head] as int] + 1);
            assert(g[q[head] as int] <= g[q[head + 1] as int]);
        }
    }
}

/// When every cell of the queue has been expanded, the grid is the field.
proof fn lemma_finish(g: Seq<i32>, q: Seq<usize>, idx: Map<int, int>, target: int)
    requires
        filling(g, q, idx, q.len() as int, 0, target),
    ensures
        is_field(g, target),
{
    reveal(filling);
    lemma_count_bounds(g, ROOM_CELLS as int);
    assert forall|p: int| #[trigger] reached(g, p) implies g[p] < ROOM_CELLS by {
        let i = idx[p];
        assert(q[i] == p);
        assert(g[q[i] as int] <= i);
    }
    assert forall|p: int| is_cell(p) && 0 < #[trigger] g[p] < UNREACHED implies has_lower_neighbor(
        g,
        p,
    ) by {
        assert(reached(g, p));
        let i = idx[p];
        assert(q[i] == p);
        assert(i != 0);
    }
    assert forall|p: int, k: int| reached(g, p) && #[trigger] open_neighbor(g, p, k) implies g[neighbor(
        p,
        k,
    )] <= g[p] + 1 by {
        let i = idx[p];
        assert(q[i] == p);
        assert(open_neighbor(g, q[i] as int, k));
        assert(reached(g, neighbor(q[i] as int, k)));
    }
}

/// A grid in which no cell holds a distance but the open target, which
/// holds zero, is a fill that has just begun.
proof fn lemma_begin(g: Seq<i32>, target: usize)
    requires
        is_grid(g),
        is_cell(target as int),
        g[target as int] == UNREACHED,
        forall|p: int| is_cell(p) ==> #[trigger] g[p] == BLOCKED || g[p] == UNREACHED,
    ensures
        filling(
            g.update(target as int, 0),
            seq![target],
            Map::<int, int>::empty().insert(target as int, 0),
            0,
            0,
            target as int,
        ),
{
    reveal(filling);
    let g2 = g.update(target as int, 0);
    let q = seq![target];
    lemma_count_assign(g, target as int, 0, ROOM_CELLS as int);
    lemma_count_bounds(g, ROOM_CELLS as int);
    assert forall|p: int| #[trigger] reached(g2, p) implies p == target by {
        if p != target {
            assert(g[p] == BLOCKED || g[p] == UNREACHED);
        }
    }
    assert forall|p: int| is_cell(p) && #[trigger] g2[p] == 0 implies p == target by {
        if p != target {
            assert(g[p] == BLOCKED || g[p] == UNREACHED);
        }
    }
    assert(q[0] == target);
    assert(gentle(g2)) by {
        assert forall|c: int, k: int|
            reached(g2, c) && #[trigger] open_neighbor(g2, c, k) && reached(
                g2,
                neighbor(c, k),
            ) implies g2[neighbor(c, k)] <= g2[c] + 1 by {
            lemma_neighbor_back(c, k);
        }
    }
}

/// Writes the navigation field for `target` into `cells`: blocked cells
/// stay blocked, every open cell gets its distance to the target through
/// open cells, or `UNREACHED` where there is no way.
pub fn fill_distances(cells: &mut Vec<i32>, target: usize)
    requires
        is_grid(old(cells)@),
        target < ROOM_CELLS,
    ensures
        is_field(final(cells)@, target as int),
        forall|p: int|
            is_cell(p) ==> (#[trigger] final(cells)@[p] == BLOCKED) == (old(cells)@[p] == BLOCKED),
{
    let mut n: usize = 0;
    while n < ROOM_CELLS
        invariant
            n <= ROOM_CELLS,
            is_grid(old(cells)@),
            cells@.len() == ROOM_CELLS,
            forall|p: int| 0 <= p < n ==> #[trigger] cells@[p] == BLOCKED || cells@[p] == UNREACHED,
            forall|p: int| n <= p < ROOM_CELLS ==> #[trigger] cells@[p] == old(cells)@[p],
            forall|p: int|
                is_cell(p) ==> (#[trigger] cells@[p] == BLOCKED) == (old(cells)@[p] == BLOCKED),
        decreases ROOM_CELLS - n,
    {
        if cells[n] >= 0 {
            cells.set(n, UNREACHED);
        }
        n = n + 1;
    }
    if cells[target] < 0 {
        return;
    }
    proof {
        lemma_begin(cells@, target);
    }
    cells.set(target, 0);
    let mut queue: Vec<usize> = Vec::new();
    queue.push(target);
    let ghost mut idx: Map<int, int> = Map::<int, int>::empty().insert(target as int, 0);
    assert(queue@ =~= seq![target]);
    let mut head: usize = 0;
    while head < queue.len()
        invariant
            old(cells)@.len() == ROOM_CELLS,
            cells@.len() == ROOM_CELLS,
            head <= queue.len(),
            filling(cells@, queue@, idx, head as int, 0, target as int),
            forall|p: int|
                is_cell(p) ==> (#[trigger] cells@[p] == BLOCKED) == (old(cells)@[p] == BLOCKED),
        decreases ROOM_CELLS - head,
    {
        proof {
            lemma_head(cells@, queue@, idx, head as int, 0, target as int);
        }
        let p: usize = queue[head];
        let d: i32 = cells[p];
        let mut k: usize = 0;
        while k < 4
            invariant
                k <= 4,
                old(cells)@.len() == ROOM_CELLS,
                cells@.len() == ROOM_CELLS,
                p < ROOM_CELLS,
                head < queue.len(),
                p == queue[head as int],
                d == cells@[p as int],
                filling(cells@, queue@, idx, head as int, k as int, target as int),
                forall|c: int|
                    is_cell(c) ==> (#[trigger] cells@[c] == BLOCKED) == (old(cells)@[c]
                        == BLOCKED),
            decreases 4 - k,
        {
            proof {
                lemma_head(cells@, queue@, idx, head as int, k as int, target as int);
            }
            let exists_there: bool = if k == 0 {
                p % ROOM_WIDTH > 0
            } else if k == 1 {
                p + ROOM_WIDTH < ROOM_CELLS
            } else if k == 2 {
                p % ROOM_WIDTH < ROOM_WIDTH - 1
            } else {
                p >= ROOM_WIDTH
            };
            assert(exists_there == has_neighbor(p as int, k as int));
            let mut assigned: bool = false;
            if exists_there {
                let m: usize = if k == 0 {
                    p - 1
                } else if k == 1 {
                    p + ROOM_WIDTH
                } else if k == 2 {
                    p + 1
                } else {
                    p - ROOM_WIDTH
                };
                if cells[m] == UNREACHED {
                    proof {
                        lemma_assign(cells@, queue@, idx, head as int, k as int, target as int, m);
                        idx = idx.insert(m as int, queue@.len() as int);
                    }
                    cells.set(m, d + 1);
                    queue.push(m);
                    assigned = true;
                }
            }
            proof {
                if !assigned {
                    lemma_skip(cells@, queue@, idx, head as int, k as int, target as int);
                }
            }
            k = k + 1;
        }
        proof {
            lemma_advance(cells@, queue@, idx, head as int, target as int);
        }
        head = head + 1;
    }
    proof {
        lemma_finish(cells@, queue@, idx, target as int);
    }
}

/// The neighbor of `p` in direction `k` is open and holds less than `p`.
pub open spec fn lower_at(g: Seq<i32>, p: int, k: int) -> bool {
    open_neighbor(g, p, k) && g[neighbor(p, k)] < g[p]
}

/// The cell that a pursuer at `p` steps to: the first neighbor, in the
/// order west, south, east, north, that is open and holds less than `p`;
/// `p` itself if there is none.
pub open spec fn pursuit_step(g: Seq<i32>, p: int) -> int {
    if lower_at(g, p, 0) {
        neighbor(p, 0)
    } else if lower_at(g, p, 1) {
        neighbor(p, 1)
    } else if lower_at(g, p, 2) {
        neighbor(p, 2)
    } else if lower_at(g, p, 3) {
        neighbor(p, 3)
    } else {
        p
    }
}

/// The cell that a pursuer reaches from `p` in `n` steps.
pub open spec fn pursuit(g: Seq<i32>, p: int, n: nat) -> int
    decreases n,
{
    if n == 0 {
        p
    } else {
        pursuit(g, pursuit_step(g, p), (n - 1) as nat)
    }
}

/// In a field, a step from a cell that holds a distance other than zero
/// leads to an open cell that holds exactly one less.
pub proof fn lemma_step_descends(g: Seq<i32>, target: int, p: int)
    requires
        is_field(g, target),
        reached(g, p),
        g[p] > 0,
    ensures
        is_cell(pursuit_step(g, p)),
        g[pursuit_step(g, p)] == g[p] - 1,
{
    assert(has_lower_neighbor(g, p));
    let k = if lower_at(g, p, 0) {
        0int
    } else if lower_at(g, p, 1) {
        1int
    } else if lower_at(g, p, 2) {
        2int
    } else {
        3int
    };
    assert(lower_at(g, p, k));
    let s = neighbor(p, k);
    lemma_neighbor_back(p, k);
    assert(reached(g, s));
    assert(open_neighbor(g, s, opposite(k)));
}

/// Navigation monotonicity: in a field, a pursuer that starts on a cell
/// with a distance loses exactly one with each step, so that it never
/// enters a blocked cell, and stands on the target, where the field is
/// zero, after as many steps as the start cell holds.
pub proof fn lemma_pursuit_reaches_target(g: Seq<i32>, target: int, p: int, n: nat)
    requires
        is_field(g, target),
        reached(g, p),
        n <= g[p],
    ensures
        reached(g, pursuit(g, p, n)),
        g[pursuit(g, p, n)] == g[p] - n,
        n == g[p] ==> pursuit(g, p, n) == target,
    decreases n,
{
    if n > 0 {
        lemma_step_descends(g, target, p);
        lemma_pursuit_reaches_target(g, target, pursuit_step(g, p), (n - 1) as nat);
    }
}

/// A pursuer on the target, or on a cell without a distance, holds its position.
pub proof fn lemma_pursuit_holds(g: Seq<i32>, target: int, p: int)
    requires
        is_field(g, target),
        is_cell(p),
        !reached(g, p) || p == target,
    ensures
        pursuit_step(g, p) == p,
{
    assert forall|k: int| 0 <= k < 4 implies !lower_at(g, p, k) by {
        if lower_at(g, p, k) {
            let s = neighbor(p, k);
            lemma_neighbor_back(p, k);
            if g[p] >= 0 && p != target {
                assert(reached(g, s));
                assert(open_neighbor(g, s, opposite(k)));
            }
        }
    }
}

/// `w` is a walk through open cells: each cell shares an edge with the next.
pub open spec fn is_walk(g: Seq<i32>, w: Seq<int>) -> bool {
    &&& w.len() >= 1
    &&& forall|i: int| 0 <= i < w.len() ==> is_cell(#[trigger] w[i]) && g[w[i]] >= 0
    &&& forall|i: int| 0 <= i < w.len() - 1 ==> adjacent(w[i + 1], #[trigger] w[i])
}

/// In a field, the value of a cell is the length of a shortest walk to the
/// target: no walk from the cell to the target has fewer steps, and a cell
/// from which a walk exists holds a distance.
pub proof fn lemma_no_shorter_walk(g: Seq<i32>, target: int, w: Seq<int>)
    requires
        is_field(g, target),
        is_walk(g, w),
        w.last() == target,
    ensures
        reached(g, w[0]),
        g[w[0]] <= w.len() - 1,
{
    lemma_walk_suffix(g, target, w, 0);
}

proof fn lemma_walk_suffix(g: Seq<i32>, target: int, w: Seq<int>, i: int)
    requires
        is_field(g, target),
        is_walk(g, w),
        w.last() == target,
        0 <= i < w.len(),
    ensures
        reached(g, w[i]),
        g[w[i]] <= w.len() - 1 - i,
    decreases w.len() - i,
{
    if i == w.len() - 1 {
        assert(is_cell(w[i]) && g[w[i]] >= 0);
    } else {
        lemma_walk_suffix(g, target, w, i + 1);
        assert(adjacent(w[i + 1], w[i]));
        assert(is_cell(w[i]) && g[w[i]] >= 0);
        lemma_one_more_across_edge(g, target, w[i + 1], w[i]);
    }
}

/// In a field, an open cell next to a cell with a distance holds at most one more.
proof fn lemma_one_more_across_edge(g: Seq<i32>, target: int, a: int, b: int)
    requires
        is_field(g, target),
        reached(g, a),
        adjacent(a, b),
        g[b] >= 0,
    ensures
        reached(g, b),
        g[b] <= g[a] + 1,
{
    let k = choose|k: int| 0 <= k < 4 && has_neighbor(a, k) && #[trigger] neighbor(a, k) == b;
    lemma_neighbor_back(a, k);
    assert(open_neighbor(g, a, k));
}

/// The cells that a pursuer visits in its first `n` steps from `p`.
pub open spec fn pursuit_walk(g: Seq<i32>, p: int, n: nat) -> Seq<int> {
    Seq::new(n + 1, |i: int| pursuit(g, p, i as nat))
}

proof fn lemma_pursuit_next(g: Seq<i32>, p: int, n: nat)
    ensures
        pursuit(g, p, n + 1) == pursuit_step(g, pursuit(g, p, n)),
    decreases n,
{
    reveal_with_fuel(pursuit, 2);
    if n > 0 {
        lemma_pursuit_next(g, pursuit_step(g, p), (n - 1) as nat);
    }
}

/// In a field, the pursuer's path from a cell with a distance is a walk
/// from that cell to the target with as many steps as the cell holds: the
/// field's values are attained.
pub proof fn lemma_pursuit_is_shortest_walk(g: Seq<i32>, target: int, p: int)
    requires
        is_field(g, target),
        reached(g, p),
    ensures
        is_walk(g, pursuit_walk(g, p, g[p] as nat)),
        pursuit_walk(g, p, g[p] as nat)[0] == p,
        pursuit_walk(g, p, g[p] as nat).last() == target,
        pursuit_walk(g, p, g[p] as nat).len() - 1 == g[p],
{
    let n = g[p] as nat;
    let w = pursuit_walk(g, p, n);
    lemma_pursuit_reaches_target(g, target, p, n);
    assert forall|i: int| 0 <= i < w.len() implies is_cell(#[trigger] w[i]) && g[w[i]] >= 0 by {
        lemma_pursuit_reaches_target(g, target, p, i as nat);
    }
    assert forall|i: int| 0 <= i < w.len() - 1 implies adjacent(w[i + 1], #[trigger] w[i]) by {
        let a = pursuit(g, p, i as nat);
        lemma_pursuit_reaches_target(g, target, p, i as nat);
        lemma_pursuit_next(g, p, i as nat);
        assert(w[i] == a);
        assert(w[i + 1] == pursuit_step(g, a));
        lemma_step_descends(g, target, a);
        let k = if lower_at(g, a, 0) {
            0int
        } else if lower_at(g, a, 1) {
            1int
        } else if lower_at(g, a, 2) {
            2int
        } else {
            3int
        };
        lemma_neighbor_back(a, k);
        let s = neighbor(a, k);
        assert(0 <= opposite(k) < 4 && has_neighbor(s, opposite(k)) && neighbor(s, opposite(k)) == a);
    }
}

/// The two grids have the same blocked cells.
pub open spec fn same_walls(a: Seq<i32>, b: Seq<i32>) -> bool {
    forall|p: int| is_cell(p) ==> (#[trigger] a[p] == BLOCKED) == (#[trigger] b[p] == BLOCKED)
}

/// Every open cell of the grid is joined to `target` by a walk through open cells.
pub open spec fn connected_through(g: Seq<i32>, target: int) -> bool {
    forall|p: int|
        is_cell(p) && #[trigger] g[p] >= 0 ==> exists|w: Seq<int>|
            #[trigger] is_walk(g, w) && w[0] == p && w.last() == target
}

/// A walk through the open cells of one grid is a walk through those of
/// any grid with the same blocked cells.
pub proof fn lemma_walk_carries_over(a: Seq<i32>, b: Seq<i32>, w: Seq<int>)
    requires
        is_grid(a),
        is_grid(b),
        same_walls(a, b),
        is_walk(a, w),
    ensures
        is_walk(b, w),
{
    assert forall|i: int| 0 <= i < w.len() implies is_cell(#[trigger] w[i]) && b[w[i]] >= 0 by {
        assert(a[w[i]] >= 0);
        assert(b[w[i]] >= BLOCKED);
    }
}

/// The field tells whether a grid is connected: the open cells of a grid
/// are all joined to the target exactly if, in the field of the grid for
/// that target, every open cell holds a distance.
pub proof fn lemma_field_decides_connection(f: Seq<i32>, g: Seq<i32>, target: int)
    requires
        is_field(f, target),
        is_grid(g),
        same_walls(f, g),
    ensures
        connected_through(g, target) <==> forall|p: int|
            is_cell(p) && #[trigger] f[p] >= 0 ==> f[p] < UNREACHED,
{
    if connected_through(g, target) {
        assert forall|p: int| is_cell(p) && #[trigger] f[p] >= 0 implies f[p] < UNREACHED by {
            assert(g[p] >= BLOCKED);
            assert(g[p] >= 0);
            let w = choose|w: Seq<int>| #[trigger] is_walk(g, w) && w[0] == p && w.last() == target;
            lemma_walk_carries_over(g, f, w);
            lemma_no_shorter_walk(f, target, w);
        }
    }
    if forall|p: int| is_cell(p) && #[trigger] f[p] >= 0 ==> f[p] < UNREACHED {
        assert forall|p: int| is_cell(p) && #[trigger] g[p] >= 0 implies exists|w: Seq<int>|
            #[trigger] is_walk(g, w) && w[0] == p && w.last() == target by {
            assert(f[p] >= BLOCKED);
            assert(f[p] >= 0);
            assert(reached(f, p));
            let w = pursuit_walk(f, p, f[p] as nat);
            lemma_pursuit_is_shortest_walk(f, target, p);
            lemma_walk_carries_over(f, g, w);
        }
    }
}

/// A cell with a distance in one field has one, no greater, in any field
/// for the same target with the same blocked cells.
proof fn lemma_field_no_greater(a: Seq<i32>, b: Seq<i32>, target: int, p: int)
    requires
        is_field(a, target),
        is_field(b, target),
        same_walls(a, b),
        reached(a, p),
    ensures
        reached(b, p),
        b[p] <= a[p],
{
    lemma_pursuit_is_shortest_walk(a, target, p);
    let w = pursuit_walk(a, p, a[p] as nat);
    lemma_walk_carries_over(a, b, w);
    lemma_no_shorter_walk(b, target, w);
}

/// There is one field only for a grid and a target: two fields for the
/// same target with the same blocked cells are equal.
pub proof fn lemma_field_unique(a: Seq<i32>, b: Seq<i32>, target: int)
    requires
        is_field(a, target),
        is_field(b, target),
        same_walls(a, b),
    ensures
        a == b,
{
    assert(same_walls(b, a));
    assert forall|p: int| 0 <= p < a.len() implies a[p] == b[p] by {
        assert(is_cell(p));
        assert(a[p] >= BLOCKED && b[p] >= BLOCKED);
        assert((a[p] == BLOCKED) == (b[p] == BLOCKED));
        if reached(a, p) {
            lemma_field_no_greater(a, b, target, p);
            lemma_field_no_greater(b, a, target, p);
        } else if reached(b, p) {
            lemma_field_no_greater(b, a, target, p);
        }
    }
    assert(a =~= b);
}

} // verus!
