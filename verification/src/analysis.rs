//! Liberty analysis: after a move, every stone of a colour that cannot reach
//! an empty point through a chain of same-colour neighbours is dead.

use vstd::prelude::*;

use crate::grid::{
    adjacent, contains_stone, lemma_stone_idx_in_range, lemma_stone_idx_injective, stone_idx,
    stone_in_bounds, Grid, GridPoint, Stone,
};

verus! {

/// Some in-bounds orthogonal neighbour of `p` holds an empty cell: `p` has a
/// liberty.
pub open spec fn has_liberty(cells: Seq<GridPoint>, size: int, p: Stone) -> bool {
    exists|q: Stone|
        #![trigger adjacent(p, q)]
        stone_in_bounds(size, q) && adjacent(p, q) && cells[stone_idx(size, q)]
            == GridPoint::Empty
}

/// `path` connects a stone of the list to a liberty: every step is a member
/// of `stones`, consecutive steps are orthogonal neighbours, and the final
/// step has an empty cell beside it.
pub open spec fn safe_path(
    stones: Seq<Stone>,
    cells: Seq<GridPoint>,
    size: int,
    path: Seq<Stone>,
) -> bool {
    &&& path.len() > 0
    &&& forall|i: int| 0 <= i < path.len() ==> stones.contains(#[trigger] path[i])
    &&& forall|i: int| 0 <= i < path.len() - 1 ==> adjacent(#[trigger] path[i], path[i + 1])
    &&& has_liberty(cells, size, path.last())
}

/// A stone is safe when a chain of same-list neighbours connects it to a
/// stone with a liberty (possibly itself).
pub open spec fn is_safe(stones: Seq<Stone>, cells: Seq<GridPoint>, size: int, p: Stone) -> bool {
    exists|path: Seq<Stone>|
        #![trigger safe_path(stones, cells, size, path)]
        safe_path(stones, cells, size, path) && path[0] == p
}

/// The unsafe members of the first `n` entries of `stones`, in list order.
pub open spec fn dead_upto(
    stones: Seq<Stone>,
    cells: Seq<GridPoint>,
    size: int,
    n: int,
) -> Seq<Stone>
    decreases n,
{
    if n <= 0 {
        Seq::empty()
    } else {
        let prev = dead_upto(stones, cells, size, n - 1);
        if is_safe(stones, cells, size, stones[n - 1]) {
            prev
        } else {
            prev.push(stones[n - 1])
        }
    }
}

/// Every stone of the list that is not safe, in list order.
pub open spec fn dead_stones(stones: Seq<Stone>, cells: Seq<GridPoint>, size: int) -> Seq<Stone> {
    dead_upto(stones, cells, size, stones.len() as int)
}

/// A stone of the list that itself touches an empty point is safe.
pub proof fn lemma_liberty_is_safe(stones: Seq<Stone>, cells: Seq<GridPoint>, size: int, p: Stone)
    requires
        stones.contains(p),
        has_liberty(cells, size, p),
    ensures
        is_safe(stones, cells, size, p),
{
    let path = seq![p];
    assert(path.last() == p);
    assert(safe_path(stones, cells, size, path));
}

/// Safety propagates along same-list adjacency: a list member next to a safe
/// stone is safe.
pub proof fn lemma_safe_step(
    stones: Seq<Stone>,
    cells: Seq<GridPoint>,
    size: int,
    p: Stone,
    q: Stone,
)
    requires
        stones.contains(p),
        adjacent(p, q),
        is_safe(stones, cells, size, q),
    ensures
        is_safe(stones, cells, size, p),
{
    let tail = choose|path: Seq<Stone>|
        #![trigger safe_path(stones, cells, size, path)]
        safe_path(stones, cells, size, path) && path[0] == q;
    let path = seq![p] + tail;
    assert(path[0] == p);
    assert forall|i: int| 0 <= i < path.len() implies stones.contains(#[trigger] path[i]) by {
        if i > 0 {
            assert(path[i] == tail[i - 1]);
        }
    }
    assert forall|i: int| 0 <= i < path.len() - 1 implies adjacent(
        #[trigger] path[i],
        path[i + 1],
    ) by {
        if i == 0 {
            assert(path[1] == tail[0]);
        } else {
            assert(path[i] == tail[i - 1] && path[i + 1] == tail[i]);
        }
    }
    assert(path.last() == tail.last());
    assert(safe_path(stones, cells, size, path));
}

/// A stone that occurs in `dead_upto` is a member of the list and is not
/// safe.
pub proof fn lemma_dead_upto_sound(
    stones: Seq<Stone>,
    cells: Seq<GridPoint>,
    size: int,
    n: int,
    p: Stone,
)
    requires
        n <= stones.len(),
        dead_upto(stones, cells, size, n).contains(p),
    ensures
        stones.contains(p),
        !is_safe(stones, cells, size, p),
    decreases n,
{
    if n <= 0 {
    } else {
        let prev = dead_upto(stones, cells, size, n - 1);
        if is_safe(stones, cells, size, stones[n - 1]) {
            lemma_dead_upto_sound(stones, cells, size, n - 1, p);
        } else {
            let cur = prev.push(stones[n - 1]);
            let i = choose|i: int| 0 <= i < cur.len() && cur[i] == p;
            if i < prev.len() {
                assert(prev[i] == p);
                assert(prev.contains(p));
                lemma_dead_upto_sound(stones, cells, size, n - 1, p);
            } else {
                assert(p == stones[n - 1]);
            }
        }
    }
}

/// Every unsafe entry among the first `n` is collected by `dead_upto`.
pub proof fn lemma_dead_upto_complete(
    stones: Seq<Stone>,
    cells: Seq<GridPoint>,
    size: int,
    n: int,
    i: int,
)
    requires
        0 <= i < n <= stones.len(),
        !is_safe(stones, cells, size, stones[i]),
    ensures
        dead_upto(stones, cells, size, n).contains(stones[i]),
    decreases n,
{
    let prev = dead_upto(stones, cells, size, n - 1);
    if i == n - 1 {
        let cur = prev.push(stones[i]);
        assert(cur[prev.len() as int] == stones[i]);
    } else {
        lemma_dead_upto_complete(stones, cells, size, n - 1, i);
        if !is_safe(stones, cells, size, stones[n - 1]) {
            let j = choose|j: int| 0 <= j < prev.len() && prev[j] == stones[i];
            assert(prev.push(stones[n - 1])[j] == stones[i]);
        }
    }
}

/// The safe list is closed: no remaining stone touches an empty point or a
/// safe stone.
pub open spec fn analysis_closed(
    stones: Seq<Stone>,
    cells: Seq<GridPoint>,
    size: int,
    safe: Seq<Stone>,
) -> bool {
    &&& forall|p: Stone|
        #[trigger] stones.contains(p) && !safe.contains(p) ==> !has_liberty(cells, size, p)
    &&& forall|p: Stone, q: Stone|
        #![trigger adjacent(p, q)]
        stones.contains(p) && !safe.contains(p) && safe.contains(q) ==> !adjacent(p, q)
}

/// Once the safe list is closed, every stone on a path to a liberty already
/// stands in it.
proof fn lemma_closed_path(
    stones: Seq<Stone>,
    cells: Seq<GridPoint>,
    size: int,
    safe: Seq<Stone>,
    path: Seq<Stone>,
)
    requires
        analysis_closed(stones, cells, size, safe),
        safe_path(stones, cells, size, path),
    ensures
        safe.contains(path[0]),
    decreases path.len(),
{
    if path.len() == 1 {
        assert(path.last() == path[0]);
    } else {
        let tail = path.subrange(1, path.len() as int);
        assert forall|i: int| 0 <= i < tail.len() implies stones.contains(#[trigger] tail[i]) by {
            assert(tail[i] == path[i + 1]);
        }
        assert forall|i: int| 0 <= i < tail.len() - 1 implies adjacent(
            #[trigger] tail[i],
            tail[i + 1],
        ) by {
            assert(tail[i] == path[i + 1] && tail[i + 1] == path[i + 2]);
        }
        assert(tail.last() == path.last());
        assert(safe_path(stones, cells, size, tail));
        lemma_closed_path(stones, cells, size, safe, tail);
        assert(safe.contains(path[1]));
        assert(adjacent(path[0], path[1]));
    }
}

/// A duplicate-free list whose members all occur in another duplicate-free
/// list is no longer than it.
proof fn lemma_unique_subset_len(a: Seq<Stone>, b: Seq<Stone>)
    requires
        a.no_duplicates(),
        b.no_duplicates(),
        forall|p: Stone| #[trigger] a.contains(p) ==> b.contains(p),
    ensures
        a.len() <= b.len(),
{
    broadcast use vstd::seq_lib::group_seq_lib_default;

    a.unique_seq_to_set();
    b.unique_seq_to_set();
    assert(a.to_set().subset_of(b.to_set()));
    vstd::set_lib::lemma_len_subset(a.to_set(), b.to_set());
}

/// Whether `p` would be marked safe right now: it touches an empty cell or a
/// stone already on the safe list.
fn stone_safe_now(grid: &Grid, safe: &Vec<Stone>, p: Stone) -> (b: bool)
    requires
        grid.wf(),
        stone_in_bounds(grid.side(), p),
        forall|j: int| 0 <= j < safe@.len() ==> stone_in_bounds(grid.side(), #[trigger] safe@[j]),
    ensures
        b == (has_liberty(grid.cells(), grid.side(), p) || exists|q: Stone|
            #![trigger adjacent(p, q)]
            safe@.contains(q) && adjacent(p, q)),
{
    let size = grid.side_len();
    if p.x > 0 {
        let q = Stone { x: p.x - 1, y: p.y };
        if grid.at(q.x, q.y) == GridPoint::Empty || contains_stone(safe, q) {
            assert(adjacent(p, q));
            return true;
        }
    }
    if p.x + 1 < size {
        let q = Stone { x: p.x + 1, y: p.y };
        if grid.at(q.x, q.y) == GridPoint::Empty || contains_stone(safe, q) {
            assert(adjacent(p, q));
            return true;
        }
    }
    if p.y > 0 {
        let q = Stone { x: p.x, y: p.y - 1 };
        if grid.at(q.x, q.y) == GridPoint::Empty || contains_stone(safe, q) {
            assert(adjacent(p, q));
            return true;
        }
    }
    if p.y + 1 < size {
        let q = Stone { x: p.x, y: p.y + 1 };
        if grid.at(q.x, q.y) == GridPoint::Empty || contains_stone(safe, q) {
            assert(adjacent(p, q));
            return true;
        }
    }
    proof {
        assert forall|q: Stone| stone_in_bounds(grid.side(), q) && #[trigger] adjacent(p, q)
            implies grid.cells()[stone_idx(grid.side(), q)] != GridPoint::Empty by {
            assert(q == Stone { x: (p.x - 1) as u8, y: p.y } || q == Stone {
                x: (p.x + 1) as u8,
                y: p.y,
            } || q == Stone { x: p.x, y: (p.y - 1) as u8 } || q == Stone {
                x: p.x,
                y: (p.y + 1) as u8,
            });
        }
        assert forall|q: Stone| safe@.contains(q) implies !adjacent(p, q) by {
            let j = choose|j: int| 0 <= j < safe@.len() && safe@[j] == q;
            assert(stone_in_bounds(grid.side(), q));
            if adjacent(p, q) {
                assert(q == Stone { x: (p.x - 1) as u8, y: p.y } || q == Stone {
                    x: (p.x + 1) as u8,
                    y: p.y,
                } || q == Stone { x: p.x, y: (p.y - 1) as u8 } || q == Stone {
                    x: p.x,
                    y: (p.y + 1) as u8,
                });
            }
        }
    }
    false
}

/// The stones of `stones` that cannot reach an empty point through a chain
/// of same-list neighbours, in list order.
///
/// The safe list grows to a fixpoint: a stone is marked safe when a
/// neighbouring cell is empty or a neighbouring stone is already safe, and
/// sweeps repeat until one adds nothing.
pub fn find_dead_stones(grid: &Grid, stones: &Vec<Stone>) -> (dead: Vec<Stone>)
    requires
        grid.wf(),
        stones@.no_duplicates(),
        forall|j: int| 0 <= j < stones@.len() ==> stone_in_bounds(
            grid.side(),
            #[trigger] stones@[j],
        ),
    ensures
        dead@ == dead_stones(stones@, grid.cells(), grid.side()),
{
    let ghost cells = grid.cells();
    let ghost size = grid.side();
    let mut safe: Vec<Stone> = Vec::new();
    loop
        invariant
            grid.wf(),
            cells == grid.cells(),
            size == grid.side(),
            stones@.no_duplicates(),
            forall|j: int| 0 <= j < stones@.len() ==> stone_in_bounds(
                size,
                #[trigger] stones@[j],
            ),
            safe@.no_duplicates(),
            forall|j: int| 0 <= j < safe@.len() ==> stones@.contains(#[trigger] safe@[j]),
            forall|j: int| 0 <= j < safe@.len() ==> is_safe(stones@, cells, size, #[trigger] safe@[j]),
        ensures
            safe@.no_duplicates(),
            forall|j: int| 0 <= j < safe@.len() ==> stones@.contains(#[trigger] safe@[j]),
            forall|j: int| 0 <= j < safe@.len() ==> is_safe(stones@, cells, size, #[trigger] safe@[j]),
            analysis_closed(stones@, cells, size, safe@),
        decreases stones@.len() - safe@.len(),
    {
        proof {
            lemma_unique_subset_len(safe@, stones@);
        }
        let ghost safe0 = safe@;
        let mut added = false;
        let mut k: usize = 0;
        while k < stones.len()
            invariant
                grid.wf(),
                cells == grid.cells(),
                size == grid.side(),
                stones@.no_duplicates(),
                forall|j: int| 0 <= j < stones@.len() ==> stone_in_bounds(
                    size,
                    #[trigger] stones@[j],
                ),
                k <= stones@.len(),
                safe@.no_duplicates(),
                forall|j: int| 0 <= j < safe@.len() ==> stones@.contains(#[trigger] safe@[j]),
                forall|j: int| 0 <= j < safe@.len() ==> is_safe(
                    stones@,
                    cells,
                    size,
                    #[trigger] safe@[j],
                ),
                safe@.len() >= safe0.len(),
                added ==> safe@.len() > safe0.len(),
                !added ==> safe@ == safe0,
                !added ==> forall|j: int|
                    0 <= j < k ==> safe0.contains(#[trigger] stones@[j]) || !(has_liberty(
                        cells,
                        size,
                        stones@[j],
                    ) || exists|q: Stone|
                        #![trigger adjacent(stones@[j], q)]
                        safe0.contains(q) && adjacent(stones@[j], q)),
            decreases stones@.len() - k,
        {
            let p = stones[k];
            if !contains_stone(&safe, p) {
                if stone_safe_now(grid, &safe, p) {
                    proof {
                        if has_liberty(cells, size, p) {
                            lemma_liberty_is_safe(stones@, cells, size, p);
                        } else {
                            let q = choose|q: Stone|
                                #![trigger adjacent(p, q)]
                                safe@.contains(q) && adjacent(p, q);
                            lemma_safe_step(stones@, cells, size, p, q);
                        }
                    }
                    safe.push(p);
                    added = true;
                }
            }
            k += 1;
        }
        if !added {
            proof {
                assert forall|p: Stone| #[trigger] stones@.contains(p) && !safe@.contains(p)
                    implies !has_liberty(cells, size, p) by {
                    let j = choose|j: int| 0 <= j < stones@.len() && stones@[j] == p;
                    assert(!(has_liberty(cells, size, stones@[j]) || exists|q: Stone|
                        #![trigger adjacent(stones@[j], q)]
                        safe0.contains(q) && adjacent(stones@[j], q)));
                }
                assert forall|p: Stone, q: Stone|
                    stones@.contains(p) && !safe@.contains(p) && safe@.contains(q)
                    implies !(#[trigger] adjacent(p, q)) by {
                    let j = choose|j: int| 0 <= j < stones@.len() && stones@[j] == p;
                    assert(!(has_liberty(cells, size, stones@[j]) || exists|q2: Stone|
                        #![trigger adjacent(stones@[j], q2)]
                        safe0.contains(q2) && adjacent(stones@[j], q2)));
                }
            }
            break;
        }
        proof {
            lemma_unique_subset_len(safe@, stones@);
        }
    }
    proof {
        assert forall|j: int| 0 <= j < stones@.len() implies (safe@.contains(#[trigger] stones@[j])
            <==> is_safe(stones@, cells, size, stones@[j])) by {
            if is_safe(stones@, cells, size, stones@[j]) {
                let path = choose|path: Seq<Stone>|
                    #![trigger safe_path(stones@, cells, size, path)]
                    safe_path(stones@, cells, size, path) && path[0] == stones@[j];
                lemma_closed_path(stones@, cells, size, safe@, path);
            }
        }
    }
    let mut dead: Vec<Stone> = Vec::new();
    let mut i: usize = 0;
    while i < stones.len()
        invariant
            grid.wf(),
            cells == grid.cells(),
            size == grid.side(),
            stones@.no_duplicates(),
            forall|j: int| 0 <= j < stones@.len() ==> stone_in_bounds(
                size,
                #[trigger] stones@[j],
            ),
            i <= stones@.len(),
            dead@ == dead_upto(stones@, cells, size, i as int),
            forall|j: int| 0 <= j < stones@.len() ==> (safe@.contains(#[trigger] stones@[j])
                <==> is_safe(stones@, cells, size, stones@[j])),
        decreases stones@.len() - i,
    {
        let p = stones[i];
        if !contains_stone(&safe, p) {
            dead.push(p);
        }
        i += 1;
    }
    dead
}

/// A stone of the list that has a liberty, or is joined by same-list
/// neighbours to one that has, is never reported dead.
pub proof fn lemma_safe_never_dead(
    stones: Seq<Stone>,
    cells: Seq<GridPoint>,
    size: int,
    p: Stone,
)
    requires
        is_safe(stones, cells, size, p),
    ensures
        !dead_stones(stones, cells, size).contains(p),
{
    if dead_stones(stones, cells, size).contains(p) {
        lemma_dead_upto_sound(stones, cells, size, stones.len() as int, p);
    }
}

/// A stone of the list with an empty point beside it is never reported dead.
pub proof fn lemma_liberty_never_dead(
    stones: Seq<Stone>,
    cells: Seq<GridPoint>,
    size: int,
    p: Stone,
)
    requires
        stones.contains(p),
        has_liberty(cells, size, p),
    ensures
        !dead_stones(stones, cells, size).contains(p),
{
    lemma_liberty_is_safe(stones, cells, size, p);
    lemma_safe_never_dead(stones, cells, size, p);
}

/// No path to a liberty starts inside a surrounded group.
proof fn lemma_surrounded_path(
    stones: Seq<Stone>,
    cells: Seq<GridPoint>,
    size: int,
    group: Set<Stone>,
    path: Seq<Stone>,
)
    requires
        forall|p: Stone| #[trigger] group.contains(p) ==> !has_liberty(cells, size, p),
        forall|p: Stone, q: Stone|
            #![trigger adjacent(p, q)]
            group.contains(p) && stones.contains(q) && adjacent(p, q) ==> group.contains(q),
        safe_path(stones, cells, size, path),
    ensures
        !group.contains(path[0]),
    decreases path.len(),
{
    if path.len() == 1 {
        assert(path.last() == path[0]);
    } else {
        let tail = path.subrange(1, path.len() as int);
        assert(stones.contains(path[1]));
        assert(adjacent(path[0], path[1]));
        assert forall|i: int| 0 <= i < tail.len() implies stones.contains(#[trigger] tail[i]) by {
            assert(tail[i] == path[i + 1]);
        }
        assert forall|i: int| 0 <= i < tail.len() - 1 implies adjacent(
            #[trigger] tail[i],
            tail[i + 1],
        ) by {
            assert(tail[i] == path[i + 1] && tail[i + 1] == path[i + 2]);
        }
        assert(tail.last() == path.last());
        assert(safe_path(stones, cells, size, tail));
        lemma_surrounded_path(stones, cells, size, group, tail);
        assert(!group.contains(path[1]));
    }
}

/// Capture: when a group of list members is closed under same-list adjacency
/// and no member touches an empty point, every member of the group is
/// reported dead.
pub proof fn lemma_surrounded_group_dead(
    stones: Seq<Stone>,
    cells: Seq<GridPoint>,
    size: int,
    group: Set<Stone>,
    p: Stone,
)
    requires
        forall|q: Stone| #[trigger] group.contains(q) ==> stones.contains(q),
        forall|q: Stone| #[trigger] group.contains(q) ==> !has_liberty(cells, size, q),
        forall|q: Stone, r: Stone|
            #![trigger adjacent(q, r)]
            group.contains(q) && stones.contains(r) && adjacent(q, r) ==> group.contains(r),
        group.contains(p),
    ensures
        dead_stones(stones, cells, size).contains(p),
{
    if is_safe(stones, cells, size, p) {
        let path = choose|path: Seq<Stone>|
            #![trigger safe_path(stones, cells, size, path)]
            safe_path(stones, cells, size, path) && path[0] == p;
        lemma_surrounded_path(stones, cells, size, group, path);
    }
    let i = choose|i: int| 0 <= i < stones.len() && stones[i] == p;
    lemma_dead_upto_complete(stones, cells, size, stones.len() as int, i);
}


/// The safe members of the first `n` entries of `stones`, in list order.
pub open spec fn survivors_upto(
    stones: Seq<Stone>,
    cells: Seq<GridPoint>,
    size: int,
    n: int,
) -> Seq<Stone>
    decreases n,
{
    if n <= 0 {
        Seq::empty()
    } else {
        let prev = survivors_upto(stones, cells, size, n - 1);
        if is_safe(stones, cells, size, stones[n - 1]) {
            prev.push(stones[n - 1])
        } else {
            prev
        }
    }
}

/// Every stone of the list that is safe, in list order: what the colour's
/// stone list becomes after the dead stones are removed.
pub open spec fn survivors(stones: Seq<Stone>, cells: Seq<GridPoint>, size: int) -> Seq<Stone> {
    survivors_upto(stones, cells, size, stones.len() as int)
}

/// Each survivor sits at some position of the original list and is safe.
pub proof fn lemma_survivors_sound(
    stones: Seq<Stone>,
    cells: Seq<GridPoint>,
    size: int,
    n: int,
    p: Stone,
)
    requires
        n <= stones.len(),
        survivors_upto(stones, cells, size, n).contains(p),
    ensures
        exists|j: int| 0 <= j < n && stones[j] == p,
        stones.contains(p),
        is_safe(stones, cells, size, p),
    decreases n,
{
    if n <= 0 {
    } else {
        let prev = survivors_upto(stones, cells, size, n - 1);
        if is_safe(stones, cells, size, stones[n - 1]) {
            let cur = prev.push(stones[n - 1]);
            let i = choose|i: int| 0 <= i < cur.len() && cur[i] == p;
            if i < prev.len() {
                assert(prev[i] == p);
                assert(prev.contains(p));
                lemma_survivors_sound(stones, cells, size, n - 1, p);
            } else {
                assert(p == stones[n - 1]);
            }
        } else {
            lemma_survivors_sound(stones, cells, size, n - 1, p);
        }
    }
}

/// Every safe entry among the first `n` is kept by `survivors_upto`.
pub proof fn lemma_survivors_complete(
    stones: Seq<Stone>,
    cells: Seq<GridPoint>,
    size: int,
    n: int,
    i: int,
)
    requires
        0 <= i < n <= stones.len(),
        is_safe(stones, cells, size, stones[i]),
    ensures
        survivors_upto(stones, cells, size, n).contains(stones[i]),
    decreases n,
{
    let prev = survivors_upto(stones, cells, size, n - 1);
    if i == n - 1 {
        let cur = prev.push(stones[i]);
        assert(cur[prev.len() as int] == stones[i]);
    } else {
        lemma_survivors_complete(stones, cells, size, n - 1, i);
        if is_safe(stones, cells, size, stones[n - 1]) {
            let j = choose|j: int| 0 <= j < prev.len() && prev[j] == stones[i];
            assert(prev.push(stones[n - 1])[j] == stones[i]);
        }
    }
}

/// Removing the dead stones from a duplicate-free list leaves it
/// duplicate-free.
pub proof fn lemma_survivors_no_dup(
    stones: Seq<Stone>,
    cells: Seq<GridPoint>,
    size: int,
    n: int,
)
    requires
        stones.no_duplicates(),
        n <= stones.len(),
    ensures
        survivors_upto(stones, cells, size, n).no_duplicates(),
    decreases n,
{
    if n <= 0 {
    } else {
        lemma_survivors_no_dup(stones, cells, size, n - 1);
        let prev = survivors_upto(stones, cells, size, n - 1);
        if is_safe(stones, cells, size, stones[n - 1]) {
            if prev.contains(stones[n - 1]) {
                lemma_survivors_sound(stones, cells, size, n - 1, stones[n - 1]);
                let j = choose|j: int| 0 <= j < n - 1 && #[trigger] stones[j] == stones[n - 1];
                assert(false);
            }
            let cur = prev.push(stones[n - 1]);
            assert forall|a: int, b: int| 0 <= a < b < cur.len() implies cur[a] != cur[b] by {
                if b < prev.len() {
                } else {
                    assert(cur[b] == stones[n - 1]);
                    assert(prev[a] == cur[a]);
                    assert(prev.contains(prev[a]));
                }
            }
        }
    }
}

/// The grid after the cells of `dead` are reset to empty, front to back.
pub open spec fn clear_cells(cells: Seq<GridPoint>, size: int, dead: Seq<Stone>) -> Seq<GridPoint>
    decreases dead.len(),
{
    if dead.len() == 0 {
        cells
    } else {
        clear_cells(
            cells.update(stone_idx(size, dead[0]), GridPoint::Empty),
            size,
            dead.drop_first(),
        )
    }
}

/// Clearing one more stone clears its cell last.
pub proof fn lemma_clear_cells_snoc(cells: Seq<GridPoint>, size: int, dead: Seq<Stone>, p: Stone)
    ensures
        clear_cells(cells, size, dead.push(p)) == clear_cells(cells, size, dead).update(
            stone_idx(size, p),
            GridPoint::Empty,
        ),
    decreases dead.len(),
{
    if dead.len() == 0 {
        let c1 = cells.update(stone_idx(size, p), GridPoint::Empty);
        assert(dead.push(p)[0] == p);
        assert(dead.push(p).drop_first() =~= Seq::<Stone>::empty());
        assert(clear_cells(cells, size, dead.push(p)) == clear_cells(
            c1,
            size,
            Seq::<Stone>::empty(),
        ));
        assert(clear_cells(c1, size, Seq::<Stone>::empty()) == c1);
        assert(clear_cells(cells, size, dead) == cells);
    } else {
        let c1 = cells.update(stone_idx(size, dead[0]), GridPoint::Empty);
        assert(dead.push(p)[0] == dead[0]);
        assert(dead.push(p).drop_first() =~= dead.drop_first().push(p));
        assert(clear_cells(cells, size, dead.push(p)) == clear_cells(
            c1,
            size,
            dead.drop_first().push(p),
        ));
        lemma_clear_cells_snoc(c1, size, dead.drop_first(), p);
        assert(clear_cells(cells, size, dead) == clear_cells(c1, size, dead.drop_first()));
    }
}

/// Clearing cells never changes the grid's length.
pub proof fn lemma_clear_cells_len(cells: Seq<GridPoint>, size: int, dead: Seq<Stone>)
    requires
        forall|k: int| 0 <= k < dead.len() ==> 0 <= stone_idx(size, #[trigger] dead[k])
            < cells.len(),
    ensures
        clear_cells(cells, size, dead).len() == cells.len(),
    decreases dead.len(),
{
    if dead.len() > 0 {
        let c1 = cells.update(stone_idx(size, dead[0]), GridPoint::Empty);
        assert(c1.len() == cells.len());
        assert forall|k: int| 0 <= k < dead.drop_first().len() implies 0 <= stone_idx(
            size,
            #[trigger] dead.drop_first()[k],
        ) < c1.len() by {
            assert(dead.drop_first()[k] == dead[k + 1]);
        }
        lemma_clear_cells_len(c1, size, dead.drop_first());
    }
}

/// What one cell holds after clearing: empty when some cleared stone sits
/// there, unchanged otherwise.
pub proof fn lemma_clear_cells_at(cells: Seq<GridPoint>, size: int, dead: Seq<Stone>, i: int)
    requires
        0 <= i < cells.len(),
        forall|k: int| 0 <= k < dead.len() ==> 0 <= stone_idx(size, #[trigger] dead[k])
            < cells.len(),
    ensures
        clear_cells(cells, size, dead)[i] == if exists|k: int|
            0 <= k < dead.len() && stone_idx(size, #[trigger] dead[k]) == i {
            GridPoint::Empty
        } else {
            cells[i]
        },
    decreases dead.len(),
{
    if dead.len() == 0 {
    } else {
        let c1 = cells.update(stone_idx(size, dead[0]), GridPoint::Empty);
        assert forall|k: int| 0 <= k < dead.drop_first().len() implies 0 <= stone_idx(
            size,
            #[trigger] dead.drop_first()[k],
        ) < c1.len() by {
            assert(dead.drop_first()[k] == dead[k + 1]);
        }
        lemma_clear_cells_at(c1, size, dead.drop_first(), i);
        if exists|k: int| 0 <= k < dead.len() && stone_idx(size, #[trigger] dead[k]) == i {
            let k = choose|k: int| 0 <= k < dead.len() && stone_idx(size, #[trigger] dead[k]) == i;
            if k == 0 {
                if !(exists|k2: int|
                    0 <= k2 < dead.drop_first().len() && stone_idx(
                        size,
                        #[trigger] dead.drop_first()[k2],
                    ) == i) {
                    assert(c1[i] == GridPoint::Empty);
                }
            } else {
                assert(dead.drop_first()[k - 1] == dead[k]);
                assert(stone_idx(size, dead.drop_first()[k - 1]) == i);
            }
        } else {
            assert forall|k2: int|
                0 <= k2 < dead.drop_first().len() implies stone_idx(
                size,
                #[trigger] dead.drop_first()[k2],
            ) != i by {
                assert(dead.drop_first()[k2] == dead[k2 + 1]);
            }
            assert(stone_idx(size, dead[0]) != i);
            assert(c1[i] == cells[i]);
        }
    }
}

/// What a stone's cell holds after clearing: empty exactly when the stone
/// was among the cleared ones.
pub proof fn lemma_clear_cells_stone(
    cells: Seq<GridPoint>,
    size: int,
    dead: Seq<Stone>,
    p: Stone,
)
    requires
        cells.len() == size * size,
        forall|k: int| 0 <= k < dead.len() ==> stone_in_bounds(size, #[trigger] dead[k]),
        stone_in_bounds(size, p),
    ensures
        clear_cells(cells, size, dead)[stone_idx(size, p)] == if dead.contains(p) {
            GridPoint::Empty
        } else {
            cells[stone_idx(size, p)]
        },
{
    lemma_stone_idx_in_range(size, p);
    assert forall|k: int| 0 <= k < dead.len() implies 0 <= stone_idx(size, #[trigger] dead[k])
        < cells.len() by {
        lemma_stone_idx_in_range(size, dead[k]);
    }
    lemma_clear_cells_at(cells, size, dead, stone_idx(size, p));
    if dead.contains(p) {
        let k = choose|k: int| 0 <= k < dead.len() && dead[k] == p;
        assert(stone_idx(size, dead[k]) == stone_idx(size, p));
    } else {
        if exists|k: int| 0 <= k < dead.len() && stone_idx(size, #[trigger] dead[k]) == stone_idx(
            size,
            p,
        ) {
            let k = choose|k: int|
                0 <= k < dead.len() && stone_idx(size, #[trigger] dead[k]) == stone_idx(size, p);
            lemma_stone_idx_injective(size, dead[k], p);
        }
    }
}

/// Run one removal pass for one colour: find the dead stones, reset their
/// cells to empty, and drop them from the colour's list.
pub fn remove_dead(grid: &mut Grid, stones: &mut Vec<Stone>)
    requires
        old(grid).wf(),
        old(stones)@.no_duplicates(),
        forall|j: int| 0 <= j < old(stones)@.len() ==> stone_in_bounds(
            old(grid).side(),
            #[trigger] old(stones)@[j],
        ),
    ensures
        final(grid).wf(),
        final(grid).side() == old(grid).side(),
        final(grid).cells() == clear_cells(
            old(grid).cells(),
            old(grid).side(),
            dead_stones(old(stones)@, old(grid).cells(), old(grid).side()),
        ),
        final(stones)@ == survivors(old(stones)@, old(grid).cells(), old(grid).side()),
        final(stones)@.no_duplicates(),
        forall|j: int| 0 <= j < final(stones)@.len() ==> stone_in_bounds(
            old(grid).side(),
            #[trigger] final(stones)@[j],
        ),
{
    let ghost cells0 = grid.cells();
    let ghost size = grid.side();
    let ghost all = stones@;
    let dead = find_dead_stones(grid, stones);
    let ghost deads = dead@;
    proof {
        assert forall|k: int| 0 <= k < deads.len() implies stone_in_bounds(
            size,
            #[trigger] deads[k],
        ) by {
            assert(deads.contains(deads[k]));
            lemma_dead_upto_sound(all, cells0, size, all.len() as int, deads[k]);
            let j = choose|j: int| 0 <= j < all.len() && all[j] == deads[k];
            assert(stone_in_bounds(size, all[j]));
        }
    }
    let mut i: usize = 0;
    while i < dead.len()
        invariant
            i <= deads.len(),
            dead@ == deads,
            grid.wf(),
            grid.side() == size,
            grid.cells() == clear_cells(cells0, size, deads.take(i as int)),
            forall|k: int| 0 <= k < deads.len() ==> stone_in_bounds(size, #[trigger] deads[k]),
        decreases deads.len() - i,
    {
        let p = dead[i];
        proof {
            assert(deads.take(i as int + 1) =~= deads.take(i as int).push(p));
            lemma_clear_cells_snoc(cells0, size, deads.take(i as int), p);
        }
        grid.set(p.x, p.y, GridPoint::Empty);
        i += 1;
    }
    proof {
        assert(deads.take(deads.len() as int) =~= deads);
    }
    let mut kept: Vec<Stone> = Vec::new();
    let mut j: usize = 0;
    while j < stones.len()
        invariant
            j <= all.len(),
            stones@ == all,
            dead@ == deads,
            deads == dead_stones(all, cells0, size),
            kept@ == survivors_upto(all, cells0, size, j as int),
            all.no_duplicates(),
            forall|k: int| 0 <= k < all.len() ==> stone_in_bounds(size, #[trigger] all[k]),
        decreases all.len() - j,
    {
        let p = stones[j];
        let is_dead = contains_stone(&dead, p);
        proof {
            if is_dead {
                lemma_dead_upto_sound(all, cells0, size, all.len() as int, p);
            } else {
                if !is_safe(all, cells0, size, p) {
                    lemma_dead_upto_complete(all, cells0, size, all.len() as int, j as int);
                }
            }
        }
        if !is_dead {
            kept.push(p);
        }
        j += 1;
    }
    proof {
        lemma_survivors_no_dup(all, cells0, size, all.len() as int);
        assert forall|k: int| 0 <= k < kept@.len() implies stone_in_bounds(
            size,
            #[trigger] kept@[k],
        ) by {
            assert(kept@.contains(kept@[k]));
            lemma_survivors_sound(all, cells0, size, all.len() as int, kept@[k]);
            let j2 = choose|j2: int| 0 <= j2 < all.len() && all[j2] == kept@[k];
            assert(stone_in_bounds(size, all[j2]));
        }
    }
    *stones = kept;
}

/// Capture symmetry, removal view: after the removal pass for one colour, no
/// stone of a surrounded group of that colour is kept.
pub proof fn lemma_surrounded_group_removed(
    stones: Seq<Stone>,
    cells: Seq<GridPoint>,
    size: int,
    group: Set<Stone>,
    p: Stone,
)
    requires
        forall|q: Stone| #[trigger] group.contains(q) ==> stones.contains(q),
        forall|q: Stone| #[trigger] group.contains(q) ==> !has_liberty(cells, size, q),
        forall|q: Stone, r: Stone|
            #![trigger adjacent(q, r)]
            group.contains(q) && stones.contains(r) && adjacent(q, r) ==> group.contains(r),
        group.contains(p),
    ensures
        !survivors(stones, cells, size).contains(p),
{
    lemma_surrounded_group_dead(stones, cells, size, group, p);
    if survivors(stones, cells, size).contains(p) {
        lemma_survivors_sound(stones, cells, size, stones.len() as int, p);
        lemma_dead_upto_sound(stones, cells, size, stones.len() as int, p);
    }
}

/// Capture symmetry, the other half: a stone that has a liberty of its own
/// is kept by the removal pass.
pub proof fn lemma_liberty_survives(stones: Seq<Stone>, cells: Seq<GridPoint>, size: int, i: int)
    requires
        0 <= i < stones.len(),
        has_liberty(cells, size, stones[i]),
    ensures
        survivors(stones, cells, size).contains(stones[i]),
{
    assert(stones.contains(stones[i]));
    lemma_liberty_is_safe(stones, cells, size, stones[i]);
    lemma_survivors_complete(stones, cells, size, stones.len() as int, i);
}

} // verus!

