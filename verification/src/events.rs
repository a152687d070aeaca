//! Property events: the flattened form of a parsed SGF game tree, and the
//! depth-first flattener that produces it.

use vstd::prelude::*;

use crate::grid::Stone;

verus! {

/// One SGF property, reduced to what the board projector consumes.
#[derive(Debug)]
pub enum PropertyEvent {
    /// Board-size declaration.
    Size(u8),
    /// A single white move, 0-based column and row.
    WhiteMove(u8, u8),
    /// A single black move, 0-based column and row.
    BlackMove(u8, u8),
    /// Setup stones added for white, placed without liberty analysis.
    AddWhite(Vec<Stone>),
    /// Setup stones added for black, placed without liberty analysis.
    AddBlack(Vec<Stone>),
    /// Any other property: kept in sequence, ignored by the projector.
    Other,
}

/// A parsed SGF game tree, reduced to each node's property events plus its
/// child trees in document order.
#[derive(Debug)]
pub struct SgfTree {
    pub events: Vec<PropertyEvent>,
    pub children: Vec<SgfTree>,
}

/// Depth-first pre-order flattening of one tree: the node's own events, then
/// each child's events, in document order.
pub open spec fn flat_tree(t: SgfTree) -> Seq<PropertyEvent>
    decreases t,
{
    t.events@ + flat_forest(t.children@)
}

/// Flattening of a forest: each tree in order.
pub open spec fn flat_forest(ts: Seq<SgfTree>) -> Seq<PropertyEvent>
    decreases ts,
{
    if ts.len() == 0 {
        Seq::empty()
    } else {
        flat_tree(ts[0]) + flat_forest(ts.drop_first())
    }
}

/// Append one tree's events, depth-first, to `out`.
fn flatten_tree(t: SgfTree, out: &mut Vec<PropertyEvent>)
    ensures
        final(out)@ == old(out)@ + flat_tree(t),
    decreases t,
{
    let ghost t0 = t;
    let ghost start = old(out)@;
    let SgfTree { mut events, children } = t;
    out.append(&mut events);
    let mut rest = children;
    let ghost mut k: int = 0;
    proof {
        assert(rest@ =~= t0.children@.skip(0));
        assert(out@ =~= start + flat_tree(t0).subrange(0, t0.events@.len() as int));
    }
    while rest.len() > 0
        invariant
            t0 == t,
            0 <= k <= t0.children@.len(),
            rest@ == t0.children@.skip(k),
            out@ + flat_forest(rest@) == start + flat_tree(t0),
        decreases rest@.len(),
    {
        let ghost rest0 = rest@;
        let ghost out0 = out@;
        let c = rest.remove(0);
        proof {
            assert(c == rest0[0]);
            assert(c == t0.children@.skip(k)[0]);
            assert(c == t0.children@[k]);
            assert(rest@ =~= rest0.drop_first());
            assert(rest@ =~= t0.children@.skip(k + 1));
            assert(decreases_to!(t0 => t0.children));
            assert(decreases_to!(t0.children => t0.children@));
            assert(decreases_to!(t0.children@ => t0.children@[k]));
            assert(decreases_to!(t0 => c));
        }
        flatten_tree(c, out);
        proof {
            k = k + 1;
            assert(flat_forest(rest0) == flat_tree(c) + flat_forest(rest@));
            assert(out@ + flat_forest(rest@) =~= out0 + flat_forest(rest0));
        }
    }
    proof {
        assert(flat_forest(rest@).len() == 0);
        assert(out@ =~= out@ + flat_forest(rest@));
    }
}

/// Flatten a whole forest of game trees into one ordered event sequence,
/// depth-first, in document order.
pub fn flatten_forest(trees: Vec<SgfTree>) -> (out: Vec<PropertyEvent>)
    ensures
        out@ == flat_forest(trees@),
{
    let ghost all = trees@;
    let mut out: Vec<PropertyEvent> = Vec::new();
    let mut rest = trees;
    let ghost mut k: int = 0;
    proof {
        assert(rest@ =~= all.skip(0));
        assert(out@ + flat_forest(rest@) =~= flat_forest(all));
    }
    while rest.len() > 0
        invariant
            0 <= k <= all.len(),
            rest@ == all.skip(k),
            out@ + flat_forest(rest@) == flat_forest(all),
        decreases rest@.len(),
    {
        let ghost rest0 = rest@;
        let ghost out0 = out@;
        let c = rest.remove(0);
        proof {
            assert(c == rest0[0]);
            assert(rest@ =~= rest0.drop_first());
            assert(rest@ =~= all.skip(k + 1));
        }
        flatten_tree(c, &mut out);
        proof {
            k = k + 1;
            assert(flat_forest(rest0) == flat_tree(c) + flat_forest(rest@));
            assert(out@ + flat_forest(rest@) =~= out0 + flat_forest(rest0));
        }
    }
    proof {
        assert(flat_forest(rest@).len() == 0);
        assert(out@ =~= out@ + flat_forest(rest@));
    }
    out
}

} // verus!
