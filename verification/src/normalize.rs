//! The result normalizer: sort a colour's surviving stones by the canonical
//! key `x * size + y` and shift every coordinate from the 0-based SGF
//! convention to the 1-based display convention.

use vstd::prelude::*;
use vstd::multiset::Multiset;
use vstd::relations::{sorted_by, total_ordering};

use crate::grid::{stone_in_bounds, stone_key, Stone};

verus! {

/// The total order the normalizer sorts by: the canonical key, with the raw
/// coordinates breaking ties between stones that share a key.
pub open spec fn stone_le(size: int, a: Stone, b: Stone) -> bool {
    ||| stone_key(size, a) < stone_key(size, b)
    ||| (stone_key(size, a) == stone_key(size, b) && (a.x < b.x || (a.x == b.x && a.y <= b.y)))
}

/// `stone_le` as an ordering function over a fixed board size.
pub open spec fn stone_order(size: int) -> spec_fn(Stone, Stone) -> bool {
    |a: Stone, b: Stone| stone_le(size, a, b)
}

/// `stone_order` is a total ordering, whatever the board size.
pub proof fn lemma_stone_order_total(size: int)
    ensures
        total_ordering(stone_order(size)),
{
    let leq = stone_order(size);
    assert forall|a: Stone, b: Stone| #![trigger leq(a, b)] leq(a, b) && leq(b, a) implies a == b by {
        assert(a.x == b.x && a.y == b.y);
    }
    assert forall|a: Stone, b: Stone| #![trigger leq(a, b)] !leq(a, b) implies leq(b, a) by {}
}

/// The stone list sorted by the canonical key.
pub open spec fn sort_spec(size: int, s: Seq<Stone>) -> Seq<Stone> {
    s.sort_by(stone_order(size))
}

/// A coordinate moved from the 0-based to the 1-based convention.
pub open spec fn shift_stone(p: Stone) -> Stone {
    Stone { x: (p.x + 1) as u8, y: (p.y + 1) as u8 }
}

/// A whole list moved to the 1-based convention, order kept.
pub open spec fn shifted(s: Seq<Stone>) -> Seq<Stone> {
    s.map_values(|p: Stone| shift_stone(p))
}

/// What the normalizer produces: the list sorted by the canonical key, then
/// every coordinate shifted by `(1, 1)`.
pub open spec fn normalize_spec(size: int, s: Seq<Stone>) -> Seq<Stone> {
    shifted(sort_spec(size, s))
}

/// Exec comparison deciding `stone_le`.
fn stone_le_exec(size: u8, a: Stone, b: Stone) -> (r: bool)
    ensures
        r == stone_le(size as int, a, b),
{
    proof {
        assert((a.x as int) * (size as int) <= 255 * 255 && (b.x as int) * (size as int) <= 255
            * 255) by (nonlinear_arith)
            requires
                a.x as int <= 255,
                b.x as int <= 255,
                0 <= size as int <= 255,
        ;
    }
    let ka: u32 = (a.x as u32) * (size as u32) + (a.y as u32);
    let kb: u32 = (b.x as u32) * (size as u32) + (b.y as u32);
    if ka < kb {
        true
    } else if ka == kb {
        a.x < b.x || (a.x == b.x && a.y <= b.y)
    } else {
        false
    }
}

/// The position of a least stone of a non-empty list.
fn min_stone_index(v: &Vec<Stone>, size: u8) -> (m: usize)
    requires
        v@.len() > 0,
    ensures
        m < v@.len(),
        forall|j: int| 0 <= j < v@.len() ==> stone_le(size as int, v@[m as int], #[trigger] v@[j]),
{
    let mut m: usize = 0;
    let mut k: usize = 1;
    while k < v.len()
        invariant
            m < k <= v@.len(),
            forall|j: int| 0 <= j < k ==> stone_le(size as int, v@[m as int], #[trigger] v@[j]),
        decreases v@.len() - k,
    {
        if stone_le_exec(size, v[k], v[m]) {
            m = k;
        }
        k += 1;
    }
    m
}

/// Sort a stone list by the canonical key, ascending.
pub fn sort_stones(stones: Vec<Stone>, size: u8) -> (out: Vec<Stone>)
    ensures
        out@ == sort_spec(size as int, stones@),
{
    broadcast use vstd::seq_lib::group_to_multiset_ensures;

    let ghost orig = stones@;
    let ghost leq = stone_order(size as int);
    let mut work = stones;
    let mut out: Vec<Stone> = Vec::new();
    proof {
        assert(out@.to_multiset().add(work@.to_multiset()) =~= orig.to_multiset());
    }
    while work.len() > 0
        invariant
            leq == stone_order(size as int),
            out@.to_multiset().add(work@.to_multiset()) == orig.to_multiset(),
            sorted_by(out@, leq),
            forall|i: int, j: int|
                0 <= i < out@.len() && 0 <= j < work@.len() ==> stone_le(
                    size as int,
                    #[trigger] out@[i],
                    #[trigger] work@[j],
                ),
        decreases work@.len(),
    {
        let ghost out0 = out@;
        let ghost work0 = work@;
        let m = min_stone_index(&work, size);
        let p = work.remove(m);
        out.push(p);
        proof {
            assert(work0.contains(p)) by {
                assert(work0[m as int] == p);
            }
            assert(out@ == out0.push(p));
            vstd::seq_lib::to_multiset_build(out0, p);
            assert(work@ == work0.remove(m as int));
            vstd::seq_lib::to_multiset_remove(work0, m as int);
            vstd::seq_lib::to_multiset_contains(work0, p);
            assert(work0.to_multiset().count(p) > 0);
            assert forall|x: Stone|
                out@.to_multiset().add(work@.to_multiset()).count(x) == orig.to_multiset().count(
                    x,
                ) by {
                assert(out0.to_multiset().add(work0.to_multiset()).count(x) == orig.to_multiset()
                    .count(x));
            }
            assert(out@.to_multiset().add(work@.to_multiset()) =~= orig.to_multiset());
            assert forall|i: int, j: int|
                0 <= i < j < out@.len() implies leq(out@[i], out@[j]) by {
                if j < out0.len() {
                } else {
                    assert(out@[j] == p);
                    if i < out0.len() {
                        assert(stone_le(size as int, out0[i], work0[m as int]));
                    }
                }
            }
            assert forall|i: int, j: int|
                0 <= i < out@.len() && 0 <= j < work@.len() implies stone_le(
                    size as int,
                    out@[i],
                    work@[j],
                ) by {
                assert(work@ == work0.remove(m as int));
                let j0: int = if j < m { j } else { j + 1 };
                assert(work@[j] == work0[j0]);
                if i < out0.len() {
                } else {
                    assert(out@[i] == p);
                    assert(stone_le(size as int, work0[m as int], work0[j0]));
                }
            }
        }
    }
    proof {
        lemma_stone_order_total(size as int);
        orig.lemma_sort_by_ensures(leq);
        assert(work@.to_multiset() =~= Multiset::empty());
        assert forall|x: Stone|
            out@.to_multiset().count(x) == orig.sort_by(leq).to_multiset().count(x) by {
            assert(out@.to_multiset().add(work@.to_multiset()).count(x) == orig.to_multiset().count(
                x,
            ));
        }
        assert(out@.to_multiset() =~= orig.sort_by(leq).to_multiset());
        vstd::seq_lib::lemma_sorted_unique(out@, orig.sort_by(leq), leq);
    }
    out
}

/// Sort the list by the canonical key and shift every coordinate by
/// `(1, 1)`: the final, 1-based form of one colour's stones.
pub fn normalize_stones(stones: Vec<Stone>, size: u8) -> (out: Vec<Stone>)
    requires
        forall|j: int| 0 <= j < stones@.len() ==> stone_in_bounds(
            size as int,
            #[trigger] stones@[j],
        ),
    ensures
        out@ == normalize_spec(size as int, stones@),
{
    let ghost orig = stones@;
    let ghost leq = stone_order(size as int);
    let sorted = sort_stones(stones, size);
    proof {
        lemma_stone_order_total(size as int);
        orig.lemma_sort_by_ensures(leq);
        assert forall|j: int| 0 <= j < sorted@.len() implies stone_in_bounds(
            size as int,
            #[trigger] sorted@[j],
        ) by {
            assert(sorted@.contains(sorted@[j]));
            assert(orig.contains(sorted@[j]));
        }
    }
    let mut out: Vec<Stone> = Vec::new();
    let mut i: usize = 0;
    while i < sorted.len()
        invariant
            i <= sorted@.len(),
            out@.len() == i as int,
            forall|j: int| 0 <= j < i ==> out@[j] == shift_stone(#[trigger] sorted@[j]),
            forall|j: int| 0 <= j < sorted@.len() ==> stone_in_bounds(
                size as int,
                #[trigger] sorted@[j],
            ),
        decreases sorted@.len() - i,
    {
        let p = sorted[i];
        out.push(Stone { x: p.x + 1, y: p.y + 1 });
        i += 1;
    }
    proof {
        assert(out@ =~= shifted(sorted@));
    }
    out
}

/// A member of a list of in-bounds stones is in bounds.
proof fn lemma_member_in_bounds(size: int, s: Seq<Stone>, p: Stone)
    requires
        forall|j: int| 0 <= j < s.len() ==> stone_in_bounds(size, #[trigger] s[j]),
        s.contains(p),
    ensures
        stone_in_bounds(size, p),
{
    let k = choose|k: int| 0 <= k < s.len() && s[k] == p;
    assert(stone_in_bounds(size, s[k]));
}

/// Sorting is idempotent: sorting an already-sorted list changes nothing.
pub proof fn lemma_sort_idempotent(size: int, s: Seq<Stone>)
    ensures
        sort_spec(size, sort_spec(size, s)) == sort_spec(size, s),
{
    let leq = stone_order(size);
    lemma_stone_order_total(size);
    s.lemma_sort_by_ensures(leq);
    let once = sort_spec(size, s);
    once.lemma_sort_by_ensures(leq);
    vstd::seq_lib::lemma_sorted_unique(sort_spec(size, once), once, leq);
}

/// The shift keeps the sort order: shifted stones compare exactly as the
/// stones they came from, provided no coordinate wraps at the type bound.
pub proof fn lemma_shift_keeps_order(size: int, a: Stone, b: Stone)
    requires
        a.x < 255 && a.y < 255,
        b.x < 255 && b.y < 255,
    ensures
        stone_le(size, shift_stone(a), shift_stone(b)) == stone_le(size, a, b),
{
    let xa = a.x as int;
    let xb = b.x as int;
    assert((xa + 1) * size == xa * size + size) by (nonlinear_arith);
    assert((xb + 1) * size == xb * size + size) by (nonlinear_arith);
    assert(stone_key(size, shift_stone(a)) == stone_key(size, a) + size + 1);
    assert(stone_key(size, shift_stone(b)) == stone_key(size, b) + size + 1);
}

/// Running the normalizer on its own output does not reorder anything: the
/// second run only applies the coordinate shift once more. (Literal equality
/// cannot hold, since every run shifts the coordinates by one.)
pub proof fn lemma_normalize_twice(size: int, s: Seq<Stone>)
    requires
        1 <= size <= 254,
        forall|j: int| 0 <= j < s.len() ==> stone_in_bounds(size, #[trigger] s[j]),
    ensures
        normalize_spec(size, normalize_spec(size, s)) == shifted(normalize_spec(size, s)),
{
    let leq = stone_order(size);
    lemma_stone_order_total(size);
    s.lemma_sort_by_ensures(leq);
    let once = normalize_spec(size, s);
    assert forall|i: int, j: int| 0 <= i < j < once.len() implies leq(once[i], once[j]) by {
        assert(sort_spec(size, s).contains(sort_spec(size, s)[i]));
        assert(s.contains(sort_spec(size, s)[i]));
        assert(sort_spec(size, s).contains(sort_spec(size, s)[j]));
        assert(s.contains(sort_spec(size, s)[j]));
        lemma_member_in_bounds(size, s, sort_spec(size, s)[i]);
        lemma_member_in_bounds(size, s, sort_spec(size, s)[j]);
        assert(once[i] == shift_stone(sort_spec(size, s)[i]));
        assert(once[j] == shift_stone(sort_spec(size, s)[j]));
        assert(leq(sort_spec(size, s)[i], sort_spec(size, s)[j]));
        lemma_shift_keeps_order(size, sort_spec(size, s)[i], sort_spec(size, s)[j]);
    }
    assert(sorted_by(once, leq));
    once.lemma_sort_by_ensures(leq);
    vstd::seq_lib::lemma_sorted_unique(sort_spec(size, once), once, leq);
    assert(sort_spec(size, once) == once);
}

/// Every output coordinate is the 0-based coordinate of the same surviving
/// stone plus one in each axis.
pub proof fn lemma_normalize_is_shift(size: int, s: Seq<Stone>, i: int)
    requires
        0 <= i < normalize_spec(size, s).len(),
    ensures
        normalize_spec(size, s)[i] == shift_stone(sort_spec(size, s)[i]),
        normalize_spec(size, s).len() == sort_spec(size, s).len(),
{
}

/// The normalizer's output is sorted: each stone's canonical key is at most
/// the next one's.
pub proof fn lemma_normalized_sorted(size: int, s: Seq<Stone>)
    requires
        1 <= size <= 255,
        forall|j: int| 0 <= j < s.len() ==> stone_in_bounds(size, #[trigger] s[j]),
    ensures
        forall|i: int|
            0 <= i < normalize_spec(size, s).len() - 1 ==> stone_key(
                size,
                #[trigger] normalize_spec(size, s)[i],
            ) <= stone_key(size, normalize_spec(size, s)[i + 1]),
{
    let leq = stone_order(size);
    lemma_stone_order_total(size);
    s.lemma_sort_by_ensures(leq);
    let norm = normalize_spec(size, s);
    assert forall|i: int| 0 <= i < norm.len() - 1 implies stone_key(size, #[trigger] norm[i])
        <= stone_key(size, norm[i + 1]) by {
        let sorted = sort_spec(size, s);
        assert(leq(sorted[i], sorted[i + 1]));
        assert(sorted.contains(sorted[i]));
        assert(s.contains(sorted[i]));
        assert(sorted.contains(sorted[i + 1]));
        assert(s.contains(sorted[i + 1]));
        lemma_member_in_bounds(size, s, sorted[i]);
        lemma_member_in_bounds(size, s, sorted[i + 1]);
        assert(norm[i] == shift_stone(sorted[i]));
        assert(norm[i + 1] == shift_stone(sorted[i + 1]));
        lemma_shift_keeps_order(size, sorted[i], sorted[i + 1]);
    }
}

} // verus!
