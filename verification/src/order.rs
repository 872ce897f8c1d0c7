//! Putting cells in drawing order: row by row, left to right.
use vstd::prelude::*;
use crate::ansi::DisplayCell;
use crate::rect::Pos;

verus! {

/// Whether position `a` comes before position `b` on the screen: an earlier row, or the same
/// row and an earlier column.
pub open spec fn before_on_screen(a: Pos, b: Pos) -> bool {
    a.1 < b.1 || (a.1 == b.1 && a.0 < b.0)
}

/// Whether cells are in drawing order, each position once.
pub open spec fn in_row_order(cells: Seq<DisplayCell>) -> bool {
    forall|i: int, j: int| 0 <= i < j < cells.len() ==> before_on_screen(cells[i].0, cells[j].0)
}

/// The same cells, in drawing order.
pub fn sort_cells(cells: &Vec<DisplayCell>) -> (out: Vec<DisplayCell>)
    requires
        forall|i: int, j: int| 0 <= i < j < cells@.len() ==> cells@[i].0 != cells@[j].0,
    ensures
        in_row_order(out@),
        out@.to_multiset() == cells@.to_multiset(),
        out@.to_set() == cells@.to_set(),
        out@.len() == cells@.len(),
{
    broadcast use vstd::seq_lib::group_to_multiset_ensures;
    let mut r: Vec<DisplayCell> = Vec::new();
    let mut i: usize = 0;
    assert(cells@.take(0) =~= Seq::<DisplayCell>::empty());
    while i < cells.len()
        invariant
            0 <= i <= cells@.len(),
            forall|a: int, b: int| 0 <= a < b < cells@.len() ==> cells@[a].0 != cells@[b].0,
            r@.to_multiset() == cells@.take(i as int).to_multiset(),
            in_row_order(r@),
        decreases cells@.len() - i,
    {
        let e = cells[i];
        let mut k: usize = 0;
        while k < r.len() && (r[k].0.1 < e.0.1 || (r[k].0.1 == e.0.1 && r[k].0.0 < e.0.0))
            invariant
                0 <= k <= r@.len(),
                forall|j: int| 0 <= j < k ==> before_on_screen(#[trigger] r@[j].0, e.0),
            decreases r@.len() - k,
        {
            k += 1;
        }
        let ghost before = r@;
        proof {
            // e's position is not among those already placed
            assert forall|j: int| 0 <= j < before.len() implies before[j].0 != e.0 by {
                assert(before.contains(before[j]));
                vstd::seq_lib::to_multiset_contains(before, before[j]);
                vstd::seq_lib::to_multiset_contains(cells@.take(i as int), before[j]);
                assert(cells@.take(i as int).contains(before[j]));
                let m = choose|m: int| 0 <= m < i && cells@.take(i as int)[m] == before[j];
                assert(cells@[m] == before[j]);
            }
        }
        r.insert(k, e);
        proof {
            assert forall|a: int, b: int| 0 <= a < b < r@.len() implies before_on_screen(r@[a].0, r@[b].0) by {
                if a < k && b < k {
                } else if a < k && b == k {
                } else if a < k && b > k {
                    assert(r@[b] == before[b - 1]);
                } else if a == k {
                    assert(r@[b] == before[b - 1]);
                    assert(before[k as int].0 != e.0);
                    assert(!before_on_screen(before[k as int].0, e.0));
                    assert(before_on_screen(e.0, before[k as int].0));
                    if b - 1 > k {
                        assert(before_on_screen(before[k as int].0, before[b - 1].0));
                    }
                } else {
                    assert(r@[a] == before[a - 1]);
                    assert(r@[b] == before[b - 1]);
                }
            }
            assert(cells@.take(i as int + 1) =~= cells@.take(i as int).push(e));
            assert(r@ =~= before.insert(k as int, e));
            vstd::seq_lib::to_multiset_insert(before, k as int, e);
            vstd::seq_lib::to_multiset_build(cells@.take(i as int), e);
        }
        i += 1;
    }
    proof {
        assert(cells@.take(cells@.len() as int) =~= cells@);
        assert forall|x: DisplayCell| #[trigger] r@.to_set().contains(x) <==> cells@.to_set().contains(x) by {
            vstd::seq_lib::to_multiset_contains(r@, x);
            vstd::seq_lib::to_multiset_contains(cells@, x);
        }
        assert(r@.to_set() =~= cells@.to_set());
        vstd::seq_lib::to_multiset_len(r@);
        vstd::seq_lib::to_multiset_len(cells@);
    }
    r
}

} // verus!
