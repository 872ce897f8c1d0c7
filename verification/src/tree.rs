//! Facts about the tree that the rectangles of a manager form through their parent links.
use vstd::prelude::*;
use crate::rect::{Rect, Pos, refresh_box};

verus! {

/// Whether `id` is held and names a parent that is held too: the step that walking up
/// from `id` takes.
pub open spec fn has_up(rects: Map<usize, Rect>, id: usize) -> bool {
    &&& rects.contains_key(id)
    &&& rects[id].parent is Some
    &&& rects.contains_key(rects[id].parent->0)
}

/// The parent of `id` (meaningful when `has_up`).
pub open spec fn up(rects: Map<usize, Rect>, id: usize) -> usize {
    rects[id].parent->0
}

/// Whether walking up from `id` stops within `n` steps.
pub open spec fn chain_ends(rects: Map<usize, Rect>, id: usize, n: nat) -> bool
    decreases n,
{
    if !has_up(rects, id) {
        true
    } else if n == 0 {
        false
    } else {
        chain_ends(rects, up(rects, id), (n - 1) as nat)
    }
}

/// Whether walking up from any held rectangle stops: the parent links form no cycle.
pub open spec fn acyclic(rects: Map<usize, Rect>) -> bool {
    forall|id: usize| #[trigger] rects.contains_key(id) ==> exists|n: nat| chain_ends(rects, id, n)
}

/// How many steps walking up from `id` takes, looking at most `n` steps.
pub open spec fn steps(rects: Map<usize, Rect>, id: usize, n: nat) -> nat
    decreases n,
{
    if !has_up(rects, id) || n == 0 {
        0
    } else {
        1 + steps(rects, up(rects, id), (n - 1) as nat)
    }
}

/// Whether `a` is met walking up from `id` within `n` steps (`id` itself included).
pub open spec fn above_within(rects: Map<usize, Rect>, a: usize, id: usize, n: nat) -> bool
    decreases n,
{
    if id == a {
        true
    } else if !has_up(rects, id) || n == 0 {
        false
    } else {
        above_within(rects, a, up(rects, id), (n - 1) as nat)
    }
}

/// Whether `a` is `id` or one of the rectangles above it.
pub open spec fn is_above(rects: Map<usize, Rect>, a: usize, id: usize) -> bool {
    exists|n: nat| above_within(rects, a, id, n)
}

/// One step of the walk up: `top` is above `id` (or is `id`) exactly when it is `id`, or
/// `id` has a held parent that `top` is above.
pub proof fn lemma_is_above_step(rects: Map<usize, Rect>, top: usize, id: usize)
    ensures
        is_above(rects, top, id) == (id == top || (has_up(rects, id) && is_above(rects, top, up(rects, id)))),
{
    if id == top {
        assert(above_within(rects, top, id, 0));
    } else if has_up(rects, id) {
        if is_above(rects, top, id) {
            let n = choose|n: nat| above_within(rects, top, id, n);
            assert(above_within(rects, top, up(rects, id), (n - 1) as nat));
        }
        if is_above(rects, top, up(rects, id)) {
            let n = choose|n: nat| above_within(rects, top, up(rects, id), n);
            assert(above_within(rects, top, id, n + 1));
        }
    } else {
        assert forall|n: nat| !above_within(rects, top, id, n) by {}
    }
}

pub proof fn lemma_chain_ends_mono(rects: Map<usize, Rect>, id: usize, n: nat, m: nat)
    requires
        chain_ends(rects, id, n),
        n <= m,
    ensures
        chain_ends(rects, id, m),
        steps(rects, id, n) == steps(rects, id, m),
        steps(rects, id, n) <= n,
    decreases n,
{
    if has_up(rects, id) && n > 0 {
        lemma_chain_ends_mono(rects, up(rects, id), (n - 1) as nat, (m - 1) as nat);
    }
}

/// A bound that every held rectangle's walk up stays within.
pub open spec fn depth_bound(rects: Map<usize, Rect>, d: nat) -> bool {
    forall|id: usize| #[trigger] rects.contains_key(id) ==> chain_ends(rects, id, d)
}

pub proof fn lemma_depth_bound_exists(rects: Map<usize, Rect>)
    requires
        acyclic(rects),
        rects.dom().finite(),
    ensures
        exists|d: nat| depth_bound(rects, d),
{
    let d = lemma_bound_of_set(rects, rects.dom());
    assert(depth_bound(rects, d));
}

proof fn lemma_bound_of_set(rects: Map<usize, Rect>, s: Set<usize>) -> (d: nat)
    requires
        acyclic(rects),
        s.finite(),
        s.subset_of(rects.dom()),
    ensures
        forall|id: usize| #[trigger] s.contains(id) ==> chain_ends(rects, id, d),
    decreases s.len(),
{
    if s.len() == 0 {
        assert forall|id: usize| #[trigger] s.contains(id) implies chain_ends(rects, id, 0) by {
            assert(s.contains(id));
        }
        0
    } else {
        let x = s.choose();
        let rest = s.remove(x);
        let d0 = lemma_bound_of_set(rects, rest);
        assert(rects.contains_key(x));
        let n = choose|n: nat| chain_ends(rects, x, n);
        let d = if n > d0 { n } else { d0 };
        assert forall|id: usize| #[trigger] s.contains(id) implies chain_ends(rects, id, d) by {
            if id == x {
                lemma_chain_ends_mono(rects, id, n, d);
            } else {
                assert(rest.contains(id));
                lemma_chain_ends_mono(rects, id, d0, d);
            }
        }
        d
    }
}

/// Going down from a parent to a child held with it adds one step.
pub proof fn lemma_steps_child(rects: Map<usize, Rect>, c: usize, d: nat)
    requires
        depth_bound(rects, d),
        has_up(rects, c),
    ensures
        steps(rects, c, d) == 1 + steps(rects, up(rects, c), d),
        steps(rects, c, d) <= d,
{
    let p = up(rects, c);
    assert(rects.contains_key(c));
    assert(chain_ends(rects, c, d));
    assert(d > 0);
    assert(chain_ends(rects, p, (d - 1) as nat));
    lemma_chain_ends_mono(rects, p, (d - 1) as nat, d);
    lemma_chain_ends_mono(rects, c, d, d);
}

/// Every rectangle is held under its own id.
pub open spec fn ids_match(rects: Map<usize, Rect>) -> bool {
    forall|id: usize| #[trigger] rects.contains_key(id) ==> rects[id].rect_id == id
}

/// Every child listed by a rectangle is held and names that rectangle as its parent.
pub open spec fn children_linked(rects: Map<usize, Rect>) -> bool {
    forall|r: usize, i: int| #![trigger rects[r].children@[i]]
        rects.contains_key(r) && 0 <= i < rects[r].children@.len() ==> {
            let c = rects[r].children@[i];
            &&& rects.contains_key(c)
            &&& rects[c].parent == Some(r)
        }
}

/// No rectangle lists a child twice, every listed child has a rank and an offset, and
/// only listed children have an offset.
pub open spec fn children_ranked(rects: Map<usize, Rect>) -> bool {
    forall|r: usize| #[trigger] rects.contains_key(r) ==> {
        &&& rects[r].children@.no_duplicates()
        &&& forall|c: usize| #[trigger] rects[r].children@.contains(c) ==> rects[r].child_ranks@.contains_key(c)
            && rects[r].child_positions@.contains_key(c)
        &&& forall|c: usize| #[trigger] rects[r].child_positions@.contains_key(c) ==> rects[r].children@.contains(c)
    }
}

/// Every id recorded at a position of a rectangle is one of its children, and that position
/// is in the child's record.
pub open spec fn space_recorded(rects: Map<usize, Rect>) -> bool {
    forall|r: usize| #[trigger] rects.contains_key(r) ==> rects[r].space_ok()
}

/// The well-formedness of a set of rectangles: a forest whose links, ranks and records agree.
pub open spec fn tree_ok(rects: Map<usize, Rect>) -> bool {
    &&& ids_match(rects)
    &&& acyclic(rects)
    &&& children_linked(rects)
    &&& children_ranked(rects)
    &&& space_recorded(rects)
}

/// Every id in use is below `idgen`; the ids to reuse are sorted, below `idgen`, and not in use.
pub open spec fn ids_below(rects: Map<usize, Rect>, idgen: usize, recycle: Seq<usize>) -> bool {
    &&& forall|id: usize| #[trigger] rects.contains_key(id) ==> id < idgen
    &&& forall|i: int, j: int| 0 <= i < j < recycle.len() ==> recycle[i] < recycle[j]
    &&& forall|i: int| 0 <= i < recycle.len() ==> #[trigger] recycle[i] < idgen && !rects.contains_key(recycle[i])
}

/// The bookkeeping of ids: as `ids_below` says, and the id just below `idgen` is not
/// waiting to be reused (the counter would have stepped down over it).
pub open spec fn ids_ok(rects: Map<usize, Rect>, idgen: usize, recycle: Seq<usize>) -> bool {
    &&& ids_below(rects, idgen, recycle)
    &&& idgen > 0 ==> !recycle.contains((idgen - 1) as usize)
}

/// The fields that the tree's well-formedness reads are the same.
pub open spec fn same_links(a: Rect, b: Rect) -> bool {
    &&& a.rect_id == b.rect_id
    &&& a.parent == b.parent
    &&& a.children@ == b.children@
    &&& a.child_ranks@ == b.child_ranks@
    &&& a.child_positions@.dom() == b.child_positions@.dom()
    &&& a.space() == b.space()
    &&& a.inverse() == b.inverse()
}

/// Two sets of rectangles with the same ids whose links agree.
pub open spec fn same_links_map(a: Map<usize, Rect>, b: Map<usize, Rect>) -> bool {
    &&& a.dom() == b.dom()
    &&& forall|id: usize| #[trigger] a.contains_key(id) ==> same_links(a[id], b[id])
}

pub proof fn lemma_chain_same_links(a: Map<usize, Rect>, b: Map<usize, Rect>, id: usize, n: nat)
    requires
        same_links_map(a, b),
    ensures
        chain_ends(a, id, n) == chain_ends(b, id, n),
        steps(a, id, n) == steps(b, id, n),
    decreases n,
{
    if has_up(a, id) && n > 0 {
        lemma_chain_same_links(a, b, up(a, id), (n - 1) as nat);
    }
}

/// Changing fields that the links do not read keeps the tree well formed.
pub proof fn lemma_tree_ok_same_links(a: Map<usize, Rect>, b: Map<usize, Rect>)
    requires
        tree_ok(a),
        same_links_map(a, b),
    ensures
        tree_ok(b),
{
    assert forall|id: usize| #[trigger] b.contains_key(id) implies exists|n: nat| chain_ends(b, id, n) by {
        assert(a.contains_key(id));
        let n = choose|n: nat| chain_ends(a, id, n);
        lemma_chain_same_links(a, b, id, n);
    }
    assert forall|r: usize, i: int| #![trigger b[r].children@[i]]
        b.contains_key(r) && 0 <= i < b[r].children@.len() implies {
            let c = b[r].children@[i];
            &&& b.contains_key(c)
            &&& b[c].parent == Some(r)
        } by {
        assert(a.contains_key(r));
        assert(a[r].children@[i] == b[r].children@[i]);
    }
    assert forall|r: usize| #[trigger] b.contains_key(r) implies {
        &&& b[r].children@.no_duplicates()
        &&& forall|c: usize| #[trigger] b[r].children@.contains(c) ==> b[r].child_ranks@.contains_key(c)
    } by {
        assert(a.contains_key(r));
    }
    assert forall|r: usize| #[trigger] b.contains_key(r) implies b[r].space_ok() by {
        assert(a.contains_key(r));
        assert(a[r].space_ok());
        assert forall|p: Pos, i: int| #![trigger b[r].space()[p][i]]
            b[r].space().contains_key(p) && 0 <= i < b[r].space()[p].len() implies {
                let c = b[r].space()[p][i];
                &&& b[r].children@.contains(c)
                &&& b[r].covers(c, p)
            } by {
            assert(a[r].space()[p][i] == b[r].space()[p][i]);
        }
    }
}

/// Whether `r` is a rectangle under id `id` with no parent, no children and no records.
pub open spec fn bare_root(r: Rect, id: usize) -> bool {
    &&& r.rect_id == id
    &&& r.parent is None
    &&& r.children@.len() == 0
    &&& r.child_positions@.dom() == Set::<usize>::empty()
    &&& r.child_space@.dom() == Set::<Pos>::empty()
    &&& r.inverse_child_space@.dom() == Set::<usize>::empty()
}

proof fn lemma_chain_after_insert_root(before: Map<usize, Rect>, id: usize, r: Rect, k: usize, n: nat)
    requires
        !before.contains_key(id),
        bare_root(r, id),
        chain_ends(before, k, n),
    ensures
        chain_ends(before.insert(id, r), k, n + 1),
    decreases n,
{
    let after = before.insert(id, r);
    if has_up(before, k) {
        assert(k != id);
        assert(has_up(after, k));
        assert(n > 0);
        assert(up(after, k) == up(before, k));
        lemma_chain_after_insert_root(before, id, r, up(before, k), (n - 1) as nat);
        assert(((n - 1) as nat + 1) as nat == n);
    } else if has_up(after, k) {
        assert(up(after, k) == id);
        assert(!has_up(after, id));
        assert(chain_ends(after, id, n));
    }
}

/// Adding a bare rectangle under a new id keeps the tree well formed, even where other
/// rectangles already named that id as their parent.
pub proof fn lemma_tree_ok_insert_root(before: Map<usize, Rect>, id: usize, r: Rect)
    requires
        tree_ok(before),
        !before.contains_key(id),
        bare_root(r, id),
    ensures
        tree_ok(before.insert(id, r)),
{
    let after = before.insert(id, r);
    assert(r.space() =~= Map::<Pos, Seq<usize>>::empty());
    assert forall|k: usize| #[trigger] after.contains_key(k) implies exists|n: nat| chain_ends(after, k, n) by {
        if k == id {
            assert(chain_ends(after, k, 0));
        } else {
            assert(before.contains_key(k));
            let n = choose|n: nat| chain_ends(before, k, n);
            lemma_chain_after_insert_root(before, id, r, k, n);
        }
    }
    assert forall|q: usize, i: int| #![trigger after[q].children@[i]]
        after.contains_key(q) && 0 <= i < after[q].children@.len() implies {
            let c = after[q].children@[i];
            &&& after.contains_key(c)
            &&& after[c].parent == Some(q)
        } by {
        if q != id {
            let c = before[q].children@[i];
            assert(before.contains_key(c));
            assert(c != id);
        }
    }
    assert forall|q: usize| #[trigger] after.contains_key(q) implies {
        &&& after[q].children@.no_duplicates()
        &&& forall|c: usize| #[trigger] after[q].children@.contains(c) ==> after[q].child_ranks@.contains_key(c)
        &&& forall|c: usize| #[trigger] after[q].child_positions@.contains_key(c) ==> after[q].children@.contains(c)
    } by {
        if q != id {
            assert(before.contains_key(q));
        }
    }
    assert forall|q: usize| #[trigger] after.contains_key(q) implies after[q].space_ok() by {
        if q != id {
            assert(before.contains_key(q));
        }
    }
}

/// The offset of `id` inside its parent, where it has a parent held with it that records one.
pub open spec fn rel_offset(rects: Map<usize, Rect>, id: usize) -> Option<Pos> {
    if has_up(rects, id) && rects[up(rects, id)].child_positions@.contains_key(id) {
        Some(rects[up(rects, id)].child_positions@[id])
    } else {
        None
    }
}

/// Two positions added coordinate by coordinate (wrapping as release builds do).
pub open spec fn add_pos(a: Pos, b: Pos) -> Pos {
    (a.0.wrapping_add(b.0), a.1.wrapping_add(b.1))
}

/// Walking up from `working` with `acc` added so far: the sum of the offsets met, or None
/// where a parent does not record the offset of its child (or the walk does not stop in `n`).
pub open spec fn abs_walk(rects: Map<usize, Rect>, working: usize, acc: Pos, n: nat) -> Option<Pos>
    decreases n,
{
    if !has_up(rects, working) {
        Some(acc)
    } else if n == 0 {
        None
    } else {
        match rel_offset(rects, working) {
            Some(p) => abs_walk(rects, up(rects, working), add_pos(acc, p), (n - 1) as nat),
            None => None,
        }
    }
}

/// The offset of a held rectangle relative to the top of its tree.
pub open spec fn abs_offset(rects: Map<usize, Rect>, id: usize) -> Option<Pos> {
    if !rects.contains_key(id) {
        None
    } else {
        abs_walk(rects, id, (0isize, 0isize), choose|n: nat| chain_ends(rects, id, n))
    }
}

pub proof fn lemma_abs_walk_fuel(rects: Map<usize, Rect>, working: usize, acc: Pos, n: nat, m: nat)
    requires
        chain_ends(rects, working, n),
        n <= m,
    ensures
        abs_walk(rects, working, acc, n) == abs_walk(rects, working, acc, m),
    decreases n,
{
    if has_up(rects, working) && n > 0 {
        match rel_offset(rects, working) {
            Some(p) => lemma_abs_walk_fuel(rects, up(rects, working), add_pos(acc, p), (n - 1) as nat, (m - 1) as nat),
            None => {},
        }
    }
}

pub proof fn lemma_abs_offset_fuel(rects: Map<usize, Rect>, id: usize, n: nat)
    requires
        rects.contains_key(id),
        chain_ends(rects, id, n),
    ensures
        abs_offset(rects, id) == abs_walk(rects, id, (0isize, 0isize), n),
{
    let c = choose|n: nat| chain_ends(rects, id, n);
    if c <= n {
        lemma_abs_walk_fuel(rects, id, (0isize, 0isize), c, n);
    } else {
        lemma_abs_walk_fuel(rects, id, (0isize, 0isize), n, c);
    }
}

/// The offset `off` moved by the offset of `working` in its parent, where there is one.
pub open spec fn step_offset(rects: Map<usize, Rect>, working: usize, off: Pos) -> Pos {
    match rel_offset(rects, working) {
        Some(r) => add_pos(off, r),
        None => off,
    }
}

/// The positions of rectangle `a` flagged when a `w` by `h` area at `off` inside `working` is
/// flagged in every rectangle above it, each in its own coordinates (looking `n` steps up).
pub open spec fn parent_marks(rects: Map<usize, Rect>, working: usize, off: Pos, w: usize, h: usize, a: usize, n: nat) -> Set<Pos>
    decreases n,
{
    if !has_up(rects, working) || n == 0 {
        Set::empty()
    } else {
        let off2 = step_offset(rects, working, off);
        (if up(rects, working) == a { refresh_box(off2, w, h) } else { Set::empty() }).union(
            parent_marks(rects, up(rects, working), off2, w, h, a, (n - 1) as nat))
    }
}

/// The positions of `a` flagged when rectangle `id`'s whole area is flagged in each rectangle above it.
pub open spec fn area_marks(rects: Map<usize, Rect>, id: usize, a: usize) -> Set<Pos> {
    parent_marks(rects, id, (0isize, 0isize), rects[id].width, rects[id].height, a,
        choose|n: nat| chain_ends(rects, id, n))
}

/// The refresh flags and drawn records of `b` are those of `a` once rectangle `id` is flagged
/// to be redrawn whole: its area is flagged in every rectangle above it and what it had drawn
/// is forgotten.
pub open spec fn refresh_marked(a: Map<usize, Rect>, b: Map<usize, Rect>, id: usize) -> bool {
    forall|k: usize| #[trigger] b.contains_key(k) ==> {
        &&& b[k].flags_pos_refresh@ =~= a[k].flags_pos_refresh@.union(area_marks(a, id, k))
        &&& b[k].cached_display@ =~= (if k == id {
            Map::<Pos, crate::rect::QueuedCell>::empty()
        } else {
            a[k].cached_display@
        })
        &&& b[k].flag_full_refresh == (k == id || a[k].flag_full_refresh)
    }
}

/// As `refresh_marked`, and what waits to be drawn stays.
pub open spec fn display_refreshed(a: Map<usize, Rect>, b: Map<usize, Rect>, id: usize) -> bool {
    &&& refresh_marked(a, b, id)
    &&& forall|k: usize| #[trigger] b.contains_key(k) ==> b[k].queued_display@ =~= a[k].queued_display@
}

/// The positions of `a` flagged when position `p` of rectangle `id` is flagged in each
/// rectangle above it.
pub open spec fn point_marks(rects: Map<usize, Rect>, id: usize, p: Pos, a: usize) -> Set<Pos> {
    pos_marks(rects, id, p, a, choose|n: nat| chain_ends(rects, id, n))
}

/// The display records of `b` are those of `a` once position `p` of rectangle `id` is flagged
/// to be redrawn: there and at the matching position of every rectangle above it; what `id`
/// had drawn at `p` is forgotten.
pub open spec fn point_refreshed(a: Map<usize, Rect>, b: Map<usize, Rect>, id: usize, p: Pos) -> bool {
    forall|k: usize| #[trigger] b.contains_key(k) ==> {
        &&& b[k].flags_pos_refresh@ =~= a[k].flags_pos_refresh@.union(
            if k == id { set![p] } else { Set::empty() }).union(point_marks(a, id, p, k))
        &&& b[k].cached_display@ =~= (if k == id { a[k].cached_display@.remove(p) } else { a[k].cached_display@ })
        &&& b[k].queued_display@ =~= a[k].queued_display@
        &&& b[k].flag_full_refresh == a[k].flag_full_refresh
    }
}

/// Replacing one rectangle by one with the same parent and child offsets keeps the placement.
pub proof fn lemma_placement_kept(before: Map<usize, Rect>, id: usize, r: Rect)
    requires
        before.contains_key(id),
        r.parent == before[id].parent,
        r.child_positions@ == before[id].child_positions@,
    ensures
        same_placement(before, before.insert(id, r)),
{
    assert(before.insert(id, r).dom() =~= before.dom());
}

/// The positions of `k` that rectangle `id` covered, where `k` is its held parent.
pub open spec fn cover_in(rects: Map<usize, Rect>, id: usize, k: usize) -> Set<Pos> {
    if has_up(rects, id) && k == up(rects, id) { rects[k].covered_by(id) } else { Set::empty() }
}

/// The display records of `b` are those of `a` once rectangle `id`'s place in its parent is
/// recomputed: the positions it covered there, and its whole area in every rectangle above
/// it, are flagged for redrawing.
pub open spec fn space_marked(a: Map<usize, Rect>, b: Map<usize, Rect>, id: usize) -> bool {
    forall|k: usize| #[trigger] b.contains_key(k) ==> {
        &&& b[k].flags_pos_refresh@ =~= a[k].flags_pos_refresh@.union(cover_in(a, id, k)).union(area_marks(a, id, k))
        &&& b[k].cached_display@ =~= a[k].cached_display@
        &&& b[k].queued_display@ =~= a[k].queued_display@
        &&& b[k].flag_full_refresh == a[k].flag_full_refresh
    }
}

/// The display records of `b` are those of `a` once rectangle `id` is placed anew: the
/// positions it covered in its parent, and its whole area (where it now stands) in every
/// rectangle above it, are flagged for redrawing, and what it had drawn waits to be drawn
/// again.
pub open spec fn move_marked(a: Map<usize, Rect>, b: Map<usize, Rect>, id: usize) -> bool {
    forall|k: usize| #[trigger] b.contains_key(k) ==> {
        &&& b[k].flags_pos_refresh@ =~= a[k].flags_pos_refresh@.union(cover_in(a, id, k)).union(area_marks(b, id, k))
        &&& b[k].queued_display@ =~= (if k == id {
            a[k].queued_display@.union_prefer_right(a[k].cached_display@)
        } else {
            a[k].queued_display@
        })
        &&& b[k].cached_display@ =~= (if k == id {
            Map::<Pos, crate::rect::QueuedCell>::empty()
        } else {
            a[k].cached_display@
        })
        &&& b[k].flag_full_refresh == a[k].flag_full_refresh
    }
}

/// The display records of `b` are those of `a` once rectangle `id` is resized in place: as
/// `move_marked` where its parent records an offset for it (so that it is placed again), and
/// it is flagged to be redrawn whole.
pub open spec fn resize_marked(a: Map<usize, Rect>, b: Map<usize, Rect>, id: usize) -> bool {
    let placed_again = rel_offset(a, id) is Some;
    forall|k: usize| #[trigger] b.contains_key(k) ==> {
        &&& b[k].flags_pos_refresh@ =~= a[k].flags_pos_refresh@.union(
            if placed_again { cover_in(a, id, k) } else { Set::empty() }).union(area_marks(b, id, k))
        &&& b[k].queued_display@ =~= (if k == id && placed_again {
            a[k].queued_display@.union_prefer_right(a[k].cached_display@)
        } else {
            a[k].queued_display@
        })
        &&& b[k].cached_display@ =~= (if k == id {
            Map::<Pos, crate::rect::QueuedCell>::empty()
        } else {
            a[k].cached_display@
        })
        &&& b[k].flag_full_refresh == (k == id || a[k].flag_full_refresh)
    }
}

/// The display records of `b` are those of `a` once rectangle `id` is taken out of its
/// parent's records: the positions it covered there are flagged, and the parent is flagged
/// to be redrawn whole (see `refresh_marked`).
pub open spec fn hide_marked(a: Map<usize, Rect>, b: Map<usize, Rect>, id: usize) -> bool {
    let pid = up(a, id);
    forall|k: usize| #[trigger] b.contains_key(k) ==> {
        &&& b[k].flags_pos_refresh@ =~= a[k].flags_pos_refresh@.union(cover_in(a, id, k)).union(area_marks(a, pid, k))
        &&& b[k].cached_display@ =~= (if k == pid {
            Map::<Pos, crate::rect::QueuedCell>::empty()
        } else {
            a[k].cached_display@
        })
        &&& b[k].queued_display@ =~= a[k].queued_display@
        &&& b[k].flag_full_refresh == (k == pid || a[k].flag_full_refresh)
    }
}

/// The display records of `b` are those of `a` once rectangle `id` is moved under another
/// parent: as `space_marked` for where it was, and its whole area is flagged in every
/// rectangle above it where it is now.
pub open spec fn attach_marked(a: Map<usize, Rect>, b: Map<usize, Rect>, id: usize) -> bool {
    forall|k: usize| #[trigger] b.contains_key(k) ==> {
        &&& b[k].flags_pos_refresh@ =~= a[k].flags_pos_refresh@.union(cover_in(a, id, k)).union(area_marks(a, id, k)).union(
            area_marks(b, id, k))
        &&& b[k].cached_display@ =~= a[k].cached_display@
        &&& b[k].queued_display@ =~= a[k].queued_display@
        &&& b[k].flag_full_refresh == a[k].flag_full_refresh
    }
}

/// The display records of `b` are those of `a` once a new rectangle `id` is made and placed:
/// its whole area is flagged in every rectangle above it, and it is to be drawn whole with
/// nothing drawn yet.
pub open spec fn created_marked(a: Map<usize, Rect>, b: Map<usize, Rect>, id: usize) -> bool {
    &&& forall|k: usize| #[trigger] a.contains_key(k) ==> {
        &&& b[k].flags_pos_refresh@ =~= a[k].flags_pos_refresh@.union(area_marks(b, id, k))
        &&& b[k].cached_display@ =~= a[k].cached_display@
        &&& b[k].queued_display@ =~= a[k].queued_display@
        &&& b[k].flag_full_refresh == a[k].flag_full_refresh
    }
    &&& b[id].flags_pos_refresh@ =~= area_marks(b, id, id)
    &&& b[id].cached_display@ =~= Map::<Pos, crate::rect::QueuedCell>::empty()
    &&& b[id].queued_display@ =~= Map::<Pos, crate::rect::QueuedCell>::empty()
    &&& b[id].flag_full_refresh
}

/// The positions of `k` flagged when each child of `cs` is placed anew in turn: the positions
/// it covered in its parent in `a`, and its whole area above it as `b` places it.
pub open spec fn children_marks(a: Map<usize, Rect>, b: Map<usize, Rect>, cs: Seq<usize>, k: usize) -> Set<Pos>
    decreases cs.len(),
{
    if cs.len() == 0 {
        Set::empty()
    } else {
        children_marks(a, b, cs.drop_last(), k).union(cover_in(a, cs.last(), k)).union(area_marks(b, cs.last(), k))
    }
}

/// The display records of `b` are those of `a` once the children of rectangle `id` are
/// shifted: each child is placed anew (see `children_marks`) and `id` is flagged to be
/// redrawn whole.
pub open spec fn shift_marked(a: Map<usize, Rect>, b: Map<usize, Rect>, id: usize) -> bool {
    forall|k: usize| #[trigger] b.contains_key(k) ==> {
        &&& b[k].flags_pos_refresh@ =~= a[k].flags_pos_refresh@.union(children_marks(a, b, a[id].children@, k)).union(
            area_marks(b, id, k))
        &&& b[k].cached_display@ =~= (if k == id {
            Map::<Pos, crate::rect::QueuedCell>::empty()
        } else {
            a[k].cached_display@
        })
        &&& b[k].queued_display@ =~= a[k].queued_display@
        &&& b[k].flag_full_refresh == (k == id || a[k].flag_full_refresh)
    }
}

/// `children_marks` reads the placement only through the areas flagged.
pub proof fn lemma_children_marks_same(a: Map<usize, Rect>, m: Map<usize, Rect>, b: Map<usize, Rect>, cs: Seq<usize>, k: usize)
    requires
        forall|i: int| 0 <= i < cs.len() ==> area_marks(m, #[trigger] cs[i], k) == area_marks(b, cs[i], k),
    ensures
        children_marks(a, m, cs, k) == children_marks(a, b, cs, k),
    decreases cs.len(),
{
    if cs.len() > 0 {
        let d = cs.drop_last();
        assert forall|i: int| 0 <= i < d.len() implies area_marks(m, #[trigger] d[i], k) == area_marks(b, d[i], k) by {
            assert(d[i] == cs[i]);
        }
        lemma_children_marks_same(a, m, b, d, k);
        assert(area_marks(m, cs[cs.len() - 1], k) == area_marks(b, cs[cs.len() - 1], k));
    }
}

/// Rectangles with the same parents and offsets flag the same positions above `id`.
pub proof fn lemma_pos_marks_same_placement(a: Map<usize, Rect>, b: Map<usize, Rect>, working: usize, cur: Pos,
    x: usize, n: nat)
    requires
        same_placement(a, b),
    ensures
        pos_marks(a, working, cur, x, n) == pos_marks(b, working, cur, x, n),
    decreases n,
{
    lemma_same_placement(a, b, working);
    if has_up(a, working) && n > 0 {
        lemma_pos_marks_same_placement(a, b, up(a, working), step_offset(a, working, cur), x, (n - 1) as nat);
    }
}

pub proof fn lemma_parent_marks_fuel(rects: Map<usize, Rect>, working: usize, off: Pos, w: usize, h: usize, a: usize, n: nat, m: nat)
    requires
        chain_ends(rects, working, n),
        n <= m,
    ensures
        parent_marks(rects, working, off, w, h, a, n) == parent_marks(rects, working, off, w, h, a, m),
    decreases n,
{
    if has_up(rects, working) && n > 0 {
        lemma_parent_marks_fuel(rects, up(rects, working), step_offset(rects, working, off), w, h, a, (n - 1) as nat, (m - 1) as nat);
    }
}

/// The positions of `a` flagged when position `cur` of `working` is flagged upwards: at each
/// step up, the position moves by the offset of the rectangle being left.
pub open spec fn pos_marks(rects: Map<usize, Rect>, working: usize, cur: Pos, a: usize, n: nat) -> Set<Pos>
    decreases n,
{
    if !has_up(rects, working) || n == 0 {
        Set::empty()
    } else {
        let cur2 = step_offset(rects, working, cur);
        (if up(rects, working) == a { set![cur2] } else { Set::empty() }).union(
            pos_marks(rects, up(rects, working), cur2, a, (n - 1) as nat))
    }
}

pub proof fn lemma_pos_marks_fuel(rects: Map<usize, Rect>, working: usize, cur: Pos, a: usize, n: nat, m: nat)
    requires
        chain_ends(rects, working, n),
        n <= m,
    ensures
        pos_marks(rects, working, cur, a, n) == pos_marks(rects, working, cur, a, m),
    decreases n,
{
    if has_up(rects, working) && n > 0 {
        lemma_pos_marks_fuel(rects, up(rects, working), step_offset(rects, working, cur), a, (n - 1) as nat, (m - 1) as nat);
    }
}

/// Only the flagged positions of some rectangles differ.
pub open spec fn same_except_flags(a: Map<usize, Rect>, b: Map<usize, Rect>) -> bool {
    &&& a.dom() == b.dom()
    &&& forall|id: usize| #[trigger] a.contains_key(id) ==> {
        &&& b[id].same_frame(a[id])
        &&& b[id].same_space(a[id])
        &&& b[id].character_space@ == a[id].character_space@
        &&& b[id].flag_full_refresh == a[id].flag_full_refresh
        &&& b[id].queued_display@ == a[id].queued_display@
        &&& b[id].cached_display@ == a[id].cached_display@
    }
}

pub proof fn lemma_same_except_flags_links(a: Map<usize, Rect>, b: Map<usize, Rect>)
    requires
        same_except_flags(a, b),
    ensures
        same_links_map(a, b),
{
}

/// Whether walking up from `working` is the same in both sets of rectangles (parents and
/// offsets agree along the way).
pub proof fn lemma_same_links_rel_offset(a: Map<usize, Rect>, b: Map<usize, Rect>, id: usize)
    requires
        same_except_flags(a, b),
    ensures
        has_up(a, id) == has_up(b, id),
        has_up(a, id) ==> up(a, id) == up(b, id),
        rel_offset(a, id) == rel_offset(b, id),
{
}

/// Only what is waiting to be drawn, what was drawn, and the refresh flags differ.
pub open spec fn same_except_display(a: Map<usize, Rect>, b: Map<usize, Rect>) -> bool {
    &&& a.dom() == b.dom()
    &&& forall|id: usize| #[trigger] a.contains_key(id) ==> {
        &&& b[id].same_frame(a[id])
        &&& b[id].same_space(a[id])
        &&& b[id].character_space@ == a[id].character_space@
    }
}

pub proof fn lemma_tree_ok_same_links_chain(a: Map<usize, Rect>, b: Map<usize, Rect>, id: usize, n: nat)
    requires
        same_placement(a, b),
    ensures
        chain_ends(a, id, n) == chain_ends(b, id, n),
    decreases n,
{
    if has_up(a, id) && n > 0 {
        lemma_tree_ok_same_links_chain(a, b, up(a, id), (n - 1) as nat);
    }
}

pub proof fn lemma_marks_same_links(a: Map<usize, Rect>, b: Map<usize, Rect>, working: usize, off: Pos, w: usize, h: usize, x: usize, n: nat)
    requires
        same_placement(a, b),
    ensures
        parent_marks(a, working, off, w, h, x, n) == parent_marks(b, working, off, w, h, x, n),
    decreases n,
{
    if has_up(a, working) && n > 0 {
        lemma_marks_same_links(a, b, up(a, working), step_offset(a, working, off), w, h, x, (n - 1) as nat);
    }
}

/// Every rectangle but `id` keeps its frame; all keep their records and characters; `id`
/// keeps its frame but for the effects, which become `e`.
pub open spec fn effects_became(a: Map<usize, Rect>, b: Map<usize, Rect>, id: usize, e: crate::effects::EffectsHandler) -> bool {
    &&& a.dom() == b.dom()
    &&& forall|k: usize| #[trigger] a.contains_key(k) ==> {
        &&& b[k].same_space(a[k])
        &&& b[k].character_space@ == a[k].character_space@
        &&& (k != id ==> b[k].same_frame(a[k]))
    }
    &&& b[id].same_frame_but_effects(a[id])
    &&& b[id].effects == e
}

/// Replacing a rectangle by one with the same id, parent, children and ranks whose records
/// are consistent keeps the tree well formed.
pub proof fn lemma_tree_ok_replace(before: Map<usize, Rect>, id: usize, r: Rect)
    requires
        tree_ok(before),
        before.contains_key(id),
        r.rect_id == before[id].rect_id,
        r.parent == before[id].parent,
        r.children@ == before[id].children@,
        r.child_ranks@ == before[id].child_ranks@,
        r.child_positions@.dom() == before[id].child_positions@.dom(),
        r.space_ok(),
    ensures
        tree_ok(before.insert(id, r)),
{
    let after = before.insert(id, r);
    assert forall|k: usize| #[trigger] after.contains_key(k) implies exists|n: nat| chain_ends(after, k, n) by {
        assert(before.contains_key(k));
        let n = choose|n: nat| chain_ends(before, k, n);
        lemma_chain_replace(before, id, r, k, n);
    }
    assert forall|q: usize, i: int| #![trigger after[q].children@[i]]
        after.contains_key(q) && 0 <= i < after[q].children@.len() implies {
            let c = after[q].children@[i];
            &&& after.contains_key(c)
            &&& after[c].parent == Some(q)
        } by {
        assert(before[q].children@[i] == after[q].children@[i]);
    }
    assert forall|q: usize| #[trigger] after.contains_key(q) implies {
        &&& after[q].children@.no_duplicates()
        &&& forall|c: usize| #[trigger] after[q].children@.contains(c) ==> after[q].child_ranks@.contains_key(c)
    } by {
        assert(before.contains_key(q));
    }
    assert forall|q: usize| #[trigger] after.contains_key(q) implies after[q].space_ok() by {
        if q != id {
            assert(before.contains_key(q));
        }
    }
}

proof fn lemma_chain_replace(before: Map<usize, Rect>, id: usize, r: Rect, k: usize, n: nat)
    requires
        before.contains_key(id),
        r.parent == before[id].parent,
        chain_ends(before, k, n),
    ensures
        chain_ends(before.insert(id, r), k, n),
    decreases n,
{
    if has_up(before, k) && n > 0 {
        lemma_chain_replace(before, id, r, up(before, k), (n - 1) as nat);
    }
}

/// Every rectangle keeps its frame and records; all but `id` keep their characters, and those
/// of `id` become `cs`.
pub open spec fn chars_became(a: Map<usize, Rect>, b: Map<usize, Rect>, id: usize, cs: Map<Pos, char>) -> bool {
    &&& a.dom() == b.dom()
    &&& forall|k: usize| #[trigger] a.contains_key(k) ==> {
        &&& b[k].same_frame(a[k])
        &&& b[k].same_space(a[k])
        &&& (k != id ==> b[k].character_space@ == a[k].character_space@)
    }
    &&& b[id].character_space@ == cs
}

/// The parents and the offsets of the children are the same.
pub open spec fn same_placement(a: Map<usize, Rect>, b: Map<usize, Rect>) -> bool {
    &&& a.dom() == b.dom()
    &&& forall|k: usize| #[trigger] a.contains_key(k) ==> a[k].parent == b[k].parent
        && a[k].child_positions@ == b[k].child_positions@
}

pub proof fn lemma_same_placement(a: Map<usize, Rect>, b: Map<usize, Rect>, id: usize)
    requires
        same_placement(a, b),
    ensures
        has_up(a, id) == has_up(b, id),
        has_up(a, id) ==> up(a, id) == up(b, id),
        rel_offset(a, id) == rel_offset(b, id),
{
}

/// No rectangle of a forest is its own parent.
pub proof fn lemma_not_own_parent(rects: Map<usize, Rect>, id: usize)
    requires
        acyclic(rects),
        has_up(rects, id),
    ensures
        up(rects, id) != id,
{
    if up(rects, id) == id {
        let n = choose|n: nat| chain_ends(rects, id, n);
        lemma_self_loop_never_ends(rects, id, n);
    }
}

proof fn lemma_self_loop_never_ends(rects: Map<usize, Rect>, id: usize, n: nat)
    requires
        has_up(rects, id),
        up(rects, id) == id,
    ensures
        !chain_ends(rects, id, n),
    decreases n,
{
    if n > 0 {
        lemma_self_loop_never_ends(rects, id, (n - 1) as nat);
    }
}

proof fn lemma_chain_unparent(before: Map<usize, Rect>, after: Map<usize, Rect>, id: usize, k: usize, n: nat)
    requires
        after.dom() == before.dom(),
        after[id].parent is None,
        forall|q: usize| q != id && #[trigger] before.contains_key(q) ==> after[q].parent == before[q].parent,
        chain_ends(before, k, n),
    ensures
        chain_ends(after, k, n),
    decreases n,
{
    if has_up(after, k) {
        assert(k != id);
        assert(has_up(before, k));
        lemma_chain_unparent(before, after, id, up(before, k), (n - 1) as nat);
    }
}

/// Taking a rectangle out of its parent keeps the tree well formed: the parent (where held)
/// no longer lists it, and it names no parent.
pub proof fn lemma_tree_ok_detach(before: Map<usize, Rect>, after: Map<usize, Rect>, id: usize)
    requires
        tree_ok(before),
        before.contains_key(id),
        after.dom() == before.dom(),
        after[id].parent is None,
        after[id].rect_id == id,
        after[id].children@ == before[id].children@,
        after[id].child_ranks@ == before[id].child_ranks@,
        after[id].child_positions@.dom() == before[id].child_positions@.dom(),
        after[id].space_ok(),
        forall|q: usize| #[trigger] before.contains_key(q) && q != id && !(has_up(before, id) && q == up(before, id))
            ==> same_links(after[q], before[q]),
        has_up(before, id) ==> {
            let p = up(before, id);
            &&& after[p].rect_id == p
            &&& after[p].parent == before[p].parent
            &&& after[p].children@ == crate::rect::without(before[p].children@, id)
            &&& after[p].child_ranks@ == before[p].child_ranks@
            &&& after[p].child_positions@.dom() == before[p].child_positions@.dom().remove(id)
            &&& after[p].space_ok()
        },
    ensures
        tree_ok(after),
{
    assert forall|k: usize| #[trigger] after.contains_key(k) implies exists|n: nat| chain_ends(after, k, n) by {
        assert(before.contains_key(k));
        let n = choose|n: nat| chain_ends(before, k, n);
        assert forall|q: usize| q != id && #[trigger] before.contains_key(q) implies after[q].parent == before[q].parent by {
            if has_up(before, id) && q == up(before, id) {
            } else {
                assert(same_links(after[q], before[q]));
            }
        }
        lemma_chain_unparent(before, after, id, k, n);
    }
    assert forall|q: usize, i: int| #![trigger after[q].children@[i]]
        after.contains_key(q) && 0 <= i < after[q].children@.len() implies {
            let c = after[q].children@[i];
            &&& after.contains_key(c)
            &&& after[c].parent == Some(q)
        } by {
        let c = after[q].children@[i];
        if has_up(before, id) && q == up(before, id) {
            assert(crate::rect::without(before[q].children@, id).contains(c));
            crate::rect::lemma_without_contains(before[q].children@, id, c);
            let j = choose|j: int| 0 <= j < before[q].children@.len() && before[q].children@[j] == c;
            assert(before[q].children@[j] == c);
            assert(c != id);
            if has_up(before, c) && c == up(before, id) {
                assert(before[c].parent == Some(q));
            } else {
                assert(same_links(after[c], before[c]));
            }
        } else {
            if q == id {
                assert(before[q].children@[i] == c);
            } else {
                assert(same_links(after[q], before[q]));
                assert(before[q].children@[i] == c);
            }
            assert(before.contains_key(c) && before[c].parent == Some(q));
            if c == id {
                assert(has_up(before, id));
                assert(up(before, id) == q);
                assert(false);
            }
            if has_up(before, id) && c == up(before, id) {
            } else {
                assert(same_links(after[c], before[c]));
            }
        }
    }
    assert forall|q: usize| #[trigger] after.contains_key(q) implies {
        &&& after[q].children@.no_duplicates()
        &&& forall|c: usize| #[trigger] after[q].children@.contains(c) ==> after[q].child_ranks@.contains_key(c)
            && after[q].child_positions@.contains_key(c)
    } by {
        assert(before.contains_key(q));
        if has_up(before, id) && q == up(before, id) {
            lemma_without_unique(before[q].children@, id);
            assert forall|c: usize| #[trigger] after[q].children@.contains(c) implies after[q].child_ranks@.contains_key(c)
                && after[q].child_positions@.contains_key(c) by {
                crate::rect::lemma_without_contains(before[q].children@, id, c);
                assert(after[q].child_positions@.dom().contains(c));
            }
        } else if q != id {
            assert(same_links(after[q], before[q]));
        }
    }
    assert forall|q: usize| #[trigger] after.contains_key(q) implies after[q].space_ok() by {
        if q != id && !(has_up(before, id) && q == up(before, id)) {
            assert(same_links(after[q], before[q]));
            assert(before[q].space_ok());
            assert forall|p: Pos, i: int| #![trigger after[q].space()[p][i]]
                after[q].space().contains_key(p) && 0 <= i < after[q].space()[p].len() implies {
                    let c = after[q].space()[p][i];
                    &&& after[q].children@.contains(c)
                    &&& after[q].covers(c, p)
                } by {
                assert(before[q].space()[p][i] == after[q].space()[p][i]);
            }
        }
    }
}

/// Taking an id out of a list without duplicates leaves none.
pub proof fn lemma_without_unique(s: Seq<usize>, id: usize)
    requires
        s.no_duplicates(),
    ensures
        crate::rect::without(s, id).no_duplicates(),
    decreases s.len(),
{
    reveal(Seq::filter);
    if s.len() > 0 {
        let d = s.drop_last();
        assert(d.no_duplicates());
        lemma_without_unique(d, id);
        if s.last() != id {
            let f = crate::rect::without(d, id);
            assert(crate::rect::without(s, id) == f.push(s.last()));
            crate::rect::lemma_without_contains(d, id, s.last());
            assert(!d.contains(s.last())) by {
                if d.contains(s.last()) {
                    let j = choose|j: int| 0 <= j < d.len() && d[j] == s.last();
                    assert(s[j] == s[s.len() - 1]);
                }
            }
            assert(crate::rect::without(s, id).no_duplicates()) by {
                let w = crate::rect::without(s, id);
                assert forall|i: int, j: int| 0 <= i < w.len() && 0 <= j < w.len() && i != j implies w[i] != w[j] by {
                    if i < f.len() && j < f.len() {
                    } else if i < f.len() {
                        assert(f.contains(f[i]));
                    } else if j < f.len() {
                        assert(f.contains(f[j]));
                    }
                }
            }
        } else {
            assert(crate::rect::without(s, id) == crate::rect::without(d, id));
        }
    } else {
        assert(crate::rect::without(s, id) =~= s);
    }
}

proof fn lemma_chain_avoiding(before: Map<usize, Rect>, after: Map<usize, Rect>, r: usize, k: usize, n: nat)
    requires
        after.dom() == before.dom(),
        forall|q: usize| q != r && #[trigger] before.contains_key(q) ==> after[q].parent == before[q].parent,
        chain_ends(before, k, n),
        !above_within(before, r, k, n),
    ensures
        chain_ends(after, k, n),
    decreases n,
{
    if has_up(before, k) && n > 0 {
        lemma_chain_avoiding(before, after, r, up(before, k), (n - 1) as nat);
    }
}

proof fn lemma_chain_reparent(before: Map<usize, Rect>, after: Map<usize, Rect>, r: usize, np: usize, k: usize, n: nat)
    requires
        acyclic(before),
        after.dom() == before.dom(),
        before.contains_key(r),
        before[r].parent is None,
        after[r].parent == Some(np),
        forall|q: usize| q != r && #[trigger] before.contains_key(q) ==> after[q].parent == before[q].parent,
        !is_above(before, r, np),
        chain_ends(before, k, n),
    ensures
        exists|m: nat| chain_ends(after, k, m),
    decreases n,
{
    if k == r {
        if before.contains_key(np) {
            let m = choose|m: nat| chain_ends(before, np, m);
            assert(!above_within(before, r, np, m));
            lemma_chain_avoiding(before, after, r, np, m);
            assert(chain_ends(after, r, m + 1));
        } else {
            assert(chain_ends(after, r, 0));
        }
    } else if has_up(before, k) {
        lemma_chain_reparent(before, after, r, np, up(before, k), (n - 1) as nat);
        let m = choose|m: nat| chain_ends(after, up(before, k), m);
        assert(chain_ends(after, k, m + 1));
    } else {
        assert(chain_ends(after, k, 0));
    }
}

/// Giving a rectangle with no parent the parent `np`, which is not below it, and adding it at
/// the end of `np`'s children (where `np` is held) keeps the tree well formed.
pub proof fn lemma_tree_ok_attach(before: Map<usize, Rect>, after: Map<usize, Rect>, r: usize, np: usize)
    requires
        tree_ok(before),
        before.contains_key(r),
        before[r].parent is None,
        !is_above(before, r, np),
        after.dom() == before.dom(),
        after[r].parent == Some(np),
        after[r].rect_id == r,
        after[r].children@ == before[r].children@,
        after[r].child_ranks@ == before[r].child_ranks@,
        after[r].child_positions@.dom() == before[r].child_positions@.dom(),
        after[r].space() == before[r].space(),
        after[r].inverse() == before[r].inverse(),
        forall|q: usize| #[trigger] before.contains_key(q) && q != r && q != np ==> same_links(after[q], before[q]),
        before.contains_key(np) ==> {
            &&& after[np].rect_id == np
            &&& after[np].parent == before[np].parent
            &&& after[np].children@ == before[np].children@.push(r)
            &&& after[np].child_positions@.dom() == before[np].child_positions@.dom().insert(r)
            &&& Rect::ranks_index(after[np].children@, after[np].child_ranks@)
            &&& after[np].space() == before[np].space()
            &&& after[np].inverse() == before[np].inverse().insert(r, Seq::<Pos>::empty())
        },
    ensures
        tree_ok(after),
{
    assert(above_within(before, r, r, 0));
    assert(r != np);
    assert forall|q: usize| q != r && #[trigger] before.contains_key(q) implies after[q].parent == before[q].parent by {
        if q != np {
            assert(same_links(after[q], before[q]));
        }
    }
    assert forall|k: usize| #[trigger] after.contains_key(k) implies exists|n: nat| chain_ends(after, k, n) by {
        assert(before.contains_key(k));
        let n = choose|n: nat| chain_ends(before, k, n);
        lemma_chain_reparent(before, after, r, np, k, n);
    }
    // r is nobody's child before
    assert forall|q: usize| #[trigger] before.contains_key(q) implies !before[q].children@.contains(r) by {
        if before[q].children@.contains(r) {
            let i = choose|i: int| 0 <= i < before[q].children@.len() && before[q].children@[i] == r;
            assert(before[r].parent == Some(q));
        }
    }
    assert forall|q: usize, i: int| #![trigger after[q].children@[i]]
        after.contains_key(q) && 0 <= i < after[q].children@.len() implies {
            let c = after[q].children@[i];
            &&& after.contains_key(c)
            &&& after[c].parent == Some(q)
        } by {
        let c = after[q].children@[i];
        if q == np && before.contains_key(np) {
            if i < before[np].children@.len() {
                assert(before[np].children@[i] == c);
                assert(before[c].parent == Some(q));
                assert(c != r);
            }
        } else {
            if q != r {
                assert(same_links(after[q], before[q]));
            }
            assert(before[q].children@[i] == c);
            assert(before[c].parent == Some(q));
            if c == r {
                assert(before[q].children@.contains(r));
            }
        }
    }
    assert forall|q: usize| #[trigger] after.contains_key(q) implies {
        &&& after[q].children@.no_duplicates()
        &&& forall|c: usize| #[trigger] after[q].children@.contains(c) ==> after[q].child_ranks@.contains_key(c)
            && after[q].child_positions@.contains_key(c)
        &&& forall|c: usize| #[trigger] after[q].child_positions@.contains_key(c) ==> after[q].children@.contains(c)
    } by {
        if q == np {
            assert forall|c: usize| #[trigger] after[q].child_positions@.contains_key(c) implies after[q].children@.contains(c) by {
                if c != r {
                    assert(before.contains_key(np));
                    assert(before[np].child_positions@.dom().contains(c));
                    assert(before[np].children@.contains(c));
                    let j = choose|j: int| 0 <= j < before[np].children@.len() && before[np].children@[j] == c;
                    assert(after[q].children@[j] == c);
                } else {
                    assert(after[q].children@[before[np].children@.len() as int] == r);
                }
            }
            assert(!before[np].children@.contains(r));
            assert(after[q].children@.no_duplicates()) by {
                let s0 = before[np].children@;
                assert forall|i: int, j: int| 0 <= i < s0.push(r).len() && 0 <= j < s0.push(r).len() && i != j
                    implies s0.push(r)[i] != s0.push(r)[j] by {
                    if i < s0.len() && j == s0.len() {
                        assert(s0.contains(s0[i]));
                    } else if j < s0.len() && i == s0.len() {
                        assert(s0.contains(s0[j]));
                    }
                }
            }
            assert forall|c: usize| #[trigger] after[q].children@.contains(c) implies after[q].child_ranks@.contains_key(c)
                && after[q].child_positions@.contains_key(c) by {
                if c != r {
                    let j = choose|j: int| 0 <= j < after[q].children@.len() && after[q].children@[j] == c;
                    if j < before[np].children@.len() {
                        assert(before[np].children@[j] == c);
                        assert(before[np].children@.contains(c));
                    }
                }
                assert(after[q].child_positions@.dom().contains(c));
            }
        } else if q != r {
            assert(same_links(after[q], before[q]));
        }
    }
    assert forall|q: usize| #[trigger] after.contains_key(q) implies after[q].space_ok() by {
        assert(before[q].space_ok());
        assert forall|p: Pos, i: int| #![trigger after[q].space()[p][i]]
            after[q].space().contains_key(p) && 0 <= i < after[q].space()[p].len() implies {
                let c = after[q].space()[p][i];
                &&& after[q].children@.contains(c)
                &&& after[q].covers(c, p)
            } by {
            if q != r && q != np {
                assert(same_links(after[q], before[q]));
            }
            let c = after[q].space()[p][i];
            assert(before[q].space()[p][i] == c);
            assert(before[q].children@.contains(c));
            if q == np {
                assert(c != r);
                let j = choose|j: int| 0 <= j < before[np].children@.len() && before[np].children@[j] == c;
                assert(after[np].children@[j] == c);
            }
        }
    }
}

/// Changing only the parent of `r` does not make `r` appear above a rectangle it was not above.
pub proof fn lemma_not_above_after_change(a: Map<usize, Rect>, b: Map<usize, Rect>, r: usize, k: usize)
    requires
        b.dom() == a.dom(),
        forall|q: usize| q != r && #[trigger] a.contains_key(q) ==> b[q].parent == a[q].parent,
        !is_above(a, r, k),
    ensures
        !is_above(b, r, k),
{
    assert forall|n: nat| !above_within(b, r, k, n) by {
        lemma_above_within_change(a, b, r, k, n);
    }
}

proof fn lemma_above_within_change(a: Map<usize, Rect>, b: Map<usize, Rect>, r: usize, k: usize, n: nat)
    requires
        b.dom() == a.dom(),
        forall|q: usize| q != r && #[trigger] a.contains_key(q) ==> b[q].parent == a[q].parent,
    ensures
        above_within(b, r, k, n) ==> above_within(a, r, k, n),
    decreases n,
{
    if k != r && has_up(b, k) && n > 0 {
        assert(has_up(a, k));
        lemma_above_within_change(a, b, r, up(b, k), (n - 1) as nat);
    }
}

/// Whether a rectangle met walking up from `id` (within `n` steps, `id` itself included)
/// names `x` as its parent.
pub open spec fn names_on_chain(rects: Map<usize, Rect>, id: usize, x: usize, n: nat) -> bool
    decreases n,
{
    ||| (rects.contains_key(id) && rects[id].parent == Some(x))
    ||| (has_up(rects, id) && n > 0 && names_on_chain(rects, up(rects, id), x, (n - 1) as nat))
}

/// Whether a rectangle `x`, once held, would be above `id`: walking up from `id` meets a
/// rectangle that names `x` as its parent.
pub open spec fn named_above(rects: Map<usize, Rect>, id: usize, x: usize) -> bool {
    exists|n: nat| names_on_chain(rects, id, x, n)
}

/// One step of the walk up: `x` is named above `id` exactly when `id` names it, or `id` has a
/// held parent above which it is named.
pub proof fn lemma_named_above_step(rects: Map<usize, Rect>, id: usize, x: usize)
    ensures
        named_above(rects, id, x) == ((rects.contains_key(id) && rects[id].parent == Some(x))
            || (has_up(rects, id) && named_above(rects, up(rects, id), x))),
{
    if rects.contains_key(id) && rects[id].parent == Some(x) {
        assert(names_on_chain(rects, id, x, 0));
    } else if has_up(rects, id) {
        if named_above(rects, id, x) {
            let n = choose|n: nat| names_on_chain(rects, id, x, n);
            assert(names_on_chain(rects, up(rects, id), x, (n - 1) as nat));
        }
        if named_above(rects, up(rects, id), x) {
            let n = choose|n: nat| names_on_chain(rects, up(rects, id), x, n);
            assert(names_on_chain(rects, id, x, n + 1));
        }
    } else {
        assert forall|n: nat| !names_on_chain(rects, id, x, n) by {}
    }
}

/// A new rectangle `x` that no rectangle on `k`'s way up names as parent is not above `k`.
pub proof fn lemma_new_not_above(a: Map<usize, Rect>, m: Map<usize, Rect>, x: usize, k: usize)
    requires
        !a.contains_key(x),
        m == a.insert(x, m[x]),
        k != x,
        !named_above(a, k, x),
    ensures
        !is_above(m, x, k),
{
    assert forall|n: nat| !above_within(m, x, k, n) by {
        lemma_new_not_above_within(a, m, x, k, n);
    }
}

proof fn lemma_new_not_above_within(a: Map<usize, Rect>, m: Map<usize, Rect>, x: usize, k: usize, n: nat)
    requires
        !a.contains_key(x),
        m == a.insert(x, m[x]),
        k != x,
        !named_above(a, k, x),
    ensures
        !above_within(m, x, k, n),
    decreases n,
{
    if has_up(m, k) && n > 0 {
        assert(a.contains_key(k) && m[k] == a[k]);
        assert(!names_on_chain(a, k, x, 0));
        let u = up(m, k);
        assert(u != x);
        assert(has_up(a, k) && up(a, k) == u);
        assert(!named_above(a, u, x)) by {
            if named_above(a, u, x) {
                let j = choose|j: nat| names_on_chain(a, u, x, j);
                assert(names_on_chain(a, k, x, j + 1));
            }
        }
        lemma_new_not_above_within(a, m, x, u, (n - 1) as nat);
    }
}

/// Whether walking up from `x` reaches `root` within `n` steps, each step from a rectangle to
/// a parent that lists it among its children.
pub open spec fn reg_chain(rects: Map<usize, Rect>, x: usize, root: usize, n: nat) -> bool
    decreases n,
{
    if x == root {
        true
    } else if n == 0 {
        false
    } else {
        has_up(rects, x) && rects[up(rects, x)].children@.contains(x) && reg_chain(rects, up(rects, x), root, (n - 1) as nat)
    }
}

/// Whether `x` is `root` or one of its descendants, reached through the children lists.
pub open spec fn in_subtree(rects: Map<usize, Rect>, x: usize, root: usize) -> bool {
    exists|n: nat| reg_chain(rects, x, root, n)
}

pub proof fn lemma_reg_chain_ends(rects: Map<usize, Rect>, x: usize, root: usize, n: nat, m: nat) -> (j: nat)
    requires
        reg_chain(rects, x, root, n),
        chain_ends(rects, x, m),
    ensures
        j <= m,
        chain_ends(rects, root, (m - j) as nat),
        x != root ==> j >= 1,
    decreases n,
{
    if x == root {
        0
    } else {
        let y = up(rects, x);
        let j2 = lemma_reg_chain_ends(rects, y, root, (n - 1) as nat, (m - 1) as nat);
        j2 + 1
    }
}

proof fn lemma_cycle_never_ends(rects: Map<usize, Rect>, root: usize, w: usize, n: nat, m: nat)
    requires
        has_up(rects, root),
        up(rects, root) == w,
        reg_chain(rects, w, root, n),
    ensures
        !chain_ends(rects, root, m),
    decreases m,
{
    if chain_ends(rects, root, m) {
        assert(m > 0);
        assert(chain_ends(rects, w, (m - 1) as nat));
        let j = lemma_reg_chain_ends(rects, w, root, n, (m - 1) as nat);
        lemma_cycle_never_ends(rects, root, w, n, (m - 1 - j) as nat);
    }
}

/// A rectangle is never a child of one of its own descendants.
pub proof fn lemma_no_cycle_back(rects: Map<usize, Rect>, root: usize, w: usize)
    requires
        acyclic(rects),
        rects.contains_key(root),
    ensures
        has_up(rects, root) && up(rects, root) == w ==> !in_subtree(rects, w, root),
{
    if has_up(rects, root) && up(rects, root) == w && in_subtree(rects, w, root) {
        let n = choose|n: nat| reg_chain(rects, w, root, n);
        let m = choose|m: nat| chain_ends(rects, root, m);
        lemma_cycle_never_ends(rects, root, w, n, m);
    }
}

/// A listed child of a rectangle in the subtree is in the subtree.
pub proof fn lemma_subtree_child(rects: Map<usize, Rect>, w: usize, c: usize, root: usize)
    requires
        children_linked(rects),
        rects.contains_key(w),
        rects[w].children@.contains(c),
        in_subtree(rects, w, root),
    ensures
        in_subtree(rects, c, root),
{
    let n = choose|n: nat| reg_chain(rects, w, root, n);
    let i = choose|i: int| 0 <= i < rects[w].children@.len() && rects[w].children@[i] == c;
    assert(rects[w].children@[i] == c);
    assert(has_up(rects, c) && up(rects, c) == w);
    if c == root {
        assert(reg_chain(rects, c, root, 0));
    } else {
        assert(reg_chain(rects, c, root, n + 1));
    }
}

/// A registered walk from a held rectangle ends at a held rectangle.
pub proof fn lemma_reg_chain_held(rects: Map<usize, Rect>, x: usize, root: usize, n: nat)
    requires
        rects.contains_key(x),
        reg_chain(rects, x, root, n),
    ensures
        rects.contains_key(root),
    decreases n,
{
    if x != root {
        lemma_reg_chain_held(rects, up(rects, x), root, (n - 1) as nat);
    }
}

/// The ids of `root` and of its descendants, reached through the children lists.
pub open spec fn subtree_of(rects: Map<usize, Rect>, root: usize) -> Set<usize> {
    Set::new(|x: usize| rects.contains_key(x) && in_subtree(rects, x, root))
}

proof fn lemma_chain_restrict(a: Map<usize, Rect>, b: Map<usize, Rect>, k: usize, n: nat)
    requires
        forall|q: usize| #[trigger] b.contains_key(q) ==> a.contains_key(q) && b[q] == a[q],
        chain_ends(a, k, n),
    ensures
        chain_ends(b, k, n),
    decreases n,
{
    if has_up(b, k) {
        assert(has_up(a, k));
        lemma_chain_restrict(a, b, up(a, k), (n - 1) as nat);
    }
}

/// Taking out a set of rectangles that no other rectangle lists as a child keeps the tree
/// well formed.
pub proof fn lemma_tree_ok_remove_closed(a: Map<usize, Rect>, s: Set<usize>)
    requires
        tree_ok(a),
        forall|r: usize, c: usize| #[trigger] a.contains_key(r) && !s.contains(r) && #[trigger] a[r].children@.contains(c)
            ==> !s.contains(c),
    ensures
        tree_ok(a.remove_keys(s)),
{
    let b = a.remove_keys(s);
    assert forall|k: usize| #[trigger] b.contains_key(k) implies exists|n: nat| chain_ends(b, k, n) by {
        assert(a.contains_key(k));
        let n = choose|n: nat| chain_ends(a, k, n);
        lemma_chain_restrict(a, b, k, n);
    }
    assert forall|q: usize, i: int| #![trigger b[q].children@[i]]
        b.contains_key(q) && 0 <= i < b[q].children@.len() implies {
            let c = b[q].children@[i];
            &&& b.contains_key(c)
            &&& b[c].parent == Some(q)
        } by {
        let c = b[q].children@[i];
        assert(a[q].children@[i] == c);
        assert(a[q].children@.contains(c));
        assert(!s.contains(c));
    }
    assert forall|q: usize| #[trigger] b.contains_key(q) implies {
        &&& b[q].children@.no_duplicates()
        &&& forall|c: usize| #[trigger] b[q].children@.contains(c) ==> b[q].child_ranks@.contains_key(c)
    } by {
        assert(a.contains_key(q));
    }
    assert forall|q: usize| #[trigger] b.contains_key(q) implies b[q].space_ok() by {
        assert(a.contains_key(q));
    }
}

proof fn lemma_reg_chain_to_old(old: Map<usize, Rect>, st: Map<usize, Rect>, r: usize, x: usize, root: usize, n: nat)
    requires
        forall|k: usize| #[trigger] st.contains_key(k) ==> old.contains_key(k) && st[k].parent == old[k].parent,
        forall|k: usize| #[trigger] st.contains_key(k) && k != r ==> st[k].children@ == old[k].children@,
        st.contains_key(r) ==> forall|c: usize| #[trigger] st[r].children@.contains(c) ==> old[r].children@.contains(c),
        reg_chain(st, x, root, n),
    ensures
        reg_chain(old, x, root, n),
    decreases n,
{
    if x != root {
        let y = up(st, x);
        assert(has_up(old, x) && up(old, x) == y);
        assert(old[y].children@.contains(x));
        lemma_reg_chain_to_old(old, st, r, y, root, (n - 1) as nat);
    }
}

proof fn lemma_reg_chain_from_old(old: Map<usize, Rect>, st: Map<usize, Rect>, r: usize, x: usize, root: usize, n: nat)
    requires
        forall|k: usize| #[trigger] st.contains_key(k) ==> old.contains_key(k) && st[k].parent == old[k].parent,
        forall|k: usize| #[trigger] st.contains_key(k) && k != r ==> st[k].children@ == old[k].children@,
        forall|k: usize| #[trigger] subtree_of(old, root).contains(k) ==> st.contains_key(k) && k != r,
        old.contains_key(x),
        reg_chain(old, x, root, n),
    ensures
        reg_chain(st, x, root, n),
    decreases n,
{
    assert(subtree_of(old, root).contains(x));
    if x != root {
        let y = up(old, x);
        assert(reg_chain(old, y, root, (n - 1) as nat));
        assert(subtree_of(old, root).contains(y));
        assert(has_up(st, x) && up(st, x) == y);
        lemma_reg_chain_from_old(old, st, r, y, root, (n - 1) as nat);
    }
}

/// The subtree of a child `kid` of `r` is the same in a set of rectangles taken from `old`
/// that holds that whole subtree, keeps every parent link, and changes no children list but
/// `r`'s, which it may only shorten.
pub proof fn lemma_subtree_same(old: Map<usize, Rect>, st: Map<usize, Rect>, r: usize, kid: usize)
    requires
        tree_ok(old),
        old.contains_key(r),
        old.contains_key(kid),
        old[kid].parent == Some(r),
        forall|k: usize| #[trigger] st.contains_key(k) ==> old.contains_key(k) && st[k].parent == old[k].parent,
        forall|k: usize| #[trigger] st.contains_key(k) && k != r ==> st[k].children@ == old[k].children@,
        st.contains_key(r) ==> forall|c: usize| #[trigger] st[r].children@.contains(c) ==> old[r].children@.contains(c),
        forall|k: usize| #[trigger] subtree_of(old, kid).contains(k) ==> st.contains_key(k),
    ensures
        subtree_of(st, kid) == subtree_of(old, kid),
{
    lemma_no_cycle_back(old, kid, r);
    assert(!subtree_of(old, kid).contains(r));
    assert forall|x: usize| #[trigger] subtree_of(st, kid).contains(x) <==> subtree_of(old, kid).contains(x) by {
        if subtree_of(st, kid).contains(x) {
            let n = choose|n: nat| reg_chain(st, x, kid, n);
            lemma_reg_chain_to_old(old, st, r, x, kid, n);
        }
        if subtree_of(old, kid).contains(x) {
            let n = choose|n: nat| reg_chain(old, x, kid, n);
            lemma_reg_chain_from_old(old, st, r, x, kid, n);
        }
    }
    assert(subtree_of(st, kid) =~= subtree_of(old, kid));
}

/// Of two rectangles met walking up from the same one, the one met first is below the other.
proof fn lemma_chain_order(rects: Map<usize, Rect>, x: usize, c1: usize, n1: nat, c2: usize, n2: nat)
    requires
        reg_chain(rects, x, c1, n1),
        reg_chain(rects, x, c2, n2),
    ensures
        in_subtree(rects, c1, c2) || in_subtree(rects, c2, c1),
    decreases n1,
{
    if x == c1 {
        assert(reg_chain(rects, c1, c2, n2));
    } else if x == c2 {
        assert(reg_chain(rects, c2, c1, n1));
    } else {
        lemma_chain_order(rects, up(rects, x), c1, (n1 - 1) as nat, c2, (n2 - 1) as nat);
    }
}

/// The subtrees of two different children of one rectangle share nothing.
pub proof fn lemma_siblings_disjoint(rects: Map<usize, Rect>, r: usize, c1: usize, c2: usize, x: usize)
    requires
        tree_ok(rects),
        rects.contains_key(r),
        rects.contains_key(c1),
        rects.contains_key(c2),
        rects[c1].parent == Some(r),
        rects[c2].parent == Some(r),
        c1 != c2,
        subtree_of(rects, c1).contains(x),
    ensures
        !subtree_of(rects, c2).contains(x),
{
    if subtree_of(rects, c2).contains(x) {
        let n1 = choose|n: nat| reg_chain(rects, x, c1, n);
        let n2 = choose|n: nat| reg_chain(rects, x, c2, n);
        lemma_chain_order(rects, x, c1, n1, c2, n2);
        lemma_no_cycle_back(rects, c1, r);
        lemma_no_cycle_back(rects, c2, r);
        if in_subtree(rects, c1, c2) {
            let m = choose|m: nat| reg_chain(rects, c1, c2, m);
            assert(reg_chain(rects, r, c2, (m - 1) as nat));
        } else {
            let m = choose|m: nat| reg_chain(rects, c2, c1, m);
            assert(reg_chain(rects, r, c1, (m - 1) as nat));
        }
    }
}

proof fn lemma_above_within_cut(a: Map<usize, Rect>, b: Map<usize, Rect>, x: usize, k: usize, n: nat)
    requires
        b.dom() == a.dom(),
        forall|q: usize| #[trigger] a.contains_key(q) ==> b[q].parent == a[q].parent || b[q].parent is None,
    ensures
        above_within(b, x, k, n) ==> above_within(a, x, k, n),
    decreases n,
{
    if k != x && has_up(b, k) && n > 0 {
        assert(has_up(a, k));
        lemma_above_within_cut(a, b, x, up(b, k), (n - 1) as nat);
    }
}

/// Cutting parent links makes no rectangle newly above another.
pub proof fn lemma_not_above_after_cut(a: Map<usize, Rect>, b: Map<usize, Rect>, x: usize, k: usize)
    requires
        b.dom() == a.dom(),
        forall|q: usize| #[trigger] a.contains_key(q) ==> b[q].parent == a[q].parent || b[q].parent is None,
        !is_above(a, x, k),
    ensures
        !is_above(b, x, k),
{
    assert forall|n: nat| !above_within(b, x, k, n) by {
        lemma_above_within_cut(a, b, x, k, n);
    }
}

proof fn lemma_reg_chain_same_links(a: Map<usize, Rect>, b: Map<usize, Rect>, x: usize, root: usize, n: nat)
    requires
        same_links_map(a, b),
        reg_chain(a, x, root, n),
    ensures
        reg_chain(b, x, root, n),
    decreases n,
{
    if x != root {
        lemma_reg_chain_same_links(a, b, up(a, x), root, (n - 1) as nat);
    }
}

/// Rectangles with the same links have the same subtrees.
pub proof fn lemma_subtree_same_links(a: Map<usize, Rect>, b: Map<usize, Rect>, root: usize)
    requires
        same_links_map(a, b),
    ensures
        subtree_of(a, root) == subtree_of(b, root),
{
    assert forall|x: usize| #[trigger] subtree_of(a, root).contains(x) <==> subtree_of(b, root).contains(x) by {
        if subtree_of(a, root).contains(x) {
            let n = choose|n: nat| reg_chain(a, x, root, n);
            lemma_reg_chain_same_links(a, b, x, root, n);
        }
        if subtree_of(b, root).contains(x) {
            let n = choose|n: nat| reg_chain(b, x, root, n);
            assert forall|id: usize| #[trigger] b.contains_key(id) implies same_links(b[id], a[id]) by {}
            lemma_reg_chain_same_links(b, a, x, root, n);
        }
    }
    assert(subtree_of(a, root) =~= subtree_of(b, root));
}

/// What is below a child of `r` is below `r`.
pub proof fn lemma_reg_chain_extend(rects: Map<usize, Rect>, x: usize, c: usize, r: usize, n: nat)
    requires
        reg_chain(rects, x, c, n),
        has_up(rects, c),
        up(rects, c) == r,
        rects[r].children@.contains(c),
    ensures
        in_subtree(rects, x, r),
    decreases n,
{
    if x == c {
        if c == r {
            assert(reg_chain(rects, x, r, 0));
        } else {
            assert(reg_chain(rects, up(rects, c), r, 0));
            assert(reg_chain(rects, x, r, 1));
        }
    } else {
        lemma_reg_chain_extend(rects, up(rects, x), c, r, (n - 1) as nat);
        let m = choose|m: nat| reg_chain(rects, up(rects, x), r, m);
        if x == r {
            assert(reg_chain(rects, x, r, 0));
        } else {
            assert(reg_chain(rects, x, r, m + 1));
        }
    }
}

} // verus!
