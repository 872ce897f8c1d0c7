//! What refreshing a rectangle's queue of cells to draw does, over the views of the
//! rectangles: a rectangle fills the positions that are due from its own characters where
//! no child stands, and from the queues of the children that stand there (refreshed first)
//! elsewhere.
use vstd::prelude::*;
use crate::rect::{Rect, RectView, Pos, QueuedCell, signed};
use crate::tree::{has_up, up, abs_offset, abs_walk, add_pos, chain_ends, rel_offset};
use crate::error::WreckedError;
use crate::effects::EffectsHandler;
use crate::ansi::DisplayCell;

verus! {

/// The views of a set of rectangles.
pub open spec fn views(rects: Map<usize, Rect>) -> Map<usize, RectView> {
    rects.map_values(|r: Rect| r@)
}

/// Whether `c` is held and lets what is behind it show.
pub open spec fn see_through(s: Map<usize, RectView>, c: usize) -> bool {
    s.contains_key(c) && s[c].transparent
}

/// The children recorded at a position (lowest rank first in `l`) to look through, topmost
/// first, each with its rank counted from 1: from the topmost down to the first one that
/// is not transparent.
pub open spec fn stack(l: Seq<usize>, s: Map<usize, RectView>) -> Seq<(usize, usize)>
    decreases l.len(),
{
    if l.len() == 0 {
        Seq::empty()
    } else if see_through(s, l.last()) {
        seq![(l.last(), l.len() as usize)] + stack(l.drop_last(), s)
    } else {
        seq![(l.last(), l.len() as usize)]
    }
}

/// The positions of a rectangle that are due: none if it is disabled; all of them if a full
/// refresh is flagged; else the flagged positions inside it.
pub open spec fn targets(r: RectView) -> Set<Pos> {
    if !r.enabled {
        Set::empty()
    } else if r.flag_full_refresh {
        Set::new(|p: Pos| r.holds(p.0, p.1))
    } else {
        r.flags_pos_refresh.filter(|p: Pos| r.holds(p.0, p.1))
    }
}

/// The rectangle once its flags are taken: a full refresh also empties its queue. A
/// disabled rectangle keeps everything.
pub open spec fn prepped(r: RectView) -> RectView {
    if !r.enabled {
        r
    } else {
        RectView {
            flag_full_refresh: false,
            flags_pos_refresh: Set::empty(),
            queued_display: if r.flag_full_refresh { Map::empty() } else { r.queued_display },
            ..r
        }
    }
}

/// The cell a rectangle shows by itself at a position.
pub open spec fn own_cell(r: RectView, p: Pos) -> QueuedCell {
    (r.char_at(p.0, p.1), r.effects, 0usize)
}

/// The rectangle once the due positions where no child stands show its own cells (or, for
/// a transparent rectangle, its own cells where a character is set and nothing elsewhere).
/// The character shown there is stored as set.
pub open spec fn uncovered_done(r: RectView, b: Set<Pos>) -> RectView {
    let due = |p: Pos| b.contains(p) && !r.covered(p);
    RectView {
        character_space: Map::new(
            |p: Pos| r.character_space.contains_key(p) || (due(p) && !r.transparent),
            |p: Pos| r.char_at(p.0, p.1),
        ),
        queued_display: Map::new(
            |p: Pos| if due(p) {
                !r.transparent || r.character_space.contains_key(p)
            } else {
                r.queued_display.contains_key(p)
            },
            |p: Pos| if due(p) { own_cell(r, p) } else { r.queued_display[p] },
        ),
        ..r
    }
}

/// The children whose queues a rectangle reads: those on the stacks of its due, covered
/// positions.
pub open spec fn required(r: RectView, b: Set<Pos>, s: Map<usize, RectView>) -> Set<usize> {
    Set::new(|c: usize| exists|p: Pos, j: int| #![trigger b.contains(p), stack(r.space[p], s)[j]]
        b.contains(p) && r.covered(p) && 0 <= j < stack(r.space[p], s).len() && stack(r.space[p], s)[j].0 == c)
}

/// The position `p` of a parent, seen from a child at offset `off` (wrapping as release
/// builds do).
pub open spec fn seen_from(p: Pos, off: Pos) -> Pos {
    (p.0.wrapping_sub(off.0), p.1.wrapping_sub(off.1))
}

/// Going down a stack at `p`: the first child with an offset whose queue holds a cell there,
/// with its rank; and whether a transparent child with an offset and no cell there was met.
pub open spec fn pick(st: Seq<(usize, usize)>, p: Pos, cps: Map<usize, Pos>, s: Map<usize, RectView>)
    -> (Option<(QueuedCell, usize)>, bool)
    decreases st.len(),
{
    if st.len() == 0 {
        (None, false)
    } else {
        let c = st[0].0;
        if !cps.contains_key(c) {
            pick(st.drop_first(), p, cps, s)
        } else if s[c].queued_display.contains_key(seen_from(p, cps[c])) {
            (Some((s[c].queued_display[seen_from(p, cps[c])], st[0].1)), false)
        } else {
            let rest = pick(st.drop_first(), p, cps, s);
            (rest.0, rest.1 || s[c].transparent)
        }
    }
}

/// The pick at a due, covered position of `r`: stacks read the transparency of `s`, cells
/// are read from the children of `s1`.
pub open spec fn pick_at(r: RectView, p: Pos, s: Map<usize, RectView>, s1: Map<usize, RectView>)
    -> (Option<(QueuedCell, usize)>, bool)
{
    pick(stack(r.space[p], s), p, r.child_positions, s1)
}

/// The cell queued at a due, covered position: a child's cell, unless a higher rank is
/// already queued there; the rectangle's own (or, for a transparent rectangle with no
/// character set there, nothing) where only transparent children without a cell were met;
/// else what was queued.
pub open spec fn covered_cell(r: RectView, p: Pos, s: Map<usize, RectView>, s1: Map<usize, RectView>) -> Option<QueuedCell> {
    let (res, t) = pick_at(r, p, s, s1);
    match res {
        Some((v, rank)) => if r.queued_display.contains_key(p) && r.queued_display[p].2 > rank {
            Some(r.queued_display[p])
        } else {
            Some((v.0, v.1, rank))
        },
        None => if t {
            if r.transparent && !r.character_space.contains_key(p) { None } else { Some(own_cell(r, p)) }
        } else if r.queued_display.contains_key(p) {
            Some(r.queued_display[p])
        } else {
            None
        },
    }
}

/// The rectangle once the due, covered positions are filled from its children.
pub open spec fn covered_done(r: RectView, b: Set<Pos>, s: Map<usize, RectView>, s1: Map<usize, RectView>) -> RectView {
    let due = |p: Pos| b.contains(p) && r.covered(p);
    RectView {
        character_space: Map::new(
            |p: Pos| r.character_space.contains_key(p) || (due(p) && !r.transparent
                && pick_at(r, p, s, s1).0 is None && pick_at(r, p, s, s1).1),
            |p: Pos| r.char_at(p.0, p.1),
        ),
        queued_display: Map::new(
            |p: Pos| if due(p) { covered_cell(r, p, s, s1) is Some } else { r.queued_display.contains_key(p) },
            |p: Pos| if due(p) { covered_cell(r, p, s, s1)->0 } else { r.queued_display[p] },
        ),
        ..r
    }
}

/// The views after refreshing rectangle `id` with `n` levels below it to go: a disabled or
/// missing rectangle is left as it is; else its flags are taken and its due positions filled.
pub open spec fn refresh(s: Map<usize, RectView>, id: usize, n: nat) -> Map<usize, RectView>
    decreases n, 1nat,
{
    if !s.contains_key(id) || !s[id].enabled {
        s
    } else {
        fill(s.insert(id, prepped(s[id])), id, targets(s[id]), n)
    }
}

/// The views after filling positions `b` of rectangle `id`: first those where no child
/// stands, then, once the children it reads were refreshed in the order of its children,
/// those where children stand.
pub open spec fn fill(s: Map<usize, RectView>, id: usize, b: Set<Pos>, n: nat) -> Map<usize, RectView>
    decreases n, 0nat,
{
    let r0 = s[id];
    let r1 = uncovered_done(r0, b);
    let s0 = s.insert(id, r1);
    let s1 = if n == 0 { s0 } else { refresh_kids(s0, r0.children, required(r0, b, s), (n - 1) as nat) };
    s1.insert(id, covered_done(r1, b, s, s1))
}

/// The views after refreshing, in turn, the rectangles of `kids` that are in `req`.
pub open spec fn refresh_kids(s: Map<usize, RectView>, kids: Seq<usize>, req: Set<usize>, n: nat) -> Map<usize, RectView>
    decreases n, kids.len() + 2,
{
    if kids.len() == 0 {
        s
    } else {
        let s2 = if req.contains(kids[0]) { refresh(s, kids[0], n) } else { s };
        refresh_kids(s2, kids.drop_first(), req, n)
    }
}

/// Every child on a stack is on the list it was built from.
pub proof fn lemma_stack_from_list(l: Seq<usize>, s: Map<usize, RectView>, m: int)
    requires
        0 <= m < stack(l, s).len(),
    ensures
        l.contains(stack(l, s)[m].0),
    decreases l.len(),
{
    if l.len() > 0 {
        assert(l[l.len() - 1] == l.last());
        if m > 0 {
            lemma_stack_from_list(l.drop_last(), s, m - 1);
            let c = stack(l.drop_last(), s)[m - 1].0;
            let i = choose|i: int| 0 <= i < l.drop_last().len() && l.drop_last()[i] == c;
            assert(l[i] == c);
        }
    }
}

/// The part of the screen a rectangle can show: left, top, width and height.
pub type VisibleBox = (isize, isize, isize, isize);

/// The larger of two integers.
pub open spec fn larger(a: isize, b: isize) -> isize {
    if a > b { a } else { b }
}

/// The smaller of two integers.
pub open spec fn smaller(a: isize, b: isize) -> isize {
    if a < b { a } else { b }
}

/// A box cut by a parent at absolute offset `off`, `pw` by `ph`: its left and top are raised
/// to the parent's, its width and height lowered to what the parent leaves from there
/// (wrapping as release builds do).
pub open spec fn clip(bx: VisibleBox, off: Pos, pw: usize, ph: usize) -> VisibleBox {
    let x0 = larger(bx.0, off.0);
    let y0 = larger(bx.1, off.1);
    (x0, y0,
        smaller(off.0.wrapping_add(signed(pw)).wrapping_sub(x0), bx.2),
        smaller(off.1.wrapping_add(signed(ph)).wrapping_sub(y0), bx.3))
}

/// The box once cut by every rectangle met walking up from `working` (within `n` steps); a
/// parent whose absolute offset is unknown is reported missing.
pub open spec fn clip_walk(rects: Map<usize, Rect>, working: usize, bx: VisibleBox, n: nat) -> Result<VisibleBox, WreckedError>
    decreases n,
{
    if !has_up(rects, working) || n == 0 {
        Ok(bx)
    } else {
        let p = up(rects, working);
        match abs_offset(rects, p) {
            Some(off) => clip_walk(rects, p, clip(bx, off, rects[p].width, rects[p].height), (n - 1) as nat),
            None => Err(WreckedError::NotFound(p)),
        }
    }
}

/// The part of the screen a rectangle can show: its own box at its absolute offset, cut by
/// every rectangle above it.
pub open spec fn visible_box(rects: Map<usize, Rect>, id: usize) -> Result<VisibleBox, WreckedError> {
    if !rects.contains_key(id) {
        Err(WreckedError::NotFound(id))
    } else {
        let off = match abs_offset(rects, id) { Some(o) => o, None => (0isize, 0isize) };
        clip_walk(rects, id, (off.0, off.1, signed(rects[id].width), signed(rects[id].height)),
            choose|n: nat| chain_ends(rects, id, n))
    }
}

/// Whether position `p` of a rectangle at absolute offset `off` lies in box `bx`.
pub open spec fn in_view(p: Pos, off: Pos, bx: VisibleBox) -> bool {
    let q = add_pos(off, p);
    !(q.0 < bx.0 || q.0 >= bx.0.wrapping_add(bx.2) || q.1 < bx.1 || q.1 >= bx.1.wrapping_add(bx.3))
}

/// The cell drawn for queued position `p`: at its absolute position, with its character and
/// effects.
pub open spec fn draw_cell(q: Map<Pos, QueuedCell>, p: Pos, off: Pos) -> DisplayCell {
    (add_pos(off, p), (q[p].0, q[p].1))
}

/// The queued positions that are drawn.
pub open spec fn drawn(q: Map<Pos, QueuedCell>, off: Pos, bx: VisibleBox) -> Set<Pos> {
    Set::new(|p: Pos| q.contains_key(p) && in_view(p, off, bx))
}

/// Going through cells in order, those that differ from what the cache holds at their
/// position; the cache records each one kept.
pub open spec fn filter_fold(cache: Map<Pos, (char, EffectsHandler)>, cells: Seq<DisplayCell>)
    -> (Seq<DisplayCell>, Map<Pos, (char, EffectsHandler)>)
    decreases cells.len(),
{
    if cells.len() == 0 {
        (Seq::empty(), cache)
    } else {
        let prev = filter_fold(cache, cells.drop_last());
        let c = cells.last();
        if prev.1.contains_key(c.0) && prev.1[c.0] == c.1 {
            prev
        } else {
            (prev.0.push(c), prev.1.insert(c.0, c.1))
        }
    }
}

/// Whether a cell differs from what the cache holds at its position.
pub open spec fn fresh(cache: Map<Pos, (char, EffectsHandler)>, c: DisplayCell) -> bool {
    !(cache.contains_key(c.0) && cache[c.0] == c.1)
}

/// A set of cells as a map from position to what is drawn there.
pub open spec fn as_map(cells: Set<DisplayCell>) -> Map<Pos, (char, EffectsHandler)> {
    Map::new(|q: Pos| exists|c: DisplayCell| cells.contains(c) && c.0 == q,
        |q: Pos| (choose|c: DisplayCell| cells.contains(c) && c.0 == q).1)
}

/// Whether no two cells share a position.
pub open spec fn distinct_positions(cells: Seq<DisplayCell>) -> bool {
    forall|i: int, j: int| 0 <= i < j < cells.len() ==> cells[i].0 != cells[j].0
}

/// Of cells at distinct positions, the two at one position are the same.
pub proof fn lemma_unique_at(cells: Seq<DisplayCell>, x: DisplayCell, y: DisplayCell)
    requires
        distinct_positions(cells),
        cells.contains(x),
        cells.contains(y),
        x.0 == y.0,
    ensures
        x == y,
{
    let i = choose|i: int| 0 <= i < cells.len() && cells[i] == x;
    let j = choose|j: int| 0 <= j < cells.len() && cells[j] == y;
    if i < j {
        assert(cells[i].0 != cells[j].0);
    } else if j < i {
        assert(cells[j].0 != cells[i].0);
    }
}

/// With cells at distinct positions, filtering keeps exactly the fresh ones, and the cache
/// ends up holding every cell.
pub proof fn lemma_filter_distinct(cache: Map<Pos, (char, EffectsHandler)>, cells: Seq<DisplayCell>)
    requires
        distinct_positions(cells),
    ensures
        filter_fold(cache, cells).0.to_set() == cells.to_set().filter(|c: DisplayCell| fresh(cache, c)),
        distinct_positions(filter_fold(cache, cells).0),
        filter_fold(cache, cells).1 == cache.union_prefer_right(as_map(cells.to_set())),
    decreases cells.len(),
{
    let out = filter_fold(cache, cells);
    if cells.len() == 0 {
        assert(out.0.to_set() =~= cells.to_set().filter(|c: DisplayCell| fresh(cache, c)));
        assert(as_map(cells.to_set()) =~= Map::<Pos, (char, EffectsHandler)>::empty());
        assert(cache.union_prefer_right(as_map(cells.to_set())) =~= cache);
    } else {
        let init = cells.drop_last();
        let c = cells.last();
        assert(distinct_positions(init)) by {
            assert forall|i: int, j: int| 0 <= i < j < init.len() implies init[i].0 != init[j].0 by {
                assert(init[i] == cells[i] && init[j] == cells[j]);
            }
        }
        lemma_filter_distinct(cache, init);
        let prev = filter_fold(cache, init);
        assert(cells =~= init.push(c));
        assert(cells[cells.len() - 1] == c);
        // c's position is new
        assert(!as_map(init.to_set()).contains_key(c.0)) by {
            if as_map(init.to_set()).contains_key(c.0) {
                let x = choose|x: DisplayCell| init.to_set().contains(x) && x.0 == c.0;
                let i = choose|i: int| 0 <= i < init.len() && init[i] == x;
                assert(cells[i].0 == cells[cells.len() - 1].0);
            }
        }
        assert(prev.1.contains_key(c.0) <==> cache.contains_key(c.0));
        assert(prev.1.contains_key(c.0) ==> prev.1[c.0] == cache[c.0]);
        assert(as_map(cells.to_set()) =~= as_map(init.to_set()).insert(c.0, c.1)) by {
            assert forall|q: Pos| #[trigger] as_map(cells.to_set()).contains_key(q) <==> as_map(init.to_set()).insert(c.0, c.1).contains_key(q) by {
                if as_map(cells.to_set()).contains_key(q) {
                    let x = choose|x: DisplayCell| cells.to_set().contains(x) && x.0 == q;
                    let i = choose|i: int| 0 <= i < cells.len() && cells[i] == x;
                    if i < init.len() {
                        assert(init[i] == x);
                        assert(init.to_set().contains(x));
                    }
                }
                if as_map(init.to_set()).contains_key(q) {
                    let x = choose|x: DisplayCell| init.to_set().contains(x) && x.0 == q;
                    let i = choose|i: int| 0 <= i < init.len() && init[i] == x;
                    assert(cells[i] == x);
                    assert(cells.to_set().contains(x));
                }
                if q == c.0 {
                    assert(cells.to_set().contains(c));
                }
            }
            assert forall|q: Pos| #[trigger] as_map(cells.to_set()).contains_key(q) implies as_map(cells.to_set())[q] == as_map(init.to_set()).insert(c.0, c.1)[q] by {
                let x = choose|x: DisplayCell| cells.to_set().contains(x) && x.0 == q;
                if q == c.0 {
                    assert(cells.contains(c));
                    lemma_unique_at(cells, x, c);
                } else {
                    let i = choose|i: int| 0 <= i < cells.len() && cells[i] == x;
                    assert(i < init.len());
                    assert(init[i] == x);
                    assert(init.to_set().contains(x));
                    let y = choose|y: DisplayCell| init.to_set().contains(y) && y.0 == q;
                    let j = choose|j: int| 0 <= j < init.len() && init[j] == y;
                    assert(cells[j] == y);
                    lemma_unique_at(cells, x, y);
                }
            }
        }
        assert(out.1 =~= cache.union_prefer_right(as_map(cells.to_set())));
        assert forall|x: DisplayCell| #[trigger] out.0.to_set().contains(x) <==> cells.to_set().filter(|c: DisplayCell| fresh(cache, c)).contains(x) by {
            if out.0.contains(x) {
                if prev.0.contains(x) {
                    assert(prev.0.to_set().contains(x));
                    let i = choose|i: int| 0 <= i < init.len() && init[i] == x;
                    assert(cells[i] == x);
                } else {
                    let i = choose|i: int| 0 <= i < out.0.len() && out.0[i] == x;
                    if i < prev.0.len() {
                        assert(prev.0[i] == x);
                    }
                    assert(x == c);
                }
            }
            if cells.contains(x) && fresh(cache, x) {
                let i = choose|i: int| 0 <= i < cells.len() && cells[i] == x;
                if i < init.len() {
                    assert(init[i] == x);
                    assert(prev.0.to_set().contains(x));
                    let j = choose|j: int| 0 <= j < prev.0.len() && prev.0[j] == x;
                    assert(out.0[j] == x);
                } else {
                    assert(x == c);
                    assert(out.0[out.0.len() - 1] == x);
                }
            }
        }
        assert(out.0.to_set() =~= cells.to_set().filter(|c: DisplayCell| fresh(cache, c)));
        assert(distinct_positions(out.0)) by {
            if out.0.len() > prev.0.len() {
                assert forall|i: int, j: int| 0 <= i < j < out.0.len() implies out.0[i].0 != out.0[j].0 by {
                    if j == out.0.len() - 1 {
                        assert(out.0[i] == prev.0[i]);
                        assert(prev.0.to_set().contains(prev.0[i]));
                        let m = choose|m: int| 0 <= m < init.len() && init[m] == prev.0[i];
                        assert(cells[m].0 != cells[cells.len() - 1].0);
                    } else {
                        assert(out.0[i] == prev.0[i] && out.0[j] == prev.0[j]);
                    }
                }
            }
        }
    }
}

/// The levels below a rectangle that a refresh may reach, from a bound on the depth of the
/// tree.
pub open spec fn fuel(rects: Map<usize, Rect>, id: usize) -> nat {
    let d = choose|d: nat| crate::tree::depth_bound(rects, d);
    (d - crate::tree::steps(rects, id, d)) as nat
}

/// The views after refreshing rectangle `id`.
pub open spec fn refreshed(rects: Map<usize, Rect>, id: usize) -> Map<usize, RectView> {
    refresh(views(rects), id, fuel(rects, id))
}

/// Where on the screen a rectangle's corner is drawn: its absolute offset, or the origin.
pub open spec fn screen_offset(rects: Map<usize, Rect>, id: usize) -> Pos {
    match abs_offset(rects, id) {
        Some(o) => o,
        None => (0isize, 0isize),
    }
}

/// The part of the screen a rectangle can show, or nothing.
pub open spec fn screen_box(rects: Map<usize, Rect>, id: usize) -> VisibleBox {
    match visible_box(rects, id) {
        Ok(b) => b,
        Err(_) => (0isize, 0isize, 0isize, 0isize),
    }
}

/// Whether drawing rectangle `id` shows anything: it exists and is enabled.
pub open spec fn drawable(rects: Map<usize, Rect>, id: usize) -> bool {
    rects.contains_key(id) && rects[id].enabled
}

/// The positions of the refreshed queue of `id` that are drawn.
pub open spec fn frame_positions(rects: Map<usize, Rect>, id: usize) -> Set<Pos> {
    if drawable(rects, id) {
        drawn(refreshed(rects, id)[id].queued_display, screen_offset(rects, id), screen_box(rects, id))
    } else {
        Set::empty()
    }
}

/// The cells that drawing rectangle `id` yields, at their absolute positions.
pub open spec fn frame_cells(rects: Map<usize, Rect>, id: usize) -> Set<DisplayCell> {
    frame_positions(rects, id).map(|p: Pos| draw_cell(refreshed(rects, id)[id].queued_display, p, screen_offset(rects, id)))
}

/// The views after drawing rectangle `id`: refreshed, and the drawn cells moved from its
/// queue to what it has drawn.
pub open spec fn after_draw(rects: Map<usize, Rect>, id: usize) -> Map<usize, RectView> {
    let r = refreshed(rects, id);
    if drawable(rects, id) {
        let dp = frame_positions(rects, id);
        let v = r[id];
        r.insert(id, RectView {
            queued_display: v.queued_display.remove_keys(dp),
            cached_display: v.cached_display.union_prefer_right(v.queued_display.restrict(dp)),
            ..v
        })
    } else {
        r
    }
}

/// Whether two views agree on everything but the characters, the flags and the cells.
pub open spec fn same_frame_view(a: RectView, b: RectView) -> bool {
    &&& a.rect_id == b.rect_id
    &&& a.width == b.width
    &&& a.height == b.height
    &&& a.default_character == b.default_character
    &&& a.parent == b.parent
    &&& a.children == b.children
    &&& a.space == b.space
    &&& a.inverse == b.inverse
    &&& a.child_positions == b.child_positions
    &&& a.child_ranks == b.child_ranks
    &&& a.enabled == b.enabled
    &&& a.transparent == b.transparent
    &&& a.effects == b.effects
}

/// Whether two sets of views hold the same rectangles with the same frames.
pub open spec fn same_frames(a: Map<usize, RectView>, b: Map<usize, RectView>) -> bool {
    &&& a.dom() == b.dom()
    &&& forall|k: usize| #[trigger] a.contains_key(k) ==> same_frame_view(a[k], b[k])
}

/// Refreshing changes no frame.
pub proof fn lemma_refresh_frames(s: Map<usize, RectView>, id: usize, n: nat)
    ensures
        same_frames(s, refresh(s, id, n)),
    decreases n, 1nat,
{
    if s.contains_key(id) && s[id].enabled {
        let s2 = s.insert(id, prepped(s[id]));
        lemma_fill_frames(s2, id, targets(s[id]), n);
        assert(s2.dom() =~= s.dom());
    }
}

/// Filling changes no frame.
pub proof fn lemma_fill_frames(s: Map<usize, RectView>, id: usize, b: Set<Pos>, n: nat)
    requires
        s.contains_key(id),
    ensures
        same_frames(s, fill(s, id, b, n)),
    decreases n, 0nat,
{
    let r0 = s[id];
    let r1 = uncovered_done(r0, b);
    let s0 = s.insert(id, r1);
    assert(s0.dom() =~= s.dom());
    if n > 0 {
        lemma_kids_frames(s0, r0.children, required(r0, b, s), (n - 1) as nat);
    }
    let s1 = if n == 0 { s0 } else { refresh_kids(s0, r0.children, required(r0, b, s), (n - 1) as nat) };
    assert(same_frames(s0, s1));
    assert(fill(s, id, b, n).dom() =~= s.dom());
}

/// Refreshing a list of children changes no frame.
pub proof fn lemma_kids_frames(s: Map<usize, RectView>, kids: Seq<usize>, req: Set<usize>, n: nat)
    ensures
        same_frames(s, refresh_kids(s, kids, req, n)),
    decreases n, kids.len() + 2,
{
    if kids.len() > 0 {
        let s2 = if req.contains(kids[0]) { refresh(s, kids[0], n) } else { s };
        if req.contains(kids[0]) {
            lemma_refresh_frames(s, kids[0], n);
        }
        lemma_kids_frames(s2, kids.drop_first(), req, n);
    }
}

/// Refreshing a list of children when none is to be read changes nothing.
pub proof fn lemma_kids_none(s: Map<usize, RectView>, kids: Seq<usize>, n: nat)
    ensures
        refresh_kids(s, kids, Set::empty(), n) == s,
    decreases kids.len(),
{
    if kids.len() > 0 {
        lemma_kids_none(s, kids.drop_first(), n);
    }
}

/// Filling no position changes nothing.
pub proof fn lemma_fill_nothing(s: Map<usize, RectView>, id: usize, n: nat)
    requires
        s.contains_key(id),
    ensures
        fill(s, id, Set::empty(), n) == s,
{
    let r0 = s[id];
    let b = Set::<Pos>::empty();
    let r1 = uncovered_done(r0, b);
    assert(r1.character_space =~= r0.character_space);
    assert(r1.queued_display =~= r0.queued_display);
    assert(r1 == r0);
    assert(s.insert(id, r1) =~= s);
    assert(required(r0, b, s) =~= Set::<usize>::empty());
    lemma_kids_none(s, r0.children, (n - 1) as nat);
    let c = covered_done(r1, b, s, s);
    assert(c.character_space =~= r1.character_space);
    assert(c.queued_display =~= r1.queued_display);
    assert(c == r1);
}

/// Rectangles with the same parents, offsets and sizes walk up alike.
proof fn lemma_walks_alike(a: Map<usize, Rect>, b: Map<usize, Rect>, w: usize, acc: Pos, bx: VisibleBox, n: nat)
    requires
        a.dom() == b.dom(),
        forall|k: usize| #[trigger] a.contains_key(k) ==> a[k].parent == b[k].parent
            && a[k].child_positions@ == b[k].child_positions@ && a[k].width == b[k].width && a[k].height == b[k].height,
    ensures
        chain_ends(a, w, n) == chain_ends(b, w, n),
        abs_walk(a, w, acc, n) == abs_walk(b, w, acc, n),
    decreases n,
{
    if has_up(a, w) && n > 0 {
        lemma_walks_alike(a, b, up(a, w), acc, bx, (n - 1) as nat);
        match rel_offset(a, w) {
            Some(p) => lemma_walks_alike(a, b, up(a, w), add_pos(acc, p), bx, (n - 1) as nat),
            None => {},
        }
    }
}

/// Cutting a box walking up needs no more steps than the walk takes.
proof fn lemma_clip_walk_fuel(rects: Map<usize, Rect>, w: usize, bx: VisibleBox, n: nat, m: nat)
    requires
        chain_ends(rects, w, n),
        n <= m,
    ensures
        clip_walk(rects, w, bx, n) == clip_walk(rects, w, bx, m),
    decreases n,
{
    if has_up(rects, w) && n > 0 {
        let p = up(rects, w);
        match abs_offset(rects, p) {
            Some(off) => lemma_clip_walk_fuel(rects, p, clip(bx, off, rects[p].width, rects[p].height), (n - 1) as nat, (m - 1) as nat),
            None => {},
        }
    }
}

/// Rectangles with the same parents, offsets and sizes cut boxes alike.
proof fn lemma_clips_alike(a: Map<usize, Rect>, b: Map<usize, Rect>, w: usize, bx: VisibleBox, n: nat)
    requires
        crate::tree::acyclic(a),
        a.dom() == b.dom(),
        forall|k: usize| #[trigger] a.contains_key(k) ==> a[k].parent == b[k].parent
            && a[k].child_positions@ == b[k].child_positions@ && a[k].width == b[k].width && a[k].height == b[k].height,
    ensures
        clip_walk(a, w, bx, n) == clip_walk(b, w, bx, n),
    decreases n,
{
    if has_up(a, w) && n > 0 {
        let p = up(a, w);
        lemma_offsets_alike(a, b, p);
        match abs_offset(a, p) {
            Some(off) => lemma_clips_alike(a, b, p, clip(bx, off, a[p].width, a[p].height), (n - 1) as nat),
            None => {},
        }
    }
}

/// Rectangles with the same parents, offsets and sizes have the same absolute offsets.
proof fn lemma_offsets_alike(a: Map<usize, Rect>, b: Map<usize, Rect>, id: usize)
    requires
        crate::tree::acyclic(a),
        a.dom() == b.dom(),
        forall|k: usize| #[trigger] a.contains_key(k) ==> a[k].parent == b[k].parent
            && a[k].child_positions@ == b[k].child_positions@ && a[k].width == b[k].width && a[k].height == b[k].height,
    ensures
        abs_offset(a, id) == abs_offset(b, id),
{
    if a.contains_key(id) {
        let n = choose|n: nat| chain_ends(a, id, n);
        lemma_walks_alike(a, b, id, (0isize, 0isize), (0isize, 0isize, 0isize, 0isize), n);
        crate::tree::lemma_abs_offset_fuel(a, id, n);
        crate::tree::lemma_abs_offset_fuel(b, id, n);
    }
}

/// Rectangles with the same parents, offsets and sizes show a rectangle at the same place
/// of the screen, within the same box.
pub proof fn lemma_screen_alike(a: Map<usize, Rect>, b: Map<usize, Rect>, id: usize)
    requires
        crate::tree::acyclic(a),
        a.dom() == b.dom(),
        forall|k: usize| #[trigger] a.contains_key(k) ==> a[k].parent == b[k].parent
            && a[k].child_positions@ == b[k].child_positions@ && a[k].width == b[k].width && a[k].height == b[k].height,
    ensures
        screen_offset(a, id) == screen_offset(b, id),
        screen_box(a, id) == screen_box(b, id),
{
    lemma_offsets_alike(a, b, id);
    if a.contains_key(id) {
        let na = choose|n: nat| chain_ends(a, id, n);
        lemma_walks_alike(a, b, id, (0isize, 0isize), (0isize, 0isize, 0isize, 0isize), na);
        assert(chain_ends(b, id, na));
        let nb = choose|n: nat| chain_ends(b, id, n);
        lemma_walks_alike(a, b, id, (0isize, 0isize), (0isize, 0isize, 0isize, 0isize), nb);
        let m = if na > nb { na } else { nb };
        let off = match abs_offset(a, id) { Some(o) => o, None => (0isize, 0isize) };
        let bx = (off.0, off.1, signed(a[id].width), signed(a[id].height));
        lemma_clip_walk_fuel(a, id, bx, na, m);
        lemma_clip_walk_fuel(b, id, bx, nb, m);
        lemma_clips_alike(a, b, id, bx, m);
    }
}

} // verus!
