//! Properties that hold across calls: what a read gives back after a write, where a
//! rectangle ends up on the screen, what deleting leaves, what a frame shows and what is not
//! sent twice.
use vstd::prelude::*;
use crate::rect::{Rect, RectView, Pos};
use crate::effects::{Color, EffectsHandler};
use crate::tree::{chars_became, effects_became, has_up, up, rel_offset, abs_offset, abs_walk, add_pos, chain_ends,
    subtree_of, reg_chain};
use crate::manager::RectManager;
use crate::text::{written, slot, tdiv, trem};
use crate::render::{stack, see_through, pick, covered_cell, uncovered_done, own_cell, seen_from, filter_fold, distinct_positions, views, refreshed, refresh, fill, prepped, targets, fuel, after_draw, drawable, frame_positions,
    frame_cells, fresh, same_frame_view, same_frames, lemma_refresh_frames, lemma_fill_frames, lemma_fill_nothing, lemma_screen_alike};
use crate::ansi::{DisplayCell, sgr_codes, fg_code, bg_code};
use crate::rect::shifted;
use crate::render::{clip, clip_walk, visible_box, VisibleBox};
use crate::tree::{above_within, is_above, tree_ok};

verus! {

/// Reading back a position just set (as `set_character` leaves it when the position is
/// inside the rectangle) gives the character set.
pub proof fn law_read_after_write(a: Map<usize, Rect>, b: Map<usize, Rect>, id: usize, x: isize, y: isize, c: char)
    requires
        a.contains_key(id),
        a[id].holds(x, y),
        a[id].char_change(x, y, c) ==> chars_became(a, b, id, a[id].character_space@.insert((x, y), c)),
        !a[id].char_change(x, y, c) ==> b == a,
    ensures
        b.contains_key(id),
        b[id].holds(x, y),
        b[id].char_at(x, y) == c,
{
}

/// Reading back a position just unset (as `unset_character` leaves it) gives the
/// rectangle's default character.
pub proof fn law_unset_reads_default(a: Map<usize, Rect>, b: Map<usize, Rect>, id: usize, x: isize, y: isize)
    requires
        a.contains_key(id),
        a[id].holds(x, y),
        a[id].char_change(x, y, a[id].default_character)
            ==> chars_became(a, b, id, a[id].character_space@.insert((x, y), a[id].default_character)),
        !a[id].char_change(x, y, a[id].default_character) ==> b == a,
    ensures
        b[id].char_at(x, y) == b[id].default_character,
{
}

/// The foreground color read back after setting it (as `set_fg_color` leaves the
/// rectangles) is the color set; the other effects stay.
pub proof fn law_fg_color_read_back(a: Map<usize, Rect>, b: Map<usize, Rect>, id: usize, color: Color)
    requires
        a.contains_key(id),
        effects_became(a, b, id, EffectsHandler { foreground_color: Some(color), ..a[id].effects }),
    ensures
        b.contains_key(id),
        b[id].effects.foreground_color == Some(color),
        b[id].effects.background_color == a[id].effects.background_color,
        b[id].effects.bold == a[id].effects.bold,
{
}

/// The background color read back after setting it (as `set_bg_color` leaves the
/// rectangles) is the color set; the other effects stay.
pub proof fn law_bg_color_read_back(a: Map<usize, Rect>, b: Map<usize, Rect>, id: usize, color: Color)
    requires
        a.contains_key(id),
        effects_became(a, b, id, EffectsHandler { background_color: Some(color), ..a[id].effects }),
    ensures
        b.contains_key(id),
        b[id].effects.background_color == Some(color),
        b[id].effects.foreground_color == a[id].effects.foreground_color,
        b[id].effects.underline == a[id].effects.underline,
{
}

/// A deleted rectangle (as `delete_rect` leaves the rectangles) is gone, and so is every
/// rectangle below it; its parent stays.
pub proof fn law_deleted_is_gone(a: Map<usize, Rect>, b: Map<usize, Rect>, id: usize, x: usize)
    requires
        a.contains_key(id),
        has_up(a, id),
        RectManager::deleted(a, b, id),
        a.contains_key(x),
        crate::tree::in_subtree(a, x, id),
    ensures
        !b.contains_key(id),
        !b.contains_key(x),
        b.contains_key(up(a, id)),
{
    assert(reg_chain(a, id, id, 0));
    assert(subtree_of(a, id).contains(id));
    assert(subtree_of(a, id).contains(x));
}

/// Two offsets counted from a rectangle's corner, on or after it, land on the same position
/// only if they are the same.
proof fn lemma_slot_injective(i: int, j: int, w: int)
    requires
        w > 0,
        0 <= i <= isize::MAX,
        0 <= j <= isize::MAX,
        slot(i, w) == slot(j, w),
    ensures
        i == j,
{
    assert(i == (i / w) * w + i % w && 0 <= i % w < w && 0 <= i / w <= i) by (nonlinear_arith)
        requires
            w > 0,
            i >= 0,
    ;
    assert(j == (j / w) * w + j % w && 0 <= j % w < w && 0 <= j / w <= j) by (nonlinear_arith)
        requires
            w > 0,
            j >= 0,
    ;
    assert(trem(i, w) == i % w && tdiv(i, w) == i / w);
    assert(trem(j, w) == j % w && tdiv(j, w) == j / w);
    assert((i % w) as isize == i % w && (i / w) as isize == i / w);
    assert((j % w) as isize == j % w && (j / w) as isize == j / w);
}

/// The character shown at `p` when a rectangle's characters are `m`.
pub open spec fn shown(r: Rect, m: Map<Pos, char>, p: Pos) -> char {
    if m.contains_key(p) { m[p] } else { r.default_character }
}

/// Each character of a string set in a rectangle (as `set_string` lays it out, row after
/// row from `start`) is read back at its position.
pub proof fn law_string_reads_back(r: Rect, cs: Seq<char>, start: int, k: int)
    requires
        crate::rect::signed(r.width) > 0,
        start >= 0,
        start + cs.len() <= isize::MAX,
        0 <= k < cs.len(),
    ensures
        shown(r, written(r, cs, start), slot(start + k, crate::rect::signed(r.width) as int)) == cs[k],
    decreases cs.len(),
{
    let w = crate::rect::signed(r.width) as int;
    let last = cs.len() - 1;
    let p = slot(start + last, w);
    if k < last {
        law_string_reads_back(r, cs.drop_last(), start, k);
        assert(cs.drop_last()[k] == cs[k]);
        if slot(start + k, w) == p {
            lemma_slot_injective(start + k, start + last, w);
        }
    }
}

/// Drawing a rectangle a second time with nothing changed in between (as `draw` leaves the
/// environment each time) writes nothing: what the first drawing put on the screen is not
/// sent again.
pub proof fn law_redraw_is_quiet(m0: RectManager, m1: RectManager, m2: RectManager, id: usize,
    r1: Option<String>, r2: Option<String>)
    requires
        m0.wf(),
        RectManager::drew(&m0, &m1, id, r1),
        RectManager::drew(&m1, &m2, id, r2),
    ensures
        r2 is None,
{
    let a0 = m0.rects();
    let a1 = m1.rects();
    m0.lemma_wf_forest();
    let s0 = views(a0);
    let r0 = refreshed(a0, id);
    lemma_refresh_frames(s0, id, fuel(a0, id));
    assert(same_frames(s0, r0));
    assert(s0.dom() == a0.dom());
    assert(views(a1) == after_draw(a0, id));
    // the frames are those of before the first drawing
    assert(a1.dom() =~= a0.dom()) by {
        assert(views(a1).dom() == a1.dom());
        assert(s0.dom() == a0.dom());
    }
    assert forall|k: usize| #[trigger] a0.contains_key(k) implies a0[k].parent == a1[k].parent
        && a0[k].child_positions@ == a1[k].child_positions@ && a0[k].width == a1[k].width && a0[k].height == a1[k].height by {
        assert(s0.contains_key(k));
        assert(same_frame_view(s0[k], r0[k]));
        assert(views(a1)[k] == a1[k]@);
        assert(s0[k] == a0[k]@);
    }
    lemma_screen_alike(a0, a1, id);
    if drawable(a1, id) {
        assert(views(a1)[id] == a1[id]@);
        assert(drawable(a0, id)) by {
            if !drawable(a0, id) {
                assert(r0 == s0);
                assert(s0[id] == a0[id]@);
            }
        }
        let s2 = s0.insert(id, prepped(s0[id]));
        lemma_fill_frames(s2, id, targets(s0[id]), fuel(a0, id));
        let v1 = views(a1);
        let q0 = r0[id].queued_display;
        let dp0 = frame_positions(a0, id);
        assert(v1[id].flags_pos_refresh == Set::<Pos>::empty());
        assert(!v1[id].flag_full_refresh);
        assert(v1[id].queued_display == q0.remove_keys(dp0));
        assert(prepped(v1[id]) == v1[id]);
        assert(targets(v1[id]) =~= Set::<Pos>::empty());
        assert(v1.insert(id, prepped(v1[id])) =~= v1);
        lemma_fill_nothing(v1, id, fuel(a1, id));
        assert(refreshed(a1, id) == v1);
        assert(frame_positions(a1, id) =~= Set::<Pos>::empty()) by {
            assert forall|p: Pos| !#[trigger] frame_positions(a1, id).contains(p) by {
                if frame_positions(a1, id).contains(p) {
                    assert(q0.remove_keys(dp0).contains_key(p));
                    assert(dp0.contains(p));
                }
            }
        }
    }
    assert(frame_cells(a1, id) =~= Set::<DisplayCell>::empty());
    assert(frame_cells(a1, id).filter(|c: DisplayCell| fresh(m1.top_cache(), c)) =~= Set::<DisplayCell>::empty());
}

/// Walking up adds the same offsets whatever it starts from: starting `d` further gives a
/// result `d` further.
proof fn lemma_abs_walk_shift(rects: Map<usize, Rect>, w: usize, acc: Pos, d: Pos, n: nat)
    ensures
        abs_walk(rects, w, add_pos(acc, d), n) == (match abs_walk(rects, w, acc, n) {
            Some(o) => Some(add_pos(o, d)),
            None => None,
        }),
    decreases n,
{
    if has_up(rects, w) && n > 0 {
        match rel_offset(rects, w) {
            Some(p) => {
                lemma_abs_walk_shift(rects, up(rects, w), add_pos(acc, p), d, (n - 1) as nat);
                lemma_add_pos_swap(acc, d, p);
            },
            None => {},
        }
    }
}

/// Adding two offsets in either order gives the same position (wrapping as release builds
/// do).
proof fn lemma_add_pos_swap(a: Pos, d: Pos, p: Pos)
    ensures
        add_pos(add_pos(a, d), p) == add_pos(add_pos(a, p), d),
{
    assert(a.0.wrapping_add(d.0).wrapping_add(p.0) == a.0.wrapping_add(p.0).wrapping_add(d.0));
    assert(a.1.wrapping_add(d.1).wrapping_add(p.1) == a.1.wrapping_add(p.1).wrapping_add(d.1));
}

/// The absolute offset of a rectangle whose parent records its offset is the parent's
/// absolute offset moved by that offset.
pub proof fn law_absolute_offset(rects: Map<usize, Rect>, id: usize)
    requires
        crate::tree::tree_ok(rects),
        rects.contains_key(id),
        has_up(rects, id),
        rel_offset(rects, id) is Some,
    ensures
        abs_offset(rects, id) == (match abs_offset(rects, up(rects, id)) {
            Some(o) => Some(add_pos(o, rel_offset(rects, id)->0)),
            None => None,
        }),
{
    let p = up(rects, id);
    let r = rel_offset(rects, id)->0;
    let n = choose|n: nat| chain_ends(rects, id, n);
    crate::tree::lemma_abs_offset_fuel(rects, id, n);
    assert(rects.contains_key(p));
    assert(n > 0);
    assert(chain_ends(rects, p, (n - 1) as nat));
    crate::tree::lemma_abs_offset_fuel(rects, p, (n - 1) as nat);
    assert(abs_walk(rects, id, (0isize, 0isize), n) == abs_walk(rects, p, add_pos((0isize, 0isize), r), (n - 1) as nat));
    lemma_abs_walk_shift(rects, p, (0isize, 0isize), r, (n - 1) as nat);
    assert(add_pos((0isize, 0isize), r) == r);
    assert(add_pos(add_pos((0isize, 0isize), (0isize, 0isize)), r) == r);
}

/// The positions that a list of cells covers.
pub open spec fn cell_positions(cells: Seq<DisplayCell>) -> Set<Pos> {
    Set::new(|q: Pos| exists|i: int| 0 <= i < cells.len() && cells[i].0 == q)
}

/// Filtering cells at distinct positions against what was last drawn (as `draw` filters a
/// frame) keeps, in order, exactly the cells not already shown; afterwards every cell is
/// recorded as shown, and every other position keeps what it had.
pub proof fn law_filter_keeps_fresh(cache: Map<Pos, (char, EffectsHandler)>, cells: Seq<DisplayCell>)
    requires
        distinct_positions(cells),
    ensures
        filter_fold(cache, cells).0 == cells.filter(|c: DisplayCell| fresh(cache, c)),
        forall|i: int| 0 <= i < cells.len() ==> filter_fold(cache, cells).1.contains_key(#[trigger] cells[i].0)
            && filter_fold(cache, cells).1[cells[i].0] == cells[i].1,
        forall|q: Pos| !cell_positions(cells).contains(q) ==> (#[trigger] filter_fold(cache, cells).1.contains_key(q)
            == cache.contains_key(q)) && (cache.contains_key(q) ==> filter_fold(cache, cells).1[q] == cache[q]),
    decreases cells.len(),
{
    reveal(Seq::filter);
    if cells.len() > 0 {
        let d = cells.drop_last();
        let c = cells.last();
        assert(distinct_positions(d)) by {
            assert forall|i: int, j: int| 0 <= i < j < d.len() implies d[i].0 != d[j].0 by {
                assert(d[i] == cells[i] && d[j] == cells[j]);
            }
        }
        law_filter_keeps_fresh(cache, d);
        let prev = filter_fold(cache, d);
        assert(!cell_positions(d).contains(c.0)) by {
            if cell_positions(d).contains(c.0) {
                let i = choose|i: int| 0 <= i < d.len() && d[i].0 == c.0;
                assert(cells[i].0 == cells[cells.len() - 1].0);
            }
        }
        assert(prev.1.contains_key(c.0) == cache.contains_key(c.0));
        let r = filter_fold(cache, cells);
        assert forall|i: int| 0 <= i < cells.len() implies r.1.contains_key(#[trigger] cells[i].0) && r.1[cells[i].0] == cells[i].1 by {
            if i < cells.len() - 1 {
                assert(cells[i] == d[i]);
                assert(cells[i].0 != c.0);
            }
        }
        assert forall|q: Pos| !cell_positions(cells).contains(q) implies (#[trigger] r.1.contains_key(q)
            == cache.contains_key(q)) && (cache.contains_key(q) ==> r.1[q] == cache[q]) by {
            assert(!cell_positions(d).contains(q)) by {
                if cell_positions(d).contains(q) {
                    let i = choose|i: int| 0 <= i < d.len() && d[i].0 == q;
                    assert(cells[i].0 == q);
                }
            }
            assert(q != c.0) by {
                assert(cells[cells.len() - 1].0 == c.0);
            }
        }
    }
}

/// Filtering the same cells a second time, against what the first filtering recorded, keeps
/// none of them: a frame is not sent twice.
pub proof fn law_filter_twice_keeps_nothing(cache: Map<Pos, (char, EffectsHandler)>, cells: Seq<DisplayCell>)
    requires
        distinct_positions(cells),
    ensures
        filter_fold(filter_fold(cache, cells).1, cells).0 == Seq::<DisplayCell>::empty(),
{
    let c2 = filter_fold(cache, cells).1;
    law_filter_keeps_fresh(cache, cells);
    law_filter_keeps_fresh(c2, cells);
    assert forall|i: int| 0 <= i < cells.len() implies !fresh(c2, #[trigger] cells[i]) by {
        assert(c2.contains_key(cells[i].0) && c2[cells[i].0] == cells[i].1);
    }
    lemma_filter_none(cells, |c: DisplayCell| fresh(c2, c));
}

/// A filter that no element passes keeps nothing.
proof fn lemma_filter_none(cells: Seq<DisplayCell>, pred: spec_fn(DisplayCell) -> bool)
    requires
        forall|i: int| 0 <= i < cells.len() ==> !pred(#[trigger] cells[i]),
    ensures
        cells.filter(pred) == Seq::<DisplayCell>::empty(),
    decreases cells.len(),
{
    reveal(Seq::filter);
    if cells.len() > 0 {
        let d = cells.drop_last();
        assert forall|i: int| 0 <= i < d.len() implies !pred(#[trigger] d[i]) by {
            assert(d[i] == cells[i]);
        }
        lemma_filter_none(d, pred);
        assert(!pred(cells[cells.len() - 1]));
    }
}

/// Looking down the children recorded at a position (lowest rank first in `l`), the stack
/// starts at the topmost child, with its rank, and passes only transparent children before
/// the first opaque one, where it stops.
pub proof fn law_stack_stops_at_opaque(l: Seq<usize>, s: Map<usize, RectView>)
    ensures
        l.len() > 0 ==> stack(l, s).len() > 0 && stack(l, s)[0] == (l.last(), l.len() as usize),
        forall|j: int| 0 <= j < stack(l, s).len() - 1 ==> see_through(s, #[trigger] stack(l, s)[j].0),
        stack(l, s).len() < l.len() ==> stack(l, s).len() > 0 && !see_through(s, stack(l, s).last().0),
        stack(l, s).len() <= l.len(),
    decreases l.len(),
{
    if l.len() > 0 {
        law_stack_stops_at_opaque(l.drop_last(), s);
        let st = stack(l, s);
        if see_through(s, l.last()) {
            let rest = stack(l.drop_last(), s);
            assert forall|j: int| 0 <= j < st.len() - 1 implies see_through(s, #[trigger] st[j].0) by {
                if j > 0 {
                    assert(st[j] == rest[j - 1]);
                }
            }
        }
    }
}

/// The topmost child at a position shows there when it is opaque and has a cell for that
/// position: the cell picked is its own, with its rank.
pub proof fn law_topmost_opaque_child_shows(l: Seq<usize>, s: Map<usize, RectView>, p: Pos, cps: Map<usize, Pos>,
    s1: Map<usize, RectView>)
    requires
        l.len() > 0,
        !see_through(s, l.last()),
        cps.contains_key(l.last()),
        s1.contains_key(l.last()),
        s1[l.last()].queued_display.contains_key(seen_from(p, cps[l.last()])),
    ensures
        pick(stack(l, s), p, cps, s1).0 == Some((s1[l.last()].queued_display[seen_from(p, cps[l.last()])], l.len() as usize)),
{
    assert(stack(l, s) == seq![(l.last(), l.len() as usize)]);
}

/// A transparent rectangle with no character at a position, and no child there, queues
/// nothing there: what is behind it shows.
pub proof fn law_transparent_shows_behind(r: RectView, b: Set<Pos>, p: Pos)
    requires
        r.transparent,
        !r.character_space.contains_key(p),
        b.contains(p),
        !r.covered(p),
    ensures
        !uncovered_done(r, b).queued_display.contains_key(p),
{
}

/// A transparent child with nothing to show at a position changes nothing there: taking it
/// out of the stack of children looked through leaves what is picked as it was.
pub proof fn law_transparent_child_skipped(st: Seq<(usize, usize)>, p: Pos, cps: Map<usize, Pos>, s1: Map<usize, RectView>,
    i: int)
    requires
        0 <= i < st.len(),
        cps.contains_key(st[i].0) ==> s1.contains_key(st[i].0) && s1[st[i].0].transparent
            && !s1[st[i].0].queued_display.contains_key(seen_from(p, cps[st[i].0])),
    ensures
        pick(st, p, cps, s1).0 == pick(st.remove(i), p, cps, s1).0,
    decreases i,
{
    if i == 0 {
        assert(st.remove(0) =~= st.drop_first());
    } else {
        let rest = st.drop_first();
        assert(st.remove(i).drop_first() =~= rest.remove(i - 1));
        assert(st.remove(i)[0] == st[0]);
        assert(rest[i - 1] == st[i]);
        law_transparent_child_skipped(rest, p, cps, s1, i - 1);
    }
}

/// Looking through children that are all transparent with nothing to show at a position
/// picks nothing, and meets a transparent child as soon as the topmost has an offset.
proof fn lemma_pick_through_transparent(st: Seq<(usize, usize)>, p: Pos, cps: Map<usize, Pos>, s1: Map<usize, RectView>)
    requires
        forall|j: int| 0 <= j < st.len() && cps.contains_key(#[trigger] st[j].0) ==> s1.contains_key(st[j].0)
            && s1[st[j].0].transparent && !s1[st[j].0].queued_display.contains_key(seen_from(p, cps[st[j].0])),
    ensures
        pick(st, p, cps, s1).0 is None,
        st.len() > 0 && cps.contains_key(st[0].0) ==> pick(st, p, cps, s1).1,
    decreases st.len(),
{
    if st.len() > 0 {
        let rest = st.drop_first();
        assert forall|j: int| 0 <= j < rest.len() && cps.contains_key(#[trigger] rest[j].0) implies s1.contains_key(rest[j].0)
            && s1[rest[j].0].transparent && !s1[rest[j].0].queued_display.contains_key(seen_from(p, cps[rest[j].0])) by {
            assert(rest[j] == st[j + 1]);
        }
        lemma_pick_through_transparent(rest, p, cps, s1);
        assert(st[0] == st[0]);
    }
}

/// Transparent children with nothing to show at a position change nothing there: where
/// every child covering the position is such a child (and the topmost one is placed), the
/// rectangle queues there what it would queue with no child there: its own cell, or, for a
/// transparent rectangle with no character there, nothing.
pub proof fn law_transparent_children_change_nothing(r: RectView, p: Pos, s: Map<usize, RectView>, s1: Map<usize, RectView>)
    requires
        r.covered(p),
        forall|j: int| 0 <= j < r.space[p].len() && r.child_positions.contains_key(#[trigger] r.space[p][j]) ==> {
            &&& s1.contains_key(r.space[p][j])
            &&& s1[r.space[p][j]].transparent
            &&& !s1[r.space[p][j]].queued_display.contains_key(seen_from(p, r.child_positions[r.space[p][j]]))
        },
        r.child_positions.contains_key(r.space[p].last()),
    ensures
        covered_cell(r, p, s, s1) == (if r.transparent && !r.character_space.contains_key(p) {
            None::<crate::rect::QueuedCell>
        } else {
            Some(own_cell(r, p))
        }),
{
    let l = r.space[p];
    let st = stack(l, s);
    law_stack_stops_at_opaque(l, s);
    lemma_stack_members(l, s);
    assert forall|j: int| 0 <= j < st.len() && r.child_positions.contains_key(#[trigger] st[j].0) implies s1.contains_key(st[j].0)
        && s1[st[j].0].transparent && !s1[st[j].0].queued_display.contains_key(seen_from(p, r.child_positions[st[j].0])) by {
        let k = choose|k: int| 0 <= k < l.len() && l[k] == st[j].0;
        assert(l[k] == st[j].0);
    }
    lemma_pick_through_transparent(st, p, r.child_positions, s1);
}

/// Every child on a stack is one of the children it was built from.
proof fn lemma_stack_members(l: Seq<usize>, s: Map<usize, RectView>)
    ensures
        forall|j: int| 0 <= j < stack(l, s).len() ==> exists|k: int| 0 <= k < l.len() && l[k] == #[trigger] stack(l, s)[j].0,
    decreases l.len(),
{
    if l.len() > 0 {
        let d = l.drop_last();
        lemma_stack_members(d, s);
        let st = stack(l, s);
        assert forall|j: int| 0 <= j < st.len() implies exists|k: int| 0 <= k < l.len() && l[k] == #[trigger] st[j].0 by {
            if j == 0 {
                assert(l[l.len() - 1] == st[0].0);
            } else {
                let rest = stack(d, s);
                assert(st[j] == rest[j - 1]);
                let k = choose|k: int| 0 <= k < d.len() && d[k] == rest[j - 1].0;
                assert(l[k] == d[k]);
            }
        }
    }
}


/// The SGR code that selects each color: the plain colors give 30 to 37 as foreground and
/// 40 to 47 as background, the bright ones 90 to 97 and 100 to 107.
pub proof fn law_color_codes()
    ensures
        fg_code(Color::BLACK) == 30, fg_code(Color::RED) == 31, fg_code(Color::GREEN) == 32,
        fg_code(Color::YELLOW) == 33, fg_code(Color::BLUE) == 34, fg_code(Color::MAGENTA) == 35,
        fg_code(Color::CYAN) == 36, fg_code(Color::WHITE) == 37,
        fg_code(Color::BRIGHTBLACK) == 90, fg_code(Color::BRIGHTRED) == 91, fg_code(Color::BRIGHTGREEN) == 92,
        fg_code(Color::BRIGHTYELLOW) == 93, fg_code(Color::BRIGHTBLUE) == 94, fg_code(Color::BRIGHTMAGENTA) == 95,
        fg_code(Color::BRIGHTCYAN) == 96, fg_code(Color::BRIGHTWHITE) == 97,
        bg_code(Color::BLACK) == 40, bg_code(Color::RED) == 41, bg_code(Color::GREEN) == 42,
        bg_code(Color::YELLOW) == 43, bg_code(Color::BLUE) == 44, bg_code(Color::MAGENTA) == 45,
        bg_code(Color::CYAN) == 46, bg_code(Color::WHITE) == 47,
        bg_code(Color::BRIGHTBLACK) == 100, bg_code(Color::BRIGHTRED) == 101, bg_code(Color::BRIGHTGREEN) == 102,
        bg_code(Color::BRIGHTYELLOW) == 103, bg_code(Color::BRIGHTBLUE) == 104, bg_code(Color::BRIGHTMAGENTA) == 105,
        bg_code(Color::BRIGHTCYAN) == 106, bg_code(Color::BRIGHTWHITE) == 107,
{
}

/// Switching to effects with nothing set sends the reset code 0; else, where a single effect
/// changes, exactly its code is sent: bold 1 (22 to end it), underline 4 (24), invert 7 (27),
/// italics 3 (23), blink 5 (25), strike 9 (29), a foreground color its code (39 for none),
/// a background color its code (49 for none).
pub proof fn law_single_change_codes(new: EffectsHandler, active: EffectsHandler)
    ensures
        new.spec_is_plain() ==> sgr_codes(new, active) == seq![0u8],
        !new.spec_is_plain() && new.bold != active.bold && new == (EffectsHandler { bold: new.bold, ..active })
            ==> sgr_codes(new, active) == seq![if new.bold { 1u8 } else { 22u8 }],
        !new.spec_is_plain() && new.underline != active.underline && new == (EffectsHandler { underline: new.underline, ..active })
            ==> sgr_codes(new, active) == seq![if new.underline { 4u8 } else { 24u8 }],
        !new.spec_is_plain() && new.invert != active.invert && new == (EffectsHandler { invert: new.invert, ..active })
            ==> sgr_codes(new, active) == seq![if new.invert { 7u8 } else { 27u8 }],
        !new.spec_is_plain() && new.italics != active.italics && new == (EffectsHandler { italics: new.italics, ..active })
            ==> sgr_codes(new, active) == seq![if new.italics { 3u8 } else { 23u8 }],
        !new.spec_is_plain() && new.blink != active.blink && new == (EffectsHandler { blink: new.blink, ..active })
            ==> sgr_codes(new, active) == seq![if new.blink { 5u8 } else { 25u8 }],
        !new.spec_is_plain() && new.strike != active.strike && new == (EffectsHandler { strike: new.strike, ..active })
            ==> sgr_codes(new, active) == seq![if new.strike { 9u8 } else { 29u8 }],
        !new.spec_is_plain() && new.foreground_color != active.foreground_color
            && new == (EffectsHandler { foreground_color: new.foreground_color, ..active })
            ==> sgr_codes(new, active) == seq![match new.foreground_color { Some(c) => fg_code(c), None => 39u8 }],
        !new.spec_is_plain() && new.background_color != active.background_color
            && new == (EffectsHandler { background_color: new.background_color, ..active })
            ==> sgr_codes(new, active) == seq![match new.background_color { Some(c) => bg_code(c), None => 49u8 }],
{
    let e = Seq::<u8>::empty();
    assert(e + e =~= e);
    assert forall|x: Seq<u8>| #[trigger] (x + e) =~= x && (e + x) =~= x by {}
}

/// Shifting a position adds the offsets to it, negative ones too (where the sum fits).
pub proof fn law_shift_adds_offsets(p: Pos, dx: isize, dy: isize)
    requires
        isize::MIN <= p.0 + dx <= isize::MAX,
        isize::MIN <= p.1 + dy <= isize::MAX,
    ensures
        shifted(p, dx, dy).0 == p.0 + dx,
        shifted(p, dx, dy).1 == p.1 + dy,
{
}

/// Cutting a box by the rectangles above never moves its left or top edge leftwards or up.
proof fn lemma_clip_walk_raises(rects: Map<usize, Rect>, working: usize, bx: VisibleBox, n: nat)
    ensures
        clip_walk(rects, working, bx, n) matches Ok(b) ==> b.0 >= bx.0 && b.1 >= bx.1,
    decreases n,
{
    if has_up(rects, working) && n > 0 {
        let p = up(rects, working);
        match abs_offset(rects, p) {
            Some(off) => lemma_clip_walk_raises(rects, p, clip(bx, off, rects[p].width, rects[p].height), (n - 1) as nat),
            None => {},
        }
    }
}

proof fn lemma_clip_walk_inside(rects: Map<usize, Rect>, working: usize, bx: VisibleBox, n: nat, a: usize, k: nat)
    requires
        above_within(rects, a, working, k),
        a != working,
        chain_ends(rects, working, n),
        clip_walk(rects, working, bx, n) is Ok,
    ensures
        abs_offset(rects, a) is Some,
        clip_walk(rects, working, bx, n) matches Ok(b) ==> (abs_offset(rects, a) matches Some(o)
            ==> b.0 >= o.0 && b.1 >= o.1),
    decreases k,
{
    let p = up(rects, working);
    let off = match abs_offset(rects, p) { Some(o) => o, None => (0isize, 0isize) };
    let c = clip(bx, off, rects[p].width, rects[p].height);
    assert(clip_walk(rects, working, bx, n) == clip_walk(rects, p, c, (n - 1) as nat));
    if a == p {
        lemma_clip_walk_raises(rects, p, c, (n - 1) as nat);
    } else {
        lemma_clip_walk_inside(rects, p, c, (n - 1) as nat, a, (k - 1) as nat);
    }
}

/// The part of the screen a rectangle can show lies inside every rectangle above it (and
/// its own box): its left and top are at least their absolute left and top, so no cell it
/// draws lies left of or above any of them.
pub proof fn law_visible_box_inside_ancestors(rects: Map<usize, Rect>, id: usize, a: usize)
    requires
        tree_ok(rects),
        is_above(rects, a, id),
        visible_box(rects, id) is Ok,
    ensures
        a != id ==> abs_offset(rects, a) is Some,
        visible_box(rects, id) matches Ok(b) ==> (abs_offset(rects, a) matches Some(o)
            ==> b.0 >= o.0 && b.1 >= o.1),
{
    let n = choose|n: nat| chain_ends(rects, id, n);
    assert(rects.contains_key(id));
    assert(exists|n: nat| chain_ends(rects, id, n));
    let off = match abs_offset(rects, id) { Some(o) => o, None => (0isize, 0isize) };
    let bx = (off.0, off.1, crate::rect::signed(rects[id].width), crate::rect::signed(rects[id].height));
    assert(visible_box(rects, id) == clip_walk(rects, id, bx, n));
    if a == id {
        lemma_clip_walk_raises(rects, id, bx, n);
    } else {
        let k = choose|k: nat| above_within(rects, a, id, k);
        lemma_clip_walk_inside(rects, id, bx, n, a, k);
    }
}

} // verus!
