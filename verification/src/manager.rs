//! The environment: a tree of rectangles, their ids, and what was last drawn.
use vstd::prelude::*;
use std::collections::{BTreeMap, BTreeSet};
use crate::ROOT;
use crate::effects::{Color, EffectsHandler};
use crate::error::WreckedError;
use crate::rect::{Rect, RectView, Pos, QueuedCell};
use crate::render::{views, stack, see_through, pick, refresh, fill, refresh_kids, required, prepped, targets,
    uncovered_done, covered_done, pick_at, covered_cell, own_cell, seen_from, VisibleBox, clip, clip_walk,
    visible_box, in_view, draw_cell, drawn, filter_fold, fresh, as_map, distinct_positions, fuel, refreshed,
    screen_offset, screen_box, drawable, frame_positions, frame_cells, after_draw};
use crate::ansi::{DisplayCell, spec_ansi_string, frame_end, build_ansi_string, push_frame_end};
use crate::order::{in_row_order, sort_cells};
use crate::tree::{
    tree_ok, ids_ok, ids_below, has_up, up, chain_ends, acyclic, same_links, same_links_map,
    lemma_tree_ok_same_links, rel_offset, abs_offset, abs_walk, add_pos, lemma_abs_offset_fuel,
    step_offset, parent_marks, area_marks, lemma_parent_marks_fuel, pos_marks, lemma_pos_marks_fuel,
    same_except_flags, lemma_same_except_flags_links, same_except_display,
    lemma_tree_ok_same_links_chain, lemma_marks_same_links, effects_became, lemma_tree_ok_replace,
    chars_became, in_subtree, reg_chain, subtree_of, depth_bound, steps, lemma_chain_same_links,
};

verus! {

broadcast use vstd::std_specs::btree::group_btree_axioms, vstd::laws_cmp::group_laws_cmp;

/// An environment to manage and display character-based graphics: rectangles arranged in a
/// tree, each with its own characters and effects.
pub struct RectManager {
    idgen: usize,
    recycle_ids: Vec<usize>,
    rects: BTreeMap<usize, Rect>,
    /// What was last drawn at each absolute position, so that it is not drawn again.
    top_cache: BTreeMap<Pos, (char, EffectsHandler)>,
    default_character: char,
}

/// The positions of the first `m` entries of a list of positions and stacks.
spec fn keys_before(ps: Seq<(Pos, Vec<(usize, usize)>)>, m: int) -> Set<Pos> {
    Set::new(|q: Pos| exists|jj: int| 0 <= jj < m && ps[jj].0 == q)
}

/// The cells of a queue whose positions fall in box `bx` once moved by `offset`, at their
/// absolute positions, with those positions.
fn collect_drawn(queue: &BTreeMap<Pos, QueuedCell>, offset: Pos, boundry_box: VisibleBox) -> (r: (Vec<DisplayCell>, Vec<Pos>))
    ensures
        r.0@.len() == r.1@.len(),
        r.1@.no_duplicates(),
        forall|i: int| 0 <= i < r.1@.len() ==> drawn(queue@, offset, boundry_box).contains(#[trigger] r.1@[i])
            && r.0@[i] == draw_cell(queue@, r.1@[i], offset),
        forall|p: Pos| #[trigger] drawn(queue@, offset, boundry_box).contains(p) ==> r.1@.contains(p),
{
    let ghost q = queue@;
    let ghost dp = drawn(q, offset, boundry_box);
    // the entries, in the order the map gives them
    let mut entries: Vec<(Pos, QueuedCell)> = Vec::new();
    for kv in it: queue.iter()
        invariant
            q == queue@,
            it.seq().len() == q.dom().len(),
            it.seq().no_duplicates(),
            forall|j: int| 0 <= j < it.seq().len() ==> q.contains_key(*it.seq()[j].0) && q[*it.seq()[j].0] == *it.seq()[j].1,
            forall|p: Pos| #[trigger] q.contains_key(p) ==> it.seq().contains((&p, &q[p])),
            entries@.len() == it.index(),
            forall|j: int| 0 <= j < it.index() ==> #[trigger] entries@[j] == (*it.seq()[j].0, *it.seq()[j].1),
            forall|a: int, b: int| 0 <= a < b < entries@.len() ==> entries@[a].0 != entries@[b].0,
            forall|p: Pos| #[trigger] q.contains_key(p) ==> (exists|j: int| 0 <= j < it.index() && entries@[j].0 == p)
                || exists|j: int| it.index() <= j < it.seq().len() && *it.seq()[j].0 == p,
    {
        let (k, v) = kv;
        let ghost idx = it.index();
        let ghost e0 = entries@;
        entries.push((*k, *v));
        proof {
            assert(it.seq()[idx] == kv);
            assert(entries@[idx as int] == (*it.seq()[idx].0, *it.seq()[idx].1));
            assert forall|a: int, b: int| 0 <= a < b < entries@.len() implies entries@[a].0 != entries@[b].0 by {
                if b == idx {
                    assert(entries@[a] == e0[a]);
                    assert(e0[a] == (*it.seq()[a].0, *it.seq()[a].1));
                    if entries@[a].0 == entries@[b].0 {
                        assert(*it.seq()[a].1 == q[*it.seq()[a].0]);
                        assert(*it.seq()[b].1 == q[*it.seq()[b].0]);
                        assert(it.seq()[a] == it.seq()[b]);
                    }
                } else {
                    assert(entries@[a] == e0[a] && entries@[b] == e0[b]);
                }
            }
            assert forall|p: Pos| #[trigger] q.contains_key(p) implies (exists|j: int| 0 <= j < idx + 1 && entries@[j].0 == p)
                || exists|j: int| idx + 1 <= j < it.seq().len() && *it.seq()[j].0 == p by {
                if exists|j: int| 0 <= j < idx && e0[j].0 == p {
                    let j = choose|j: int| 0 <= j < idx && e0[j].0 == p;
                    assert(entries@[j] == e0[j]);
                    assert(entries@[j].0 == p);
                } else {
                    let j = choose|j: int| idx <= j < it.seq().len() && *it.seq()[j].0 == p;
                    if j == idx {
                        assert(entries@[idx as int].0 == p);
                    }
                }
            }
        }
    }
    let mut to_draw: Vec<DisplayCell> = Vec::new();
    let mut to_cache: Vec<Pos> = Vec::new();
    let mut i: usize = 0;
    while i < entries.len()
        invariant
            q == queue@,
            dp == drawn(q, offset, boundry_box),
            i <= entries@.len(),
            forall|j: int| 0 <= j < entries@.len() ==> q.contains_key(#[trigger] entries@[j].0) && q[entries@[j].0] == entries@[j].1,
            forall|a: int, b: int| 0 <= a < b < entries@.len() ==> entries@[a].0 != entries@[b].0,
            forall|p: Pos| #[trigger] q.contains_key(p) ==> exists|j: int| 0 <= j < entries@.len() && entries@[j].0 == p,
            to_draw@.len() == to_cache@.len(),
            forall|m: int| 0 <= m < to_cache@.len() ==> dp.contains(#[trigger] to_cache@[m])
                && to_draw@[m] == draw_cell(q, to_cache@[m], offset),
            forall|m: int| 0 <= m < to_cache@.len() ==> exists|j: int| 0 <= j < i && entries@[j].0 == #[trigger] to_cache@[m],
            to_cache@.no_duplicates(),
            forall|p: Pos| #[trigger] dp.contains(p) ==> to_cache@.contains(p)
                || exists|j: int| i <= j < entries@.len() && entries@[j].0 == p,
        decreases entries@.len() - i,
    {
        let (pos, val) = entries[i];
        let ghost c0 = to_cache@;
        let ghost d0 = to_draw@;
        let ax = offset.0.wrapping_add(pos.0);
        let ay = offset.1.wrapping_add(pos.1);
        if ax < boundry_box.0 || ax >= boundry_box.0.wrapping_add(boundry_box.2)
            || ay < boundry_box.1 || ay >= boundry_box.1.wrapping_add(boundry_box.3) {
        } else {
            to_draw.push(((ax, ay), (val.0, val.1)));
            to_cache.push(pos);
        }
        proof {
            assert(q.contains_key(pos) && q[pos] == val);
            assert forall|m: int| 0 <= m < to_cache@.len() implies exists|j: int| 0 <= j < i + 1 && entries@[j].0 == #[trigger] to_cache@[m] by {
                if m < c0.len() {
                    assert(to_cache@[m] == c0[m]);
                    let j = choose|j: int| 0 <= j < i && entries@[j].0 == c0[m];
                } else {
                    assert(entries@[i as int].0 == to_cache@[m]);
                }
            }
            if to_cache@.len() > c0.len() {
                assert(!c0.contains(pos)) by {
                    if c0.contains(pos) {
                        let m = choose|m: int| 0 <= m < c0.len() && c0[m] == pos;
                        let j = choose|j: int| 0 <= j < i && entries@[j].0 == c0[m];
                        assert(entries@[j].0 != entries@[i as int].0);
                    }
                }
                assert forall|m1: int, m2: int| 0 <= m1 < m2 < to_cache@.len() implies to_cache@[m1] != to_cache@[m2] by {
                    if m2 == c0.len() {
                        assert(c0[m1] == to_cache@[m1]);
                        assert(c0.contains(to_cache@[m1]));
                    } else {
                        assert(c0[m1] == to_cache@[m1] && c0[m2] == to_cache@[m2]);
                    }
                }
                assert(dp.contains(pos));
                assert(to_draw@[c0.len() as int] == draw_cell(q, pos, offset));
            } else {
                assert(!in_view(pos, offset, boundry_box));
            }
            assert forall|m: int| 0 <= m < to_cache@.len() implies dp.contains(#[trigger] to_cache@[m])
                && to_draw@[m] == draw_cell(q, to_cache@[m], offset) by {
                if m < c0.len() {
                    assert(to_cache@[m] == c0[m] && to_draw@[m] == d0[m]);
                }
            }
            assert forall|p: Pos| #[trigger] dp.contains(p) implies to_cache@.contains(p)
                || exists|j: int| i + 1 <= j < entries@.len() && entries@[j].0 == p by {
                if c0.contains(p) {
                    let m = choose|m: int| 0 <= m < c0.len() && c0[m] == p;
                    assert(to_cache@[m] == p);
                } else {
                    let j = choose|j: int| i <= j < entries@.len() && entries@[j].0 == p;
                    if j == i {
                        assert(in_view(p, offset, boundry_box));
                        assert(to_cache@[c0.len() as int] == p);
                    }
                }
            }
        }
        i += 1;
    }
    (to_draw, to_cache)
}

/// A rectangle stands above itself.
spec fn above_within_self(rects: Map<usize, Rect>, id: usize) -> bool {
    crate::tree::above_within(rects, id, id, 0)
}

/// The two parts of a list without duplicates have none and share nothing.
proof fn lemma_no_dup_split(a: Seq<usize>, b: Seq<usize>)
    requires
        (a + b).no_duplicates(),
    ensures
        a.no_duplicates(),
        b.no_duplicates(),
        forall|x: usize| #[trigger] a.contains(x) ==> !b.contains(x),
{
    let c = a + b;
    assert forall|i: int, j: int| 0 <= i < a.len() && 0 <= j < a.len() && i != j implies a[i] != a[j] by {
        assert(c[i] == a[i] && c[j] == a[j]);
    }
    assert forall|i: int, j: int| 0 <= i < b.len() && 0 <= j < b.len() && i != j implies b[i] != b[j] by {
        assert(c[a.len() + i] == b[i] && c[a.len() + j] == b[j]);
    }
    assert forall|x: usize| #[trigger] a.contains(x) implies !b.contains(x) by {
        if b.contains(x) {
            let i = choose|i: int| 0 <= i < a.len() && a[i] == x;
            let j = choose|j: int| 0 <= j < b.len() && b[j] == x;
            assert(c[i] == x && c[a.len() + j] == x);
        }
    }
}

/// Two lists without duplicates that share nothing join into one without duplicates.
proof fn lemma_no_dup_join(a: Seq<usize>, b: Seq<usize>)
    requires
        a.no_duplicates(),
        b.no_duplicates(),
        forall|x: usize| #[trigger] a.contains(x) ==> !b.contains(x),
    ensures
        (a + b).no_duplicates(),
{
    let c = a + b;
    assert forall|i: int, j: int| 0 <= i < c.len() && 0 <= j < c.len() && i != j implies c[i] != c[j] by {
        if i < a.len() && j >= a.len() {
            assert(a.contains(c[i]));
            assert(b[j - a.len()] == c[j]);
            assert(b.contains(c[j]));
        } else if j < a.len() && i >= a.len() {
            assert(a.contains(c[j]));
            assert(b[i - a.len()] == c[i]);
            assert(b.contains(c[i]));
        } else if i >= a.len() && j >= a.len() {
            assert(b[i - a.len()] == c[i] && b[j - a.len()] == c[j]);
        }
    }
}

/// Facts about moving the last element of a stack.
proof fn lemma_seq_move(s1: Seq<usize>, t: Seq<usize>, w: usize)
    ensures
        forall|x: usize| #[trigger] (s1 + t).contains(x) ==> (s1.push(w) + t).contains(x),
        forall|x: usize| #[trigger] (s1.push(w) + t).contains(x) && x != w ==> (s1 + t).contains(x),
        (s1.push(w) + t).no_duplicates() ==> (s1 + t).no_duplicates(),
{
    assert forall|x: usize| #[trigger] (s1.push(w) + t).contains(x) && x != w implies (s1 + t).contains(x) by {
        let i = choose|i: int| 0 <= i < (s1.push(w) + t).len() && (s1.push(w) + t)[i] == x;
        if i < s1.len() {
            assert((s1 + t)[i] == x);
        } else if i > s1.len() {
            assert((s1 + t)[i - 1] == x);
        }
    }
    assert forall|x: usize| #[trigger] (s1 + t).contains(x) implies (s1.push(w) + t).contains(x) by {
        let i = choose|i: int| 0 <= i < (s1 + t).len() && (s1 + t)[i] == x;
        if i < s1.len() {
            assert((s1.push(w) + t)[i] == x);
        } else {
            assert((s1.push(w) + t)[i + 1] == x);
        }
    }
    if (s1.push(w) + t).no_duplicates() {
        let a = s1 + t;
        let b = s1.push(w) + t;
        assert forall|i: int, j: int| 0 <= i < a.len() && 0 <= j < a.len() && i != j implies a[i] != a[j] by {
            let bi = if i < s1.len() { i } else { i + 1 };
            let bj = if j < s1.len() { j } else { j + 1 };
            assert(a[i] == b[bi]);
            assert(a[j] == b[bj]);
        }
    }
}

/// A rectangle put back unchanged (as far as any view goes) leaves the set of rectangles as it was.
proof fn lemma_rect_same_views(m: &RectManager, before: Map<usize, Rect>, id: usize)
    requires
        before.contains_key(id),
        m.rects@ == before.insert(id, m.rects@[id]),
        m.rects@[id] == before[id],
    ensures
        m.rects@ == before,
{
    assert(m.rects@ =~= before);
}

impl RectManager {
    /// The rectangles, by id.
    pub closed spec fn rects(&self) -> Map<usize, Rect> {
        self.rects@
    }

    /// The next id never handed out.
    pub closed spec fn idgen(&self) -> usize {
        self.idgen
    }

    /// The ids that were freed and will be handed out again, in increasing order.
    pub closed spec fn recycled(&self) -> Seq<usize> {
        self.recycle_ids@
    }

    /// What was last drawn at each absolute position.
    pub closed spec fn top_cache(&self) -> Map<Pos, (char, EffectsHandler)> {
        self.top_cache@
    }

    /// The character reported for rectangles that do not exist.
    pub closed spec fn fallback_character(&self) -> char {
        self.default_character
    }

    /// The well-formedness of the environment: the rectangles form a forest whose links agree,
    /// and the id bookkeeping is consistent.
    pub closed spec fn wf(&self) -> bool {
        &&& tree_ok(self.rects@)
        &&& ids_ok(self.rects@, self.idgen, self.recycle_ids@)
    }

    /// Whether an id can still be handed out: a freed one waits, or the counter is not at its end.
    pub open spec fn can_gen_id(&self) -> bool {
        self.recycled().len() > 0 || self.idgen() < usize::MAX
    }

    /// The id that the next rectangle created will get: the highest freed id, else the counter.
    pub open spec fn next_id(&self) -> usize {
        if self.recycled().len() > 0 { self.recycled().last() } else { self.idgen() }
    }

    /// A well-formed environment holds a well-formed forest of rectangles, and its ids in use
    /// lie below the counter while the freed ones are sorted, below it, and not in use.
    pub proof fn lemma_wf_forest(&self)
        requires
            self.wf(),
        ensures
            crate::tree::tree_ok(self.rects()),
            ids_ok(self.rects(), self.idgen(), self.recycled()),
    {
    }

    /// Whether an id can still be handed out (see `can_gen_id`).
    pub fn can_create_rect(&self) -> (b: bool)
        ensures
            b == self.can_gen_id(),
    {
        self.recycle_ids.len() > 0 || self.idgen < usize::MAX
    }

    /// Whether `new_rect(parent_id)` may be called: an id can be handed out, it is not
    /// `parent_id`, and no rectangle on `parent_id`'s way up names it as its parent (the new
    /// rectangle would close a loop).
    pub fn can_create_child(&self, parent_id: usize) -> (b: bool)
        requires
            self.wf(),
        ensures
            b == (self.can_gen_id() && parent_id != self.next_id()
                && !crate::tree::named_above(self.rects(), parent_id, self.next_id())),
    {
        if !self.can_create_rect() {
            return false;
        }
        let next = if self.recycle_ids.len() > 0 {
            self.recycle_ids[self.recycle_ids.len() - 1]
        } else {
            self.idgen
        };
        if parent_id == next {
            return false;
        }
        let mut working_id = parent_id;
        let ghost rects = self.rects@;
        let ghost mut k: nat = if rects.contains_key(parent_id) {
            choose|n: nat| chain_ends(rects, parent_id, n)
        } else {
            0
        };
        loop
            invariant
                self.wf(),
                rects == self.rects@,
                next == self.next_id(),
                self.can_gen_id(),
                parent_id != next,
                chain_ends(rects, working_id, k),
                crate::tree::named_above(rects, parent_id, next) == crate::tree::named_above(rects, working_id, next),
            decreases k,
        {
            proof {
                crate::tree::lemma_named_above_step(rects, working_id, next);
            }
            match self.get_rect(working_id) {
                Some(rect) => {
                    match rect.parent {
                        Some(p) => {
                            if p == next {
                                return false;
                            }
                        },
                        None => {},
                    }
                },
                None => {
                    return true;
                },
            }
            match self.held_parent_id(working_id) {
                Some(p) => {
                    proof {
                        k = (k - 1) as nat;
                    }
                    working_id = p;
                },
                None => {
                    return true;
                },
            }
        }
    }

    /// Whether the rectangle, where its parent is held, is listed among that parent's
    /// children: what moving it, or enabling it once disabled, needs (see `placement_ready`).
    pub fn is_placed(&self, rect_id: usize) -> (b: bool)
        requires
            self.wf(),
        ensures
            b == self.placement_ready(rect_id),
    {
        match self.held_parent_id(rect_id) {
            Some(p) => {
                match self.get_rect(p) {
                    Some(parent) => parent.has_child(rect_id),
                    None => true,
                }
            },
            None => true,
        }
    }

    /// Whether `rect_id` is `top` or lies below it: attaching `top` under `rect_id` would
    /// close a loop.
    pub fn is_under(&self, rect_id: usize, top: usize) -> (b: bool)
        requires
            self.wf(),
        ensures
            b == crate::tree::is_above(self.rects(), top, rect_id),
    {
        let mut working_id = rect_id;
        let ghost rects = self.rects@;
        let ghost mut k: nat = if rects.contains_key(rect_id) {
            choose|n: nat| chain_ends(rects, rect_id, n)
        } else {
            0
        };
        loop
            invariant
                self.wf(),
                rects == self.rects@,
                chain_ends(rects, working_id, k),
                crate::tree::is_above(rects, top, rect_id) == crate::tree::is_above(rects, top, working_id),
            decreases k,
        {
            if working_id == top {
                proof {
                    assert(crate::tree::above_within(rects, top, working_id, 0));
                }
                return true;
            }
            match self.held_parent_id(working_id) {
                Some(p) => {
                    proof {
                        crate::tree::lemma_is_above_step(rects, top, working_id);
                        k = (k - 1) as nat;
                    }
                    working_id = p;
                },
                None => {
                    proof {
                        crate::tree::lemma_is_above_step(rects, top, working_id);
                    }
                    return false;
                },
            }
        }
    }

    /// Whether `set_string(rect_id, start_x, start_y, string)` may be called: its byte
    /// length fits `isize`, and where the rectangle is held its layout arithmetic stays in
    /// range (see `layout_in_range`).
    pub fn can_set_string(&self, rect_id: usize, start_x: isize, start_y: isize, string: &str) -> (b: bool)
        requires
            vstd::utf8::encode_utf8(string@).len() <= usize::MAX,
        ensures
            b == (vstd::utf8::encode_utf8(string@).len() <= isize::MAX && (self.rects().contains_key(rect_id)
                ==> Self::layout_in_range(self.rects()[rect_id], start_x, start_y, string.len() as int, string@.len() as int))),
    {
        let len = string.len();
        if len > (isize::MAX as usize) {
            return false;
        }
        match self.get_rect(rect_id) {
            None => true,
            Some(rect) => {
                let w = rect.width as isize;
                let h = rect.height as isize;
                let yw = match start_y.checked_mul(w) {
                    Some(v) => v,
                    None => {
                        return false;
                    },
                };
                let start = match yw.checked_add(start_x) {
                    Some(v) => v,
                    None => {
                        return false;
                    },
                };
                let end = match start.checked_add(len as isize) {
                    Some(v) => v,
                    None => {
                        return false;
                    },
                };
                let area = match w.checked_mul(h) {
                    Some(v) => v,
                    None => {
                        return false;
                    },
                };
                if !string.is_empty() && end <= area {
                    w != 0 && !(w == -1 && start == isize::MIN)
                } else {
                    true
                }
            },
        }
    }

    fn gen_id(&mut self) -> (id: usize)
        requires
            old(self).wf(),
            old(self).can_gen_id(),
        ensures
            id == old(self).next_id(),
            !old(self).rects().contains_key(id),
            final(self).rects() == old(self).rects(),
            final(self).top_cache() == old(self).top_cache(),
            final(self).fallback_character() == old(self).fallback_character(),
            ids_ok(final(self).rects().insert(id, arbitrary()), final(self).idgen(), final(self).recycled()),
            id < final(self).idgen(),
            final(self).recycled() == (if old(self).recycled().len() > 0 {
                old(self).recycled().drop_last()
            } else {
                old(self).recycled()
            }),
            final(self).idgen() == (if old(self).recycled().len() > 0 {
                old(self).idgen()
            } else {
                (old(self).idgen() + 1) as usize
            }),
    {
        if self.recycle_ids.len() > 0 {
            let id = self.recycle_ids.pop().unwrap();
            proof {
                let r = old(self).recycle_ids@;
                assert(id == r[r.len() - 1]);
                assert(self.recycle_ids@ =~= r.drop_last());
                assert forall|i: int| 0 <= i < self.recycle_ids@.len() implies #[trigger] self.recycle_ids@[i] < self.idgen
                    && !self.rects@.insert(id, arbitrary()).contains_key(self.recycle_ids@[i]) by {
                    assert(self.recycle_ids@[i] == r[i]);
                    assert(r[i] < r[r.len() - 1]);
                }
            }
            id
        } else {
            let new_id = self.idgen;
            self.idgen = self.idgen + 1;
            new_id
        }
    }

    /// Creates a rectangle, not yet attached to any other.
    pub fn new_orphan(&mut self) -> (r: Result<usize, WreckedError>)
        requires
            old(self).wf(),
            old(self).can_gen_id(),
        ensures
            final(self).wf(),
            r == Ok::<usize, WreckedError>(old(self).next_id()),
            !old(self).rects().contains_key(old(self).next_id()),
            final(self).rects().dom() == old(self).rects().dom().insert(old(self).next_id()),
            final(self).rects()[old(self).next_id()].is_new(old(self).next_id()),
            forall|k: usize| #[trigger] old(self).rects().contains_key(k) ==> final(self).rects()[k] == old(self).rects()[k],
            final(self).top_cache() == old(self).top_cache(),
            final(self).fallback_character() == old(self).fallback_character(),
            final(self).recycled() == (if old(self).recycled().len() > 0 {
                old(self).recycled().drop_last()
            } else {
                old(self).recycled()
            }),
            final(self).idgen() == (if old(self).recycled().len() > 0 {
                old(self).idgen()
            } else {
                (old(self).idgen() + 1) as usize
            }),
    {
        let new_id = self.gen_id();
        let r = Rect::new(new_id);
        self.rects.insert(new_id, r);
        proof {
            self.lemma_insert_new_rect(old(self).rects@, new_id);
        }
        Ok(new_id)
    }

    /// Adding a new rectangle under a fresh id keeps the tree well formed.
    proof fn lemma_insert_new_rect(&self, before: Map<usize, Rect>, id: usize)
        requires
            tree_ok(before),
            !before.contains_key(id),
            self.rects@ == before.insert(id, self.rects@[id]),
            self.rects@[id].is_new(id),
            ids_ok(self.rects@.insert(id, arbitrary()), self.idgen, self.recycle_ids@),
        ensures
            self.wf(),
    {
        let after = self.rects@;
        assert(after.insert(id, arbitrary()).dom() =~= after.dom());
        assert(ids_ok(after, self.idgen, self.recycle_ids@)) by {
            assert forall|i: int| 0 <= i < self.recycle_ids@.len() implies !after.contains_key(#[trigger] self.recycle_ids@[i]) by {
                assert(!after.insert(id, arbitrary()).contains_key(self.recycle_ids@[i]));
            }
            assert forall|k: usize| #[trigger] after.contains_key(k) implies k < self.idgen by {
                assert(after.insert(id, arbitrary()).contains_key(k));
            }
        }
        crate::tree::lemma_tree_ok_insert_root(before, id, after[id]);
    }

    /// A new environment holding only the top-level rectangle `ROOT`, 1 by 1. The terminal is
    /// not touched: preparing it and fitting `ROOT` to it is up to the caller.
    pub fn new() -> (m: RectManager)
        ensures
            m.wf(),
            m.rects().dom() == set![ROOT],
            m.rects()[ROOT].is_new(ROOT),
            m.top_cache() == Map::<Pos, (char, EffectsHandler)>::empty(),
            m.fallback_character() == ' ',
            m.idgen() == 1,
            m.recycled() == Seq::<usize>::empty(),
    {
        let mut rectmanager = RectManager {
            idgen: ROOT,
            recycle_ids: Vec::new(),
            rects: BTreeMap::new(),
            top_cache: BTreeMap::new(),
            default_character: ' ',
        };
        proof {
            assert(tree_ok(rectmanager.rects@)) by {
                assert(acyclic(rectmanager.rects@));
            }
        }
        let r = rectmanager.new_orphan();
        assert(rectmanager.rects().dom() =~= set![ROOT]);
        rectmanager
    }

    /// The rectangle held under `rect_id`, if any.
    pub fn get_rect(&self, rect_id: usize) -> (r: Option<&Rect>)
        ensures
            match r {
                Some(rect) => self.rects().contains_key(rect_id) && *rect == self.rects()[rect_id],
                None => !self.rects().contains_key(rect_id),
            },
    {
        self.rects.get(&rect_id)
    }

    /// The parent of a rectangle, where both are held.
    pub fn get_parent(&self, rect_id: usize) -> (r: Option<&Rect>)
        ensures
            match r {
                Some(p) => has_up(self.rects(), rect_id) && *p == self.rects()[up(self.rects(), rect_id)],
                None => !has_up(self.rects(), rect_id),
            },
    {
        let mut has_parent = false;
        let mut parent_id = ROOT;
        match self.get_rect(rect_id) {
            Some(rect) => {
                match rect.parent {
                    Some(pid) => {
                        has_parent = true;
                        parent_id = pid;
                    },
                    None => {},
                }
            },
            None => {},
        }
        if has_parent {
            self.get_rect(parent_id)
        } else {
            None
        }
    }

    /// Whether a rectangle (and so its children) is considered when drawing; false if absent.
    pub fn is_rect_enabled(&self, rect_id: usize) -> (b: bool)
        ensures
            b == (self.rects().contains_key(rect_id) && self.rects()[rect_id].enabled),
    {
        match self.get_rect(rect_id) {
            Some(rect) => rect.enabled,
            None => false,
        }
    }

    /// The character at a position of a rectangle: the one set there, else its default.
    pub fn get_character(&self, rect_id: usize, x: isize, y: isize) -> (r: Result<char, WreckedError>)
        ensures
            !self.rects().contains_key(rect_id) ==> r == Err::<char, WreckedError>(WreckedError::NotFound(rect_id)),
            self.rects().contains_key(rect_id) ==> {
                let rect = self.rects()[rect_id];
                &&& rect.holds(x, y) ==> r == Ok::<char, WreckedError>(rect.char_at(x, y))
                &&& !rect.holds(x, y) ==> r == Err::<char, WreckedError>(WreckedError::BadPosition(x, y))
            },
    {
        match self.get_rect(rect_id) {
            Some(rect) => rect.get_character(x, y),
            None => Err(WreckedError::NotFound(rect_id)),
        }
    }

    /// The children of a rectangle, in the order they were added; empty if it is absent.
    pub fn get_children(&self, rect_id: usize) -> (v: Vec<usize>)
        ensures
            v@ == (if self.rects().contains_key(rect_id) {
                self.rects()[rect_id].children@
            } else {
                Seq::<usize>::empty()
            }),
    {
        match self.get_rect(rect_id) {
            Some(rect) => crate::rect::copy_vec(&rect.children),
            None => Vec::new(),
        }
    }

    /// The offset of a rectangle inside its parent.
    pub fn get_relative_offset(&self, rect_id: usize) -> (r: Option<Pos>)
        ensures
            r == rel_offset(self.rects(), rect_id),
    {
        match self.get_parent(rect_id) {
            Some(parent) => parent.get_child_position(rect_id),
            None => None,
        }
    }

    /// The offset of a rectangle relative to the top of its tree: the sum of the offsets met
    /// walking up; None if it is absent or a parent on the way does not record the offset.
    pub fn get_absolute_offset(&self, rect_id: usize) -> (r: Option<Pos>)
        requires
            self.wf(),
        ensures
            r == abs_offset(self.rects(), rect_id),
    {
        if self.has_rect(rect_id) {
            let mut x: isize = 0;
            let mut y: isize = 0;
            let mut working_id = rect_id;
            let mut broken = false;
            let ghost n = choose|n: nat| chain_ends(self.rects@, rect_id, n);
            let ghost k = n;
            proof {
                assert(self.rects@.contains_key(rect_id));
                lemma_abs_offset_fuel(self.rects@, rect_id, n);
            }
            loop
                invariant_except_break
                    self.wf(),
                    chain_ends(self.rects@, working_id, k),
                    !broken,
                    abs_offset(self.rects@, rect_id) == abs_walk(self.rects@, working_id, (x, y), k),
                ensures
                    broken ==> abs_offset(self.rects@, rect_id) is None,
                    !broken ==> abs_offset(self.rects@, rect_id) == Some((x, y)),
                decreases k,
            {
                match self.get_parent(working_id) {
                    Some(parent) => {
                        match parent.get_child_position(working_id) {
                            Some(pos) => {
                                let ghost w0 = working_id;
                                proof {
                                    assert(self.rects@.contains_key(up(self.rects@, w0)));
                                    assert(parent.rect_id == up(self.rects@, w0));
                                    assert(rel_offset(self.rects@, w0) == Some(pos));
                                    assert(k > 0);
                                }
                                x = x.wrapping_add(pos.0);
                                y = y.wrapping_add(pos.1);
                                working_id = parent.rect_id;
                                proof {
                                    k = (k - 1) as nat;
                                }
                            },
                            None => {
                                broken = true;
                                break;
                            },
                        }
                    },
                    None => {
                        break;
                    },
                }
            }
            if broken {
                None
            } else {
                Some((x, y))
            }
        } else {
            None
        }
    }

    /// Width and height of a rectangle, if it exists.
    pub fn get_rect_size(&self, rect_id: usize) -> (r: Option<(usize, usize)>)
        ensures
            r == (if self.rects().contains_key(rect_id) {
                Some((self.rects()[rect_id].width, self.rects()[rect_id].height))
            } else {
                None
            }),
    {
        match self.get_rect(rect_id) {
            Some(rect) => Some((rect.width, rect.height)),
            None => None,
        }
    }

    /// Width of a rectangle that exists.
    pub fn get_rect_width(&self, rect_id: usize) -> (w: usize)
        requires
            self.rects().contains_key(rect_id),
        ensures
            w == self.rects()[rect_id].width,
    {
        let (width, _) = self.get_rect_size(rect_id).unwrap();
        width
    }

    /// Height of a rectangle that exists.
    pub fn get_rect_height(&self, rect_id: usize) -> (h: usize)
        requires
            self.rects().contains_key(rect_id),
        ensures
            h == self.rects()[rect_id].height,
    {
        let (_, height) = self.get_rect_size(rect_id).unwrap();
        height
    }

    /// Width of the top-level rectangle.
    pub fn get_width(&self) -> (w: usize)
        requires
            self.rects().contains_key(ROOT),
        ensures
            w == self.rects()[ROOT].width,
    {
        let (width, _) = self.get_rect_size(ROOT).unwrap();
        width
    }

    /// Height of the top-level rectangle.
    pub fn get_height(&self) -> (h: usize)
        requires
            self.rects().contains_key(ROOT),
        ensures
            h == self.rects()[ROOT].height,
    {
        let (_, height) = self.get_rect_size(ROOT).unwrap();
        height
    }

    /// The character shown where none is set: the rectangle's default, or the environment's
    /// own for an absent rectangle.
    pub fn get_default_character(&self, rect_id: usize) -> (c: char)
        ensures
            c == (if self.rects().contains_key(rect_id) {
                self.rects()[rect_id].default_character
            } else {
                self.fallback_character()
            }),
    {
        match self.get_rect(rect_id) {
            Some(rect) => rect.get_default_character(),
            None => self.default_character,
        }
    }

    /// The id of the parent a rectangle names, if it exists.
    pub fn get_parent_id(&self, rect_id: usize) -> (r: Option<usize>)
        ensures
            r == (if self.rects().contains_key(rect_id) { self.rects()[rect_id].parent } else { None }),
    {
        let mut output = None;
        match self.get_rect(rect_id) {
            Some(rect) => {
                output = rect.parent;
            },
            None => {},
        }
        output
    }

    /// Whether a rectangle exists and names a parent.
    pub fn has_parent(&self, rect_id: usize) -> (b: bool)
        ensures
            b == (self.rects().contains_key(rect_id) && self.rects()[rect_id].parent is Some),
    {
        match self.get_rect(rect_id) {
            Some(rect) => rect.parent.is_some(),
            None => false,
        }
    }

    /// Whether a rectangle with this id exists.
    pub fn has_rect(&self, rect_id: usize) -> (b: bool)
        ensures
            b == self.rects().contains_key(rect_id),
    {
        self.rects.contains_key(&rect_id)
    }

    /// Whether a rectangle exists and shows what is behind it where nothing is set.
    pub fn is_transparent(&self, rect_id: usize) -> (b: bool)
        ensures
            b == (self.rects().contains_key(rect_id) && self.rects()[rect_id].transparent),
    {
        match self.get_rect(rect_id) {
            Some(rect) => rect.transparent,
            None => false,
        }
    }

    /// The foreground color of a rectangle, if it exists and has one.
    pub fn get_fg_color(&self, rect_id: usize) -> (c: Option<Color>)
        ensures
            c == (if self.rects().contains_key(rect_id) {
                self.rects()[rect_id].effects.foreground_color
            } else {
                None
            }),
    {
        match self.get_rect(rect_id) {
            Some(rect) => rect.get_fg_color(),
            None => None,
        }
    }

    /// The background color of a rectangle, if it exists and has one.
    pub fn get_bg_color(&self, rect_id: usize) -> (c: Option<Color>)
        ensures
            c == (if self.rects().contains_key(rect_id) {
                self.rects()[rect_id].effects.background_color
            } else {
                None
            }),
    {
        match self.get_rect(rect_id) {
            Some(rect) => rect.get_bg_color(),
            None => None,
        }
    }

    /// The id bookkeeping, the cache of what was drawn and the fallback character are the same.
    pub closed spec fn same_bookkeeping(&self, other: &RectManager) -> bool {
        &&& self.idgen == other.idgen
        &&& self.recycle_ids@ == other.recycle_ids@
        &&& self.top_cache@ == other.top_cache@
        &&& self.default_character == other.default_character
    }

    /// The parent of a rectangle, where both are held.
    fn held_parent_id(&self, rect_id: usize) -> (r: Option<usize>)
        requires
            self.wf(),
        ensures
            match r {
                Some(p) => has_up(self.rects(), rect_id) && p == up(self.rects(), rect_id),
                None => !has_up(self.rects(), rect_id),
            },
    {
        match self.get_parent(rect_id) {
            Some(parent) => Some(parent.rect_id),
            None => None,
        }
    }

    proof fn lemma_flags_only(&self, before: Map<usize, Rect>, idgen: usize, recycle: Seq<usize>)
        requires
            tree_ok(before),
            ids_ok(before, idgen, recycle),
            self.idgen == idgen,
            self.recycle_ids@ == recycle,
            same_except_flags(before, self.rects@),
        ensures
            self.wf(),
    {
        lemma_same_except_flags_links(before, self.rects@);
        lemma_tree_ok_same_links(before, self.rects@);
    }

    /// Flags, in every rectangle above `rect_id`, the area that `rect_id` covers there.
    fn flag_parent_refresh(&mut self, rect_id: usize) -> (r: Result<(), WreckedError>)
        requires
            old(self).wf(),
        ensures
            final(self).wf(),
            final(self).same_bookkeeping(old(self)),
            !old(self).rects().contains_key(rect_id) ==> r == Err::<(), WreckedError>(WreckedError::NotFound(rect_id))
                && final(self).rects() == old(self).rects(),
            old(self).rects().contains_key(rect_id) ==> r is Ok,
            same_except_flags(old(self).rects(), final(self).rects()),
            forall|a: usize| #[trigger] final(self).rects().contains_key(a) ==> final(self).rects()[a].flags_pos_refresh@
                == old(self).rects()[a].flags_pos_refresh@.union(
                    if old(self).rects().contains_key(rect_id) { area_marks(old(self).rects(), rect_id, a) } else { Set::empty() }),
    {
        let dimensions = match self.get_rect_size(rect_id) {
            Some(d) => d,
            None => {
                return Err(WreckedError::NotFound(rect_id));
            },
        };
        let ghost r0 = self.rects@;
        let ghost n = choose|n: nat| chain_ends(r0, rect_id, n);
        let ghost k = n;
        let mut working_id = rect_id;
        let mut offset: Pos = (0, 0);
        proof {
            assert(r0.contains_key(rect_id));
            assert forall|a: usize| #[trigger] self.rects@.contains_key(a) implies self.rects@[a].flags_pos_refresh@.union(
                parent_marks(r0, working_id, offset, dimensions.0, dimensions.1, a, k)) == r0[a].flags_pos_refresh@.union(
                area_marks(r0, rect_id, a)) by {}
        }
        loop
            invariant_except_break
                self.wf(),
                self.idgen == old(self).idgen,
                self.recycle_ids@ == old(self).recycle_ids@,
                self.top_cache@ == old(self).top_cache@,
                self.default_character == old(self).default_character,
                r0 == old(self).rects@,
                tree_ok(r0),
                ids_ok(r0, old(self).idgen, old(self).recycle_ids@),
                r0.contains_key(rect_id),
                dimensions == (r0[rect_id].width, r0[rect_id].height),
                same_except_flags(r0, self.rects@),
                chain_ends(r0, working_id, k),
                forall|a: usize| #[trigger] self.rects@.contains_key(a) ==> self.rects@[a].flags_pos_refresh@.union(
                    parent_marks(r0, working_id, offset, dimensions.0, dimensions.1, a, k)) == r0[a].flags_pos_refresh@.union(
                    area_marks(r0, rect_id, a)),
            ensures
                self.wf(),
                self.idgen == old(self).idgen,
                self.recycle_ids@ == old(self).recycle_ids@,
                self.top_cache@ == old(self).top_cache@,
                self.default_character == old(self).default_character,
                same_except_flags(r0, self.rects@),
                forall|a: usize| #[trigger] self.rects@.contains_key(a) ==> self.rects@[a].flags_pos_refresh@
                    == r0[a].flags_pos_refresh@.union(area_marks(r0, rect_id, a)),
            decreases k,
        {
            proof {
                crate::tree::lemma_same_links_rel_offset(r0, self.rects@, working_id);
            }
            match self.get_relative_offset(working_id) {
                Some(rel_offset) => {
                    offset = (offset.0.wrapping_add(rel_offset.0), offset.1.wrapping_add(rel_offset.1));
                },
                None => {},
            }
            let ghost w0 = working_id;
            let ghost off0 = offset;
            match self.held_parent_id(working_id) {
                Some(pid) => {
                    let ghost before = self.rects@;
                    let mut parent = self.rects.remove(&pid).unwrap();
                    parent.flag_box(offset, dimensions.0, dimensions.1);
                    self.rects.insert(pid, parent);
                    proof {
                        assert(same_except_flags(before, self.rects@));
                        assert(same_except_flags(r0, self.rects@));
                        self.lemma_flags_only(r0, old(self).idgen, old(self).recycle_ids@);
                        assert(k > 0);
                        assert forall|a: usize| #[trigger] self.rects@.contains_key(a) implies self.rects@[a].flags_pos_refresh@.union(
                            parent_marks(r0, pid, offset, dimensions.0, dimensions.1, a, (k - 1) as nat)) == r0[a].flags_pos_refresh@.union(
                            area_marks(r0, rect_id, a)) by {
                            assert(before.contains_key(a));
                        }
                    }
                    working_id = pid;
                    proof {
                        k = (k - 1) as nat;
                    }
                },
                None => {
                    proof {
                        assert forall|a: usize| #[trigger] self.rects@.contains_key(a) implies self.rects@[a].flags_pos_refresh@
                            == r0[a].flags_pos_refresh@.union(area_marks(r0, rect_id, a)) by {
                            assert(parent_marks(r0, w0, offset, dimensions.0, dimensions.1, a, k) == Set::<Pos>::empty());
                        }
                    }
                    break;
                },
            }
        }
        Ok(())
    }

    proof fn lemma_display_only(&self, before: Map<usize, Rect>, idgen: usize, recycle: Seq<usize>)
        requires
            tree_ok(before),
            ids_ok(before, idgen, recycle),
            self.idgen == idgen,
            self.recycle_ids@ == recycle,
            same_except_display(before, self.rects@),
        ensures
            self.wf(),
    {
        lemma_tree_ok_same_links(before, self.rects@);
    }

    /// Flags position `(x, y)` of a rectangle for redrawing, forgetting what was drawn there,
    /// and flags the matching position in every rectangle above it.
    fn flag_pos_refresh(&mut self, rect_id: usize, x: isize, y: isize) -> (r: Result<(), WreckedError>)
        requires
            old(self).wf(),
        ensures
            final(self).wf(),
            final(self).same_bookkeeping(old(self)),
            !old(self).rects().contains_key(rect_id) ==> r == Err::<(), WreckedError>(WreckedError::NotFound(rect_id))
                && final(self).rects() == old(self).rects(),
            old(self).rects().contains_key(rect_id) ==> {
                &&& r is Ok
                &&& same_except_display(old(self).rects(), final(self).rects())
                &&& crate::tree::point_refreshed(old(self).rects(), final(self).rects(), rect_id, (x, y))
            },
    {
        if !self.rects.contains_key(&rect_id) {
            return Err(WreckedError::NotFound(rect_id));
        }
        let ghost r_start = self.rects@;
        let mut rect = self.rects.remove(&rect_id).unwrap();
        rect.flag_pos(x, y);
        self.rects.insert(rect_id, rect);
        let ghost r0 = self.rects@;
        proof {
            assert(same_except_display(r_start, r0));
            self.lemma_display_only(r_start, old(self).idgen, old(self).recycle_ids@);
        }
        let mut x_out = x;
        let mut y_out = y;
        let mut working_id = rect_id;
        let ghost n = choose|n: nat| chain_ends(r_start, rect_id, n);
        let ghost k = n;
        proof {
            assert(r_start.contains_key(rect_id));
        }
        loop
            invariant_except_break
                self.wf(),
                self.idgen == old(self).idgen,
                self.recycle_ids@ == old(self).recycle_ids@,
                self.top_cache@ == old(self).top_cache@,
                self.default_character == old(self).default_character,
                r_start == old(self).rects@,
                tree_ok(r_start),
                r_start.contains_key(rect_id),
                same_except_display(r_start, r0),
                same_except_flags(r0, self.rects@),
                r0[rect_id].flags_pos_refresh@ == r_start[rect_id].flags_pos_refresh@.insert((x, y)),
                r0[rect_id].cached_display@ == r_start[rect_id].cached_display@.remove((x, y)),
                r0[rect_id].queued_display@ == r_start[rect_id].queued_display@,
                r0[rect_id].flag_full_refresh == r_start[rect_id].flag_full_refresh,
                forall|a: usize| a != rect_id && #[trigger] r0.contains_key(a) ==> r0[a] == r_start[a],
                chain_ends(r_start, working_id, k),
                forall|a: usize| #[trigger] self.rects@.contains_key(a) ==> self.rects@[a].flags_pos_refresh@.union(
                    pos_marks(r_start, working_id, (x_out, y_out), a, k)) == r0[a].flags_pos_refresh@.union(
                    pos_marks(r_start, rect_id, (x, y), a, n)),
            ensures
                self.wf(),
                self.idgen == old(self).idgen,
                self.recycle_ids@ == old(self).recycle_ids@,
                self.top_cache@ == old(self).top_cache@,
                self.default_character == old(self).default_character,
                same_except_flags(r0, self.rects@),
                forall|a: usize| #[trigger] self.rects@.contains_key(a) ==> self.rects@[a].flags_pos_refresh@
                    == r0[a].flags_pos_refresh@.union(pos_marks(r_start, rect_id, (x, y), a, n)),
            decreases k,
        {
            proof {
                crate::tree::lemma_same_links_rel_offset(r0, self.rects@, rect_id);
                crate::tree::lemma_same_links_rel_offset(r0, self.rects@, working_id);
                assert(rel_offset(r_start, working_id) == rel_offset(r0, working_id));
                assert(has_up(r_start, working_id) == has_up(r0, working_id));
            }
            match self.get_relative_offset(working_id) {
                Some(offs) => {
                    x_out = x_out.wrapping_add(offs.0);
                    y_out = y_out.wrapping_add(offs.1);
                },
                None => {},
            }
            let ghost w0 = working_id;
            match self.held_parent_id(working_id) {
                Some(pid) => {
                    let ghost before = self.rects@;
                    let mut parent = self.rects.remove(&pid).unwrap();
                    parent.flags_pos_refresh.insert((x_out, y_out));
                    self.rects.insert(pid, parent);
                    proof {
                        assert(same_except_flags(before, self.rects@));
                        assert(same_except_flags(r0, self.rects@));
                        lemma_same_except_flags_links(before, self.rects@);
                        lemma_tree_ok_same_links(before, self.rects@);
                        assert(k > 0);
                        assert forall|a: usize| #[trigger] self.rects@.contains_key(a) implies self.rects@[a].flags_pos_refresh@.union(
                            pos_marks(r_start, pid, (x_out, y_out), a, (k - 1) as nat)) == r0[a].flags_pos_refresh@.union(
                            pos_marks(r_start, rect_id, (x, y), a, n)) by {
                            assert(before.contains_key(a));
                        }
                    }
                    working_id = pid;
                    proof {
                        k = (k - 1) as nat;
                    }
                },
                None => {
                    proof {
                        assert forall|a: usize| #[trigger] self.rects@.contains_key(a) implies self.rects@[a].flags_pos_refresh@
                            == r0[a].flags_pos_refresh@.union(pos_marks(r_start, rect_id, (x, y), a, n)) by {
                            assert(pos_marks(r_start, w0, (x_out, y_out), a, k) == Set::<Pos>::empty());
                        }
                    }
                    break;
                },
            }
        }
        Ok(())
    }

    /// Asks for a whole rectangle to be redrawn, and flags the area it covers in every
    /// rectangle above it.
    fn flag_refresh(&mut self, rect_id: usize) -> (r: Result<(), WreckedError>)
        requires
            old(self).wf(),
        ensures
            final(self).wf(),
            final(self).same_bookkeeping(old(self)),
            !old(self).rects().contains_key(rect_id) ==> r == Err::<(), WreckedError>(WreckedError::NotFound(rect_id))
                && final(self).rects() == old(self).rects(),
            old(self).rects().contains_key(rect_id) ==> {
                &&& r is Ok
                &&& same_except_display(old(self).rects(), final(self).rects())
                &&& crate::tree::display_refreshed(old(self).rects(), final(self).rects(), rect_id)
            },
    {
        if !self.rects.contains_key(&rect_id) {
            return Err(WreckedError::NotFound(rect_id));
        }
        let ghost r_start = self.rects@;
        let mut rect = self.rects.remove(&rect_id).unwrap();
        rect.flag_refresh();
        self.rects.insert(rect_id, rect);
        let ghost r0 = self.rects@;
        proof {
            assert(same_except_display(r_start, r0));
            self.lemma_display_only(r_start, old(self).idgen, old(self).recycle_ids@);
            lemma_tree_ok_same_links(r_start, r0);
            assert(crate::tree::same_placement(r_start, r0));
            self.lemma_area_marks_same_links(r_start, r0, rect_id);
        }
        let r = self.flag_parent_refresh(rect_id);
        proof {
            assert(r is Ok);
        }
        r
    }

    /// The area flags depend only on the parents, offsets and sizes.
    proof fn lemma_area_marks_same_links(&self, a: Map<usize, Rect>, b: Map<usize, Rect>, id: usize)
        requires
            crate::tree::same_placement(a, b),
            a.contains_key(id),
            a[id].width == b[id].width,
            a[id].height == b[id].height,
            acyclic(a),
        ensures
            forall|x: usize| area_marks(a, id, x) == #[trigger] area_marks(b, id, x),
            forall|n: nat| chain_ends(a, id, n) == #[trigger] chain_ends(b, id, n),
    {
        assert forall|n: nat| chain_ends(a, id, n) == #[trigger] chain_ends(b, id, n) by {
            lemma_tree_ok_same_links_chain(a, b, id, n);
        }
        assert forall|x: usize| area_marks(a, id, x) == #[trigger] area_marks(b, id, x) by {
            let n = choose|n: nat| chain_ends(a, id, n);
            assert(chain_ends(a, id, n));
            assert(chain_ends(b, id, n));
            let m = choose|n: nat| chain_ends(b, id, n);
            assert(chain_ends(b, id, m));
            assert(chain_ends(a, id, m));
            let big = n + m;
            lemma_parent_marks_fuel(a, id, (0isize, 0isize), a[id].width, a[id].height, x, n, big);
            lemma_parent_marks_fuel(b, id, (0isize, 0isize), a[id].width, a[id].height, x, m, big);
            lemma_marks_same_links(a, b, id, (0isize, 0isize), a[id].width, a[id].height, x, big);
        }
    }

    /// Flagging a rectangle to be redrawn whole reads only the placement, its size and the
    /// flags: states that agree on those are flagged alike.
    proof fn lemma_refresh_marked_from(&self, before: Map<usize, Rect>, mid: Map<usize, Rect>, b: Map<usize, Rect>, id: usize)
        requires
            crate::tree::same_placement(before, mid),
            before.contains_key(id),
            before[id].width == mid[id].width,
            before[id].height == mid[id].height,
            acyclic(before),
            forall|k: usize| #[trigger] before.contains_key(k) ==> {
                &&& mid[k].flags_pos_refresh@ == before[k].flags_pos_refresh@
                &&& mid[k].cached_display@ == before[k].cached_display@
                &&& mid[k].flag_full_refresh == before[k].flag_full_refresh
            },
            crate::tree::refresh_marked(mid, b, id),
            b.dom() == before.dom(),
        ensures
            crate::tree::refresh_marked(before, b, id),
    {
        self.lemma_area_marks_same_links(before, mid, id);
        assert forall|k: usize| #[trigger] b.contains_key(k) implies {
            &&& b[k].flags_pos_refresh@ == before[k].flags_pos_refresh@.union(area_marks(before, id, k))
            &&& b[k].cached_display@ == (if k == id {
                Map::<Pos, crate::rect::QueuedCell>::empty()
            } else {
                before[k].cached_display@
            })
            &&& b[k].flag_full_refresh == (k == id || before[k].flag_full_refresh)
        } by {
            assert(before.contains_key(k));
            assert(area_marks(before, id, k) == area_marks(mid, id, k));
        }
    }

    /// Flagging one position reads only the placement and the flags: states that agree on
    /// those are flagged alike.
    proof fn lemma_point_refreshed_from(&self, before: Map<usize, Rect>, mid: Map<usize, Rect>, b: Map<usize, Rect>, id: usize,
        p: Pos)
        requires
            crate::tree::same_placement(before, mid),
            before.contains_key(id),
            acyclic(before),
            forall|k: usize| #[trigger] before.contains_key(k) ==> mid[k].same_display(before[k]),
            crate::tree::point_refreshed(mid, b, id, p),
            b.dom() == before.dom(),
        ensures
            crate::tree::point_refreshed(before, b, id, p),
    {
        assert forall|k: usize| #[trigger] b.contains_key(k) implies {
            &&& b[k].flags_pos_refresh@ == before[k].flags_pos_refresh@.union(
                if k == id { set![p] } else { Set::empty() }).union(crate::tree::point_marks(before, id, p, k))
            &&& b[k].cached_display@ == (if k == id { before[k].cached_display@.remove(p) } else { before[k].cached_display@ })
            &&& b[k].queued_display@ == before[k].queued_display@
            &&& b[k].flag_full_refresh == before[k].flag_full_refresh
        } by {
            assert(before.contains_key(k));
            let n = choose|n: nat| chain_ends(before, id, n);
            assert(chain_ends(before, id, n));
            lemma_tree_ok_same_links_chain(before, mid, id, n);
            let m = choose|n: nat| chain_ends(mid, id, n);
            assert(chain_ends(mid, id, m));
            lemma_tree_ok_same_links_chain(before, mid, id, m);
            let big = n + m;
            crate::tree::lemma_pos_marks_fuel(before, id, p, k, n, big);
            crate::tree::lemma_pos_marks_fuel(mid, id, p, k, m, big);
            crate::tree::lemma_pos_marks_same_placement(before, mid, id, p, k, big);
        }
    }

    /// After the effects of `rect_id` changed (`changed`) to `e`, asks for it to be redrawn.
    fn refresh_after_effects(&mut self, rect_id: usize, changed: bool, Ghost(e): Ghost<EffectsHandler>,
        Ghost(before): Ghost<Map<usize, Rect>>) -> (r: Result<(), WreckedError>)
        requires
            old(self).wf(),
            old(self).rects().contains_key(rect_id),
            old(self).rects()[rect_id].effects == e,
            before.contains_key(rect_id),
            old(self).rects() == before.insert(rect_id, old(self).rects()[rect_id]),
            old(self).rects()[rect_id].same_but_effects(before[rect_id]),
            acyclic(before),
        ensures
            final(self).wf(),
            final(self).same_bookkeeping(old(self)),
            r is Ok,
            effects_became(old(self).rects(), final(self).rects(), rect_id, e),
            changed ==> crate::tree::display_refreshed(before, final(self).rects(), rect_id),
            !changed ==> final(self).rects() == old(self).rects(),
    {
        if changed {
            let ghost mid = self.rects@;
            proof {
                assert(before.dom() =~= mid.dom());
                assert(crate::tree::same_placement(before, mid)) by {
                    assert forall|k: usize| #[trigger] before.contains_key(k) implies before[k].parent == mid[k].parent
                        && before[k].child_positions@ == mid[k].child_positions@ by {
                        if k != rect_id {
                            assert(mid[k] == before[k]);
                        }
                    }
                }
                self.lemma_area_marks_same_links(before, mid, rect_id);
            }
            let r = self.flag_refresh(rect_id);
            proof {
                let b = self.rects@;
                assert forall|k: usize| #[trigger] b.contains_key(k) implies {
                    &&& b[k].flags_pos_refresh@ == before[k].flags_pos_refresh@.union(area_marks(before, rect_id, k))
                    &&& b[k].cached_display@ == (if k == rect_id {
                        Map::<Pos, crate::rect::QueuedCell>::empty()
                    } else {
                        before[k].cached_display@
                    })
                    &&& b[k].queued_display@ == before[k].queued_display@
                    &&& b[k].flag_full_refresh == (k == rect_id || before[k].flag_full_refresh)
                } by {
                    assert(mid.contains_key(k));
                    assert(area_marks(before, rect_id, k) == area_marks(mid, rect_id, k));
                }
            }
            r
        } else {
            Ok(())
        }
    }

    /// Changing only the effects of a rectangle keeps the environment well formed.
    proof fn lemma_effects_only(&self, before: Map<usize, Rect>, idgen: usize, recycle: Seq<usize>, id: usize)
        requires
            tree_ok(before),
            ids_ok(before, idgen, recycle),
            self.idgen == idgen,
            self.recycle_ids@ == recycle,
            before.contains_key(id),
            self.rects@ == before.insert(id, self.rects@[id]),
            self.rects@[id].same_but_effects(before[id]),
        ensures
            self.wf(),
            effects_became(before, self.rects@, id, self.rects@[id].effects),
    {
        assert(self.rects@.dom() =~= before.dom());
        lemma_tree_ok_same_links(before, self.rects@);
    }

    /// Applies bold to the text of a rectangle (not to its children).
    pub fn set_bold_flag(&mut self, rect_id: usize) -> (r: Result<(), WreckedError>)
        requires
            old(self).wf(),
        ensures
            final(self).wf(),
            final(self).same_bookkeeping(old(self)),
            !old(self).rects().contains_key(rect_id) ==> r == Err::<(), WreckedError>(WreckedError::NotFound(rect_id))
                && final(self).rects() == old(self).rects(),
            old(self).rects().contains_key(rect_id) ==> {
                &&& r is Ok
                &&& effects_became(old(self).rects(), final(self).rects(), rect_id,
                    EffectsHandler { bold: true, ..old(self).rects()[rect_id].effects })
                &&& old(self).rects()[rect_id].effects.bold != true ==> crate::tree::display_refreshed(old(self).rects(), final(self).rects(), rect_id)
                &&& old(self).rects()[rect_id].effects.bold == true ==> final(self).rects() == old(self).rects()
            },
    {
        if !self.rects.contains_key(&rect_id) {
            return Err(WreckedError::NotFound(rect_id));
        }
        let ghost before = self.rects@;
        let mut rect = self.rects.remove(&rect_id).unwrap();
        let changed = rect.set_bold_flag();
        let ghost e = rect.effects;
        self.rects.insert(rect_id, rect);
        proof {
            assert(self.rects@ =~= before.insert(rect_id, self.rects@[rect_id]));
            self.lemma_effects_only(before, old(self).idgen, old(self).recycle_ids@, rect_id);
            if !changed {
                assert(self.rects@ =~= before);
            }
        }
        let r = self.refresh_after_effects(rect_id, changed, Ghost(e), Ghost(before));
        proof {
            assert(effects_became(before, self.rects@, rect_id, e)) by {
                assert forall|k: usize| #[trigger] before.contains_key(k) implies {
                    &&& self.rects@[k].same_space(before[k])
                    &&& self.rects@[k].character_space@ == before[k].character_space@
                    &&& (k != rect_id ==> self.rects@[k].same_frame(before[k]))
                } by {}
            }
        }
        r
    }

    /// Removes bold from the text of a rectangle.
    pub fn unset_bold_flag(&mut self, rect_id: usize) -> (r: Result<(), WreckedError>)
        requires
            old(self).wf(),
        ensures
            final(self).wf(),
            final(self).same_bookkeeping(old(self)),
            !old(self).rects().contains_key(rect_id) ==> r == Err::<(), WreckedError>(WreckedError::NotFound(rect_id))
                && final(self).rects() == old(self).rects(),
            old(self).rects().contains_key(rect_id) ==> {
                &&& r is Ok
                &&& effects_became(old(self).rects(), final(self).rects(), rect_id,
                    EffectsHandler { bold: false, ..old(self).rects()[rect_id].effects })
                &&& old(self).rects()[rect_id].effects.bold != false ==> crate::tree::display_refreshed(old(self).rects(), final(self).rects(), rect_id)
                &&& old(self).rects()[rect_id].effects.bold == false ==> final(self).rects() == old(self).rects()
            },
    {
        if !self.rects.contains_key(&rect_id) {
            return Err(WreckedError::NotFound(rect_id));
        }
        let ghost before = self.rects@;
        let mut rect = self.rects.remove(&rect_id).unwrap();
        let changed = rect.unset_bold_flag();
        let ghost e = rect.effects;
        self.rects.insert(rect_id, rect);
        proof {
            assert(self.rects@ =~= before.insert(rect_id, self.rects@[rect_id]));
            self.lemma_effects_only(before, old(self).idgen, old(self).recycle_ids@, rect_id);
            if !changed {
                assert(self.rects@ =~= before);
            }
        }
        let r = self.refresh_after_effects(rect_id, changed, Ghost(e), Ghost(before));
        proof {
            assert(effects_became(before, self.rects@, rect_id, e)) by {
                assert forall|k: usize| #[trigger] before.contains_key(k) implies {
                    &&& self.rects@[k].same_space(before[k])
                    &&& self.rects@[k].character_space@ == before[k].character_space@
                    &&& (k != rect_id ==> self.rects@[k].same_frame(before[k]))
                } by {}
            }
        }
        r
    }

    /// Applies underline to the text of a rectangle (not to its children).
    pub fn set_underline_flag(&mut self, rect_id: usize) -> (r: Result<(), WreckedError>)
        requires
            old(self).wf(),
        ensures
            final(self).wf(),
            final(self).same_bookkeeping(old(self)),
            !old(self).rects().contains_key(rect_id) ==> r == Err::<(), WreckedError>(WreckedError::NotFound(rect_id))
                && final(self).rects() == old(self).rects(),
            old(self).rects().contains_key(rect_id) ==> {
                &&& r is Ok
                &&& effects_became(old(self).rects(), final(self).rects(), rect_id,
                    EffectsHandler { underline: true, ..old(self).rects()[rect_id].effects })
                &&& old(self).rects()[rect_id].effects.underline != true ==> crate::tree::display_refreshed(old(self).rects(), final(self).rects(), rect_id)
                &&& old(self).rects()[rect_id].effects.underline == true ==> final(self).rects() == old(self).rects()
            },
    {
        if !self.rects.contains_key(&rect_id) {
            return Err(WreckedError::NotFound(rect_id));
        }
        let ghost before = self.rects@;
        let mut rect = self.rects.remove(&rect_id).unwrap();
        let changed = rect.set_underline_flag();
        let ghost e = rect.effects;
        self.rects.insert(rect_id, rect);
        proof {
            assert(self.rects@ =~= before.insert(rect_id, self.rects@[rect_id]));
            self.lemma_effects_only(before, old(self).idgen, old(self).recycle_ids@, rect_id);
            if !changed {
                assert(self.rects@ =~= before);
            }
        }
        let r = self.refresh_after_effects(rect_id, changed, Ghost(e), Ghost(before));
        proof {
            assert(effects_became(before, self.rects@, rect_id, e)) by {
                assert forall|k: usize| #[trigger] before.contains_key(k) implies {
                    &&& self.rects@[k].same_space(before[k])
                    &&& self.rects@[k].character_space@ == before[k].character_space@
                    &&& (k != rect_id ==> self.rects@[k].same_frame(before[k]))
                } by {}
            }
        }
        r
    }

    /// Removes underline from the text of a rectangle.
    pub fn unset_underline_flag(&mut self, rect_id: usize) -> (r: Result<(), WreckedError>)
        requires
            old(self).wf(),
        ensures
            final(self).wf(),
            final(self).same_bookkeeping(old(self)),
            !old(self).rects().contains_key(rect_id) ==> r == Err::<(), WreckedError>(WreckedError::NotFound(rect_id))
                && final(self).rects() == old(self).rects(),
            old(self).rects().contains_key(rect_id) ==> {
                &&& r is Ok
                &&& effects_became(old(self).rects(), final(self).rects(), rect_id,
                    EffectsHandler { underline: false, ..old(self).rects()[rect_id].effects })
                &&& old(self).rects()[rect_id].effects.underline != false ==> crate::tree::display_refreshed(old(self).rects(), final(self).rects(), rect_id)
                &&& old(self).rects()[rect_id].effects.underline == false ==> final(self).rects() == old(self).rects()
            },
    {
        if !self.rects.contains_key(&rect_id) {
            return Err(WreckedError::NotFound(rect_id));
        }
        let ghost before = self.rects@;
        let mut rect = self.rects.remove(&rect_id).unwrap();
        let changed = rect.unset_underline_flag();
        let ghost e = rect.effects;
        self.rects.insert(rect_id, rect);
        proof {
            assert(self.rects@ =~= before.insert(rect_id, self.rects@[rect_id]));
            self.lemma_effects_only(before, old(self).idgen, old(self).recycle_ids@, rect_id);
            if !changed {
                assert(self.rects@ =~= before);
            }
        }
        let r = self.refresh_after_effects(rect_id, changed, Ghost(e), Ghost(before));
        proof {
            assert(effects_became(before, self.rects@, rect_id, e)) by {
                assert forall|k: usize| #[trigger] before.contains_key(k) implies {
                    &&& self.rects@[k].same_space(before[k])
                    &&& self.rects@[k].character_space@ == before[k].character_space@
                    &&& (k != rect_id ==> self.rects@[k].same_frame(before[k]))
                } by {}
            }
        }
        r
    }

    /// Applies inverted colors to the text of a rectangle (not to its children).
    pub fn set_invert_flag(&mut self, rect_id: usize) -> (r: Result<(), WreckedError>)
        requires
            old(self).wf(),
        ensures
            final(self).wf(),
            final(self).same_bookkeeping(old(self)),
            !old(self).rects().contains_key(rect_id) ==> r == Err::<(), WreckedError>(WreckedError::NotFound(rect_id))
                && final(self).rects() == old(self).rects(),
            old(self).rects().contains_key(rect_id) ==> {
                &&& r is Ok
                &&& effects_became(old(self).rects(), final(self).rects(), rect_id,
                    EffectsHandler { invert: true, ..old(self).rects()[rect_id].effects })
                &&& old(self).rects()[rect_id].effects.invert != true ==> crate::tree::display_refreshed(old(self).rects(), final(self).rects(), rect_id)
                &&& old(self).rects()[rect_id].effects.invert == true ==> final(self).rects() == old(self).rects()
            },
    {
        if !self.rects.contains_key(&rect_id) {
            return Err(WreckedError::NotFound(rect_id));
        }
        let ghost before = self.rects@;
        let mut rect = self.rects.remove(&rect_id).unwrap();
        let changed = rect.set_invert_flag();
        let ghost e = rect.effects;
        self.rects.insert(rect_id, rect);
        proof {
            assert(self.rects@ =~= before.insert(rect_id, self.rects@[rect_id]));
            self.lemma_effects_only(before, old(self).idgen, old(self).recycle_ids@, rect_id);
            if !changed {
                assert(self.rects@ =~= before);
            }
        }
        let r = self.refresh_after_effects(rect_id, changed, Ghost(e), Ghost(before));
        proof {
            assert(effects_became(before, self.rects@, rect_id, e)) by {
                assert forall|k: usize| #[trigger] before.contains_key(k) implies {
                    &&& self.rects@[k].same_space(before[k])
                    &&& self.rects@[k].character_space@ == before[k].character_space@
                    &&& (k != rect_id ==> self.rects@[k].same_frame(before[k]))
                } by {}
            }
        }
        r
    }

    /// Removes inverted colors from the text of a rectangle.
    pub fn unset_invert_flag(&mut self, rect_id: usize) -> (r: Result<(), WreckedError>)
        requires
            old(self).wf(),
        ensures
            final(self).wf(),
            final(self).same_bookkeeping(old(self)),
            !old(self).rects().contains_key(rect_id) ==> r == Err::<(), WreckedError>(WreckedError::NotFound(rect_id))
                && final(self).rects() == old(self).rects(),
            old(self).rects().contains_key(rect_id) ==> {
                &&& r is Ok
                &&& effects_became(old(self).rects(), final(self).rects(), rect_id,
                    EffectsHandler { invert: false, ..old(self).rects()[rect_id].effects })
                &&& old(self).rects()[rect_id].effects.invert != false ==> crate::tree::display_refreshed(old(self).rects(), final(self).rects(), rect_id)
                &&& old(self).rects()[rect_id].effects.invert == false ==> final(self).rects() == old(self).rects()
            },
    {
        if !self.rects.contains_key(&rect_id) {
            return Err(WreckedError::NotFound(rect_id));
        }
        let ghost before = self.rects@;
        let mut rect = self.rects.remove(&rect_id).unwrap();
        let changed = rect.unset_invert_flag();
        let ghost e = rect.effects;
        self.rects.insert(rect_id, rect);
        proof {
            assert(self.rects@ =~= before.insert(rect_id, self.rects@[rect_id]));
            self.lemma_effects_only(before, old(self).idgen, old(self).recycle_ids@, rect_id);
            if !changed {
                assert(self.rects@ =~= before);
            }
        }
        let r = self.refresh_after_effects(rect_id, changed, Ghost(e), Ghost(before));
        proof {
            assert(effects_became(before, self.rects@, rect_id, e)) by {
                assert forall|k: usize| #[trigger] before.contains_key(k) implies {
                    &&& self.rects@[k].same_space(before[k])
                    &&& self.rects@[k].character_space@ == before[k].character_space@
                    &&& (k != rect_id ==> self.rects@[k].same_frame(before[k]))
                } by {}
            }
        }
        r
    }

    /// Applies italics to the text of a rectangle (not to its children).
    pub fn set_italics_flag(&mut self, rect_id: usize) -> (r: Result<(), WreckedError>)
        requires
            old(self).wf(),
        ensures
            final(self).wf(),
            final(self).same_bookkeeping(old(self)),
            !old(self).rects().contains_key(rect_id) ==> r == Err::<(), WreckedError>(WreckedError::NotFound(rect_id))
                && final(self).rects() == old(self).rects(),
            old(self).rects().contains_key(rect_id) ==> {
                &&& r is Ok
                &&& effects_became(old(self).rects(), final(self).rects(), rect_id,
                    EffectsHandler { italics: true, ..old(self).rects()[rect_id].effects })
                &&& old(self).rects()[rect_id].effects.italics != true ==> crate::tree::display_refreshed(old(self).rects(), final(self).rects(), rect_id)
                &&& old(self).rects()[rect_id].effects.italics == true ==> final(self).rects() == old(self).rects()
            },
    {
        if !self.rects.contains_key(&rect_id) {
            return Err(WreckedError::NotFound(rect_id));
        }
        let ghost before = self.rects@;
        let mut rect = self.rects.remove(&rect_id).unwrap();
        let changed = rect.set_italics_flag();
        let ghost e = rect.effects;
        self.rects.insert(rect_id, rect);
        proof {
            assert(self.rects@ =~= before.insert(rect_id, self.rects@[rect_id]));
            self.lemma_effects_only(before, old(self).idgen, old(self).recycle_ids@, rect_id);
            if !changed {
                assert(self.rects@ =~= before);
            }
        }
        let r = self.refresh_after_effects(rect_id, changed, Ghost(e), Ghost(before));
        proof {
            assert(effects_became(before, self.rects@, rect_id, e)) by {
                assert forall|k: usize| #[trigger] before.contains_key(k) implies {
                    &&& self.rects@[k].same_space(before[k])
                    &&& self.rects@[k].character_space@ == before[k].character_space@
                    &&& (k != rect_id ==> self.rects@[k].same_frame(before[k]))
                } by {}
            }
        }
        r
    }

    /// Removes italics from the text of a rectangle.
    pub fn unset_italics_flag(&mut self, rect_id: usize) -> (r: Result<(), WreckedError>)
        requires
            old(self).wf(),
        ensures
            final(self).wf(),
            final(self).same_bookkeeping(old(self)),
            !old(self).rects().contains_key(rect_id) ==> r == Err::<(), WreckedError>(WreckedError::NotFound(rect_id))
                && final(self).rects() == old(self).rects(),
            old(self).rects().contains_key(rect_id) ==> {
                &&& r is Ok
                &&& effects_became(old(self).rects(), final(self).rects(), rect_id,
                    EffectsHandler { italics: false, ..old(self).rects()[rect_id].effects })
                &&& old(self).rects()[rect_id].effects.italics != false ==> crate::tree::display_refreshed(old(self).rects(), final(self).rects(), rect_id)
                &&& old(self).rects()[rect_id].effects.italics == false ==> final(self).rects() == old(self).rects()
            },
    {
        if !self.rects.contains_key(&rect_id) {
            return Err(WreckedError::NotFound(rect_id));
        }
        let ghost before = self.rects@;
        let mut rect = self.rects.remove(&rect_id).unwrap();
        let changed = rect.unset_italics_flag();
        let ghost e = rect.effects;
        self.rects.insert(rect_id, rect);
        proof {
            assert(self.rects@ =~= before.insert(rect_id, self.rects@[rect_id]));
            self.lemma_effects_only(before, old(self).idgen, old(self).recycle_ids@, rect_id);
            if !changed {
                assert(self.rects@ =~= before);
            }
        }
        let r = self.refresh_after_effects(rect_id, changed, Ghost(e), Ghost(before));
        proof {
            assert(effects_became(before, self.rects@, rect_id, e)) by {
                assert forall|k: usize| #[trigger] before.contains_key(k) implies {
                    &&& self.rects@[k].same_space(before[k])
                    &&& self.rects@[k].character_space@ == before[k].character_space@
                    &&& (k != rect_id ==> self.rects@[k].same_frame(before[k]))
                } by {}
            }
        }
        r
    }

    /// Applies strikethrough to the text of a rectangle (not to its children).
    pub fn set_strike_flag(&mut self, rect_id: usize) -> (r: Result<(), WreckedError>)
        requires
            old(self).wf(),
        ensures
            final(self).wf(),
            final(self).same_bookkeeping(old(self)),
            !old(self).rects().contains_key(rect_id) ==> r == Err::<(), WreckedError>(WreckedError::NotFound(rect_id))
                && final(self).rects() == old(self).rects(),
            old(self).rects().contains_key(rect_id) ==> {
                &&& r is Ok
                &&& effects_became(old(self).rects(), final(self).rects(), rect_id,
                    EffectsHandler { strike: true, ..old(self).rects()[rect_id].effects })
                &&& old(self).rects()[rect_id].effects.strike != true ==> crate::tree::display_refreshed(old(self).rects(), final(self).rects(), rect_id)
                &&& old(self).rects()[rect_id].effects.strike == true ==> final(self).rects() == old(self).rects()
            },
    {
        if !self.rects.contains_key(&rect_id) {
            return Err(WreckedError::NotFound(rect_id));
        }
        let ghost before = self.rects@;
        let mut rect = self.rects.remove(&rect_id).unwrap();
        let changed = rect.set_strike_flag();
        let ghost e = rect.effects;
        self.rects.insert(rect_id, rect);
        proof {
            assert(self.rects@ =~= before.insert(rect_id, self.rects@[rect_id]));
            self.lemma_effects_only(before, old(self).idgen, old(self).recycle_ids@, rect_id);
            if !changed {
                assert(self.rects@ =~= before);
            }
        }
        let r = self.refresh_after_effects(rect_id, changed, Ghost(e), Ghost(before));
        proof {
            assert(effects_became(before, self.rects@, rect_id, e)) by {
                assert forall|k: usize| #[trigger] before.contains_key(k) implies {
                    &&& self.rects@[k].same_space(before[k])
                    &&& self.rects@[k].character_space@ == before[k].character_space@
                    &&& (k != rect_id ==> self.rects@[k].same_frame(before[k]))
                } by {}
            }
        }
        r
    }

    /// Removes strikethrough from the text of a rectangle.
    pub fn unset_strike_flag(&mut self, rect_id: usize) -> (r: Result<(), WreckedError>)
        requires
            old(self).wf(),
        ensures
            final(self).wf(),
            final(self).same_bookkeeping(old(self)),
            !old(self).rects().contains_key(rect_id) ==> r == Err::<(), WreckedError>(WreckedError::NotFound(rect_id))
                && final(self).rects() == old(self).rects(),
            old(self).rects().contains_key(rect_id) ==> {
                &&& r is Ok
                &&& effects_became(old(self).rects(), final(self).rects(), rect_id,
                    EffectsHandler { strike: false, ..old(self).rects()[rect_id].effects })
                &&& old(self).rects()[rect_id].effects.strike != false ==> crate::tree::display_refreshed(old(self).rects(), final(self).rects(), rect_id)
                &&& old(self).rects()[rect_id].effects.strike == false ==> final(self).rects() == old(self).rects()
            },
    {
        if !self.rects.contains_key(&rect_id) {
            return Err(WreckedError::NotFound(rect_id));
        }
        let ghost before = self.rects@;
        let mut rect = self.rects.remove(&rect_id).unwrap();
        let changed = rect.unset_strike_flag();
        let ghost e = rect.effects;
        self.rects.insert(rect_id, rect);
        proof {
            assert(self.rects@ =~= before.insert(rect_id, self.rects@[rect_id]));
            self.lemma_effects_only(before, old(self).idgen, old(self).recycle_ids@, rect_id);
            if !changed {
                assert(self.rects@ =~= before);
            }
        }
        let r = self.refresh_after_effects(rect_id, changed, Ghost(e), Ghost(before));
        proof {
            assert(effects_became(before, self.rects@, rect_id, e)) by {
                assert forall|k: usize| #[trigger] before.contains_key(k) implies {
                    &&& self.rects@[k].same_space(before[k])
                    &&& self.rects@[k].character_space@ == before[k].character_space@
                    &&& (k != rect_id ==> self.rects@[k].same_frame(before[k]))
                } by {}
            }
        }
        r
    }

    /// Applies blinking to the text of a rectangle (not to its children).
    pub fn set_blink_flag(&mut self, rect_id: usize) -> (r: Result<(), WreckedError>)
        requires
            old(self).wf(),
        ensures
            final(self).wf(),
            final(self).same_bookkeeping(old(self)),
            !old(self).rects().contains_key(rect_id) ==> r == Err::<(), WreckedError>(WreckedError::NotFound(rect_id))
                && final(self).rects() == old(self).rects(),
            old(self).rects().contains_key(rect_id) ==> {
                &&& r is Ok
                &&& effects_became(old(self).rects(), final(self).rects(), rect_id,
                    EffectsHandler { blink: true, ..old(self).rects()[rect_id].effects })
                &&& old(self).rects()[rect_id].effects.blink != true ==> crate::tree::display_refreshed(old(self).rects(), final(self).rects(), rect_id)
                &&& old(self).rects()[rect_id].effects.blink == true ==> final(self).rects() == old(self).rects()
            },
    {
        if !self.rects.contains_key(&rect_id) {
            return Err(WreckedError::NotFound(rect_id));
        }
        let ghost before = self.rects@;
        let mut rect = self.rects.remove(&rect_id).unwrap();
        let changed = rect.set_blink_flag();
        let ghost e = rect.effects;
        self.rects.insert(rect_id, rect);
        proof {
            assert(self.rects@ =~= before.insert(rect_id, self.rects@[rect_id]));
            self.lemma_effects_only(before, old(self).idgen, old(self).recycle_ids@, rect_id);
            if !changed {
                assert(self.rects@ =~= before);
            }
        }
        let r = self.refresh_after_effects(rect_id, changed, Ghost(e), Ghost(before));
        proof {
            assert(effects_became(before, self.rects@, rect_id, e)) by {
                assert forall|k: usize| #[trigger] before.contains_key(k) implies {
                    &&& self.rects@[k].same_space(before[k])
                    &&& self.rects@[k].character_space@ == before[k].character_space@
                    &&& (k != rect_id ==> self.rects@[k].same_frame(before[k]))
                } by {}
            }
        }
        r
    }

    /// Removes blinking from the text of a rectangle.
    pub fn unset_blink_flag(&mut self, rect_id: usize) -> (r: Result<(), WreckedError>)
        requires
            old(self).wf(),
        ensures
            final(self).wf(),
            final(self).same_bookkeeping(old(self)),
            !old(self).rects().contains_key(rect_id) ==> r == Err::<(), WreckedError>(WreckedError::NotFound(rect_id))
                && final(self).rects() == old(self).rects(),
            old(self).rects().contains_key(rect_id) ==> {
                &&& r is Ok
                &&& effects_became(old(self).rects(), final(self).rects(), rect_id,
                    EffectsHandler { blink: false, ..old(self).rects()[rect_id].effects })
                &&& old(self).rects()[rect_id].effects.blink != false ==> crate::tree::display_refreshed(old(self).rects(), final(self).rects(), rect_id)
                &&& old(self).rects()[rect_id].effects.blink == false ==> final(self).rects() == old(self).rects()
            },
    {
        if !self.rects.contains_key(&rect_id) {
            return Err(WreckedError::NotFound(rect_id));
        }
        let ghost before = self.rects@;
        let mut rect = self.rects.remove(&rect_id).unwrap();
        let changed = rect.unset_blink_flag();
        let ghost e = rect.effects;
        self.rects.insert(rect_id, rect);
        proof {
            assert(self.rects@ =~= before.insert(rect_id, self.rects@[rect_id]));
            self.lemma_effects_only(before, old(self).idgen, old(self).recycle_ids@, rect_id);
            if !changed {
                assert(self.rects@ =~= before);
            }
        }
        let r = self.refresh_after_effects(rect_id, changed, Ghost(e), Ghost(before));
        proof {
            assert(effects_became(before, self.rects@, rect_id, e)) by {
                assert forall|k: usize| #[trigger] before.contains_key(k) implies {
                    &&& self.rects@[k].same_space(before[k])
                    &&& self.rects@[k].character_space@ == before[k].character_space@
                    &&& (k != rect_id ==> self.rects@[k].same_frame(before[k]))
                } by {}
            }
        }
        r
    }

    /// Sets the background color of a rectangle (not of its children).
    pub fn set_bg_color(&mut self, rect_id: usize, color: Color) -> (r: Result<(), WreckedError>)
        requires
            old(self).wf(),
        ensures
            final(self).wf(),
            final(self).same_bookkeeping(old(self)),
            !old(self).rects().contains_key(rect_id) ==> r == Err::<(), WreckedError>(WreckedError::NotFound(rect_id))
                && final(self).rects() == old(self).rects(),
            old(self).rects().contains_key(rect_id) ==> {
                &&& r is Ok
                &&& effects_became(old(self).rects(), final(self).rects(), rect_id,
                    EffectsHandler { background_color: Some(color), ..old(self).rects()[rect_id].effects })
                &&& old(self).rects()[rect_id].effects.background_color != Some(color) ==> crate::tree::display_refreshed(old(self).rects(), final(self).rects(), rect_id)
                &&& !(old(self).rects()[rect_id].effects.background_color != Some(color)) ==> final(self).rects() == old(self).rects()
            },
    {
        if !self.rects.contains_key(&rect_id) {
            return Err(WreckedError::NotFound(rect_id));
        }
        let ghost before = self.rects@;
        let mut rect = self.rects.remove(&rect_id).unwrap();
        let changed = rect.set_bg_color(color);
        let ghost e = rect.effects;
        self.rects.insert(rect_id, rect);
        proof {
            assert(self.rects@ =~= before.insert(rect_id, self.rects@[rect_id]));
            self.lemma_effects_only(before, old(self).idgen, old(self).recycle_ids@, rect_id);
            if !changed {
                assert(self.rects@ =~= before);
            }
        }
        let r = self.refresh_after_effects(rect_id, changed, Ghost(e), Ghost(before));
        r
    }

    /// Sets the foreground (text) color of a rectangle (not of its children).
    pub fn set_fg_color(&mut self, rect_id: usize, color: Color) -> (r: Result<(), WreckedError>)
        requires
            old(self).wf(),
        ensures
            final(self).wf(),
            final(self).same_bookkeeping(old(self)),
            !old(self).rects().contains_key(rect_id) ==> r == Err::<(), WreckedError>(WreckedError::NotFound(rect_id))
                && final(self).rects() == old(self).rects(),
            old(self).rects().contains_key(rect_id) ==> {
                &&& r is Ok
                &&& effects_became(old(self).rects(), final(self).rects(), rect_id,
                    EffectsHandler { foreground_color: Some(color), ..old(self).rects()[rect_id].effects })
                &&& old(self).rects()[rect_id].effects.foreground_color != Some(color) ==> crate::tree::display_refreshed(old(self).rects(), final(self).rects(), rect_id)
                &&& !(old(self).rects()[rect_id].effects.foreground_color != Some(color)) ==> final(self).rects() == old(self).rects()
            },
    {
        if !self.rects.contains_key(&rect_id) {
            return Err(WreckedError::NotFound(rect_id));
        }
        let ghost before = self.rects@;
        let mut rect = self.rects.remove(&rect_id).unwrap();
        let changed = rect.set_fg_color(color);
        let ghost e = rect.effects;
        self.rects.insert(rect_id, rect);
        proof {
            assert(self.rects@ =~= before.insert(rect_id, self.rects@[rect_id]));
            self.lemma_effects_only(before, old(self).idgen, old(self).recycle_ids@, rect_id);
            if !changed {
                assert(self.rects@ =~= before);
            }
        }
        let r = self.refresh_after_effects(rect_id, changed, Ghost(e), Ghost(before));
        r
    }

    /// Returns the background color of a rectangle to the default.
    pub fn unset_bg_color(&mut self, rect_id: usize) -> (r: Result<(), WreckedError>)
        requires
            old(self).wf(),
        ensures
            final(self).wf(),
            final(self).same_bookkeeping(old(self)),
            !old(self).rects().contains_key(rect_id) ==> r == Err::<(), WreckedError>(WreckedError::NotFound(rect_id))
                && final(self).rects() == old(self).rects(),
            old(self).rects().contains_key(rect_id) ==> {
                &&& r is Ok
                &&& effects_became(old(self).rects(), final(self).rects(), rect_id,
                    EffectsHandler { background_color: None, ..old(self).rects()[rect_id].effects })
                &&& old(self).rects()[rect_id].effects.background_color is Some ==> crate::tree::display_refreshed(old(self).rects(), final(self).rects(), rect_id)
                &&& !(old(self).rects()[rect_id].effects.background_color is Some) ==> final(self).rects() == old(self).rects()
            },
    {
        if !self.rects.contains_key(&rect_id) {
            return Err(WreckedError::NotFound(rect_id));
        }
        let ghost before = self.rects@;
        let mut rect = self.rects.remove(&rect_id).unwrap();
        let changed = rect.unset_bg_color();
        let ghost e = rect.effects;
        self.rects.insert(rect_id, rect);
        proof {
            assert(self.rects@ =~= before.insert(rect_id, self.rects@[rect_id]));
            self.lemma_effects_only(before, old(self).idgen, old(self).recycle_ids@, rect_id);
            if !changed {
                assert(self.rects@ =~= before);
            }
        }
        let r = self.refresh_after_effects(rect_id, changed, Ghost(e), Ghost(before));
        r
    }

    /// Returns the foreground color of a rectangle to the default.
    pub fn unset_fg_color(&mut self, rect_id: usize) -> (r: Result<(), WreckedError>)
        requires
            old(self).wf(),
        ensures
            final(self).wf(),
            final(self).same_bookkeeping(old(self)),
            !old(self).rects().contains_key(rect_id) ==> r == Err::<(), WreckedError>(WreckedError::NotFound(rect_id))
                && final(self).rects() == old(self).rects(),
            old(self).rects().contains_key(rect_id) ==> {
                &&& r is Ok
                &&& effects_became(old(self).rects(), final(self).rects(), rect_id,
                    EffectsHandler { foreground_color: None, ..old(self).rects()[rect_id].effects })
                &&& old(self).rects()[rect_id].effects.foreground_color is Some ==> crate::tree::display_refreshed(old(self).rects(), final(self).rects(), rect_id)
                &&& !(old(self).rects()[rect_id].effects.foreground_color is Some) ==> final(self).rects() == old(self).rects()
            },
    {
        if !self.rects.contains_key(&rect_id) {
            return Err(WreckedError::NotFound(rect_id));
        }
        let ghost before = self.rects@;
        let mut rect = self.rects.remove(&rect_id).unwrap();
        let changed = rect.unset_fg_color();
        let ghost e = rect.effects;
        self.rects.insert(rect_id, rect);
        proof {
            assert(self.rects@ =~= before.insert(rect_id, self.rects@[rect_id]));
            self.lemma_effects_only(before, old(self).idgen, old(self).recycle_ids@, rect_id);
            if !changed {
                assert(self.rects@ =~= before);
            }
        }
        let r = self.refresh_after_effects(rect_id, changed, Ghost(e), Ghost(before));
        r
    }

    /// Returns both colors of a rectangle to the default.
    pub fn unset_color(&mut self, rect_id: usize) -> (r: Result<(), WreckedError>)
        requires
            old(self).wf(),
        ensures
            final(self).wf(),
            final(self).same_bookkeeping(old(self)),
            !old(self).rects().contains_key(rect_id) ==> r == Err::<(), WreckedError>(WreckedError::NotFound(rect_id))
                && final(self).rects() == old(self).rects(),
            old(self).rects().contains_key(rect_id) ==> {
                &&& r is Ok
                &&& effects_became(old(self).rects(), final(self).rects(), rect_id,
                    EffectsHandler { background_color: None, foreground_color: None, ..old(self).rects()[rect_id].effects })
                &&& (old(self).rects()[rect_id].effects.background_color is Some
                    || old(self).rects()[rect_id].effects.foreground_color is Some) ==> crate::tree::display_refreshed(old(self).rects(), final(self).rects(), rect_id)
                &&& !(old(self).rects()[rect_id].effects.background_color is Some
                    || old(self).rects()[rect_id].effects.foreground_color is Some) ==> final(self).rects() == old(self).rects()
            },
    {
        if !self.rects.contains_key(&rect_id) {
            return Err(WreckedError::NotFound(rect_id));
        }
        let ghost before = self.rects@;
        let mut rect = self.rects.remove(&rect_id).unwrap();
        let changed = rect.unset_color();
        let ghost e = rect.effects;
        self.rects.insert(rect_id, rect);
        proof {
            assert(self.rects@ =~= before.insert(rect_id, self.rects@[rect_id]));
            self.lemma_effects_only(before, old(self).idgen, old(self).recycle_ids@, rect_id);
            if !changed {
                assert(self.rects@ =~= before);
            }
        }
        let r = self.refresh_after_effects(rect_id, changed, Ghost(e), Ghost(before));
        r
    }

    /// `b` is `a` once every effect of `id` is removed, and it is flagged to be redrawn whole.
    pub open spec fn effects_cleared(a: Map<usize, Rect>, b: Map<usize, Rect>, id: usize) -> bool {
        &&& effects_became(a, b, id, crate::effects::plain_effects())
        &&& crate::tree::display_refreshed(a, b, id)
    }

    /// Removes every effect from the text of a rectangle (not of its children).
    pub fn clear_effects(&mut self, rect_id: usize) -> (r: Result<(), WreckedError>)
        requires
            old(self).wf(),
        ensures
            final(self).wf(),
            final(self).same_bookkeeping(old(self)),
            !old(self).rects().contains_key(rect_id) ==> r == Err::<(), WreckedError>(WreckedError::NotFound(rect_id))
                && final(self).rects() == old(self).rects(),
            old(self).rects().contains_key(rect_id) ==> {
                &&& r is Ok
                &&& Self::effects_cleared(old(self).rects(), final(self).rects(), rect_id)
            },
    {
        if !self.rects.contains_key(&rect_id) {
            return Err(WreckedError::NotFound(rect_id));
        }
        let ghost before = self.rects@;
        let mut rect = self.rects.remove(&rect_id).unwrap();
        rect.effects.clear();
        let ghost e = rect.effects;
        self.rects.insert(rect_id, rect);
        proof {
            assert(self.rects@ =~= before.insert(rect_id, self.rects@[rect_id]));
            self.lemma_effects_only(before, old(self).idgen, old(self).recycle_ids@, rect_id);
        }
        let r = self.refresh_after_effects(rect_id, true, Ghost(e), Ghost(before));
        r
    }

    /// Whether a rectangle can be placed in its parent: where its parent is held, it is one
    /// of the parent's children.
    pub open spec fn placement_ready(&self, id: usize) -> bool {
        has_up(self.rects(), id) ==> self.rects()[up(self.rects(), id)].children@.contains(id)
    }

    /// The offset `(x, y)` and size of a child give the box (left, top, right, bottom) it
    /// covers in its parent.
    pub open spec fn child_box(pos: Pos, w: usize, h: usize) -> (isize, isize, isize, isize) {
        (pos.0, pos.1, pos.0.wrapping_add(w as isize), pos.1.wrapping_add(h as isize))
    }

    /// A child placed at offset `pos`, `w` by `h`, is recorded by its parent at exactly the
    /// positions from `pos` up to (not including) `pos` plus its width and height that lie
    /// inside the parent (where the sums fit).
    pub proof fn law_child_covers_its_box(parent: Rect, pos: Pos, w: usize, h: usize, p: Pos)
        requires
            w <= isize::MAX,
            h <= isize::MAX,
            parent.width <= isize::MAX,
            parent.height <= isize::MAX,
            pos.0 + w <= isize::MAX,
            pos.1 + h <= isize::MAX,
        ensures
            parent.placed(p, Self::child_box(pos, w, h)) <==> (pos.0 <= p.0 < pos.0 + w && pos.1 <= p.1 < pos.1 + h
                && 0 <= p.0 < parent.width && 0 <= p.1 < parent.height),
    {
    }

    /// Records a child at the positions of its parent that it covers (where the parent is
    /// held), and flags its area in every rectangle above it.
    pub fn update_child_space(&mut self, child_id: usize) -> (r: Result<(), WreckedError>)
        requires
            old(self).wf(),
            old(self).placement_ready(child_id),
        ensures
            final(self).wf(),
            final(self).same_bookkeeping(old(self)),
            !old(self).rects().contains_key(child_id) ==> r == Err::<(), WreckedError>(WreckedError::NotFound(child_id))
                && final(self).rects() == old(self).rects(),
            old(self).rects().contains_key(child_id) ==> {
                &&& r is Ok
                &&& final(self).rects().dom() == old(self).rects().dom()
                &&& forall|k: usize| #[trigger] old(self).rects().contains_key(k) ==> {
                    &&& final(self).rects()[k].same_frame(old(self).rects()[k])
                    &&& final(self).rects()[k].character_space@ == old(self).rects()[k].character_space@
                    &&& (!(has_up(old(self).rects(), child_id) && k == up(old(self).rects(), child_id))
                        ==> final(self).rects()[k].same_space(old(self).rects()[k]))
                }
                &&& has_up(old(self).rects(), child_id) ==> {
                    let pid = up(old(self).rects(), child_id);
                    let pos = match rel_offset(old(self).rects(), child_id) { Some(q) => q, None => (0isize, 0isize) };
                    let corners = Self::child_box(pos, old(self).rects()[child_id].width, old(self).rects()[child_id].height);
                    &&& forall|p: Pos| #[trigger] final(self).rects()[pid].covers(child_id, p) <==> old(self).rects()[pid].placed(p, corners)
                    &&& forall|c: usize| c != child_id ==> #[trigger] final(self).rects()[pid].covered_by(c) == old(self).rects()[pid].covered_by(c)
                }
                &&& crate::tree::space_marked(old(self).rects(), final(self).rects(), child_id)
            },
    {
        let dimensions = match self.get_rect_size(child_id) {
            Some(d) => (d.0 as isize, d.1 as isize),
            None => {
                return Err(WreckedError::NotFound(child_id));
            },
        };
        let position = match self.get_relative_offset(child_id) {
            Some(p) => p,
            None => (0, 0),
        };
        let ghost r0 = self.rects@;
        match self.held_parent_id(child_id) {
            Some(pid) => {
                let mut parent = self.rects.remove(&pid).unwrap();
                let ghost old_parent = parent;
                proof {
                    assert(r0.contains_key(pid));
                    assert(parent.children@.contains(child_id));
                    assert(parent.child_ranks@.contains_key(child_id));
                    assert(parent.space_ok());
                    assert(parent.space_ranked()) by {
                        assert forall|p: Pos| #[trigger] parent.space().contains_key(p) implies
                            crate::rect::all_ranked(parent.space()[p], parent.child_ranks@) by {
                            assert forall|i: int| 0 <= i < parent.space()[p].len() implies
                                parent.child_ranks@.contains_key(#[trigger] parent.space()[p][i]) by {
                                assert(parent.children@.contains(parent.space()[p][i]));
                            }
                        }
                    }
                }
                let corners = (position.0, position.1, position.0.wrapping_add(dimensions.0), position.1.wrapping_add(dimensions.1));
                parent.update_child_space(child_id, corners, false);
                proof {
                    Rect::lemma_update_keeps_space_ok(old_parent, parent, child_id, corners);
                    lemma_tree_ok_replace(r0, pid, parent);
                    assert(forall|p: Pos| #[trigger] parent.covers(child_id, p) <==> old_parent.placed(p, corners)) by {
                        assert forall|p: Pos| #[trigger] parent.covers(child_id, p) <==> old_parent.placed(p, corners) by {
                            assert(crate::rect::inv_set(parent.inverse(), child_id).contains(p) == parent.covers(child_id, p));
                            assert(crate::rect::inv_set(old_parent.inverse().insert(child_id, Seq::<Pos>::empty()), child_id) =~= Set::<Pos>::empty());
                            assert(old_parent.placed_set(corners).contains(p) == old_parent.placed(p, corners));
                        }
                    }
                }
                self.rects.insert(pid, parent);
                proof {
                    assert(self.rects@ =~= r0.insert(pid, parent));
                    assert(corners == Self::child_box(
                        match rel_offset(r0, child_id) { Some(q) => q, None => (0isize, 0isize) },
                        r0[child_id].width, r0[child_id].height));
                    assert(forall|p: Pos| #[trigger] self.rects@[pid].covers(child_id, p) <==> r0[pid].placed(p, corners));
                    assert forall|c: usize| c != child_id implies #[trigger] self.rects@[pid].covered_by(c) == r0[pid].covered_by(c) by {
                        let mid_inverse = old_parent.inverse().insert(child_id, Seq::<Pos>::empty());
                        assert(parent.inverse().contains_key(c) == mid_inverse.contains_key(c));
                        if parent.inverse().contains_key(c) {
                            assert(parent.inverse()[c] == mid_inverse[c]);
                        }
                    }
                }
            },
            None => {},
        }
        let ghost r1 = self.rects@;
        proof {
            assert(r1.dom() == r0.dom());
            assert forall|k: usize| #[trigger] r0.contains_key(k) implies {
                &&& r1[k].same_frame(r0[k])
                &&& r1[k].character_space@ == r0[k].character_space@
                &&& (!(has_up(r0, child_id) && k == up(r0, child_id)) ==> r1[k].same_space(r0[k]))
            } by {}
        }
        let r = self.flag_parent_refresh(child_id);
        proof {
            assert(r1.contains_key(child_id));
            assert forall|k: usize| #[trigger] r0.contains_key(k) implies {
                &&& self.rects@[k].same_frame(r0[k])
                &&& self.rects@[k].character_space@ == r0[k].character_space@
                &&& (!(has_up(r0, child_id) && k == up(r0, child_id)) ==> self.rects@[k].same_space(r0[k]))
            } by {
                assert(r1.contains_key(k));
            }
            if has_up(r0, child_id) {
                let pid = up(r0, child_id);
                assert(r1.contains_key(pid));
                assert(self.rects@[pid].inverse() == r1[pid].inverse());
                let pos = match rel_offset(r0, child_id) { Some(q) => q, None => (0isize, 0isize) };
                let corners = Self::child_box(pos, r0[child_id].width, r0[child_id].height);
                assert forall|p: Pos| #[trigger] self.rects@[pid].covers(child_id, p) <==> r0[pid].placed(p, corners) by {
                    assert(self.rects@[pid].covers(child_id, p) == r1[pid].covers(child_id, p));
                }
                assert forall|c: usize| c != child_id implies #[trigger] self.rects@[pid].covered_by(c) == r0[pid].covered_by(c) by {
                    assert(self.rects@[pid].covered_by(c) == r1[pid].covered_by(c));
                }
            }
            assert(crate::tree::same_placement(r0, r1)) by {
                assert forall|k: usize| #[trigger] r0.contains_key(k) implies r0[k].parent == r1[k].parent
                    && r0[k].child_positions@ == r1[k].child_positions@ by {}
            }
            self.lemma_area_marks_same_links(r0, r1, child_id);
            let b = self.rects@;
            assert forall|k: usize| #[trigger] b.contains_key(k) implies {
                &&& b[k].flags_pos_refresh@ =~= r0[k].flags_pos_refresh@.union(crate::tree::cover_in(r0, child_id, k)).union(
                    area_marks(r0, child_id, k))
                &&& b[k].cached_display@ =~= r0[k].cached_display@
                &&& b[k].queued_display@ =~= r0[k].queued_display@
                &&& b[k].flag_full_refresh == r0[k].flag_full_refresh
            } by {
                assert(r1.contains_key(k));
                assert(area_marks(r1, child_id, k) == area_marks(r0, child_id, k));
                if has_up(r0, child_id) && k == up(r0, child_id) {
                    assert(r1[k].flags_pos_refresh@ == r0[k].flags_pos_refresh@.union(r0[k].covered_by(child_id)));
                } else {
                    assert(r1[k].flags_pos_refresh@ == r0[k].flags_pos_refresh@);
                }
            }
        }
        r
    }

    /// Flags the area a child covers in every rectangle above it, then takes the child out of
    /// its parent's records (where the parent is held).
    fn clear_child_space(&mut self, child_id: usize) -> (r: Result<(), WreckedError>)
        requires
            old(self).wf(),
        ensures
            final(self).wf(),
            final(self).same_bookkeeping(old(self)),
            !old(self).rects().contains_key(child_id) ==> r == Err::<(), WreckedError>(WreckedError::NotFound(child_id))
                && final(self).rects() == old(self).rects(),
            old(self).rects().contains_key(child_id) ==> {
                &&& r is Ok
                &&& final(self).rects().dom() == old(self).rects().dom()
                &&& forall|k: usize| #[trigger] old(self).rects().contains_key(k) ==> {
                    &&& final(self).rects()[k].same_frame(old(self).rects()[k])
                    &&& final(self).rects()[k].character_space@ == old(self).rects()[k].character_space@
                    &&& (!(has_up(old(self).rects(), child_id) && k == up(old(self).rects(), child_id))
                        ==> final(self).rects()[k].same_space(old(self).rects()[k]))
                }
                &&& has_up(old(self).rects(), child_id) ==> {
                    let pid = up(old(self).rects(), child_id);
                    &&& forall|p: Pos| !(#[trigger] final(self).rects()[pid].covers(child_id, p))
                    &&& final(self).rects()[pid].space() == old(self).rects()[pid].space_without(child_id)
                    &&& final(self).rects()[pid].inverse() == old(self).rects()[pid].inverse().insert(child_id, Seq::<Pos>::empty())
                }
                &&& crate::tree::space_marked(old(self).rects(), final(self).rects(), child_id)
            },
    {
        let r = self.flag_parent_refresh(child_id);
        if r.is_err() {
            return r;
        }
        let ghost r0 = self.rects@;
        match self.held_parent_id(child_id) {
            Some(pid) => {
                let mut parent = self.rects.remove(&pid).unwrap();
                let ghost old_parent = parent;
                parent.clear_child_space(child_id);
                proof {
                    assert(r0.contains_key(pid));
                    Rect::lemma_clear_keeps_space_ok(old_parent, parent, child_id);
                    lemma_tree_ok_replace(r0, pid, parent);
                }
                self.rects.insert(pid, parent);
                proof {
                    assert(self.rects@ =~= r0.insert(pid, parent));
                    assert forall|p: Pos| !(#[trigger] self.rects@[pid].covers(child_id, p)) by {}
                }
            },
            None => {},
        }
        proof {
            crate::tree::lemma_same_links_rel_offset(old(self).rects@, r0, child_id);
            assert forall|k: usize| #[trigger] old(self).rects@.contains_key(k) implies {
                &&& self.rects@[k].same_frame(old(self).rects@[k])
                &&& self.rects@[k].character_space@ == old(self).rects@[k].character_space@
                &&& (!(has_up(old(self).rects@, child_id) && k == up(old(self).rects@, child_id))
                    ==> self.rects@[k].same_space(old(self).rects@[k]))
            } by {
                assert(r0.contains_key(k));
            }
            if has_up(old(self).rects@, child_id) {
                let pid = up(old(self).rects@, child_id);
                assert(r0[pid].space() == old(self).rects@[pid].space());
                assert(r0[pid].inverse() == old(self).rects@[pid].inverse());
                assert(r0[pid].space_without(child_id) =~= old(self).rects@[pid].space_without(child_id));
                assert(r0[pid].inverse().insert(child_id, Seq::<Pos>::empty()) =~= old(self).rects@[pid].inverse().insert(child_id, Seq::<Pos>::empty()));
            }
            let a = old(self).rects@;
            let b = self.rects@;
            assert forall|k: usize| #[trigger] b.contains_key(k) implies {
                &&& b[k].flags_pos_refresh@ =~= a[k].flags_pos_refresh@.union(crate::tree::cover_in(a, child_id, k)).union(
                    area_marks(a, child_id, k))
                &&& b[k].cached_display@ =~= a[k].cached_display@
                &&& b[k].queued_display@ =~= a[k].queued_display@
                &&& b[k].flag_full_refresh == a[k].flag_full_refresh
            } by {
                assert(r0.contains_key(k));
                if has_up(a, child_id) && k == up(a, child_id) {
                    assert(r0[k].covered_by(child_id) == a[k].covered_by(child_id));
                } else {
                    assert(b[k] == r0[k]);
                }
            }
        }
        Ok(())
    }

    /// Sets whether a rectangle shows what is behind it where nothing is set.
    pub fn set_transparency(&mut self, rect_id: usize, transparent: bool) -> (r: Result<(), WreckedError>)
        requires
            old(self).wf(),
        ensures
            final(self).wf(),
            final(self).same_bookkeeping(old(self)),
            !old(self).rects().contains_key(rect_id) ==> r == Err::<(), WreckedError>(WreckedError::NotFound(rect_id))
                && final(self).rects() == old(self).rects(),
            old(self).rects().contains_key(rect_id) ==> {
                &&& r is Ok
                &&& final(self).rects() == old(self).rects().insert(rect_id, Rect { transparent, ..old(self).rects()[rect_id] })
            },
    {
        if !self.rects.contains_key(&rect_id) {
            return Err(WreckedError::NotFound(rect_id));
        }
        let ghost before = self.rects@;
        let mut rect = self.rects.remove(&rect_id).unwrap();
        rect.transparent = transparent;
        self.rects.insert(rect_id, rect);
        proof {
            assert(self.rects@ =~= before.insert(rect_id, Rect { transparent, ..before[rect_id] }));
            assert(same_links_map(before, self.rects@));
            lemma_tree_ok_same_links(before, self.rects@);
        }
        Ok(())
    }

    /// Sets the character at a position of a rectangle. Where no character is set, the
    /// default character is not stored; setting what is already shown changes nothing.
    pub fn set_character(&mut self, rect_id: usize, x: isize, y: isize, character: char) -> (r: Result<(), WreckedError>)
        requires
            old(self).wf(),
        ensures
            final(self).wf(),
            final(self).same_bookkeeping(old(self)),
            !old(self).rects().contains_key(rect_id) ==> r == Err::<(), WreckedError>(WreckedError::NotFound(rect_id))
                && final(self).rects() == old(self).rects(),
            old(self).rects().contains_key(rect_id) && !old(self).rects()[rect_id].holds(x, y)
                ==> r == Err::<(), WreckedError>(WreckedError::BadPosition(x, y)) && final(self).rects() == old(self).rects(),
            old(self).rects().contains_key(rect_id) && old(self).rects()[rect_id].holds(x, y) ==> {
                let rect = old(self).rects()[rect_id];
                &&& r is Ok
                &&& rect.char_change(x, y, character) ==> {
                    &&& chars_became(old(self).rects(), final(self).rects(), rect_id,
                        rect.character_space@.insert((x, y), character))
                    &&& crate::tree::point_refreshed(old(self).rects(), final(self).rects(), rect_id, (x, y))
                }
                &&& !rect.char_change(x, y, character) ==> final(self).rects() == old(self).rects()
            },
    {
        if !self.rects.contains_key(&rect_id) {
            return Err(WreckedError::NotFound(rect_id));
        }
        let ghost before = self.rects@;
        let mut rect = self.rects.remove(&rect_id).unwrap();
        let ghost old_rect = rect;
        let result = rect.set_character(x, y, character);
        proof {
            if result.is_err() || !result.unwrap() {
                assert(rect.character_space@ == old_rect.character_space@);
            }
        }
        self.rects.insert(rect_id, rect);
        proof {
            assert(self.rects@ =~= before.insert(rect_id, rect));
            assert(same_links_map(before, self.rects@));
            lemma_tree_ok_same_links(before, self.rects@);
        }
        let changed = match result {
            Ok(c) => c,
            Err(e) => {
                proof {
                    lemma_rect_same_views(self, before, rect_id);
                }
                return Err(e);
            },
        };
        if changed {
            let ghost mid = self.rects@;
            let r = self.flag_pos_refresh(rect_id, x, y);
            proof {
                assert(mid.contains_key(rect_id));
                crate::tree::lemma_placement_kept(before, rect_id, mid[rect_id]);
                assert(mid == before.insert(rect_id, mid[rect_id]));
                assert(self.rects@.dom() =~= before.dom());
                self.lemma_point_refreshed_from(before, mid, self.rects@, rect_id, (x, y));
                assert forall|k: usize| #[trigger] before.contains_key(k) implies {
                    &&& self.rects@[k].same_frame(before[k])
                    &&& self.rects@[k].same_space(before[k])
                    &&& (k != rect_id ==> self.rects@[k].character_space@ == before[k].character_space@)
                } by {
                    assert(mid.contains_key(k));
                }
            }
            r
        } else {
            proof {
                lemma_rect_same_views(self, before, rect_id);
            }
            Ok(())
        }
    }

    /// Puts the default character at a position of a rectangle (see `set_character`).
    pub fn unset_character(&mut self, rect_id: usize, x: isize, y: isize) -> (r: Result<(), WreckedError>)
        requires
            old(self).wf(),
        ensures
            final(self).wf(),
            final(self).same_bookkeeping(old(self)),
            !old(self).rects().contains_key(rect_id) ==> r == Err::<(), WreckedError>(WreckedError::NotFound(rect_id))
                && final(self).rects() == old(self).rects(),
            old(self).rects().contains_key(rect_id) && !old(self).rects()[rect_id].holds(x, y)
                ==> r == Err::<(), WreckedError>(WreckedError::BadPosition(x, y)) && final(self).rects() == old(self).rects(),
            old(self).rects().contains_key(rect_id) && old(self).rects()[rect_id].holds(x, y) ==> {
                let rect = old(self).rects()[rect_id];
                &&& r is Ok
                &&& rect.char_change(x, y, rect.default_character) ==> {
                    &&& chars_became(old(self).rects(), final(self).rects(), rect_id,
                        rect.character_space@.insert((x, y), rect.default_character))
                    &&& crate::tree::display_refreshed(old(self).rects(), final(self).rects(), rect_id)
                }
                &&& !rect.char_change(x, y, rect.default_character) ==> final(self).rects() == old(self).rects()
            },
    {
        if !self.rects.contains_key(&rect_id) {
            return Err(WreckedError::NotFound(rect_id));
        }
        let ghost before = self.rects@;
        let mut rect = self.rects.remove(&rect_id).unwrap();
        let ghost old_rect = rect;
        let result = rect.unset_character(x, y);
        self.rects.insert(rect_id, rect);
        proof {
            assert(self.rects@ =~= before.insert(rect_id, rect));
            assert(same_links_map(before, self.rects@));
            lemma_tree_ok_same_links(before, self.rects@);
        }
        let changed = match result {
            Ok(c) => c,
            Err(e) => {
                proof {
                    lemma_rect_same_views(self, before, rect_id);
                }
                return Err(e);
            },
        };
        if changed {
            let ghost mid = self.rects@;
            let r = self.flag_refresh(rect_id);
            proof {
                assert(mid.contains_key(rect_id));
                crate::tree::lemma_placement_kept(before, rect_id, mid[rect_id]);
                assert(mid == before.insert(rect_id, mid[rect_id]));
                assert(self.rects@.dom() =~= before.dom());
                self.lemma_refresh_marked_from(before, mid, self.rects@, rect_id);
                assert forall|k: usize| #[trigger] before.contains_key(k) implies {
                    &&& self.rects@[k].same_frame(before[k])
                    &&& self.rects@[k].same_space(before[k])
                    &&& (k != rect_id ==> self.rects@[k].character_space@ == before[k].character_space@)
                } by {
                    assert(mid.contains_key(k));
                }
            }
            r
        } else {
            proof {
                lemma_rect_same_views(self, before, rect_id);
            }
            Ok(())
        }
    }

    /// `b` is `a` once every character of `id` is removed: nothing set or waiting to be
    /// drawn is left in it, and it is flagged to be redrawn whole.
    pub open spec fn chars_cleared(a: Map<usize, Rect>, b: Map<usize, Rect>, id: usize) -> bool {
        &&& chars_became(a, b, id, Map::<Pos, char>::empty())
        &&& crate::tree::refresh_marked(a, b, id)
        &&& b[id].queued_display@ == Map::<Pos, crate::rect::QueuedCell>::empty()
        &&& forall|k: usize| #[trigger] a.contains_key(k) && k != id ==> b[k].queued_display@ == a[k].queued_display@
    }

    /// Removes every character set in a rectangle.
    pub fn clear_characters(&mut self, rect_id: usize) -> (r: Result<(), WreckedError>)
        requires
            old(self).wf(),
        ensures
            final(self).wf(),
            final(self).same_bookkeeping(old(self)),
            !old(self).rects().contains_key(rect_id) ==> r == Err::<(), WreckedError>(WreckedError::NotFound(rect_id))
                && final(self).rects() == old(self).rects(),
            old(self).rects().contains_key(rect_id) ==> {
                &&& r is Ok
                &&& Self::chars_cleared(old(self).rects(), final(self).rects(), rect_id)
            },
    {
        if !self.rects.contains_key(&rect_id) {
            return Err(WreckedError::NotFound(rect_id));
        }
        let ghost before = self.rects@;
        let mut rect = self.rects.remove(&rect_id).unwrap();
        rect.clear_characters();
        self.rects.insert(rect_id, rect);
        proof {
            assert(self.rects@ =~= before.insert(rect_id, rect));
            assert(same_links_map(before, self.rects@));
            lemma_tree_ok_same_links(before, self.rects@);
        }
        let ghost mid = self.rects@;
        let r = self.flag_refresh(rect_id);
        proof {
            assert(mid.contains_key(rect_id));
            crate::tree::lemma_placement_kept(before, rect_id, mid[rect_id]);
            assert(mid == before.insert(rect_id, mid[rect_id]));
            assert(self.rects@.dom() =~= before.dom());
            self.lemma_refresh_marked_from(before, mid, self.rects@, rect_id);
            assert forall|k: usize| #[trigger] before.contains_key(k) implies {
                &&& self.rects@[k].same_frame(before[k])
                &&& self.rects@[k].same_space(before[k])
                &&& (k != rect_id ==> self.rects@[k].character_space@ == before[k].character_space@)
            } by {
                assert(mid.contains_key(k));
            }
        }
        r
    }

    /// Every rectangle keeps its characters and all but `id` their frame; `id` keeps its frame
    /// but for `enabled`, which becomes `v`.
    pub open spec fn enabled_became(a: Map<usize, Rect>, b: Map<usize, Rect>, id: usize, v: bool) -> bool {
        &&& a.dom() == b.dom()
        &&& forall|k: usize| #[trigger] a.contains_key(k) ==> {
            &&& b[k].character_space@ == a[k].character_space@
            &&& (k != id ==> b[k].same_frame(a[k]))
        }
        &&& b[id].same_frame_but_enabled(a[id])
        &&& b[id].enabled == v
    }

    /// Stops drawing a rectangle and its descendants: it is taken out of its parent's records
    /// and the parent is redrawn. Disabling an enabled rectangle whose parent is not held
    /// disables it and reports it as not found.
    pub fn disable(&mut self, rect_id: usize) -> (r: Result<(), WreckedError>)
        requires
            old(self).wf(),
        ensures
            final(self).wf(),
            final(self).same_bookkeeping(old(self)),
            forall|k: usize| #[trigger] final(self).placement_ready(k) == old(self).placement_ready(k),
            !old(self).rects().contains_key(rect_id) ==> r == Err::<(), WreckedError>(WreckedError::NotFound(rect_id))
                && final(self).rects() == old(self).rects(),
            old(self).rects().contains_key(rect_id) ==> {
                let rects = old(self).rects();
                &&& Self::enabled_became(rects, final(self).rects(), rect_id, false)
                &&& (rects[rect_id].enabled && has_up(rects, rect_id)) ==> {
                    let pid = up(rects, rect_id);
                    &&& r is Ok
                    &&& final(self).rects()[pid].space() == rects[pid].space_without(rect_id)
                    &&& forall|p: Pos| !(#[trigger] final(self).rects()[pid].covers(rect_id, p))
                    &&& crate::tree::hide_marked(rects, final(self).rects(), rect_id)
                    &&& forall|k: usize| #[trigger] rects.contains_key(k) && k != pid ==> final(self).rects()[k].same_space(rects[k])
                }
                &&& (rects[rect_id].enabled && !has_up(rects, rect_id)) ==> r == Err::<(), WreckedError>(WreckedError::NotFound(rect_id))
                &&& !rects[rect_id].enabled ==> r is Ok && final(self).rects() == rects
            },
    {
        if !self.rects.contains_key(&rect_id) {
            return Err(WreckedError::NotFound(rect_id));
        }
        let ghost before = self.rects@;
        let mut rect = self.rects.remove(&rect_id).unwrap();
        let was_enabled = rect.enabled;
        rect.disable();
        self.rects.insert(rect_id, rect);
        proof {
            assert(self.rects@ =~= before.insert(rect_id, rect));
            assert(same_links_map(before, self.rects@));
            lemma_tree_ok_same_links(before, self.rects@);
            if !was_enabled {
                assert(rect == before[rect_id]);
                lemma_rect_same_views(self, before, rect_id);
            }
        }
        if was_enabled {
            let ghost r1 = self.rects@;
            let parent_id = match self.held_parent_id(rect_id) {
                Some(pid) => pid,
                None => {
                    proof {
                        assert(!has_up(before, rect_id));
                    }
                    return Err(WreckedError::NotFound(rect_id));
                },
            };
            let mut parent = self.rects.remove(&parent_id).unwrap();
            let ghost old_parent = parent;
            parent.clear_child_space(rect_id);
            proof {
                assert(r1.contains_key(parent_id));
                Rect::lemma_clear_keeps_space_ok(old_parent, parent, rect_id);
                lemma_tree_ok_replace(r1, parent_id, parent);
            }
            self.rects.insert(parent_id, parent);
            proof {
                assert(self.rects@ =~= r1.insert(parent_id, parent));
                crate::tree::lemma_not_own_parent(before, rect_id);
            }
            let ghost r2 = self.rects@;
            let r = self.flag_refresh(parent_id);
            proof {
                assert(r2.contains_key(parent_id));
                assert forall|k: usize| #[trigger] before.contains_key(k) implies {
                    &&& self.rects@[k].character_space@ == before[k].character_space@
                    &&& (k != rect_id ==> self.rects@[k].same_frame(before[k]))
                } by {
                    assert(r2.contains_key(k));
                }
                assert forall|p: Pos| !(#[trigger] self.rects@[parent_id].covers(rect_id, p)) by {
                    assert(self.rects@[parent_id].inverse() == r2[parent_id].inverse());
                }
                assert(r2[parent_id].space_without(rect_id) == before[parent_id].space_without(rect_id));
                assert forall|k: usize| #[trigger] before.contains_key(k) && k != parent_id implies self.rects@[k].same_space(before[k]) by {
                    assert(r2.contains_key(k));
                }
                assert(crate::tree::same_placement(before, r2)) by {
                    assert forall|k: usize| #[trigger] before.contains_key(k) implies before[k].parent == r2[k].parent
                        && before[k].child_positions@ == r2[k].child_positions@ by {
                        assert(r1.contains_key(k));
                    }
                }
                self.lemma_area_marks_same_links(before, r2, parent_id);
                let b = self.rects@;
                assert forall|k: usize| #[trigger] b.contains_key(k) implies {
                    &&& b[k].flags_pos_refresh@ =~= before[k].flags_pos_refresh@.union(crate::tree::cover_in(before, rect_id, k)).union(
                        area_marks(before, parent_id, k))
                    &&& b[k].cached_display@ =~= (if k == parent_id {
                        Map::<Pos, crate::rect::QueuedCell>::empty()
                    } else {
                        before[k].cached_display@
                    })
                    &&& b[k].queued_display@ =~= before[k].queued_display@
                    &&& b[k].flag_full_refresh == (k == parent_id || before[k].flag_full_refresh)
                } by {
                    assert(r1.contains_key(k) && r2.contains_key(k));
                    assert(area_marks(r2, parent_id, k) == area_marks(before, parent_id, k));
                    if k == parent_id {
                        assert(r2[k].flags_pos_refresh@ == r1[k].flags_pos_refresh@.union(r1[k].covered_by(rect_id)));
                        assert(r1[k] == before[k]);
                    } else {
                        assert(crate::tree::cover_in(before, rect_id, k) == Set::<Pos>::empty());
                    }
                }
            }
            r
        } else {
            Ok(())
        }
    }

    /// Draws a disabled rectangle again, placing it back in its parent's records; an enabled
    /// rectangle is left as it is.
    pub fn enable(&mut self, rect_id: usize) -> (r: Result<(), WreckedError>)
        requires
            old(self).wf(),
            old(self).rects().contains_key(rect_id) && !old(self).rects()[rect_id].enabled
                ==> old(self).placement_ready(rect_id),
        ensures
            final(self).wf(),
            final(self).same_bookkeeping(old(self)),
            forall|k: usize| #[trigger] final(self).placement_ready(k) == old(self).placement_ready(k),
            !old(self).rects().contains_key(rect_id) ==> r == Err::<(), WreckedError>(WreckedError::NotFound(rect_id))
                && final(self).rects() == old(self).rects(),
            old(self).rects().contains_key(rect_id) ==> {
                let rects = old(self).rects();
                &&& r is Ok
                &&& Self::enabled_became(rects, final(self).rects(), rect_id, true)
                &&& rects[rect_id].enabled ==> final(self).rects() == rects.insert(rect_id, final(self).rects()[rect_id])
                &&& (!rects[rect_id].enabled && has_up(rects, rect_id)) ==> {
                    let pid = up(rects, rect_id);
                    let pos = match rel_offset(rects, rect_id) { Some(q) => q, None => (0isize, 0isize) };
                    let corners = Self::child_box(pos, rects[rect_id].width, rects[rect_id].height);
                    forall|p: Pos| #[trigger] final(self).rects()[pid].covers(rect_id, p) <==> rects[pid].placed(p, corners)
                }
                &&& !rects[rect_id].enabled ==> crate::tree::space_marked(rects, final(self).rects(), rect_id)
            },
    {
        if !self.rects.contains_key(&rect_id) {
            return Err(WreckedError::NotFound(rect_id));
        }
        let ghost before = self.rects@;
        let mut rect = self.rects.remove(&rect_id).unwrap();
        let was_enabled = rect.enabled;
        rect.enable();
        self.rects.insert(rect_id, rect);
        proof {
            assert(self.rects@ =~= before.insert(rect_id, rect));
            assert(same_links_map(before, self.rects@));
            lemma_tree_ok_same_links(before, self.rects@);
            assert(crate::tree::same_placement(before, self.rects@));
            crate::tree::lemma_same_placement(before, self.rects@, rect_id);
        }
        if !was_enabled {
            let ghost r1 = self.rects@;
            let r = self.update_child_space(rect_id);
            proof {
                assert(r1.contains_key(rect_id));
                assert forall|k: usize| #[trigger] before.contains_key(k) implies {
                    &&& self.rects@[k].character_space@ == before[k].character_space@
                    &&& (k != rect_id ==> self.rects@[k].same_frame(before[k]))
                } by {
                    assert(r1.contains_key(k));
                }
                self.lemma_area_marks_same_links(before, r1, rect_id);
                assert forall|k: usize| #[trigger] self.rects@.contains_key(k) implies
                    crate::tree::cover_in(r1, rect_id, k) == crate::tree::cover_in(before, rect_id, k)
                    && area_marks(r1, rect_id, k) == area_marks(before, rect_id, k)
                    && r1[k].same_display(before[k]) by {
                    assert(r1.contains_key(k));
                }
            }
            r
        } else {
            Ok(())
        }
    }

    /// Enabling a rectangle undoes disabling it: once an enabled rectangle whose parent lists
    /// it is disabled (as `disable` leaves the rectangles in `b`), its parent still lists it,
    /// so `enable` may be called; and once it is enabled again (as `enable` leaves them in
    /// `c`), it is enabled with the frame it had at first.
    pub proof fn law_enable_undoes_disable(a: RectManager, b: RectManager, c: RectManager, id: usize)
        requires
            a.wf(),
            a.rects().contains_key(id),
            a.rects()[id].enabled,
            a.placement_ready(id),
            Self::enabled_became(a.rects(), b.rects(), id, false),
            Self::enabled_became(b.rects(), c.rects(), id, true),
        ensures
            b.placement_ready(id),
            c.rects()[id].enabled,
            c.rects()[id].same_frame(a.rects()[id]),
    {
        let ra = a.rects();
        let rb = b.rects();
        if has_up(ra, id) {
            crate::tree::lemma_not_own_parent(ra, id);
            assert(rb[up(ra, id)].same_frame(ra[up(ra, id)]));
        }
        assert(has_up(rb, id) == has_up(ra, id));
    }

    /// Takes a rectangle out of its parent without destroying it, so it can be attached again.
    pub fn detach(&mut self, rect_id: usize) -> (r: Result<(), WreckedError>)
        requires
            old(self).wf(),
        ensures
            final(self).wf(),
            final(self).same_bookkeeping(old(self)),
            !old(self).rects().contains_key(rect_id) ==> r == Err::<(), WreckedError>(WreckedError::NotFound(rect_id))
                && final(self).rects() == old(self).rects(),
            old(self).rects().contains_key(rect_id) ==> Self::detached(old(self).rects(), final(self).rects(), rect_id) && r is Ok
                && crate::tree::space_marked(old(self).rects(), final(self).rects(), rect_id),
    {
        let r = self.clear_child_space(rect_id);
        if r.is_err() {
            return r;
        }
        let ghost a = old(self).rects@;
        let ghost r0 = self.rects@;
        proof {
            assert(crate::tree::same_placement(a, r0));
            crate::tree::lemma_same_placement(a, r0, rect_id);
        }
        match self.held_parent_id(rect_id) {
            Some(pid) => {
                let mut parent = self.rects.remove(&pid).unwrap();
                let ghost p0 = parent;
                parent.detach_child(rect_id);
                proof {
                    assert(r0.contains_key(pid));
                    assert forall|q: Pos| !p0.covers(rect_id, q) by {
                        assert(!r0[pid].covers(rect_id, q));
                    }
                    assert(p0.space_without(rect_id) =~= p0.space());
                    Rect::lemma_detach_keeps_space_ok(p0, parent, rect_id);
                    crate::tree::lemma_not_own_parent(a, rect_id);
                }
                self.rects.insert(pid, parent);
            },
            None => {},
        }
        let ghost r1 = self.rects@;
        let mut rect = self.rects.remove(&rect_id).unwrap();
        rect.unset_parent();
        self.rects.insert(rect_id, rect);
        proof {
            let b = self.rects@;
            assert(b.dom() =~= a.dom());
            assert(r0.contains_key(rect_id));
            assert(b[rect_id].space_ok()) by {
                assert(r1[rect_id].space_ok()) by {
                    if has_up(a, rect_id) {
                        crate::tree::lemma_not_own_parent(a, rect_id);
                    }
                    assert(r1[rect_id] == r0[rect_id]);
                }
                assert(b[rect_id].space() == r1[rect_id].space());
                assert(b[rect_id].inverse() == r1[rect_id].inverse());
                assert(b[rect_id].children@ == r1[rect_id].children@);
                assert forall|p: Pos, i: int| #![trigger b[rect_id].space()[p][i]]
                    b[rect_id].space().contains_key(p) && 0 <= i < b[rect_id].space()[p].len() implies {
                        let c = b[rect_id].space()[p][i];
                        &&& b[rect_id].children@.contains(c)
                        &&& b[rect_id].covers(c, p)
                    } by {
                    assert(r1[rect_id].space()[p][i] == b[rect_id].space()[p][i]);
                }
            }
            if has_up(a, rect_id) {
                crate::tree::lemma_not_own_parent(a, rect_id);
            }
            assert forall|q: usize| #[trigger] r0.contains_key(q) && q != rect_id && !(has_up(r0, rect_id) && q == up(r0, rect_id))
                implies same_links(b[q], r0[q]) by {}
            crate::tree::lemma_tree_ok_detach(r0, b, rect_id);
            assert forall|k: usize| #[trigger] a.contains_key(k) && k != rect_id && !(has_up(a, rect_id) && k == up(a, rect_id))
                implies b[k].same_frame(a[k]) && b[k].same_space(a[k]) by {
                assert(r0.contains_key(k));
            }
            assert forall|k: usize| #[trigger] a.contains_key(k) implies b[k].character_space@ == a[k].character_space@ by {
                assert(r0.contains_key(k));
            }
            if has_up(a, rect_id) {
                let p = up(a, rect_id);
                assert(r0.contains_key(p));
                assert(r0[p].space() == a[p].space_without(rect_id));
                assert(b[p].space() == r0[p].space());
                assert(b[p].inverse() =~= a[p].inverse().insert(rect_id, Seq::<Pos>::empty()));
            }
            assert forall|k: usize| #[trigger] b.contains_key(k) implies {
                &&& b[k].flags_pos_refresh@ =~= a[k].flags_pos_refresh@.union(crate::tree::cover_in(a, rect_id, k)).union(
                    area_marks(a, rect_id, k))
                &&& b[k].cached_display@ =~= a[k].cached_display@
                &&& b[k].queued_display@ =~= a[k].queued_display@
                &&& b[k].flag_full_refresh == a[k].flag_full_refresh
            } by {
                assert(r0.contains_key(k) && r1.contains_key(k));
                if has_up(a, rect_id) && k == up(a, rect_id) {
                    assert(r0[k].covered_by(rect_id) =~= Set::<Pos>::empty());
                }
            }
        }
        Ok(())
    }

    /// The rectangles after `id` was taken out of its parent: it names no parent; the parent
    /// (where held) no longer lists it, records no offset for it and no position it covers;
    /// nothing else changes but what is waiting to be drawn.
    pub open spec fn detached(a: Map<usize, Rect>, b: Map<usize, Rect>, id: usize) -> bool {
        &&& a.dom() == b.dom()
        &&& b[id].parent is None
        &&& forall|k: usize| #[trigger] a.contains_key(k) ==> b[k].character_space@ == a[k].character_space@
        &&& forall|k: usize| #[trigger] a.contains_key(k) && k != id && !(has_up(a, id) && k == up(a, id))
            ==> b[k].same_frame(a[k]) && b[k].same_space(a[k])
        &&& b[id].same_but_parent_frame(a[id])
        &&& b[id].same_space(a[id])
        &&& has_up(a, id) ==> {
            let p = up(a, id);
            &&& b[p].children@ == crate::rect::without(a[p].children@, id)
            &&& b[p].child_positions@ == a[p].child_positions@.remove(id)
            &&& b[p].space() == a[p].space_without(id)
            &&& b[p].inverse() == a[p].inverse().insert(id, Seq::<Pos>::empty())
            &&& b[p].rect_id == a[p].rect_id
            &&& b[p].width == a[p].width
            &&& b[p].height == a[p].height
            &&& b[p].default_character == a[p].default_character
            &&& b[p].parent == a[p].parent
            &&& b[p].child_ranks@ == a[p].child_ranks@
            &&& b[p].enabled == a[p].enabled
            &&& b[p].transparent == a[p].transparent
            &&& b[p].effects == a[p].effects
        }
    }

    /// The rectangles after `id` was moved under `np`: as `detached` says for its old parent,
    /// then `np` (where held) lists it last with offset (0, 0) and an empty record, and `id`
    /// names `np` as parent.
    pub open spec fn attached(a: Map<usize, Rect>, b: Map<usize, Rect>, id: usize, np: usize) -> bool {
        let op = if has_up(a, id) { Some(up(a, id)) } else { None };
        let was_child = op == Some(np);
        &&& a.dom() == b.dom()
        &&& b[id].parent == Some(np)
        &&& b[id].same_but_parent_frame(a[id])
        &&& b[id].same_space(a[id])
        &&& forall|k: usize| #[trigger] a.contains_key(k) ==> b[k].character_space@ == a[k].character_space@
        &&& forall|k: usize| #[trigger] a.contains_key(k) && k != id && op != Some(k) && k != np
            ==> b[k].same_frame(a[k]) && b[k].same_space(a[k])
        &&& (has_up(a, id) && up(a, id) != np) ==> {
            let p = up(a, id);
            &&& b[p].children@ == crate::rect::without(a[p].children@, id)
            &&& b[p].child_positions@ == a[p].child_positions@.remove(id)
            &&& b[p].space() == a[p].space_without(id)
            &&& b[p].rect_id == a[p].rect_id
            &&& b[p].width == a[p].width
            &&& b[p].height == a[p].height
            &&& b[p].default_character == a[p].default_character
            &&& b[p].parent == a[p].parent
            &&& b[p].child_ranks@ == a[p].child_ranks@
            &&& b[p].enabled == a[p].enabled
            &&& b[p].transparent == a[p].transparent
            &&& b[p].effects == a[p].effects
        }
        &&& a.contains_key(np) ==> {
            &&& b[np].children@ == (if was_child { crate::rect::without(a[np].children@, id) } else { a[np].children@ }).push(id)
            &&& b[np].child_positions@ == (if was_child {
                a[np].child_positions@.remove(id)
            } else {
                a[np].child_positions@
            }).insert(id, (0isize, 0isize))
            &&& b[np].space() == (if was_child { a[np].space_without(id) } else { a[np].space() })
            &&& b[np].inverse() == a[np].inverse().insert(id, Seq::<Pos>::empty())
            &&& Rect::ranks_index(b[np].children@, b[np].child_ranks@)
            &&& b[np].rect_id == a[np].rect_id
            &&& b[np].width == a[np].width
            &&& b[np].height == a[np].height
            &&& b[np].default_character == a[np].default_character
            &&& b[np].parent == a[np].parent
            &&& b[np].enabled == a[np].enabled
            &&& b[np].transparent == a[np].transparent
            &&& b[np].effects == a[np].effects
        }
    }

    /// Makes one rectangle a child of another, taking it out of its old parent first. A
    /// parent that is not held is still recorded in the rectangle, and reported as missing.
    pub fn attach(&mut self, rect_id: usize, new_parent_id: usize) -> (r: Result<(), WreckedError>)
        requires
            old(self).wf(),
            !crate::tree::is_above(old(self).rects(), rect_id, new_parent_id),
        ensures
            final(self).wf(),
            final(self).same_bookkeeping(old(self)),
            !old(self).rects().contains_key(rect_id) ==> r == Err::<(), WreckedError>(WreckedError::NotFound(rect_id))
                && final(self).rects() == old(self).rects(),
            old(self).rects().contains_key(rect_id) ==> {
                &&& Self::attached(old(self).rects(), final(self).rects(), rect_id, new_parent_id)
                &&& crate::tree::attach_marked(old(self).rects(), final(self).rects(), rect_id)
                &&& old(self).rects().contains_key(new_parent_id) ==> r is Ok && final(self).placement_ready(rect_id)
                &&& !old(self).rects().contains_key(new_parent_id) ==> r == Err::<(), WreckedError>(WreckedError::NoParent(rect_id))
            },
    {
        let r = self.detach(rect_id);
        if r.is_err() {
            return r;
        }
        let ghost a = old(self).rects@;
        let ghost mid = self.rects@;
        proof {
            assert forall|q: usize| q != rect_id && #[trigger] a.contains_key(q) implies mid[q].parent == a[q].parent by {
                if has_up(a, rect_id) && q == up(a, rect_id) {
                } else {
                }
            }
            crate::tree::lemma_not_above_after_change(a, mid, rect_id, new_parent_id);
        }
        let mut rect = self.rects.remove(&rect_id).unwrap();
        rect.set_parent(new_parent_id);
        self.rects.insert(rect_id, rect);
        if !self.rects.contains_key(&new_parent_id) {
            proof {
                let b = self.rects@;
                assert(b.dom() =~= mid.dom());
                crate::tree::lemma_tree_ok_attach(mid, b, rect_id, new_parent_id);
                assert forall|k: usize| #[trigger] a.contains_key(k) implies b[k].character_space@ == a[k].character_space@ by {
                    assert(mid.contains_key(k));
                }
                assert forall|k: usize| #[trigger] a.contains_key(k) && k != rect_id && (if has_up(a, rect_id) { Some(up(a, rect_id)) } else { None }) != Some(k) && k != new_parent_id
                    implies b[k].same_frame(a[k]) && b[k].same_space(a[k]) by {
                    assert(mid.contains_key(k));
                }
                assert(!has_up(b, rect_id));
                assert forall|k: usize| #[trigger] b.contains_key(k) implies area_marks(b, rect_id, k) == Set::<Pos>::empty()
                    && b[k].same_display(mid[k]) by {
                    assert(mid.contains_key(k));
                    crate::tree::lemma_parent_marks_fuel(b, rect_id, (0isize, 0isize), b[rect_id].width, b[rect_id].height, k,
                        0, choose|n: nat| chain_ends(b, rect_id, n));
                }
            }
            return Err(WreckedError::NoParent(rect_id));
        }
        let mut parent = self.rects.remove(&new_parent_id).unwrap();
        parent.add_child(rect_id);
        self.rects.insert(new_parent_id, parent);
        let ghost b = self.rects@;
        proof {
            assert(b.dom() =~= mid.dom());
            assert(mid.contains_key(new_parent_id));
            assert(above_within_self(mid, rect_id));
            crate::tree::lemma_tree_ok_attach(mid, b, rect_id, new_parent_id);
            assert forall|k: usize| #[trigger] a.contains_key(k) implies b[k].character_space@ == a[k].character_space@ by {
                assert(mid.contains_key(k));
            }
            assert forall|k: usize| #[trigger] a.contains_key(k) && k != rect_id && (if has_up(a, rect_id) { Some(up(a, rect_id)) } else { None }) != Some(k) && k != new_parent_id
                implies b[k].same_frame(a[k]) && b[k].same_space(a[k]) by {
                assert(mid.contains_key(k));
            }
        }
        let r = self.flag_parent_refresh(rect_id);
        proof {
            assert(b.contains_key(rect_id));
            let f = self.rects@;
            assert forall|k: usize| #[trigger] a.contains_key(k) implies f[k].character_space@ == a[k].character_space@ by {
                assert(b.contains_key(k));
            }
            assert forall|k: usize| #[trigger] a.contains_key(k) && k != rect_id && (if has_up(a, rect_id) { Some(up(a, rect_id)) } else { None }) != Some(k) && k != new_parent_id
                implies f[k].same_frame(a[k]) && f[k].same_space(a[k]) by {
                assert(b.contains_key(k));
            }
            assert(crate::tree::same_placement(b, f)) by {
                assert forall|k: usize| #[trigger] b.contains_key(k) implies b[k].parent == f[k].parent
                    && b[k].child_positions@ == f[k].child_positions@ by {}
            }
            self.lemma_area_marks_same_links(b, f, rect_id);
            assert(mid.contains_key(new_parent_id));
            if has_up(a, rect_id) && up(a, rect_id) == new_parent_id {
                assert(mid[new_parent_id].inverse() == a[new_parent_id].inverse().insert(rect_id, Seq::<Pos>::empty()));
            } else {
                assert(mid[new_parent_id].same_space(a[new_parent_id]));
            }
            assert(f[new_parent_id].inverse() =~= a[new_parent_id].inverse().insert(rect_id, Seq::<Pos>::empty()));
            assert(b.contains_key(new_parent_id) && f[new_parent_id].children@ == b[new_parent_id].children@);
            assert(b[new_parent_id].children@ == mid[new_parent_id].children@.push(rect_id));
            let cs = f[new_parent_id].children@;
            assert(cs[cs.len() - 1] == rect_id);
            assert(has_up(f, rect_id) && up(f, rect_id) == new_parent_id);
            assert forall|k: usize| #[trigger] f.contains_key(k) implies b[k].same_display(mid[k])
                && area_marks(b, rect_id, k) == area_marks(f, rect_id, k) by {
                assert(mid.contains_key(k));
            }
        }
        r
    }

    /// Creates a rectangle as the last child of `parent_id`, 1 by 1 at offset (0, 0). The id
    /// it gets must not already be named as a parent: that would link it into a tree at once.
    pub fn new_rect(&mut self, parent_id: usize) -> (r: Result<usize, WreckedError>)
        requires
            old(self).wf(),
            old(self).can_gen_id(),
            parent_id != old(self).next_id(),
            !crate::tree::named_above(old(self).rects(), parent_id, old(self).next_id()),
        ensures
            final(self).wf(),
            ({
                let id = old(self).next_id();
                let a = old(self).rects();
                let b = final(self).rects();
                &&& !a.contains_key(id)
                &&& b.dom() == a.dom().insert(id)
                &&& b[id].parent == Some(parent_id)
                &&& b[id].width == 1 && b[id].height == 1
                &&& b[id].children@ == Seq::<usize>::empty()
                &&& b[id].character_space@ == Map::<Pos, char>::empty()
                &&& b[id].effects == crate::effects::plain_effects()
                &&& b[id].enabled && !b[id].transparent
                &&& forall|k: usize| #[trigger] a.contains_key(k) ==> b[k].character_space@ == a[k].character_space@
                &&& forall|k: usize| #[trigger] a.contains_key(k) && k != parent_id ==> b[k].same_frame(a[k]) && b[k].same_space(a[k])
                &&& a.contains_key(parent_id) ==> {
                    &&& r == Ok::<usize, WreckedError>(id)
                    &&& final(self).placement_ready(id)
                    &&& b[parent_id].children@ == a[parent_id].children@.push(id)
                    &&& b[parent_id].child_positions@ == a[parent_id].child_positions@.insert(id, (0isize, 0isize))
                    &&& b[parent_id].space() == a[parent_id].space()
                    &&& b[parent_id].inverse() == a[parent_id].inverse().insert(id, Seq::<Pos>::empty())
                    &&& Rect::ranks_index(b[parent_id].children@, b[parent_id].child_ranks@)
                    &&& b[parent_id].rect_id == a[parent_id].rect_id
                    &&& b[parent_id].width == a[parent_id].width
                    &&& b[parent_id].height == a[parent_id].height
                    &&& b[parent_id].default_character == a[parent_id].default_character
                    &&& b[parent_id].parent == a[parent_id].parent
                    &&& b[parent_id].enabled == a[parent_id].enabled
                    &&& b[parent_id].transparent == a[parent_id].transparent
                    &&& b[parent_id].effects == a[parent_id].effects
                }
                &&& !a.contains_key(parent_id) ==> r == Err::<usize, WreckedError>(WreckedError::NoParent(id))
                &&& crate::tree::created_marked(a, b, id)
            }),
    {
        let ghost a = old(self).rects@;
        let new_id = self.gen_id();
        let rect = Rect::new(new_id);
        self.rects.insert(new_id, rect);
        proof {
            self.lemma_insert_new_rect(a, new_id);
            let m = self.rects@;
            assert(m =~= a.insert(new_id, m[new_id]));
            crate::tree::lemma_new_not_above(a, m, new_id, parent_id);
        }
        let ghost m = self.rects@;
        let r = self.attach(new_id, parent_id);
        if r.is_err() {
            proof {
                assert forall|k: usize| #[trigger] a.contains_key(k) implies self.rects@[k].character_space@ == a[k].character_space@ by {
                    assert(m.contains_key(k));
                }
                assert forall|k: usize| #[trigger] a.contains_key(k) && k != parent_id
                    implies self.rects@[k].same_frame(a[k]) && self.rects@[k].same_space(a[k]) by {
                    assert(m.contains_key(k));
                }
                let b = self.rects@;
                assert forall|k: usize| #[trigger] b.contains_key(k) implies crate::tree::cover_in(m, new_id, k) == Set::<Pos>::empty()
                    && area_marks(m, new_id, k) == Set::<Pos>::empty() by {
                    assert(!has_up(m, new_id));
                }
                assert forall|k: usize| #[trigger] a.contains_key(k) implies {
                    &&& b[k].flags_pos_refresh@ =~= a[k].flags_pos_refresh@.union(area_marks(b, new_id, k))
                    &&& b[k].cached_display@ =~= a[k].cached_display@
                    &&& b[k].queued_display@ =~= a[k].queued_display@
                    &&& b[k].flag_full_refresh == a[k].flag_full_refresh
                } by {
                    assert(m.contains_key(k) && b.contains_key(k));
                    assert(m[k] == a[k]);
                }
                assert(b.contains_key(new_id));
            }
            return Err(WreckedError::NoParent(new_id));
        }
        let ghost m2 = self.rects@;
        let r2 = self.flag_refresh(new_id);
        proof {
            assert(m2.contains_key(new_id));
            assert(!has_up(m, new_id));
            assert forall|k: usize| #[trigger] a.contains_key(k) implies self.rects@[k].character_space@ == a[k].character_space@ by {
                assert(m.contains_key(k));
                assert(m2.contains_key(k));
            }
            assert forall|k: usize| #[trigger] a.contains_key(k) && k != parent_id
                implies self.rects@[k].same_frame(a[k]) && self.rects@[k].same_space(a[k]) by {
                assert(m.contains_key(k));
                assert(m2.contains_key(k));
            }
            assert(m[parent_id] == a[parent_id]);
            let b = self.rects@;
            assert(crate::tree::same_placement(m2, b)) by {
                assert forall|k: usize| #[trigger] m2.contains_key(k) implies m2[k].parent == b[k].parent
                    && m2[k].child_positions@ == b[k].child_positions@ by {}
            }
            self.lemma_area_marks_same_links(m2, b, new_id);
            assert forall|k: usize| #[trigger] b.contains_key(k) implies crate::tree::cover_in(m, new_id, k) == Set::<Pos>::empty()
                && area_marks(m, new_id, k) == Set::<Pos>::empty() && area_marks(m2, new_id, k) == area_marks(b, new_id, k) by {
                assert(!has_up(m, new_id));
                assert(m2.contains_key(k));
            }
            assert forall|k: usize| #[trigger] a.contains_key(k) implies {
                &&& b[k].flags_pos_refresh@ =~= a[k].flags_pos_refresh@.union(area_marks(b, new_id, k))
                &&& b[k].cached_display@ =~= a[k].cached_display@
                &&& b[k].queued_display@ =~= a[k].queued_display@
                &&& b[k].flag_full_refresh == a[k].flag_full_refresh
            } by {
                assert(m.contains_key(k) && m2.contains_key(k) && b.contains_key(k));
                assert(m[k] == a[k] && k != new_id);
            }
            assert(m.contains_key(new_id) && m2.contains_key(new_id) && b.contains_key(new_id));
        }
        Ok(new_id)
    }

    /// Moves what was drawn of a rectangle back to what is waiting to be drawn.
    fn cached_to_queued(&mut self, rect_id: usize)
        requires
            old(self).wf(),
        ensures
            final(self).wf(),
            final(self).same_bookkeeping(old(self)),
            same_except_display(old(self).rects(), final(self).rects()),
            forall|k: usize| #[trigger] old(self).rects().contains_key(k) && k != rect_id ==> final(self).rects()[k] == old(self).rects()[k],
            old(self).rects().contains_key(rect_id) ==> {
                let a = old(self).rects()[rect_id];
                let b = final(self).rects()[rect_id];
                &&& b.queued_display@ == a.queued_display@.union_prefer_right(a.cached_display@)
                &&& b.cached_display@ == Map::<Pos, crate::rect::QueuedCell>::empty()
                &&& b.flags_pos_refresh@ == a.flags_pos_refresh@
                &&& b.flag_full_refresh == a.flag_full_refresh
            },
    {
        if self.rects.contains_key(&rect_id) {
            let ghost before = self.rects@;
            let mut rect = self.rects.remove(&rect_id).unwrap();
            rect.cached_to_queued();
            self.rects.insert(rect_id, rect);
            proof {
                assert(self.rects@.dom() =~= before.dom());
                self.lemma_display_only(before, old(self).idgen, old(self).recycle_ids@);
            }
        }
    }

    /// Frame, records and characters of all rectangles but the parent of `id` (where held) are
    /// the same; the parent keeps its frame but for offsets, and its characters.
    pub open spec fn placed_again(a: Map<usize, Rect>, b: Map<usize, Rect>, id: usize) -> bool {
        &&& a.dom() == b.dom()
        &&& forall|k: usize| #[trigger] a.contains_key(k) ==> b[k].character_space@ == a[k].character_space@
        &&& forall|k: usize| #[trigger] a.contains_key(k) && !(has_up(a, id) && k == up(a, id))
            ==> b[k].same_frame(a[k]) && b[k].same_space(a[k])
        &&& has_up(a, id) ==> b[up(a, id)].same_but_positions_frame(a[up(a, id)])
    }

    /// `b` is `a` once rectangle `id` is set at offset `(x, y)` in its parent: only the
    /// parent's records of it change, and it covers there the positions of its new box.
    pub open spec fn positioned(a: Map<usize, Rect>, b: Map<usize, Rect>, id: usize, x: isize, y: isize) -> bool {
        let pid = up(a, id);
        let corners = Self::child_box((x, y), a[id].width, a[id].height);
        &&& Self::placed_again(a, b, id)
        &&& b[pid].child_positions@ == a[pid].child_positions@.insert(id, (x, y))
        &&& rel_offset(b, id) == Some((x, y))
        &&& forall|p: Pos| #[trigger] b[pid].covers(id, p) <==> a[pid].placed(p, corners)
    }

    /// Sets the offset of a rectangle inside its parent.
    pub fn set_position(&mut self, rect_id: usize, x: isize, y: isize) -> (r: Result<(), WreckedError>)
        requires
            old(self).wf(),
            old(self).placement_ready(rect_id),
        ensures
            final(self).wf(),
            final(self).same_bookkeeping(old(self)),
            forall|k: usize| #[trigger] final(self).placement_ready(k) == old(self).placement_ready(k),
            !has_up(old(self).rects(), rect_id) ==> r == Err::<(), WreckedError>(WreckedError::NoParent(rect_id))
                && final(self).rects() == old(self).rects(),
            has_up(old(self).rects(), rect_id) ==> {
                &&& r is Ok
                &&& Self::positioned(old(self).rects(), final(self).rects(), rect_id, x, y)
                &&& crate::tree::move_marked(old(self).rects(), final(self).rects(), rect_id)
            },
    {
        let pid = match self.held_parent_id(rect_id) {
            Some(pid) => pid,
            None => {
                return Err(WreckedError::NoParent(rect_id));
            },
        };
        let ghost a = self.rects@;
        let mut parent = self.rects.remove(&pid).unwrap();
        let did_move = match parent.child_positions.get(&rect_id) {
            Some(p) => !(p.0 == x && p.1 == y),
            None => true,
        };
        if did_move {
            parent.set_child_position(rect_id, x, y);
        }
        proof {
            assert(parent.child_positions@ =~= a[pid].child_positions@.insert(rect_id, (x, y)));
        }
        self.rects.insert(pid, parent);
        let ghost m = self.rects@;
        proof {
            assert(m.dom() =~= a.dom());
            assert(a[pid].children@.contains(rect_id));
            assert(a[pid].child_positions@.contains_key(rect_id));
            assert(m[pid].child_positions@.dom() =~= a[pid].child_positions@.dom());
            assert(same_links_map(a, m));
            lemma_tree_ok_same_links(a, m);
            crate::tree::lemma_not_own_parent(a, rect_id);
            assert(has_up(m, rect_id) && up(m, rect_id) == pid);
            assert(rel_offset(m, rect_id) == Some((x, y)));
            assert(m[pid].children@ == a[pid].children@);
        }
        let r = self.update_child_space(rect_id);
        let ghost m2 = self.rects@;
        self.cached_to_queued(rect_id);
        let ghost m3 = self.rects@;
        let r2 = self.flag_parent_refresh(rect_id);
        proof {
            assert(m.contains_key(rect_id));
            assert(m2.contains_key(rect_id));
            assert(m3.contains_key(rect_id));
            let b = self.rects@;
            assert forall|k: usize| #[trigger] a.contains_key(k) implies b[k].character_space@ == a[k].character_space@ by {
                assert(m.contains_key(k) && m2.contains_key(k) && m3.contains_key(k));
            }
            assert forall|k: usize| #[trigger] a.contains_key(k) && !(has_up(a, rect_id) && k == up(a, rect_id))
                implies b[k].same_frame(a[k]) && b[k].same_space(a[k]) by {
                assert(m.contains_key(k) && m2.contains_key(k) && m3.contains_key(k));
            }
            assert(m2.contains_key(pid) && m3.contains_key(pid));
            assert(b[pid].inverse() == m2[pid].inverse());
            assert(crate::tree::same_placement(m, b)) by {
                assert forall|k: usize| #[trigger] m.contains_key(k) implies m[k].parent == b[k].parent
                    && m[k].child_positions@ == b[k].child_positions@ by {
                    assert(m2.contains_key(k) && m3.contains_key(k));
                }
            }
            crate::tree::lemma_same_placement(m, b, rect_id);
            let corners = Self::child_box((x, y), a[rect_id].width, a[rect_id].height);
            assert(m[rect_id].width == a[rect_id].width && m[rect_id].height == a[rect_id].height);
            assert forall|p: Pos| #[trigger] b[pid].covers(rect_id, p) <==> a[pid].placed(p, corners) by {
                assert(b[pid].covers(rect_id, p) == m2[pid].covers(rect_id, p));
                assert(m[pid].placed(p, corners) == a[pid].placed(p, corners));
            }
            // the display records: flagged where it stood, and where it stands now
            assert(crate::tree::same_placement(m, m3)) by {
                assert forall|k: usize| #[trigger] m.contains_key(k) implies m[k].parent == m3[k].parent
                    && m[k].child_positions@ == m3[k].child_positions@ by {
                    assert(m2.contains_key(k) && m3.contains_key(k));
                }
            }
            self.lemma_area_marks_same_links(m, m3, rect_id);
            self.lemma_area_marks_same_links(m, b, rect_id);
            assert forall|k: usize| #[trigger] b.contains_key(k) implies {
                &&& b[k].flags_pos_refresh@ =~= a[k].flags_pos_refresh@.union(crate::tree::cover_in(a, rect_id, k)).union(
                    area_marks(b, rect_id, k))
                &&& b[k].queued_display@ =~= (if k == rect_id {
                    a[k].queued_display@.union_prefer_right(a[k].cached_display@)
                } else {
                    a[k].queued_display@
                })
                &&& b[k].cached_display@ =~= (if k == rect_id {
                    Map::<Pos, crate::rect::QueuedCell>::empty()
                } else {
                    a[k].cached_display@
                })
                &&& b[k].flag_full_refresh == a[k].flag_full_refresh
            } by {
                assert(a.contains_key(k) && m.contains_key(k) && m2.contains_key(k) && m3.contains_key(k));
                assert(crate::tree::cover_in(m, rect_id, k) == crate::tree::cover_in(a, rect_id, k));
                assert(area_marks(m3, rect_id, k) == area_marks(m, rect_id, k));
                assert(area_marks(b, rect_id, k) == area_marks(m, rect_id, k));
            }
        }
        Ok(())
    }

    /// Changes the width and height of a rectangle; where its parent records its offset, it is
    /// placed there again with its new size.
    pub fn resize(&mut self, rect_id: usize, width: usize, height: usize) -> (r: Result<(), WreckedError>)
        requires
            old(self).wf(),
        ensures
            final(self).wf(),
            final(self).same_bookkeeping(old(self)),
            forall|k: usize| #[trigger] final(self).placement_ready(k) == old(self).placement_ready(k),
            !old(self).rects().contains_key(rect_id) ==> r == Err::<(), WreckedError>(WreckedError::NotFound(rect_id))
                && final(self).rects() == old(self).rects(),
            old(self).rects().contains_key(rect_id) ==> r is Ok
                && Self::resized(old(self).rects(), final(self).rects(), rect_id, width, height)
                && crate::tree::resize_marked(old(self).rects(), final(self).rects(), rect_id),
    {
        if !self.rects.contains_key(&rect_id) {
            return Err(WreckedError::NotFound(rect_id));
        }
        let ghost a = self.rects@;
        let mut rect = self.rects.remove(&rect_id).unwrap();
        rect.resize(width, height);
        self.rects.insert(rect_id, rect);
        let ghost m = self.rects@;
        proof {
            assert(m.dom() =~= a.dom());
            assert(same_links_map(a, m));
            lemma_tree_ok_same_links(a, m);
            assert(crate::tree::same_placement(a, m));
            crate::tree::lemma_same_placement(a, m, rect_id);
        }
        let position = match self.held_parent_id(rect_id) {
            Some(pid) => {
                let parent = self.get_rect(pid).unwrap();
                parent.get_child_position(rect_id)
            },
            None => None,
        };
        match position {
            Some(pos) => {
                proof {
                    let pid = up(m, rect_id);
                    assert(m.contains_key(pid));
                    assert(m[pid].child_positions@.contains_key(rect_id));
                    assert(m[pid].children@.contains(rect_id));
                }
                let r = self.set_position(rect_id, pos.0, pos.1);
                if r.is_err() {
                    return r;
                }
            },
            None => {},
        }
        let ghost m2 = self.rects@;
        proof {
            assert(m2.contains_key(rect_id));
            if has_up(a, rect_id) {
                crate::tree::lemma_not_own_parent(a, rect_id);
            }
        }
        let r = self.flag_refresh(rect_id);
        proof {
            let b = self.rects@;
            assert forall|k: usize| #[trigger] a.contains_key(k) implies b[k].character_space@ == a[k].character_space@ by {
                assert(m.contains_key(k) && m2.contains_key(k));
            }
            assert forall|k: usize| #[trigger] a.contains_key(k) && k != rect_id && !(has_up(a, rect_id) && k == up(a, rect_id))
                implies b[k].same_frame(a[k]) && b[k].same_space(a[k]) by {
                assert(m.contains_key(k) && m2.contains_key(k));
            }
            if has_up(a, rect_id) {
                let pid = up(a, rect_id);
                assert(m.contains_key(pid) && m2.contains_key(pid));
                assert(b[pid].inverse() == m2[pid].inverse());
                assert(b[pid].child_positions@ == m2[pid].child_positions@);
                match rel_offset(a, rect_id) {
                    Some(pos) => {
                        assert(m2[pid].child_positions@ =~= m[pid].child_positions@.insert(rect_id, pos));
                        assert(m2[pid].child_positions@ =~= a[pid].child_positions@);
                        let c = Self::child_box(pos, width, height);
                        assert forall|p: Pos| #[trigger] b[pid].covers(rect_id, p) <==> a[pid].placed(p, c) by {
                            assert(b[pid].covers(rect_id, p) == m2[pid].covers(rect_id, p));
                            assert(m[pid].placed(p, c) == a[pid].placed(p, c));
                        }
                    },
                    None => {},
                }
            }
            assert(crate::tree::same_placement(a, b)) by {
                assert forall|k: usize| #[trigger] a.contains_key(k) implies a[k].parent == b[k].parent
                    && a[k].child_positions@ == b[k].child_positions@ by {
                    assert(m.contains_key(k) && m2.contains_key(k));
                    if has_up(a, rect_id) && k == up(a, rect_id) {
                        match rel_offset(a, rect_id) {
                            Some(pos) => {
                                assert(m2[k].child_positions@ =~= a[k].child_positions@);
                            },
                            None => {},
                        }
                    }
                }
            }
            crate::tree::lemma_same_placement(a, b, rect_id);
            // the display records
            assert(crate::tree::same_placement(m2, b)) by {
                assert forall|k: usize| #[trigger] m2.contains_key(k) implies m2[k].parent == b[k].parent
                    && m2[k].child_positions@ == b[k].child_positions@ by {}
            }
            self.lemma_area_marks_same_links(m2, b, rect_id);
            let placed_again = rel_offset(a, rect_id) is Some;
            if !placed_again {
                assert(m2 == m);
            }
            assert forall|k: usize| #[trigger] b.contains_key(k) implies {
                &&& b[k].flags_pos_refresh@ =~= a[k].flags_pos_refresh@.union(
                    if placed_again { crate::tree::cover_in(a, rect_id, k) } else { Set::empty() }).union(
                    area_marks(b, rect_id, k))
                &&& b[k].queued_display@ =~= (if k == rect_id && placed_again {
                    a[k].queued_display@.union_prefer_right(a[k].cached_display@)
                } else {
                    a[k].queued_display@
                })
                &&& b[k].cached_display@ =~= (if k == rect_id {
                    Map::<Pos, crate::rect::QueuedCell>::empty()
                } else {
                    a[k].cached_display@
                })
                &&& b[k].flag_full_refresh == (k == rect_id || a[k].flag_full_refresh)
            } by {
                assert(a.contains_key(k) && m.contains_key(k) && m2.contains_key(k));
                assert(area_marks(m2, rect_id, k) == area_marks(b, rect_id, k));
                assert(crate::tree::cover_in(m, rect_id, k) == crate::tree::cover_in(a, rect_id, k));
                if !has_up(a, rect_id) {
                    assert(crate::tree::cover_in(a, rect_id, k) == Set::<Pos>::empty());
                }
            }
        }
        r
    }

    /// The rectangles after `id` became `width` by `height`: its frame is the same but for its
    /// size; where its parent records an offset for it, the parent records the positions its
    /// new box covers there, and where it records none, no rectangle is placed anew; nothing
    /// else changes but what is waiting to be drawn.
    pub open spec fn resized(a: Map<usize, Rect>, b: Map<usize, Rect>, id: usize, width: usize, height: usize) -> bool {
        &&& b.dom() == a.dom()
        &&& b[id].width == width && b[id].height == height
        &&& b[id].same_but_size_frame(a[id])
        &&& forall|k: usize| #[trigger] a.contains_key(k) ==> b[k].character_space@ == a[k].character_space@
        &&& forall|k: usize| #[trigger] a.contains_key(k) && k != id && !(has_up(a, id) && k == up(a, id))
            ==> b[k].same_frame(a[k]) && b[k].same_space(a[k])
        &&& has_up(a, id) ==> b[up(a, id)].same_frame(a[up(a, id)])
        &&& rel_offset(a, id) is None ==> forall|k: usize| #[trigger] a.contains_key(k) && k != id
            ==> b[k].same_space(a[k])
        &&& rel_offset(b, id) == rel_offset(a, id)
        &&& rel_offset(a, id) matches Some(pos) ==> forall|p: Pos| #[trigger] b[up(a, id)].covers(id, p)
            <==> a[up(a, id)].placed(p, Self::child_box(pos, width, height))
    }

    /// Fits `ROOT` to a terminal `w` columns by `h` rows, if it is not that size already; tells
    /// whether it was resized. Reading the terminal's size is up to the caller.
    pub fn auto_resize(&mut self, w: u16, h: u16) -> (did_resize: bool)
        requires
            old(self).wf(),
            old(self).rects().contains_key(ROOT),
        ensures
            final(self).wf(),
            final(self).same_bookkeeping(old(self)),
            did_resize == (old(self).rects()[ROOT].width != w as usize || old(self).rects()[ROOT].height != h as usize),
            did_resize ==> Self::resized(old(self).rects(), final(self).rects(), ROOT, w as usize, h as usize)
                && crate::tree::resize_marked(old(self).rects(), final(self).rects(), ROOT),
            !did_resize ==> final(self).rects() == old(self).rects(),
    {
        let (current_width, current_height) = self.get_rect_size(ROOT).unwrap();
        if w as usize != current_width || h as usize != current_height {
            let r = self.resize(ROOT, w as usize, h as usize);
            true
        } else {
            false
        }
    }

    /// Moves every child of a rectangle by the given offsets (its characters stay).
    pub fn shift_contents(&mut self, rect_id: usize, x_offset: isize, y_offset: isize) -> (r: Result<(), WreckedError>)
        requires
            old(self).wf(),
        ensures
            final(self).wf(),
            final(self).same_bookkeeping(old(self)),
            !old(self).rects().contains_key(rect_id) ==> r == Err::<(), WreckedError>(WreckedError::NotFound(rect_id))
                && final(self).rects() == old(self).rects(),
            old(self).rects().contains_key(rect_id) ==> {
                let a = old(self).rects();
                let b = final(self).rects();
                &&& r is Ok
                &&& b.dom() == a.dom()
                &&& b[rect_id].child_positions@.dom() == a[rect_id].child_positions@.dom()
                &&& forall|c: usize| #[trigger] b[rect_id].child_positions@.contains_key(c) ==> b[rect_id].child_positions@[c]
                    == crate::rect::shifted(a[rect_id].child_positions@[c], x_offset, y_offset)
                &&& b[rect_id].same_but_positions_frame(a[rect_id])
                &&& forall|k: usize| #[trigger] a.contains_key(k) ==> b[k].character_space@ == a[k].character_space@
                &&& forall|k: usize| #[trigger] a.contains_key(k) && k != rect_id ==> b[k].same_frame(a[k])
                &&& crate::tree::shift_marked(a, b, rect_id)
            },
    {
        if !self.rects.contains_key(&rect_id) {
            return Err(WreckedError::NotFound(rect_id));
        }
        let ghost a = self.rects@;
        let mut rect = self.rects.remove(&rect_id).unwrap();
        rect.shift_contents(x_offset, y_offset);
        let child_ids = crate::rect::copy_vec(&rect.children);
        self.rects.insert(rect_id, rect);
        let ghost m = self.rects@;
        proof {
            assert(m.dom() =~= a.dom());
            assert(same_links_map(a, m));
            lemma_tree_ok_same_links(a, m);
        }
        let mut i: usize = 0;
        while i < child_ids.len()
            invariant
                self.wf(),
                self.same_bookkeeping(old(self)),
                m.contains_key(rect_id),
                child_ids@ == m[rect_id].children@,
                self.rects@.dom() == m.dom(),
                forall|k: usize| #[trigger] m.contains_key(k) ==> self.rects@[k].same_frame(m[k])
                    && self.rects@[k].character_space@ == m[k].character_space@,
                i <= child_ids.len(),
                a.contains_key(rect_id),
                m.dom() == a.dom(),
                child_ids@ == a[rect_id].children@,
                child_ids@.no_duplicates(),
                tree_ok(m),
                forall|c: usize| #[trigger] m[rect_id].covered_by(c) == a[rect_id].covered_by(c),
                forall|c: usize| #[trigger] m.contains_key(c) ==> m[c].parent == a[c].parent,
                forall|k: usize| #[trigger] m.contains_key(k) ==> {
                    &&& self.rects@[k].flags_pos_refresh@ =~= m[k].flags_pos_refresh@.union(
                        crate::tree::children_marks(a, m, child_ids@.take(i as int), k))
                    &&& self.rects@[k].cached_display@ =~= m[k].cached_display@
                    &&& self.rects@[k].queued_display@ =~= m[k].queued_display@
                    &&& self.rects@[k].flag_full_refresh == m[k].flag_full_refresh
                },
                forall|j: int| i <= j < child_ids.len() ==> self.rects@[rect_id].covered_by(#[trigger] child_ids@[j])
                    == m[rect_id].covered_by(child_ids@[j]),
            decreases child_ids.len() - i,
        {
            let child = child_ids[i];
            let ghost before = self.rects@;
            proof {
                assert(self.rects@[rect_id].children@[i as int] == child);
                assert(self.rects@.contains_key(child) && self.rects@[child].parent == Some(rect_id));
                assert(has_up(self.rects@, child));
                assert(self.rects@[rect_id].children@.contains(child));
            }
            let r = self.update_child_space(child);
            if r.is_err() {
                return r;
            }
            proof {
                assert forall|k: usize| #[trigger] m.contains_key(k) implies self.rects@[k].same_frame(m[k])
                    && self.rects@[k].character_space@ == m[k].character_space@ by {
                    assert(before.contains_key(k));
                }
                let after = self.rects@;
                assert(crate::tree::same_placement(m, before)) by {
                    assert forall|k: usize| #[trigger] m.contains_key(k) implies m[k].parent == before[k].parent
                        && m[k].child_positions@ == before[k].child_positions@ by {}
                }
                self.lemma_area_marks_same_links(m, before, child);
                let t = child_ids@.take(i as int + 1);
                assert(t.drop_last() =~= child_ids@.take(i as int));
                assert(t.last() == child);
                assert forall|k: usize| #[trigger] m.contains_key(k) implies {
                    &&& after[k].flags_pos_refresh@ =~= m[k].flags_pos_refresh@.union(crate::tree::children_marks(a, m, t, k))
                    &&& after[k].cached_display@ =~= m[k].cached_display@
                    &&& after[k].queued_display@ =~= m[k].queued_display@
                    &&& after[k].flag_full_refresh == m[k].flag_full_refresh
                } by {
                    assert(before.contains_key(k) && after.contains_key(k));
                    assert(area_marks(before, child, k) == area_marks(m, child, k));
                    assert(has_up(a, child) && up(a, child) == rect_id);
                    assert(crate::tree::cover_in(before, child, k) == crate::tree::cover_in(a, child, k)) by {
                        assert(before[rect_id].covered_by(child_ids@[i as int]) == m[rect_id].covered_by(child_ids@[i as int]));
                    }
                }
                assert forall|j: int| i + 1 <= j < child_ids.len() implies after[rect_id].covered_by(#[trigger] child_ids@[j])
                    == m[rect_id].covered_by(child_ids@[j]) by {
                    assert(child_ids@[j] != child_ids@[i as int]);
                    assert(before[rect_id].covered_by(child_ids@[j]) == m[rect_id].covered_by(child_ids@[j]));
                }
            }
            i += 1;
        }
        let ghost m2 = self.rects@;
        let r = self.flag_refresh(rect_id);
        proof {
            let b = self.rects@;
            assert forall|k: usize| #[trigger] a.contains_key(k) implies b[k].character_space@ == a[k].character_space@
                && (k != rect_id ==> b[k].same_frame(a[k])) by {
                assert(m.contains_key(k) && m2.contains_key(k));
            }
            assert(m2.contains_key(rect_id));
            assert(child_ids@.take(child_ids.len() as int) =~= child_ids@);
            assert(crate::tree::same_placement(m, b)) by {
                assert forall|k: usize| #[trigger] m.contains_key(k) implies m[k].parent == b[k].parent
                    && m[k].child_positions@ == b[k].child_positions@ by {
                    assert(m2.contains_key(k));
                }
            }
            self.lemma_area_marks_same_links(m2, b, rect_id);
            assert forall|k: usize| #[trigger] b.contains_key(k) implies {
                &&& b[k].flags_pos_refresh@ =~= a[k].flags_pos_refresh@.union(
                    crate::tree::children_marks(a, b, a[rect_id].children@, k)).union(area_marks(b, rect_id, k))
                &&& b[k].cached_display@ =~= (if k == rect_id {
                    Map::<Pos, crate::rect::QueuedCell>::empty()
                } else {
                    a[k].cached_display@
                })
                &&& b[k].queued_display@ =~= a[k].queued_display@
                &&& b[k].flag_full_refresh == (k == rect_id || a[k].flag_full_refresh)
            } by {
                assert(m.contains_key(k) && m2.contains_key(k));
                assert forall|i: int| 0 <= i < child_ids@.len() implies area_marks(m, #[trigger] child_ids@[i], k) == area_marks(b, child_ids@[i], k) by {
                    self.lemma_area_marks_same_links(m, b, child_ids@[i]);
                }
                crate::tree::lemma_children_marks_same(a, m, b, child_ids@, k);
                assert(area_marks(m2, rect_id, k) == area_marks(b, rect_id, k));
                assert(m2[k].flags_pos_refresh@ =~= m[k].flags_pos_refresh@.union(
                    crate::tree::children_marks(a, m, child_ids@.take(child_ids.len() as int), k)));
                assert(m[k].flags_pos_refresh@ == a[k].flags_pos_refresh@);
                assert(b[k].flags_pos_refresh@ =~= m2[k].flags_pos_refresh@.union(area_marks(m2, rect_id, k)));
            }
        }
        r
    }

    /// The ids of a rectangle and of all its descendants (reached through the children
    /// lists), each once; empty if the rectangle is absent.
    fn subtree_ids(&self, rect_id: usize) -> (v: Vec<usize>)
        requires
            self.wf(),
        ensures
            v@.no_duplicates(),
            forall|x: usize| #[trigger] v@.contains(x) <==> (self.rects().contains_key(x)
                && self.rects().contains_key(rect_id) && in_subtree(self.rects(), x, rect_id)),
    {
        let ghost rects = self.rects@;
        let mut to_delete: Vec<usize> = Vec::new();
        let mut stack: Vec<usize> = Vec::new();
        stack.push(rect_id);
        proof {
            assert((stack@ + to_delete@)[0] == rect_id);
            assert(reg_chain(rects, rect_id, rect_id, 0));
            assert(rects.dom().finite());
            assert((stack@ + to_delete@) =~= seq![rect_id]);
        }
        while stack.len() > 0
            invariant
                self.wf(),
                rects == self.rects@,
                rects.dom().finite(),
                forall|i: int| 0 <= i < to_delete@.len() ==> rects.contains_key(#[trigger] to_delete@[i]),
                (stack@ + to_delete@).no_duplicates(),
                forall|x: usize| #[trigger] (stack@ + to_delete@).contains(x) ==> in_subtree(rects, x, rect_id),
                forall|x: usize| #[trigger] (stack@ + to_delete@).contains(x) ==> x == rect_id
                    || (has_up(rects, x) && to_delete@.contains(up(rects, x))),
                rects.contains_key(rect_id) ==> (stack@ + to_delete@).contains(rect_id),
                forall|i: int, c: usize| 0 <= i < to_delete@.len() && #[trigger] rects[to_delete@[i]].children@.contains(c)
                    ==> #[trigger] (stack@ + to_delete@).contains(c),
            decreases rects.dom().difference(to_delete@.to_set()).len(), stack.len(),
        {
            let ghost s0 = stack@;
            let ghost t0 = to_delete@;
            let working_id = stack.pop().unwrap();
            proof {
                assert(s0 =~= stack@.push(working_id));
                assert((s0 + t0).contains(working_id)) by {
                    assert((s0 + t0)[s0.len() - 1] == working_id);
                }
            }
            match self.get_rect(working_id) {
                Some(rect) => {
                    let mut kids = crate::rect::copy_vec(&rect.children);
                    let ghost k0 = kids@;
                    stack.append(&mut kids);
                    to_delete.push(working_id);
                    proof {
                        self.lemma_dfs_step(rects, rect_id, s0, t0, working_id, k0, stack@, to_delete@);
                    }
                },
                None => {
                    proof {
                        assert(s0 =~= stack@.push(working_id));
                        self.lemma_dfs_skip(rects, rect_id, s0, t0, working_id, stack@, to_delete@);
                    }
                },
            }
        }
        proof {
            assert(stack@ + to_delete@ =~= to_delete@);
            assert forall|x: usize| #[trigger] to_delete@.contains(x) <==> (rects.contains_key(x)
                && rects.contains_key(rect_id) && in_subtree(rects, x, rect_id)) by {
                if to_delete@.contains(x) {
                    let i = choose|i: int| 0 <= i < to_delete@.len() && to_delete@[i] == x;
                    assert(rects.contains_key(to_delete@[i]));
                    if !rects.contains_key(rect_id) {
                        let n = choose|n: nat| reg_chain(rects, x, rect_id, n);
                        crate::tree::lemma_reg_chain_held(rects, x, rect_id, n);
                    }
                }
                if rects.contains_key(x) && rects.contains_key(rect_id) && in_subtree(rects, x, rect_id) {
                    let n = choose|n: nat| reg_chain(rects, x, rect_id, n);
                    self.lemma_dfs_complete(rects, rect_id, to_delete@, x, n);
                }
            }
        }
        to_delete
    }

    proof fn lemma_dfs_complete(&self, rects: Map<usize, Rect>, root: usize, t: Seq<usize>, x: usize, n: nat)
        requires
            rects.contains_key(root),
            t.contains(root),
            forall|i: int, c: usize| 0 <= i < t.len() && #[trigger] rects[t[i]].children@.contains(c) ==> #[trigger] t.contains(c),
            reg_chain(rects, x, root, n),
        ensures
            t.contains(x),
        decreases n,
    {
        if x != root {
            let y = up(rects, x);
            self.lemma_dfs_complete(rects, root, t, y, (n - 1) as nat);
            let i = choose|i: int| 0 <= i < t.len() && t[i] == y;
            assert(rects[t[i]].children@.contains(x));
        }
    }

    proof fn lemma_dfs_skip(&self, rects: Map<usize, Rect>, root: usize, s0: Seq<usize>, t0: Seq<usize>, w: usize, s1: Seq<usize>, t1: Seq<usize>)
        requires
            tree_ok(rects),
            !rects.contains_key(w),
            s0 == s1.push(w),
            t1 == t0,
            (s0 + t0).no_duplicates(),
            forall|i: int| 0 <= i < t0.len() ==> rects.contains_key(#[trigger] t0[i]),
            forall|x: usize| #[trigger] (s0 + t0).contains(x) ==> in_subtree(rects, x, root),
            forall|x: usize| #[trigger] (s0 + t0).contains(x) ==> x == root || (has_up(rects, x) && t0.contains(up(rects, x))),
            rects.contains_key(root) ==> (s0 + t0).contains(root),
            forall|i: int, c: usize| 0 <= i < t0.len() && #[trigger] rects[t0[i]].children@.contains(c) ==> #[trigger] (s0 + t0).contains(c),
        ensures
            (s1 + t1).no_duplicates(),
            forall|x: usize| #[trigger] (s1 + t1).contains(x) ==> in_subtree(rects, x, root),
            forall|x: usize| #[trigger] (s1 + t1).contains(x) ==> x == root || (has_up(rects, x) && t1.contains(up(rects, x))),
            rects.contains_key(root) ==> (s1 + t1).contains(root),
            forall|i: int, c: usize| 0 <= i < t1.len() && #[trigger] rects[t1[i]].children@.contains(c) ==> #[trigger] (s1 + t1).contains(c),
    {
        lemma_seq_move(s1, t1, w);
        assert forall|i: int, c: usize| 0 <= i < t1.len() && #[trigger] rects[t1[i]].children@.contains(c) implies #[trigger] (s1 + t1).contains(c) by {
            assert((s0 + t0).contains(c));
            let j = choose|j: int| 0 <= j < rects[t1[i]].children@.len() && rects[t1[i]].children@[j] == c;
            assert(rects.contains_key(t1[i]));
            assert(rects[t1[i]].children@[j] == c);
            assert(rects.contains_key(c));
        }
    }

    proof fn lemma_dfs_step(&self, rects: Map<usize, Rect>, root: usize, s0: Seq<usize>, t0: Seq<usize>, w: usize, kids: Seq<usize>, s1: Seq<usize>, t1: Seq<usize>)
        requires
            tree_ok(rects),
            rects.contains_key(w),
            kids == rects[w].children@,
            s0 == s0.drop_last().push(w),
            s0.len() > 0,
            s1 == s0.drop_last() + kids,
            t1 == t0.push(w),
            (s0 + t0).no_duplicates(),
            rects.dom().finite(),
            forall|i: int| 0 <= i < t0.len() ==> rects.contains_key(#[trigger] t0[i]),
            forall|x: usize| #[trigger] (s0 + t0).contains(x) ==> in_subtree(rects, x, root),
            forall|x: usize| #[trigger] (s0 + t0).contains(x) ==> x == root || (has_up(rects, x) && t0.contains(up(rects, x))),
            rects.contains_key(root) ==> (s0 + t0).contains(root),
            forall|i: int, c: usize| 0 <= i < t0.len() && #[trigger] rects[t0[i]].children@.contains(c) ==> #[trigger] (s0 + t0).contains(c),
        ensures
            forall|i: int| 0 <= i < t1.len() ==> rects.contains_key(#[trigger] t1[i]),
            (s1 + t1).no_duplicates(),
            forall|x: usize| #[trigger] (s1 + t1).contains(x) ==> in_subtree(rects, x, root),
            forall|x: usize| #[trigger] (s1 + t1).contains(x) ==> x == root || (has_up(rects, x) && t1.contains(up(rects, x))),
            rects.contains_key(root) ==> (s1 + t1).contains(root),
            forall|i: int, c: usize| 0 <= i < t1.len() && #[trigger] rects[t1[i]].children@.contains(c) ==> #[trigger] (s1 + t1).contains(c),
            rects.dom().difference(t1.to_set()).len() < rects.dom().difference(t0.to_set()).len(),
    {
        let sp = s0.drop_last();
        assert(s0 + t0 =~= sp + (seq![w] + t0));
        lemma_no_dup_split(sp, seq![w] + t0);
        lemma_no_dup_split(seq![w], t0);
        assert(seq![w][0] == w);
        assert(seq![w].contains(w));
        assert(!t0.contains(w));
        assert(!sp.contains(w)) by {
            if sp.contains(w) {
                assert((seq![w] + t0).contains(w)) by {
                    assert((seq![w] + t0)[0] == w);
                }
            }
        }
        assert(kids.no_duplicates());
        // every child of w is new
        assert forall|c: usize| #[trigger] kids.contains(c) implies !sp.contains(c) && !t0.contains(c) && c != w by {
            let i = choose|i: int| 0 <= i < kids.len() && kids[i] == c;
            assert(rects[w].children@[i] == c);
            assert(rects.contains_key(c) && rects[c].parent == Some(w));
            assert(has_up(rects, c) && up(rects, c) == w);
            crate::tree::lemma_not_own_parent(rects, c);
            if sp.contains(c) || t0.contains(c) {
                assert((s0 + t0).contains(c)) by {
                    if sp.contains(c) {
                        let j = choose|j: int| 0 <= j < sp.len() && sp[j] == c;
                        assert((s0 + t0)[j] == c);
                    } else {
                        let j = choose|j: int| 0 <= j < t0.len() && t0[j] == c;
                        assert((s0 + t0)[s0.len() + j] == c);
                    }
                }
                assert(c == root);
                assert((s0 + t0).contains(w)) by {
                    assert((s0 + t0)[s0.len() - 1] == w);
                }
                crate::tree::lemma_no_cycle_back(rects, root, w);
            }
        }
        lemma_no_dup_join(sp, kids);
        assert(t1.no_duplicates()) by {
            lemma_no_dup_join(t0, seq![w]);
            assert(t0 + seq![w] =~= t1);
        }
        assert forall|x: usize| #[trigger] t1.contains(x) <==> (t0.contains(x) || x == w) by {
            if t1.contains(x) {
                let j = choose|j: int| 0 <= j < t1.len() && t1[j] == x;
                if j < t0.len() {
                    assert(t0[j] == x);
                }
            }
            if t0.contains(x) {
                let j = choose|j: int| 0 <= j < t0.len() && t0[j] == x;
                assert(t1[j] == x);
            }
            if x == w {
                assert(t1[t0.len() as int] == x);
            }
        }
        assert forall|x: usize| #[trigger] (sp + kids).contains(x) implies !t1.contains(x) by {
            let i = choose|i: int| 0 <= i < (sp + kids).len() && (sp + kids)[i] == x;
            if i < sp.len() {
                assert(sp[i] == x);
                assert(sp.contains(x));
                assert((s0 + t0)[i] == x);
                if t0.contains(x) {
                    let j = choose|j: int| 0 <= j < t0.len() && t0[j] == x;
                    assert((s0 + t0)[s0.len() + j] == x);
                }
                assert(x != w);
            } else {
                assert(kids[i - sp.len()] == x);
                assert(kids.contains(x));
            }
            assert(!t0.contains(x) && x != w);
            assert(t1.contains(x) <==> (t0.contains(x) || x == w));
        }
        lemma_no_dup_join(sp + kids, t1);
        assert(s1 + t1 =~= (sp + kids) + t1);
        // membership in the new stack and list
        assert forall|x: usize| #[trigger] (s1 + t1).contains(x) implies (s0 + t0).contains(x) || kids.contains(x) by {
            let i = choose|i: int| 0 <= i < (s1 + t1).len() && (s1 + t1)[i] == x;
            if i < sp.len() {
                assert((s0 + t0)[i] == x);
            } else if i < sp.len() + kids.len() {
                assert(kids[i - sp.len()] == x);
            } else if i < sp.len() + kids.len() + t0.len() {
                assert((s0 + t0)[s0.len() + (i - sp.len() - kids.len())] == x);
            } else {
                assert(x == w);
                assert((s0 + t0)[s0.len() - 1] == x);
            }
        }
        assert forall|x: usize| #[trigger] (s0 + t0).contains(x) implies (s1 + t1).contains(x) by {
            let i = choose|i: int| 0 <= i < (s0 + t0).len() && (s0 + t0)[i] == x;
            if i < sp.len() {
                assert((s1 + t1)[i] == x);
            } else if i == sp.len() {
                assert((s1 + t1)[(s1 + t1).len() - 1] == x);
            } else {
                assert((s1 + t1)[sp.len() + kids.len() + (i - sp.len() - 1)] == x);
            }
        }
        assert forall|x: usize| #[trigger] kids.contains(x) implies (s1 + t1).contains(x) by {
            let i = choose|i: int| 0 <= i < kids.len() && kids[i] == x;
            assert((s1 + t1)[sp.len() + i] == x);
        }
        assert((s0 + t0).contains(w)) by {
            assert((s0 + t0)[s0.len() - 1] == w);
        }
        assert forall|x: usize| #[trigger] (s1 + t1).contains(x) implies in_subtree(rects, x, root) by {
            if kids.contains(x) {
                crate::tree::lemma_subtree_child(rects, w, x, root);
            }
        }
        assert forall|x: usize| #[trigger] (s1 + t1).contains(x) implies x == root || (has_up(rects, x) && t1.contains(up(rects, x))) by {
            if kids.contains(x) {
                let i = choose|i: int| 0 <= i < kids.len() && kids[i] == x;
                assert(rects[w].children@[i] == x);
                assert(t1[t0.len() as int] == w);
            } else {
                if x != root {
                    let y = up(rects, x);
                    assert(t0.contains(y));
                    let j = choose|j: int| 0 <= j < t0.len() && t0[j] == y;
                    assert(t1[j] == y);
                }
            }
        }
        assert forall|i: int, c: usize| 0 <= i < t1.len() && #[trigger] rects[t1[i]].children@.contains(c) implies #[trigger] (s1 + t1).contains(c) by {
            if i < t0.len() {
                assert(t1[i] == t0[i]);
                assert((s0 + t0).contains(c));
            } else {
                assert(t1[i] == w);
                assert(kids.contains(c));
            }
        }
        assert forall|i: int| 0 <= i < t1.len() implies rects.contains_key(#[trigger] t1[i]) by {
            if i < t0.len() {
                assert(t1[i] == t0[i]);
            }
        }
        // one more id is taken
        assert(t1.to_set() =~= t0.to_set().insert(w));
        let d0 = rects.dom().difference(t0.to_set());
        let d1 = rects.dom().difference(t1.to_set());
        assert(d1 =~= d0.remove(w));
        assert(d0.contains(w));
        assert(d0.finite());
    }
    /// The rectangles after `id` and everything below it were deleted: the parent of `id`
    /// no longer lists it, records no offset for it and no position it covers; the subtree
    /// is gone; nothing else changes but what is waiting to be drawn.
    pub open spec fn deleted(a: Map<usize, Rect>, b: Map<usize, Rect>, id: usize) -> bool {
        let p = up(a, id);
        &&& b.dom() == a.dom().difference(subtree_of(a, id))
        &&& forall|k: usize| #[trigger] b.contains_key(k) ==> b[k].character_space@ == a[k].character_space@
        &&& forall|k: usize| #[trigger] b.contains_key(k) && k != p ==> b[k].same_frame(a[k]) && b[k].same_space(a[k])
        &&& b.contains_key(p)
        &&& b[p].children@ == crate::rect::without(a[p].children@, id)
        &&& b[p].child_positions@ == a[p].child_positions@.remove(id)
        &&& b[p].space() == a[p].space_without(id)
        &&& b[p].inverse() == a[p].inverse().insert(id, Seq::<Pos>::empty())
        &&& b[p].rect_id == a[p].rect_id
        &&& b[p].width == a[p].width
        &&& b[p].height == a[p].height
        &&& b[p].default_character == a[p].default_character
        &&& b[p].parent == a[p].parent
        &&& b[p].child_ranks@ == a[p].child_ranks@
        &&& b[p].enabled == a[p].enabled
        &&& b[p].transparent == a[p].transparent
        &&& b[p].effects == a[p].effects
    }

    /// A freed id is handed out again: once a rectangle is deleted (as `delete_rect` leaves the
    /// environment `b`), where no id above it was freed, the next rectangle created gets its
    /// id, unless the counter itself came down to that id or below it.
    pub proof fn law_deleted_id_is_reused(a: RectManager, b: RectManager, id: usize)
        requires
            a.wf(),
            b.wf(),
            has_up(a.rects(), id),
            trimmed(a.recycled().to_set() + subtree_of(a.rects(), id), a.idgen(), b.idgen()),
            b.recycled().to_set() == below(a.recycled().to_set() + subtree_of(a.rects(), id), b.idgen()),
            forall|k: usize| #[trigger] (a.recycled().to_set() + subtree_of(a.rects(), id)).contains(k) ==> k <= id,
        ensures
            b.next_id() == id || b.idgen() <= id,
    {
        let freed = a.recycled().to_set() + subtree_of(a.rects(), id);
        b.lemma_wf_forest();
        let rs = b.recycled();
        if id < b.idgen() {
            assert(reg_chain(a.rects(), id, id, 0));
            assert(in_subtree(a.rects(), id, id));
            assert(subtree_of(a.rects(), id).contains(id));
            assert(freed.contains(id));
            assert(below(freed, b.idgen()).contains(id));
            assert(rs.to_set().contains(id));
            assert(rs.contains(id));
            let j = choose|j: int| 0 <= j < rs.len() && rs[j] == id;
            let last = rs.last();
            assert(rs[rs.len() - 1] == last);
            assert(rs.to_set().contains(last));
            assert(freed.contains(last));
            if j < rs.len() - 1 {
                assert(rs[j] < rs[rs.len() - 1]);
            }
        }
    }

    /// Completely erases a rectangle and everything below it, and frees their ids. Only a
    /// rectangle whose parent is held can be deleted; any other is reported as missing.
    pub fn delete_rect(&mut self, rect_id: usize) -> (r: Result<(), WreckedError>)
        requires
            old(self).wf(),
        ensures
            final(self).wf(),
            final(self).top_cache() == old(self).top_cache(),
            final(self).fallback_character() == old(self).fallback_character(),
            !has_up(old(self).rects(), rect_id) ==> {
                &&& r == Err::<(), WreckedError>(WreckedError::NotFound(rect_id))
                &&& final(self).rects() == old(self).rects()
                &&& final(self).idgen() == old(self).idgen()
                &&& final(self).recycled() == old(self).recycled()
            },
            has_up(old(self).rects(), rect_id) ==> {
                let freed = old(self).recycled().to_set() + subtree_of(old(self).rects(), rect_id);
                &&& r is Ok
                &&& Self::deleted(old(self).rects(), final(self).rects(), rect_id)
                &&& crate::tree::space_marked(old(self).rects(), final(self).rects(), rect_id)
                &&& trimmed(freed, old(self).idgen(), final(self).idgen())
                &&& final(self).recycled().to_set() == below(freed, final(self).idgen())
            },
    {
        let to_delete = self.subtree_ids(rect_id);
        if self.held_parent_id(rect_id).is_none() {
            return Err(WreckedError::NotFound(rect_id));
        }
        let ghost a = self.rects@;
        let ghost sub = subtree_of(a, rect_id);
        let ghost p = up(a, rect_id);
        let d = self.detach(rect_id);
        let ghost mid = self.rects@;
        let ghost g0 = self.idgen;
        let ghost r0 = self.recycle_ids@;
        proof {
            assert(to_delete@.take(0) =~= Seq::<usize>::empty());
            assert(r0.to_set() + to_delete@.take(0).to_set() =~= r0.to_set());
            assert(below(r0.to_set(), g0) =~= r0.to_set());
            assert(to_delete@.to_set() =~= sub);
            crate::tree::lemma_no_cycle_back(a, rect_id, p);
            assert(!sub.contains(p));
            assert forall|q: usize, c: usize| #[trigger] mid.contains_key(q) && !sub.contains(q) && #[trigger] mid[q].children@.contains(c)
                implies !sub.contains(c) by {
                if sub.contains(c) {
                    let oc: Seq<usize> = a[q].children@;
                    if q == p {
                        crate::rect::lemma_without_contains(oc, rect_id, c);
                    }
                    assert(oc.contains(c));
                    let j = choose|j: int| 0 <= j < oc.len() && oc[j] == c;
                    assert(a[q].children@[j] == c);
                    assert(a[c].parent == Some(q));
                    assert(c != rect_id);
                    let n = choose|n: nat| reg_chain(a, c, rect_id, n);
                    assert(reg_chain(a, q, rect_id, (n - 1) as nat));
                    assert(sub.contains(q));
                }
            }
            crate::tree::lemma_tree_ok_remove_closed(mid, sub);
        }
        let mut i: usize = 0;
        while i < to_delete.len()
            invariant
                i <= to_delete@.len(),
                to_delete@.no_duplicates(),
                to_delete@.to_set() == sub,
                forall|x: usize| #[trigger] sub.contains(x) ==> mid.contains_key(x),
                self.rects@ == mid.remove_keys(to_delete@.take(i as int).to_set()),
                ids_ok(self.rects@, self.idgen, self.recycle_ids@),
                trimmed(r0.to_set() + to_delete@.take(i as int).to_set(), g0, self.idgen),
                self.recycle_ids@.to_set() == below(r0.to_set() + to_delete@.take(i as int).to_set(), self.idgen),
                self.top_cache@ == old(self).top_cache@,
                self.default_character == old(self).default_character,
            decreases to_delete@.len() - i,
        {
            let id = to_delete[i];
            let ghost before = self.rects@;
            let ghost u0 = r0.to_set() + to_delete@.take(i as int).to_set();
            let ghost ga = self.idgen;
            proof {
                assert(to_delete@.to_set().contains(id));
                assert(!to_delete@.take(i as int).to_set().contains(id)) by {
                    if to_delete@.take(i as int).contains(id) {
                        let j = choose|j: int| 0 <= j < i && to_delete@.take(i as int)[j] == id;
                        assert(to_delete@[j] == to_delete@[i as int]);
                    }
                }
                assert(before.contains_key(id));
            }
            self.rects.remove(&id);
            proof {
                assert(id < self.idgen);
                assert(!self.recycle_ids@.contains(id)) by {
                    if self.recycle_ids@.contains(id) {
                        let j = choose|j: int| 0 <= j < self.recycle_ids@.len() && self.recycle_ids@[j] == id;
                        assert(!before.contains_key(self.recycle_ids@[j]));
                    }
                }
                assert(ids_ok(self.rects@, self.idgen, self.recycle_ids@)) by {
                    assert forall|k: usize| #[trigger] self.rects@.contains_key(k) implies k < self.idgen by {
                        assert(before.contains_key(k));
                    }
                }
            }
            let ghost ra = self.recycle_ids@;
            self.recycle_id(id);
            proof {
                let t1 = to_delete@.take(i as int + 1);
                assert(t1 =~= to_delete@.take(i as int).push(id));
                assert forall|k: usize| #[trigger] t1.to_set().contains(k) <==> to_delete@.take(i as int).to_set().insert(id).contains(k) by {
                    if t1.contains(k) {
                        let j = choose|j: int| 0 <= j < t1.len() && t1[j] == k;
                        if j < i {
                            assert(to_delete@.take(i as int)[j] == k);
                        }
                    }
                    if to_delete@.take(i as int).contains(k) {
                        let j = choose|j: int| 0 <= j < i && to_delete@.take(i as int)[j] == k;
                        assert(t1[j] == k);
                    }
                    if k == id {
                        assert(t1[i as int] == k);
                    }
                }
                assert(t1.to_set() =~= to_delete@.take(i as int).to_set().insert(id));
                let u1 = r0.to_set() + t1.to_set();
                assert(u1 =~= u0.insert(id));
                let sp = ra.to_set().insert(id);
                assert(self.rects@ =~= mid.remove_keys(t1.to_set()));
                // the counter and the freed ids follow the whole set of ids given back
                assert forall|k: usize| self.idgen <= k < g0 implies #[trigger] u1.contains(k) by {
                    if k < ga {
                        assert(sp.contains(k));
                        if k != id {
                            assert(ra.to_set().contains(k));
                            assert(below(u0, ga).contains(k));
                        }
                    } else {
                        assert(u0.contains(k));
                    }
                }
                if self.idgen > 0 {
                    let k = (self.idgen - 1) as usize;
                    assert(!sp.contains(k));
                    if u1.contains(k) {
                        if k != id {
                            assert(u0.contains(k));
                            assert(below(u0, ga).contains(k));
                            assert(ra.to_set().contains(k));
                        }
                    }
                }
                assert(self.recycle_ids@.to_set() =~= below(u1, self.idgen)) by {
                    assert forall|k: usize| #[trigger] below(sp, self.idgen).contains(k) <==> below(u1, self.idgen).contains(k) by {
                        if below(u1, self.idgen).contains(k) && k != id {
                            assert(u0.contains(k));
                            assert(below(u0, ga).contains(k));
                            assert(ra.to_set().contains(k));
                        }
                        if below(sp, self.idgen).contains(k) && k != id {
                            assert(ra.to_set().contains(k));
                            assert(below(u0, ga).contains(k));
                        }
                    }
                }
            }
            i += 1;
        }
        proof {
            assert(to_delete@.take(to_delete@.len() as int) =~= to_delete@);
            let b = self.rects@;
            assert(b == mid.remove_keys(sub));
            assert(self.wf());
            assert(b.dom() =~= a.dom().difference(sub));
            assert(Self::detached(a, mid, rect_id));
            assert forall|k: usize| #[trigger] b.contains_key(k) implies b[k].character_space@ == a[k].character_space@ by {
                assert(a.contains_key(k));
            }
            assert forall|k: usize| #[trigger] b.contains_key(k) && k != p implies b[k].same_frame(a[k]) && b[k].same_space(a[k]) by {
                assert(a.contains_key(k));
                assert(sub.contains(rect_id)) by {
                    assert(reg_chain(a, rect_id, rect_id, 0));
                }
            }
            assert(b.contains_key(p));
            assert forall|k: usize| #[trigger] b.contains_key(k) implies b[k] == mid[k] && mid.contains_key(k) by {}
        }
        Ok(())
    }

    /// The descendants of `id`: the subtrees of the children it lists.
    pub open spec fn descendants(a: Map<usize, Rect>, id: usize) -> Set<usize> {
        Set::new(|x: usize| exists|c: usize| #[trigger] a[id].children@.contains(c) && subtree_of(a, c).contains(x))
    }

    /// The rectangles after every child of `id` was deleted with what is below it: `id` has
    /// no children left, no offsets and no records for them; nothing else changes but what
    /// is waiting to be drawn.
    pub open spec fn cleared(a: Map<usize, Rect>, b: Map<usize, Rect>, id: usize) -> bool {
        &&& b.dom() == a.dom().difference(Self::descendants(a, id))
        &&& forall|k: usize| #[trigger] b.contains_key(k) ==> b[k].character_space@ == a[k].character_space@
        &&& forall|k: usize| #[trigger] b.contains_key(k) && k != id ==> b[k].same_frame(a[k]) && b[k].same_space(a[k])
        &&& b.contains_key(id)
        &&& b[id].children@ == Seq::<usize>::empty()
        &&& b[id].child_positions@ == a[id].child_positions@.remove_keys(a[id].children@.to_set())
        &&& b[id].space().dom() == a[id].space().dom()
        &&& forall|p: Pos| #[trigger] b[id].space().contains_key(p) ==> b[id].space()[p] == Seq::<usize>::empty()
        &&& b[id].inverse() == a[id].inverse().union_prefer_right(
            Map::new(|c: usize| a[id].children@.contains(c), |c: usize| Seq::<Pos>::empty()))
        &&& b[id].rect_id == a[id].rect_id
        &&& b[id].width == a[id].width
        &&& b[id].height == a[id].height
        &&& b[id].default_character == a[id].default_character
        &&& b[id].parent == a[id].parent
        &&& b[id].child_ranks@ == a[id].child_ranks@
        &&& b[id].enabled == a[id].enabled
        &&& b[id].transparent == a[id].transparent
        &&& b[id].effects == a[id].effects
    }

    /// Step `i` of `states`: the `i`-th of `kids` is deleted (see `delete_rect`).
    pub open spec fn deletes_in_turn(states: Seq<Map<usize, Rect>>, kids: Seq<usize>, i: int) -> bool {
        &&& Self::deleted(states[i], states[i + 1], kids[i])
        &&& crate::tree::space_marked(states[i], states[i + 1], kids[i])
    }

    /// `b` is `a` once every child of `id` is deleted: as `cleared` says, and as deleting
    /// each child in turn (see `deletes_in_turn`).
    pub open spec fn children_cleared(a: Map<usize, Rect>, b: Map<usize, Rect>, id: usize) -> bool {
        &&& Self::cleared(a, b, id)
        &&& exists|states: Seq<Map<usize, Rect>>| {
            &&& states.len() == a[id].children@.len() + 1
            &&& states[0] == a
            &&& states.last() == b
            &&& forall|i: int| 0 <= i < a[id].children@.len() ==> #[trigger] Self::deletes_in_turn(states, a[id].children@, i)
        }
    }

    /// Deletes every child of a rectangle, with everything below them.
    pub fn clear_children(&mut self, rect_id: usize) -> (r: Result<(), WreckedError>)
        requires
            old(self).wf(),
        ensures
            final(self).wf(),
            final(self).top_cache() == old(self).top_cache(),
            final(self).fallback_character() == old(self).fallback_character(),
            !old(self).rects().contains_key(rect_id) ==> {
                &&& r == Err::<(), WreckedError>(WreckedError::NotFound(rect_id))
                &&& final(self).rects() == old(self).rects()
                &&& final(self).idgen() == old(self).idgen()
                &&& final(self).recycled() == old(self).recycled()
            },
            old(self).rects().contains_key(rect_id) ==> {
                let freed = old(self).recycled().to_set() + Self::descendants(old(self).rects(), rect_id);
                &&& r is Ok
                &&& Self::children_cleared(old(self).rects(), final(self).rects(), rect_id)
                &&& trimmed(freed, old(self).idgen(), final(self).idgen())
                &&& final(self).recycled().to_set() == below(freed, final(self).idgen())
            },
    {
        let kids = match self.get_rect(rect_id) {
            Some(rect) => crate::rect::copy_vec(&rect.children),
            None => {
                return Err(WreckedError::NotFound(rect_id));
            },
        };
        let ghost a = self.rects@;
        let ghost g0 = self.idgen;
        let ghost r0 = self.recycle_ids@;
        let ghost ch = a[rect_id].children@;
        proof {
            assert(kids@ == ch);
            assert(ch.no_duplicates());
            assert(kids@.take(0) =~= Seq::<usize>::empty());
            assert(Self::descendants_of_first(a, rect_id, kids@, 0) =~= Set::<usize>::empty());
            assert(r0.to_set() + Set::<usize>::empty() =~= r0.to_set());
            assert(below(r0.to_set(), g0) =~= r0.to_set());
            assert(a[rect_id].child_positions@.remove_keys(Set::<usize>::empty()) =~= a[rect_id].child_positions@);
            assert(a[rect_id].inverse().union_prefer_right(Map::new(|c: usize| Seq::<usize>::empty().contains(c), |c: usize| Seq::<Pos>::empty()))
                =~= a[rect_id].inverse());
            assert(a.dom().difference(Set::<usize>::empty()) =~= a.dom());
        }
        let ghost mut states: Seq<Map<usize, Rect>> = seq![a];
        let mut i: usize = 0;
        while i < kids.len()
            invariant
                states.len() == i + 1,
                states[0] == a,
                states.last() == self.rects@,
                forall|j: int| 0 <= j < i ==> #[trigger] Self::deletes_in_turn(states, ch, j),
                self.wf(),
                self.top_cache@ == old(self).top_cache@,
                self.default_character == old(self).default_character,
                a == old(self).rects@,
                tree_ok(a),
                a.contains_key(rect_id),
                ch == a[rect_id].children@,
                kids@ == ch,
                ch.no_duplicates(),
                i <= kids@.len(),
                self.rects@.dom() == a.dom().difference(Self::descendants_of_first(a, rect_id, ch, i as int)),
                forall|k: usize| #[trigger] self.rects@.contains_key(k) ==> self.rects@[k].character_space@ == a[k].character_space@,
                forall|k: usize| #[trigger] self.rects@.contains_key(k) && k != rect_id ==> self.rects@[k].same_frame(a[k]) && self.rects@[k].same_space(a[k]),
                self.rects@.contains_key(rect_id),
                forall|c: usize| #[trigger] self.rects@[rect_id].children@.contains(c) ==> ch.contains(c) && !ch.take(i as int).contains(c),
                self.rects@[rect_id].child_positions@ == a[rect_id].child_positions@.remove_keys(ch.take(i as int).to_set()),
                self.rects@[rect_id].space().dom() == a[rect_id].space().dom(),
                self.rects@[rect_id].inverse() == a[rect_id].inverse().union_prefer_right(
                    Map::new(|c: usize| ch.take(i as int).contains(c), |c: usize| Seq::<Pos>::empty())),
                self.rects@[rect_id].rect_id == a[rect_id].rect_id,
                self.rects@[rect_id].width == a[rect_id].width,
                self.rects@[rect_id].height == a[rect_id].height,
                self.rects@[rect_id].default_character == a[rect_id].default_character,
                self.rects@[rect_id].parent == a[rect_id].parent,
                self.rects@[rect_id].child_ranks@ == a[rect_id].child_ranks@,
                self.rects@[rect_id].enabled == a[rect_id].enabled,
                self.rects@[rect_id].transparent == a[rect_id].transparent,
                self.rects@[rect_id].effects == a[rect_id].effects,
                trimmed(r0.to_set() + Self::descendants_of_first(a, rect_id, ch, i as int), g0, self.idgen),
                self.recycle_ids@.to_set() == below(r0.to_set() + Self::descendants_of_first(a, rect_id, ch, i as int), self.idgen),
            decreases kids@.len() - i,
        {
            let kid = kids[i];
            let ghost st = self.rects@;
            let ghost gi = self.idgen;
            let ghost di = Self::descendants_of_first(a, rect_id, ch, i as int);
            proof {
                assert(ch[i as int] == kid);
                assert(a[rect_id].children@[i as int] == kid);
                assert(a.contains_key(kid) && a[kid].parent == Some(rect_id));
                assert(!di.contains(kid)) by {
                    if di.contains(kid) {
                        let c = choose|c: usize| #[trigger] ch.take(i as int).contains(c) && subtree_of(a, c).contains(kid);
                        let j = choose|j: int| 0 <= j < i && ch.take(i as int)[j] == c;
                        assert(ch[j] == c);
                        assert(a[rect_id].children@[j] == c);
                        assert(c != kid);
                        assert(reg_chain(a, kid, kid, 0));
                        crate::tree::lemma_siblings_disjoint(a, rect_id, kid, c, kid);
                    }
                }
                assert(st.contains_key(kid));
                crate::tree::lemma_not_own_parent(a, kid);
                assert(st[kid].parent == Some(rect_id));
                assert(has_up(st, kid) && up(st, kid) == rect_id);
                assert forall|x: usize| #[trigger] subtree_of(a, kid).contains(x) implies st.contains_key(x) by {
                    if di.contains(x) {
                        let c = choose|c: usize| #[trigger] ch.take(i as int).contains(c) && subtree_of(a, c).contains(x);
                        let j = choose|j: int| 0 <= j < i && ch.take(i as int)[j] == c;
                        assert(ch[j] == c);
                        assert(a[rect_id].children@[j] == c);
                        crate::tree::lemma_siblings_disjoint(a, rect_id, kid, c, x);
                    }
                }
                assert forall|k: usize| #[trigger] st.contains_key(k) implies a.contains_key(k) && st[k].parent == a[k].parent by {}
                crate::tree::lemma_subtree_same(a, st, rect_id, kid);
            }
            let r = self.delete_rect(kid);
            if r.is_err() {
                return r;
            }
            proof {
                let s1 = states.push(self.rects@);
                assert forall|j: int| 0 <= j < i + 1 implies #[trigger] Self::deletes_in_turn(s1, ch, j) by {
                    assert(s1[j] == states.push(self.rects@)[j]);
                    if j < i {
                        assert(Self::deletes_in_turn(states, ch, j));
                        assert(s1[j] == states[j] && s1[j + 1] == states[j + 1]);
                    } else {
                        assert(s1[j] == st && s1[j + 1] == self.rects@);
                    }
                }
                states = s1;
            }
            proof {
                let sb = self.rects@;
                let t = subtree_of(a, kid);
                let ch1 = ch.take(i as int + 1);
                assert(ch1 =~= ch.take(i as int).push(kid));
                assert forall|c: usize| #[trigger] ch1.contains(c) <==> (ch.take(i as int).contains(c) || c == kid) by {
                    if ch1.contains(c) {
                        let j = choose|j: int| 0 <= j < ch1.len() && ch1[j] == c;
                        if j < i {
                            assert(ch.take(i as int)[j] == c);
                        }
                    }
                    if ch.take(i as int).contains(c) {
                        let j = choose|j: int| 0 <= j < i && ch.take(i as int)[j] == c;
                        assert(ch1[j] == c);
                    }
                    if c == kid {
                        assert(ch1[i as int] == c);
                    }
                }
                let d1 = Self::descendants_of_first(a, rect_id, ch, i as int + 1);
                assert(d1 =~= di + t) by {
                    assert forall|x: usize| #[trigger] d1.contains(x) <==> (di.contains(x) || t.contains(x)) by {
                        if t.contains(x) {
                            assert(ch1.contains(kid) && subtree_of(a, kid).contains(x));
                        }
                        if di.contains(x) {
                            let c = choose|c: usize| #[trigger] ch.take(i as int).contains(c) && subtree_of(a, c).contains(x);
                            assert(ch1.contains(c) && subtree_of(a, c).contains(x));
                        }
                        if d1.contains(x) {
                            let c = choose|c: usize| #[trigger] ch1.contains(c) && subtree_of(a, c).contains(x);
                            if c != kid {
                                assert(ch.take(i as int).contains(c) && subtree_of(a, c).contains(x));
                            }
                        }
                    }
                }
                assert(sb.dom() =~= a.dom().difference(d1));
                assert forall|k: usize| #[trigger] sb.contains_key(k) implies sb[k].character_space@ == a[k].character_space@ by {
                    assert(st.contains_key(k));
                }
                assert forall|k: usize| #[trigger] sb.contains_key(k) && k != rect_id implies sb[k].same_frame(a[k]) && sb[k].same_space(a[k]) by {
                    assert(st.contains_key(k));
                }
                assert forall|c: usize| #[trigger] sb[rect_id].children@.contains(c) implies ch.contains(c) && !ch1.contains(c) by {
                    crate::rect::lemma_without_contains(st[rect_id].children@, kid, c);
                }
                assert(sb[rect_id].child_positions@ =~= a[rect_id].child_positions@.remove_keys(ch1.to_set()));
                assert(sb[rect_id].inverse() =~= a[rect_id].inverse().union_prefer_right(
                    Map::new(|c: usize| ch1.contains(c), |c: usize| Seq::<Pos>::empty())));
                assert(sb[rect_id].space().dom() =~= a[rect_id].space().dom());
                assert forall|x: usize| #[trigger] t.contains(x) implies x < gi by {
                    assert(st.contains_key(x));
                }
                assert(self.recycle_ids@.to_set() =~= below(r0.to_set() + d1, self.idgen)) by {
                    lemma_trimmed_compose(r0.to_set() + di, g0, gi, t, self.idgen);
                    assert(r0.to_set() + di + t =~= r0.to_set() + d1);
                }
                lemma_trimmed_compose(r0.to_set() + di, g0, gi, t, self.idgen);
                assert(r0.to_set() + di + t =~= r0.to_set() + d1);
            }
            i += 1;
        }
        proof {
            let b = self.rects@;
            assert(ch.take(ch.len() as int) =~= ch);
            assert(Self::descendants_of_first(a, rect_id, ch, ch.len() as int) =~= Self::descendants(a, rect_id)) by {
                assert forall|x: usize| #[trigger] Self::descendants_of_first(a, rect_id, ch, ch.len() as int).contains(x)
                    <==> Self::descendants(a, rect_id).contains(x) by {
                    if Self::descendants(a, rect_id).contains(x) {
                        let c = choose|c: usize| #[trigger] a[rect_id].children@.contains(c) && subtree_of(a, c).contains(x);
                        assert(ch.take(ch.len() as int).contains(c));
                    }
                }
            }
            assert(b[rect_id].children@ =~= Seq::<usize>::empty()) by {
                if b[rect_id].children@.len() > 0 {
                    assert(b[rect_id].children@.contains(b[rect_id].children@[0]));
                }
            }
            assert forall|p: Pos| #[trigger] b[rect_id].space().contains_key(p) implies b[rect_id].space()[p] == Seq::<usize>::empty() by {
                assert(b[rect_id].space_ok());
                if b[rect_id].space()[p].len() > 0 {
                    assert(b[rect_id].children@.contains(b[rect_id].space()[p][0]));
                }
                assert(b[rect_id].space()[p] =~= Seq::<usize>::empty());
            }
        }
        Ok(())
    }

    /// The descendants of `id` through the first `n` entries of `ch`.
    pub open spec fn descendants_of_first(a: Map<usize, Rect>, id: usize, ch: Seq<usize>, n: int) -> Set<usize> {
        Set::new(|x: usize| exists|c: usize| #[trigger] ch.take(n).contains(c) && subtree_of(a, c).contains(x))
    }

    /// The rectangles after `n` took the place of `o` in `o`'s parent `p`: `o` is detached,
    /// `n` is the last child of `p`, at the offset `o` had, covering the positions of `p`
    /// that its box covers there; `n`'s former parent no longer lists it; nothing else
    /// changes but what is waiting to be drawn.
    pub open spec fn replaced(a: Map<usize, Rect>, b: Map<usize, Rect>, o: usize, n: usize) -> bool {
        let p = up(a, o);
        let pos = a[p].child_positions@[o];
        let q = up(a, n);
        let n_moved = has_up(a, n) && q != p;
        &&& a.dom() == b.dom()
        &&& forall|k: usize| #[trigger] a.contains_key(k) ==> b[k].character_space@ == a[k].character_space@
        &&& forall|k: usize| #[trigger] a.contains_key(k) && k != o && k != n && k != p && !(n_moved && k == q)
            ==> b[k].same_frame(a[k]) && b[k].same_space(a[k])
        &&& (o != n && !(n_moved && q == o)) ==> b[o].same_but_parent_frame(a[o]) && b[o].same_space(a[o])
        &&& o != n ==> b[o].parent is None
        &&& b[n].parent == Some(p)
        &&& b[n].same_but_parent_frame(a[n])
        &&& b[n].same_space(a[n])
        &&& rel_offset(b, n) == Some(pos)
        &&& b[p].children@ == crate::rect::without(crate::rect::without(a[p].children@, o), n).push(n)
        &&& b[p].child_positions@ == a[p].child_positions@.remove(o).remove(n).insert(n, pos)
        &&& forall|x: Pos| #[trigger] b[p].covers(n, x) <==> a[p].placed(x, Self::child_box(pos, a[n].width, a[n].height))
        &&& b[p].rect_id == a[p].rect_id
        &&& b[p].width == a[p].width
        &&& b[p].height == a[p].height
        &&& b[p].default_character == a[p].default_character
        &&& b[p].parent == a[p].parent
        &&& b[p].enabled == a[p].enabled
        &&& b[p].transparent == a[p].transparent
        &&& b[p].effects == a[p].effects
        &&& n_moved ==> {
            &&& b[q].children@ == crate::rect::without(a[q].children@, n)
            &&& b[q].child_positions@ == a[q].child_positions@.remove(n)
            &&& b[q].space() == a[q].space_without(n)
        }
    }

    /// Puts `new_rect_id` where `old_rect_id` was: `old_rect_id` is detached from its parent,
    /// and `new_rect_id` is attached there at the same offset.
    pub fn replace_with(&mut self, old_rect_id: usize, new_rect_id: usize) -> (r: Result<(), WreckedError>)
        requires
            old(self).wf(),
            old(self).placement_ready(old_rect_id),
            has_up(old(self).rects(), old_rect_id) ==> !crate::tree::is_above(old(self).rects(), new_rect_id,
                up(old(self).rects(), old_rect_id)),
        ensures
            final(self).wf(),
            final(self).same_bookkeeping(old(self)),
            !has_up(old(self).rects(), old_rect_id) ==> r == Err::<(), WreckedError>(WreckedError::NotFound(old_rect_id))
                && final(self).rects() == old(self).rects(),
            has_up(old(self).rects(), old_rect_id) && !old(self).rects().contains_key(new_rect_id) ==>
                r == Err::<(), WreckedError>(WreckedError::NotFound(new_rect_id))
                && Self::detached(old(self).rects(), final(self).rects(), old_rect_id)
                && crate::tree::space_marked(old(self).rects(), final(self).rects(), old_rect_id),
            has_up(old(self).rects(), old_rect_id) && old(self).rects().contains_key(new_rect_id) ==>
                r is Ok && Self::replaced(old(self).rects(), final(self).rects(), old_rect_id, new_rect_id),
            // step by step: the old rectangle is detached, the new one attached to the same
            // parent, then set at the old one's offset
            has_up(old(self).rects(), old_rect_id) && old(self).rects().contains_key(new_rect_id) ==> {
                let a = old(self).rects();
                let p = up(a, old_rect_id);
                let pos = a[p].child_positions@[old_rect_id];
                exists|m1: Map<usize, Rect>, m2: Map<usize, Rect>| {
                    &&& Self::detached(a, m1, old_rect_id)
                    &&& crate::tree::space_marked(a, m1, old_rect_id)
                    &&& Self::attached(m1, m2, new_rect_id, p)
                    &&& crate::tree::attach_marked(m1, m2, new_rect_id)
                    &&& has_up(m2, new_rect_id) && up(m2, new_rect_id) == p
                    &&& Self::positioned(m2, final(self).rects(), new_rect_id, pos.0, pos.1)
                    &&& crate::tree::move_marked(m2, final(self).rects(), new_rect_id)
                }
            },
    {
        let parent_id = match self.held_parent_id(old_rect_id) {
            Some(pid) => pid,
            None => {
                return Err(WreckedError::NotFound(old_rect_id));
            },
        };
        let ghost a = self.rects@;
        let old_position = match self.get_rect(parent_id) {
            Some(parent) => {
                proof {
                    assert(a[parent_id].children@.contains(old_rect_id));
                }
                *parent.child_positions.get(&old_rect_id).unwrap()
            },
            None => {
                return Err(WreckedError::NotFound(old_rect_id));
            },
        };
        let r = self.detach(old_rect_id);
        if r.is_err() {
            return r;
        }
        let ghost mid = self.rects@;
        proof {
            assert forall|q: usize| #[trigger] a.contains_key(q) implies mid[q].parent == a[q].parent || mid[q].parent is None by {}
            crate::tree::lemma_not_above_after_cut(a, mid, new_rect_id, parent_id);
        }
        let r = self.attach(new_rect_id, parent_id);
        if r.is_err() {
            return r;
        }
        let ghost m2 = self.rects@;
        proof {
            let cs = m2[parent_id].children@;
            assert(cs[cs.len() - 1] == new_rect_id);
            assert(cs.contains(new_rect_id));
        }
        let r = self.set_position(new_rect_id, old_position.0, old_position.1);
        if r.is_err() {
            return r;
        }
        proof {
            let b = self.rects@;
            let o = old_rect_id;
            let n = new_rect_id;
            let p = parent_id;
            let pos = a[p].child_positions@[o];
            let q = up(a, n);
            let n_moved = has_up(a, n) && q != p;
            assert(has_up(m2, n) && up(m2, n) == p);
            assert(old_position == pos);
            crate::tree::lemma_not_own_parent(a, o);
            assert(p != o);
            assert(n != p) by {
                assert(crate::tree::above_within(a, n, n, 0));
            }
            // where n hung before the attach
            assert(has_up(mid, n) == (has_up(a, n) && n != o)) by {
                if n != o && has_up(a, n) {
                    assert(a.contains_key(q));
                }
            }
            assert(has_up(mid, n) ==> up(mid, n) == q);
            assert(a.dom() == b.dom());
            assert forall|k: usize| #[trigger] a.contains_key(k) implies b[k].character_space@ == a[k].character_space@ by {
                assert(mid.contains_key(k) && m2.contains_key(k));
            }
            assert(b[n].parent == Some(p));
            assert(b[n].same_but_parent_frame(a[n]));
            assert(b[n].same_space(a[n]));
            assert(rel_offset(b, n) == Some(pos));
            assert(b[p].child_positions@ =~= a[p].child_positions@.remove(o).remove(n).insert(n, pos));
            if n != o && !has_up(a, n) {
                assert(!a[p].children@.contains(n)) by {
                    if a[p].children@.contains(n) {
                        let j = choose|j: int| 0 <= j < a[p].children@.len() && a[p].children@[j] == n;
                        assert(a[p].children@[j] == n);
                    }
                }
                crate::rect::lemma_without_contains(a[p].children@, o, n);
                crate::rect::lemma_without_absent(crate::rect::without(a[p].children@, o), n);
            } else if n != o && q != p {
                assert(!a[p].children@.contains(n)) by {
                    if a[p].children@.contains(n) {
                        let j = choose|j: int| 0 <= j < a[p].children@.len() && a[p].children@[j] == n;
                        assert(a[p].children@[j] == n);
                    }
                }
                crate::rect::lemma_without_contains(a[p].children@, o, n);
                crate::rect::lemma_without_absent(crate::rect::without(a[p].children@, o), n);
            } else if n == o {
                crate::rect::lemma_without_twice(a[p].children@, o);
            }
            assert(b[p].children@ == crate::rect::without(crate::rect::without(a[p].children@, o), n).push(n));
            assert forall|x: Pos| #[trigger] b[p].covers(n, x) <==> a[p].placed(x, Self::child_box(pos, a[n].width, a[n].height)) by {
                assert(b[p].covers(n, x) <==> m2[p].placed(x, Self::child_box(pos, m2[n].width, m2[n].height)));
            }
            assert forall|k: usize| #[trigger] a.contains_key(k) && k != o && k != n && k != p && !(n_moved && k == q)
                implies b[k].same_frame(a[k]) && b[k].same_space(a[k]) by {
                assert(mid.contains_key(k) && m2.contains_key(k));
            }
            if o != n && !(n_moved && q == o) {
                assert(m2.contains_key(o));
                assert(b[o].same_but_parent_frame(a[o]) && b[o].same_space(a[o]));
            }
            assert(b[p].rect_id == a[p].rect_id);
            assert(b[p].width == a[p].width);
            assert(b[p].parent == a[p].parent);
            assert(b[p].effects == a[p].effects);
            assert(o != n ==> b[o].parent is None) by {
                if o != n {
                    assert(m2.contains_key(o));
                    if n_moved && q == o {
                        assert(b[o].parent == m2[o].parent);
                    }
                }
            }
            if n_moved {
                assert(mid.contains_key(q) && m2.contains_key(q));
                if q == o {
                    assert(mid[o].children@ == a[o].children@);
                }
                assert(b[q].children@ == crate::rect::without(a[q].children@, n));
                assert(b[q].space() == a[q].space_without(n)) by {
                    assert(mid[q].space() =~= a[q].space());
                    assert(mid[q].inverse() == a[q].inverse());
                    assert(mid[q].space_without(n) =~= a[q].space_without(n));
                }
            }
        }
        Ok(())
    }

    /// The offset, counted row after row from the corner of `r`, at which a string set from
    /// `(start_x, start_y)` starts.
    pub open spec fn string_start(r: Rect, start_x: isize, start_y: isize) -> int {
        start_y * crate::rect::signed(r.width) + start_x
    }

    /// Whether the arithmetic that lays out a string of `len` bytes and `n` characters in `r`
    /// from `(start_x, start_y)` stays within `isize`, and whether each division it makes
    /// has a divisor that neither is zero nor overflows.
    pub open spec fn layout_in_range(r: Rect, start_x: isize, start_y: isize, len: int, n: int) -> bool {
        let w = crate::rect::signed(r.width) as int;
        let h = crate::rect::signed(r.height) as int;
        let start = Self::string_start(r, start_x, start_y);
        &&& isize::MIN <= start_y * w <= isize::MAX
        &&& isize::MIN <= start <= isize::MAX
        &&& start + len <= isize::MAX
        &&& isize::MIN <= w * h <= isize::MAX
        &&& (n > 0 && start + len <= w * h) ==> w != 0 && !(w == -1 && start == isize::MIN)
    }

    /// Sets a string of characters, row after row, from the given position of a rectangle:
    /// a row that is full continues at the start of the next. A string whose bytes would run
    /// past the last row is refused whole.
    pub fn set_string(&mut self, rect_id: usize, start_x: isize, start_y: isize, string: &str) -> (r: Result<(), WreckedError>)
        requires
            old(self).wf(),
            vstd::utf8::encode_utf8(string@).len() <= isize::MAX,
            old(self).rects().contains_key(rect_id) ==> Self::layout_in_range(old(self).rects()[rect_id], start_x, start_y,
                string.len() as int, string@.len() as int),
        ensures
            final(self).wf(),
            final(self).same_bookkeeping(old(self)),
            !old(self).rects().contains_key(rect_id) ==> r == Err::<(), WreckedError>(WreckedError::NotFound(rect_id))
                && final(self).rects() == old(self).rects(),
            old(self).rects().contains_key(rect_id) ==> {
                let rr = old(self).rects()[rect_id];
                let w = crate::rect::signed(rr.width) as int;
                let h = crate::rect::signed(rr.height) as int;
                let start = Self::string_start(rr, start_x, start_y);
                let first = crate::text::slot(start, w);
                &&& start + string.len() > w * h ==> {
                    &&& r matches Err(WreckedError::StringTooLong(id, pos, s)) && id == rect_id && pos == (start_x, start_y) && s@ == string@
                    &&& final(self).rects() == old(self).rects()
                }
                &&& (start + string.len() <= w * h && string@.len() > 0 && !rr.holds(first.0, first.1)) ==> {
                    &&& r == Err::<(), WreckedError>(WreckedError::BadPosition(first.0, first.1))
                    &&& final(self).rects() == old(self).rects()
                }
                &&& (start + string.len() <= w * h && (string@.len() == 0 || rr.holds(first.0, first.1))) ==> {
                    &&& r is Ok
                    &&& chars_became(old(self).rects(), final(self).rects(), rect_id, crate::text::written(rr, string@, start))
                    &&& crate::tree::display_refreshed(old(self).rects(), final(self).rects(), rect_id)
                }
            },
    {
        let (w, h) = match self.get_rect_size(rect_id) {
            Some(d) => (d.0 as isize, d.1 as isize),
            None => {
                return Err(WreckedError::NotFound(rect_id));
            },
        };
        let ghost before = self.rects@;
        let ghost rr = before[rect_id];
        let ghost n = string@.len();
        proof {
            assert(w == crate::rect::signed(rr.width));
            assert(h == crate::rect::signed(rr.height));
            crate::text::lemma_utf8_len(string@);
        }
        let start_offset = start_y * w + start_x;
        if start_offset + (string.len() as isize) > w * h {
            return Err(WreckedError::StringTooLong(rect_id, (start_x, start_y), string.to_owned()));
        }
        if !string.is_empty() {
            let (y, x) = crate::text::trunc_div_rem(start_offset, w);
            if !(y < h && y >= 0 && x < w && x >= 0) {
                return Err(WreckedError::BadPosition(x, y));
            }
            proof {
                // the first character lands inside, so every later one does too
                assert(w > 0);
                assert(start_offset >= 0) by {
                    if start_offset < 0 {
                        let a = crate::text::abs(start_offset as int);
                        assert(a / (w as int) == 0);
                        assert(a < w) by (nonlinear_arith)
                            requires
                                a >= 0,
                                w > 0,
                                a / (w as int) == 0,
                        ;
                        assert(a % (w as int) == a) by (nonlinear_arith)
                            requires
                                0 <= a < w,
                        ;
                    }
                }
            }
        }
        let mut rect = self.rects.remove(&rect_id).unwrap();
        let mut i = start_offset;
        let mut count: usize = 0;
        for character in it: string.chars()
            invariant
                rr == before[rect_id],
                before == old(self).rects@,
                before.contains_key(rect_id),
                tree_ok(before),
                self.rects@ == before.remove(rect_id),
                w == crate::rect::signed(rr.width),
                h == crate::rect::signed(rr.height),
                start_offset == Self::string_start(rr, start_x, start_y),
                start_offset + string.len() <= w * h,
                Self::layout_in_range(rr, start_x, start_y, string.len() as int, string@.len() as int),
                n == string@.len(),
                n <= string.len(),
                it.seq() == string@,
                count == it.index(),
                count <= n,
                i == start_offset + count,
                n > 0 ==> start_offset >= 0 && w > 0,
                rect.character_space@ == crate::text::written(rr, string@.take(count as int), start_offset as int),
                rect.same_frame(rr),
                rect.same_space(rr),
                rect.same_display(rr),
                self.idgen == old(self).idgen,
                self.recycle_ids@ == old(self).recycle_ids@,
                self.top_cache@ == old(self).top_cache@,
                self.default_character == old(self).default_character,
        {
            proof {
                let ii = i as int;
                assert(ii < w * h);
                assert(ii / (w as int) < h) by (nonlinear_arith)
                    requires
                        0 <= ii < w * h,
                        w > 0,
                ;
            }
            let (y, x) = crate::text::trunc_div_rem(i, w);
            let res = rect.set_character(x, y, character);
            match res {
                Ok(_) => {},
                Err(e) => {
                    self.rects.insert(rect_id, rect);
                    return Err(e);
                },
            }
            proof {
                let cs = string@.take(count as int + 1);
                assert(cs.drop_last() =~= string@.take(count as int));
                assert(cs.last() == character);
            }
            i = i + 1;
            count = count + 1;
        }
        proof {
            assert(string@.take(n as int) =~= string@);
        }
        self.rects.insert(rect_id, rect);
        proof {
            assert(self.rects@ =~= before.insert(rect_id, rect));
            assert(same_links_map(before, self.rects@));
            lemma_tree_ok_same_links(before, self.rects@);
        }
        let ghost mid = self.rects@;
        let r = self.flag_refresh(rect_id);
        proof {
            assert(mid.contains_key(rect_id));
            crate::tree::lemma_placement_kept(before, rect_id, mid[rect_id]);
            assert(self.rects@.dom() =~= before.dom());
            self.lemma_refresh_marked_from(before, mid, self.rects@, rect_id);
            assert forall|k: usize| #[trigger] before.contains_key(k) implies {
                &&& self.rects@[k].same_frame(before[k])
                &&& self.rects@[k].same_space(before[k])
                &&& (k != rect_id ==> self.rects@[k].character_space@ == before[k].character_space@)
            } by {
                assert(mid.contains_key(k));
            }
        }
        r
    }

    /// The stack of children to look through at a position whose list of children (lowest
    /// rank first) is `l`; each of them is added to `require`.
    fn build_stack(&self, l: &Vec<usize>, require: &mut BTreeSet<usize>) -> (st: Vec<(usize, usize)>)
        ensures
            st@ == stack(l@, views(self.rects@)),
            final(require)@ == old(require)@ + Set::new(|c: usize| exists|k: int| 0 <= k < st@.len() && #[trigger] st@[k].0 == c),
    {
        let ghost s = views(self.rects@);
        let ghost r0 = require@;
        let mut st: Vec<(usize, usize)> = Vec::new();
        let mut k: usize = l.len();
        let mut done = false;
        proof {
            assert(l@.take(l@.len() as int) =~= l@);
        }
        while k > 0 && !done
            invariant
                k <= l@.len(),
                st@ + (if done { Seq::<(usize, usize)>::empty() } else { stack(l@.take(k as int), s) }) == stack(l@, s),
                require@ == r0 + Set::new(|c: usize| exists|j: int| 0 <= j < st@.len() && #[trigger] st@[j].0 == c),
                s == views(self.rects@),
            decreases k,
        {
            k = k - 1;
            let c = l[k];
            let ghost t = l@.take(k as int + 1);
            proof {
                assert(t.last() == c);
                assert(t.drop_last() =~= l@.take(k as int));
                assert(t.len() == k + 1);
            }
            let ghost st0 = st@;
            st.push((c, k + 1));
            require.insert(c);
            proof {
                assert(require@ =~= r0 + Set::new(|q: usize| exists|j: int| 0 <= j < st@.len() && #[trigger] st@[j].0 == q)) by {
                    assert forall|q: usize| #[trigger] require@.contains(q) <==> (r0 + Set::new(|q: usize| exists|j: int| 0 <= j < st@.len() && #[trigger] st@[j].0 == q)).contains(q) by {
                        if q == c {
                            assert(st@[st0.len() as int].0 == q);
                        }
                        if exists|j: int| 0 <= j < st@.len() && #[trigger] st@[j].0 == q {
                            let j = choose|j: int| 0 <= j < st@.len() && #[trigger] st@[j].0 == q;
                            if j < st0.len() {
                                assert(st0[j].0 == q);
                            }
                        }
                        if exists|j: int| 0 <= j < st0.len() && #[trigger] st0[j].0 == q {
                            let j = choose|j: int| 0 <= j < st0.len() && #[trigger] st0[j].0 == q;
                            assert(st@[j].0 == q);
                        }
                    }
                }
            }
            if !self.is_transparent(c) {
                done = true;
                proof {
                    assert(stack(t, s) == seq![(c, (k + 1) as usize)]);
                    assert(st@ =~= st0 + stack(t, s));
                    assert(st@ + Seq::<(usize, usize)>::empty() =~= st@);
                }
            } else {
                proof {
                    assert(stack(t, s) == seq![(c, (k + 1) as usize)] + stack(l@.take(k as int), s));
                    assert(st@ + stack(l@.take(k as int), s) =~= st0 + stack(t, s));
                }
            }
        }
        proof {
            if !done {
                assert(l@.take(0) =~= Seq::<usize>::empty());
                assert(st@ + Seq::<(usize, usize)>::empty() =~= st@);
            } else {
                assert(st@ + Seq::<(usize, usize)>::empty() =~= st@);
            }
        }
        st
    }

    /// Goes down a stack at `p` (see `pick`), reading the children's queues.
    fn pick_cell(&self, st: &Vec<(usize, usize)>, p: Pos, cps: &BTreeMap<usize, Pos>)
        -> (r: Result<(Option<(QueuedCell, usize)>, bool), WreckedError>)
        requires
            forall|k: int| 0 <= k < st@.len() && #[trigger] cps@.contains_key(st@[k].0) ==> self.rects@.contains_key(st@[k].0),
        ensures
            r == Ok::<(Option<(QueuedCell, usize)>, bool), WreckedError>(pick(st@, p, cps@, views(self.rects@))),
    {
        let ghost s = views(self.rects@);
        let mut t = false;
        let mut k: usize = 0;
        proof {
            assert(st@.skip(0) =~= st@);
        }
        while k < st.len()
            invariant
                k <= st@.len(),
                s == views(self.rects@),
                forall|q: int| 0 <= q < st@.len() && #[trigger] cps@.contains_key(st@[q].0) ==> self.rects@.contains_key(st@[q].0),
                pick(st@, p, cps@, s) == (pick(st@.skip(k as int), p, cps@, s).0, pick(st@.skip(k as int), p, cps@, s).1 || t),
            decreases st@.len() - k,
        {
            let (c, rank) = st[k];
            proof {
                assert(st@.skip(k as int)[0] == (c, rank));
                assert(st@.skip(k as int).drop_first() =~= st@.skip(k as int + 1));
            }
            match cps.get(&c) {
                Some(off) => {
                    let child = match self.rects.get(&c) {
                        Some(child) => child,
                        None => {
                            return Err(WreckedError::NotFound(c));
                        },
                    };
                    let key = (p.0.wrapping_sub(off.0), p.1.wrapping_sub(off.1));
                    proof {
                        assert(key == seen_from(p, cps@[c]));
                        assert(s[c] == child@);
                    }
                    match child.queued_display.get(&key) {
                        Some(v) => {
                            return Ok((Some((*v, rank)), t));
                        },
                        None => {
                            if child.transparent {
                                t = true;
                            }
                        },
                    }
                },
                None => {},
            }
            k += 1;
        }
        proof {
            assert(st@.skip(st@.len() as int) =~= Seq::<(usize, usize)>::empty());
        }
        Ok((None, t))
    }

    /// Refreshes the queue of cells a rectangle has to draw (see `refresh`): takes its
    /// refresh flags, then fills the positions that are due.
    fn update_queued_display(&mut self, rect_id: usize, Ghost(d): Ghost<nat>) -> (r: Result<(), WreckedError>)
        requires
            old(self).wf(),
            depth_bound(old(self).rects(), d),
        ensures
            final(self).wf(),
            final(self).same_bookkeeping(old(self)),
            same_links_map(old(self).rects(), final(self).rects()),
            forall|k: usize| #[trigger] old(self).rects().contains_key(k) && !subtree_of(old(self).rects(), rect_id).contains(k)
                ==> final(self).rects()[k] == old(self).rects()[k],
            !old(self).rects().contains_key(rect_id) ==> r == Err::<(), WreckedError>(WreckedError::NotFound(rect_id))
                && final(self).rects() == old(self).rects(),
            old(self).rects().contains_key(rect_id) ==> r is Ok && views(final(self).rects()) == refresh(views(old(self).rects()),
                rect_id, (d - steps(old(self).rects(), rect_id, d)) as nat),
        decreases d - steps(old(self).rects(), rect_id, d), 1nat,
    {
        if !self.rects.contains_key(&rect_id) {
            return Err(WreckedError::NotFound(rect_id));
        }
        let ghost a = self.rects@;
        let ghost s = views(a);
        let mut rect = self.rects.remove(&rect_id).unwrap();
        let ghost r = rect@;
        if !rect.enabled {
            self.rects.insert(rect_id, rect);
            proof {
                assert(self.rects@ =~= a);
            }
            return Ok(());
        }
        let mut positions: Vec<Pos> = Vec::new();
        if rect.flag_full_refresh {
            rect.flag_full_refresh = false;
            rect.queued_display.clear();
            let w = rect.width as isize;
            let h = rect.height as isize;
            let mut y: isize = 0;
            while y < h
                invariant
                    0 <= y,
                    y <= h || y == 0,
                    w == crate::rect::signed(r.width),
                    h == crate::rect::signed(r.height),
                    positions@.no_duplicates(),
                    forall|q: Pos| #[trigger] positions@.contains(q) <==> (0 <= q.0 < w && 0 <= q.1 < y),
                decreases h - y,
            {
                let mut x: isize = 0;
                let ghost row0 = positions@;
                while x < w
                    invariant
                        0 <= x,
                        x <= w || x == 0,
                        0 <= y < h,
                        w == crate::rect::signed(r.width),
                        positions@.no_duplicates(),
                        forall|q: Pos| #[trigger] positions@.contains(q) <==> ((0 <= q.0 < w && 0 <= q.1 < y) || (q.1 == y && 0 <= q.0 < x)),
                    decreases w - x,
                {
                    let ghost p0 = positions@;
                    positions.push((x, y));
                    proof {
                        assert forall|q: Pos| #[trigger] positions@.contains(q) <==> ((0 <= q.0 < w && 0 <= q.1 < y) || (q.1 == y && 0 <= q.0 < x + 1)) by {
                            if positions@.contains(q) {
                                let m = choose|m: int| 0 <= m < positions@.len() && positions@[m] == q;
                                if m < p0.len() {
                                    assert(p0[m] == q);
                                    assert(p0.contains(q));
                                }
                            }
                            if (0 <= q.0 < w && 0 <= q.1 < y) || (q.1 == y && 0 <= q.0 < x) {
                                assert(p0.contains(q));
                                let m = choose|m: int| 0 <= m < p0.len() && p0[m] == q;
                                assert(positions@[m] == q);
                            }
                            if q == (x, y) {
                                assert(positions@[p0.len() as int] == q);
                            }
                        }
                        assert(!p0.contains((x, y)));
                        assert forall|m1: int, m2: int| 0 <= m1 < m2 < positions@.len() implies positions@[m1] != positions@[m2] by {
                            if m2 == p0.len() {
                                assert(p0[m1] == positions@[m1]);
                                assert(p0.contains(positions@[m1]));
                            } else {
                                assert(p0[m1] == positions@[m1] && p0[m2] == positions@[m2]);
                            }
                        }
                    }
                    x += 1;
                }
                proof {
                    assert(w > 0 ==> x == w);
                    assert forall|q: Pos| #[trigger] positions@.contains(q) <==> (0 <= q.0 < w && 0 <= q.1 < y + 1) by {
                        if positions@.contains(q) {
                            assert((0 <= q.0 < w && 0 <= q.1 < y) || (q.1 == y && 0 <= q.0 < x));
                        }
                        if 0 <= q.0 < w && 0 <= q.1 < y + 1 {
                            if q.1 < y {
                                assert(0 <= q.0 < w && 0 <= q.1 < y);
                            } else {
                                assert(q.1 == y && 0 <= q.0 < x);
                            }
                        }
                    }
                }
                y += 1;
            }
            rect.flags_pos_refresh.clear();
        } else {
            let w = rect.width as isize;
            let h = rect.height as isize;
            let ghost flags = rect.flags_pos_refresh@;
            for pos in it: rect.flags_pos_refresh.iter()
                invariant
                    w == crate::rect::signed(r.width),
                    h == crate::rect::signed(r.height),
                    flags == r.flags_pos_refresh,
                    it.seq().unref().to_set() == flags,
                    it.seq().no_duplicates(),
                    positions@.no_duplicates(),
                    forall|q: Pos| #[trigger] positions@.contains(q) <==> (r.holds(q.0, q.1)
                        && exists|m: int| 0 <= m < it.index() && *it.seq()[m] == q),
                    forall|q: Pos| #[trigger] positions@.contains(q) ==> flags.contains(q),
                    forall|q: Pos| #[trigger] flags.contains(q) && r.holds(q.0, q.1) ==> positions@.contains(q)
                        || exists|m: int| it.index() <= m < it.seq().len() && *it.seq()[m] == q,
            {
                let ghost idx = it.index();
                let ghost p0 = positions@;
                if pos.0 >= 0 && pos.1 >= 0 && pos.0 < w && pos.1 < h {
                    positions.push(*pos);
                }
                proof {
                    assert(*it.seq()[idx] == *pos);
                    assert forall|q: Pos| #[trigger] positions@.contains(q) <==> (r.holds(q.0, q.1)
                        && exists|m: int| 0 <= m < idx + 1 && *it.seq()[m] == q) by {
                        if positions@.contains(q) {
                            let m = choose|m: int| 0 <= m < positions@.len() && positions@[m] == q;
                            if m < p0.len() {
                                assert(p0[m] == q);
                                assert(p0.contains(q));
                            }
                        }
                        if r.holds(q.0, q.1) && exists|m: int| 0 <= m < idx + 1 && *it.seq()[m] == q {
                            let m = choose|m: int| 0 <= m < idx + 1 && *it.seq()[m] == q;
                            if m < idx {
                                assert(p0.contains(q));
                                let mm = choose|mm: int| 0 <= mm < p0.len() && p0[mm] == q;
                                assert(positions@[mm] == q);
                            } else {
                                assert(positions@[p0.len() as int] == q);
                            }
                        }
                    }
                    assert(it.seq().unref()[idx as int] == *pos);
                    assert(it.seq().unref().contains(*pos));
                    assert(flags.contains(*pos));
                    assert forall|q: Pos| #[trigger] positions@.contains(q) implies flags.contains(q) by {
                        if q != *pos {
                            let m = choose|m: int| 0 <= m < positions@.len() && positions@[m] == q;
                            if m < p0.len() {
                                assert(p0[m] == q);
                                assert(p0.contains(q));
                            }
                        }
                    }
                    assert forall|q: Pos| #[trigger] flags.contains(q) && r.holds(q.0, q.1) implies positions@.contains(q)
                        || exists|m: int| idx + 1 <= m < it.seq().len() && *it.seq()[m] == q by {
                        if !p0.contains(q) {
                            let m = choose|m: int| idx <= m < it.seq().len() && *it.seq()[m] == q;
                            if m == idx {
                                assert(positions@[p0.len() as int] == q);
                            }
                        } else {
                            let mm = choose|mm: int| 0 <= mm < p0.len() && p0[mm] == q;
                            assert(positions@[mm] == q);
                        }
                    }
                    if positions@.len() > p0.len() {
                        assert(!p0.contains(*pos)) by {
                            if p0.contains(*pos) {
                                let m = choose|m: int| 0 <= m < idx && *it.seq()[m] == *pos;
                                assert(it.seq()[m] == it.seq()[idx as int]);
                            }
                        }
                        assert forall|m1: int, m2: int| 0 <= m1 < m2 < positions@.len() implies positions@[m1] != positions@[m2] by {
                            if m2 == p0.len() {
                                assert(p0[m1] == positions@[m1]);
                                assert(p0.contains(positions@[m1]));
                            } else {
                                assert(p0[m1] == positions@[m1] && p0[m2] == positions@[m2]);
                            }
                        }
                    } else {
                        assert(positions@ == p0);
                    }
                }
            }
        }
        rect.flags_pos_refresh.clear();
        let ghost prep = rect@;
        self.rects.insert(rect_id, rect);
        proof {
            let m = self.rects@;
            assert(m =~= a.insert(rect_id, m[rect_id]));
            assert(prep.character_space == r.character_space);
            assert(prep == prepped(r)) by {
                assert(prep.flags_pos_refresh =~= Set::<Pos>::empty());
                if r.flag_full_refresh {
                    assert(prep.queued_display =~= Map::<Pos, QueuedCell>::empty());
                }
            }
            assert(views(m) =~= s.insert(rect_id, prepped(r)));
            assert(same_links_map(a, m)) by {
                assert forall|q: usize| #[trigger] a.contains_key(q) implies same_links(a[q], m[q]) by {}
            }
            lemma_tree_ok_same_links(a, m);
            let fset = positions@.to_set().filter(|q: Pos| m[rect_id].holds(q.0, q.1));
            assert(fset =~= targets(r)) by {
                assert forall|q: Pos| #[trigger] fset.contains(q) <==> targets(r).contains(q) by {
                    if !r.flag_full_refresh {
                        if targets(r).contains(q) {
                            assert(r.flags_pos_refresh.contains(q));
                        }
                    }
                }
            }
            assert(depth_bound(m, d)) by {
                assert forall|q: usize| #[trigger] m.contains_key(q) implies chain_ends(m, q, d) by {
                    assert(a.contains_key(q));
                    lemma_chain_same_links(a, m, q, d);
                }
            }
            lemma_chain_same_links(a, m, rect_id, d);
            crate::tree::lemma_subtree_same_links(a, m, rect_id);
        }
        let res = self.update_queue_by_positions(rect_id, &positions, Ghost(d));
        proof {
            let f = self.rects@;
            assert(same_links_map(a, f)) by {
                assert forall|q: usize| #[trigger] a.contains_key(q) implies same_links(a[q], f[q]) by {}
            }
            assert(subtree_of(a, rect_id).contains(rect_id)) by {
                assert(crate::tree::reg_chain(a, rect_id, rect_id, 0));
            }
        }
        res
    }

    /// Fills the given positions of a rectangle (see `fill`): first where no child stands,
    /// then, once the children it reads were refreshed, where children stand.
    fn update_queue_by_positions(&mut self, rect_id: usize, positions: &Vec<Pos>, Ghost(d): Ghost<nat>) -> (r: Result<(), WreckedError>)
        requires
            old(self).wf(),
            depth_bound(old(self).rects(), d),
            positions@.no_duplicates(),
        ensures
            final(self).wf(),
            final(self).same_bookkeeping(old(self)),
            same_links_map(old(self).rects(), final(self).rects()),
            forall|k: usize| #[trigger] old(self).rects().contains_key(k) && !subtree_of(old(self).rects(), rect_id).contains(k)
                ==> final(self).rects()[k] == old(self).rects()[k],
            !old(self).rects().contains_key(rect_id) ==> r == Err::<(), WreckedError>(WreckedError::NotFound(rect_id))
                && final(self).rects() == old(self).rects(),
            old(self).rects().contains_key(rect_id) ==> r is Ok && views(final(self).rects()) == fill(views(old(self).rects()), rect_id,
                positions@.to_set().filter(|p: Pos| old(self).rects()[rect_id].holds(p.0, p.1)),
                (d - steps(old(self).rects(), rect_id, d)) as nat),
        decreases d - steps(old(self).rects(), rect_id, d), 0nat,
    {
        if !self.rects.contains_key(&rect_id) {
            return Err(WreckedError::NotFound(rect_id));
        }
        let ghost a = self.rects@;
        let ghost s = views(a);
        let ghost r0 = s[rect_id];
        let ghost b = positions@.to_set().filter(|p: Pos| r0.holds(p.0, p.1));
        let ghost n = (d - steps(a, rect_id, d)) as nat;
        proof {
            assert(r0 == a[rect_id]@);
            assert(b =~= positions@.to_set().filter(|p: Pos| a[rect_id].holds(p.0, p.1)));
        }
        // the stacks at the covered positions, read before anything changes
        let mut pos_stack: Vec<(Pos, Vec<(usize, usize)>)> = Vec::new();
        let mut require: BTreeSet<usize> = BTreeSet::new();
        let mut i: usize = 0;
        while i < positions.len()
            invariant
                self.rects@ == a,
                s == views(a),
                a.contains_key(rect_id),
                r0 == a[rect_id]@,
                i <= positions@.len(),
                positions@.no_duplicates(),
                forall|j: int| 0 <= j < pos_stack@.len() ==> {
                    &&& positions@.take(i as int).contains(#[trigger] pos_stack@[j].0)
                    &&& r0.holds(pos_stack@[j].0.0, pos_stack@[j].0.1)
                    &&& r0.covered(pos_stack@[j].0)
                    &&& pos_stack@[j].1@ == stack(r0.space[pos_stack@[j].0], s)
                },
                forall|j1: int, j2: int| 0 <= j1 < j2 < pos_stack@.len() ==> pos_stack@[j1].0 != pos_stack@[j2].0,
                forall|q: Pos| #[trigger] positions@.take(i as int).contains(q) && r0.holds(q.0, q.1) && r0.covered(q)
                    ==> exists|j: int| 0 <= j < pos_stack@.len() && pos_stack@[j].0 == q,
                require@ == Set::new(|c: usize| exists|j: int, k: int| 0 <= j < pos_stack@.len()
                    && 0 <= k < pos_stack@[j].1@.len() && #[trigger] pos_stack@[j].1@[k].0 == c),
            decreases positions@.len() - i,
        {
            let (x, y) = positions[i];
            let ghost ps0 = pos_stack@;
            let ghost req0 = require@;
            proof {
                assert(positions@.take(i as int + 1) =~= positions@.take(i as int).push((x, y)));
                assert(!positions@.take(i as int).contains((x, y))) by {
                    if positions@.take(i as int).contains((x, y)) {
                        let j = choose|j: int| 0 <= j < i && positions@.take(i as int)[j] == (x, y);
                        assert(positions@[j] == positions@[i as int]);
                    }
                }
            }
            let rect = self.rects.get(&rect_id).unwrap();
            if x >= 0 && x < rect.width as isize && y >= 0 && y < rect.height as isize {
                match rect.child_space.get(&(x, y)) {
                    Some(l) => {
                        if l.len() > 0 {
                            proof {
                                assert(r0.space[(x, y)] == l@);
                            }
                            let st = self.build_stack(l, &mut require);
                            pos_stack.push(((x, y), st));
                            proof {
                                assert(require@ =~= Set::new(|c: usize| exists|j: int, k: int| 0 <= j < pos_stack@.len()
                                    && 0 <= k < pos_stack@[j].1@.len() && #[trigger] pos_stack@[j].1@[k].0 == c)) by {
                                    assert forall|c: usize| require@.contains(c) <==> exists|j: int, k: int| 0 <= j < pos_stack@.len()
                                        && 0 <= k < pos_stack@[j].1@.len() && #[trigger] pos_stack@[j].1@[k].0 == c by {
                                        if req0.contains(c) {
                                            let (j, k) = choose|j: int, k: int| 0 <= j < ps0.len()
                                                && 0 <= k < ps0[j].1@.len() && #[trigger] ps0[j].1@[k].0 == c;
                                            assert(pos_stack@[j] == ps0[j]);
                                            assert(pos_stack@[j].1@[k].0 == c);
                                        }
                                        if exists|k: int| 0 <= k < st@.len() && #[trigger] st@[k].0 == c {
                                            let k = choose|k: int| 0 <= k < st@.len() && #[trigger] st@[k].0 == c;
                                            assert(pos_stack@[ps0.len() as int].1@[k].0 == c);
                                        }
                                        if exists|j: int, k: int| 0 <= j < pos_stack@.len()
                                            && 0 <= k < pos_stack@[j].1@.len() && #[trigger] pos_stack@[j].1@[k].0 == c {
                                            let (j, k) = choose|j: int, k: int| 0 <= j < pos_stack@.len()
                                                && 0 <= k < pos_stack@[j].1@.len() && #[trigger] pos_stack@[j].1@[k].0 == c;
                                            if j < ps0.len() {
                                                assert(ps0[j].1@[k].0 == c);
                                            } else {
                                                assert(st@[k].0 == c);
                                            }
                                        }
                                    }
                                }
                            }
                        }
                    },
                    None => {},
                }
            }
            proof {
                let t1 = positions@.take(i as int + 1);
                assert(pos_stack@ == ps0 || pos_stack@ == ps0.push(((x, y), pos_stack@.last().1)));
                assert(pos_stack@.len() > ps0.len() ==> r0.holds(x, y) && r0.covered((x, y)));
                assert(r0.holds(x, y) && r0.covered((x, y)) ==> pos_stack@.len() > ps0.len() && pos_stack@[ps0.len() as int].0 == (x, y));
                assert forall|j: int| 0 <= j < ps0.len() implies pos_stack@[j] == ps0[j] && positions@.take(i as int).contains(#[trigger] ps0[j].0) by {
                    assert(positions@.take(i as int).contains(ps0[j].0));
                }
                assert forall|j: int| 0 <= j < pos_stack@.len() implies t1.contains(#[trigger] pos_stack@[j].0) by {
                    if j < ps0.len() {
                        assert(pos_stack@[j] == ps0[j]);
                        let q = ps0[j].0;
                        let m = choose|m: int| 0 <= m < i && positions@.take(i as int)[m] == q;
                        assert(t1[m] == q);
                    } else {
                        assert(t1[i as int] == (x, y));
                    }
                }
                assert forall|j1: int, j2: int| 0 <= j1 < j2 < pos_stack@.len() implies pos_stack@[j1].0 != pos_stack@[j2].0 by {
                    if j2 >= ps0.len() {
                        assert(pos_stack@[j1] == ps0[j1]);
                        assert(positions@.take(i as int).contains(ps0[j1].0));
                    } else {
                        assert(pos_stack@[j1] == ps0[j1] && pos_stack@[j2] == ps0[j2]);
                    }
                }
                assert forall|q: Pos| #[trigger] t1.contains(q) && r0.holds(q.0, q.1) && r0.covered(q)
                    implies exists|j: int| 0 <= j < pos_stack@.len() && pos_stack@[j].0 == q by {
                    if q == (x, y) {
                        assert(pos_stack@[ps0.len() as int].0 == q);
                    } else {
                        let m = choose|m: int| 0 <= m < t1.len() && t1[m] == q;
                        assert(positions@.take(i as int)[m] == q);
                        assert(positions@.take(i as int).contains(q));
                        let j = choose|j: int| 0 <= j < ps0.len() && ps0[j].0 == q;
                        assert(pos_stack@[j] == ps0[j]);
                    }
                }
            }
            i += 1;
        }
        // where no child stands
        let mut rect = self.rects.remove(&rect_id).unwrap();
        let mut i: usize = 0;
        proof {
            assert(positions@.take(0) =~= Seq::<Pos>::empty());
            let e = positions@.take(0).to_set().filter(|p: Pos| r0.holds(p.0, p.1));
            assert(e =~= Set::<Pos>::empty());
            assert(uncovered_done(r0, e).character_space =~= r0.character_space);
            assert(uncovered_done(r0, e).queued_display =~= r0.queued_display);
        }
        while i < positions.len()
            invariant
                self.rects@ == a.remove(rect_id),
                s == views(a),
                r0 == a[rect_id]@,
                i <= positions@.len(),
                rect@ == uncovered_done(r0, positions@.take(i as int).to_set().filter(|p: Pos| r0.holds(p.0, p.1))),
            decreases positions@.len() - i,
        {
            let (x, y) = positions[i];
            let ghost bi = positions@.take(i as int).to_set().filter(|p: Pos| r0.holds(p.0, p.1));
            let ghost bj = positions@.take(i as int + 1).to_set().filter(|p: Pos| r0.holds(p.0, p.1));
            let ghost pre = rect@;
            proof {
                let t0 = positions@.take(i as int);
                let t1 = positions@.take(i as int + 1);
                assert(t1 =~= t0.push((x, y)));
                assert forall|q: Pos| #[trigger] t1.to_set().contains(q) <==> t0.to_set().insert((x, y)).contains(q) by {
                    if t1.contains(q) {
                        let m = choose|m: int| 0 <= m < t1.len() && t1[m] == q;
                        if m < i {
                            assert(t0[m] == q);
                        }
                    }
                    if t0.contains(q) {
                        let m = choose|m: int| 0 <= m < t0.len() && t0[m] == q;
                        assert(t1[m] == q);
                    }
                    if q == (x, y) {
                        assert(t1[i as int] == q);
                    }
                }
                assert(bj =~= if r0.holds(x, y) { bi.insert((x, y)) } else { bi });
            }
            if x >= 0 && x < rect.width as isize && y >= 0 && y < rect.height as isize {
                let covered = match rect.child_space.get(&(x, y)) {
                    Some(l) => l.len() > 0,
                    None => false,
                };
                proof {
                    assert(covered == r0.covered((x, y)));
                }
                if !covered {
                    if !rect.transparent {
                        let ch = match rect.character_space.get(&(x, y)) {
                            Some(c) => *c,
                            None => {
                                let dc = rect.default_character;
                                rect.character_space.insert((x, y), dc);
                                dc
                            },
                        };
                        let fx = rect.effects;
                        rect.queued_display.insert((x, y), (ch, fx, 0));
                    } else {
                        match rect.character_space.get(&(x, y)) {
                            Some(c) => {
                                let ch = *c;
                                let fx = rect.effects;
                                rect.queued_display.insert((x, y), (ch, fx, 0));
                            },
                            None => {
                                rect.queued_display.remove(&(x, y));
                            },
                        }
                    }
                }
            }
            proof {
                let want = uncovered_done(r0, bj);
                assert(rect@.character_space =~= want.character_space);
                assert(rect@.queued_display =~= want.queued_display);
                assert(rect@ == want);
            }
            i += 1;
        }
        proof {
            assert(positions@.take(positions@.len() as int) =~= positions@);
        }
        let ghost r1 = rect@;
        let kids = crate::rect::copy_vec(&rect.children);
        self.rects.insert(rect_id, rect);
        let ghost s0 = views(self.rects@);
        let ghost req = require@;
        proof {
            assert(r1 == uncovered_done(r0, b));
            assert(self.rects@ =~= a.insert(rect_id, self.rects@[rect_id]));
            assert(s0 =~= s.insert(rect_id, r1));
            assert(same_links_map(a, self.rects@));
            lemma_tree_ok_same_links(a, self.rects@);
            assert(kids@ == r0.children);
            assert(subtree_of(a, rect_id).contains(rect_id)) by {
                assert(reg_chain(a, rect_id, rect_id, 0));
            }
            assert(req == required(r0, b, s)) by {
                assert forall|c: usize| #[trigger] req.contains(c) <==> required(r0, b, s).contains(c) by {
                    if req.contains(c) {
                        let (j, k) = choose|j: int, k: int| 0 <= j < pos_stack@.len()
                            && 0 <= k < pos_stack@[j].1@.len() && #[trigger] pos_stack@[j].1@[k].0 == c;
                        let q = pos_stack@[j].0;
                        let m = choose|m: int| 0 <= m < positions@.len() && positions@.take(positions@.len() as int)[m] == q;
                        assert(positions@.to_set().contains(q));
                        assert(b.contains(q));
                        assert(stack(r0.space[q], s)[k].0 == c);
                    }
                    if required(r0, b, s).contains(c) {
                        let (q, k) = choose|q: Pos, k: int| #![trigger b.contains(q), stack(r0.space[q], s)[k]]
                            b.contains(q) && r0.covered(q) && 0 <= k < stack(r0.space[q], s).len() && stack(r0.space[q], s)[k].0 == c;
                        assert(positions@.take(positions@.len() as int).contains(q));
                        let j = choose|j: int| 0 <= j < pos_stack@.len() && pos_stack@[j].0 == q;
                        assert(pos_stack@[j].1@[k].0 == c);
                    }
                }
                assert(req =~= required(r0, b, s));
            }
        }
        // the children it reads, refreshed in the order of its children
        let mut k: usize = 0;
        proof {
            assert(kids@.skip(0) =~= kids@);
            assert(chain_ends(a, rect_id, d));
            crate::tree::lemma_chain_ends_mono(a, rect_id, d, d);
            if n == 0 && kids@.len() > 0 {
                let c = kids@[0];
                assert(a[rect_id].children@[0] == c);
                assert(a.contains_key(c) && a[c].parent == Some(rect_id));
                crate::tree::lemma_steps_child(a, c, d);
            }
        }
        while k < kids.len()
            invariant
                self.wf(),
                self.idgen == old(self).idgen,
                self.recycle_ids@ == old(self).recycle_ids@,
                self.top_cache@ == old(self).top_cache@,
                self.default_character == old(self).default_character,
                a == old(self).rects@,
                tree_ok(a),
                depth_bound(a, d),
                a.contains_key(rect_id),
                same_links_map(a, self.rects@),
                k <= kids@.len(),
                k == 0 ==> views(self.rects@) == s0,
                kids@ == a[rect_id].children@,
                req == require@,
                views(self.rects@)[rect_id] == r1,
                forall|q: usize| #[trigger] a.contains_key(q) && !subtree_of(a, rect_id).contains(q) ==> self.rects@[q] == a[q],
                n == (d - steps(a, rect_id, d)) as nat,
                n > 0 ==> refresh_kids(views(self.rects@), kids@.skip(k as int), req, (n - 1) as nat)
                    == refresh_kids(s0, kids@, req, (n - 1) as nat),
                n == 0 ==> kids@.len() == 0,
            decreases kids@.len() - k,
        {
            let c = kids[k];
            let ghost cur = self.rects@;
            let ghost vc = views(cur);
            proof {
                assert(a[rect_id].children@[k as int] == c);
                assert(a.contains_key(c) && a[c].parent == Some(rect_id));
                assert(has_up(a, c) && up(a, c) == rect_id);
                crate::tree::lemma_steps_child(a, c, d);
                lemma_chain_same_links(a, cur, c, d);
                assert(depth_bound(cur, d)) by {
                    assert forall|q: usize| #[trigger] cur.contains_key(q) implies chain_ends(cur, q, d) by {
                        assert(a.contains_key(q));
                        lemma_chain_same_links(a, cur, q, d);
                    }
                }
                assert(kids@.skip(k as int)[0] == c);
                assert(kids@.skip(k as int).drop_first() =~= kids@.skip(k as int + 1));
                crate::tree::lemma_subtree_same_links(a, cur, c);
                crate::tree::lemma_no_cycle_back(a, c, rect_id);
                assert(!subtree_of(cur, c).contains(rect_id));
                assert forall|q: usize| #[trigger] subtree_of(cur, c).contains(q) implies subtree_of(a, rect_id).contains(q) by {
                    assert(subtree_of(a, c).contains(q));
                    let m = choose|m: nat| reg_chain(a, q, c, m);
                    crate::tree::lemma_reg_chain_extend(a, q, c, rect_id, m);
                }
            }
            proof {
                assert(steps(cur, c, d) == steps(a, rect_id, d) + 1);
                assert(steps(cur, c, d) <= d);
            }
            if require.contains(&c) {
                let res = self.update_queued_display(c, Ghost(d));
                if res.is_err() {
                    return res;
                }
                proof {
                    assert(steps(cur, c, d) == steps(a, c, d));
                    assert((d - steps(cur, c, d)) as nat == (n - 1) as nat);
                }
            }
            proof {
                let now = self.rects@;
                assert(same_links_map(a, now)) by {
                    assert forall|q: usize| #[trigger] a.contains_key(q) implies same_links(a[q], now[q]) by {
                        assert(cur.contains_key(q));
                    }
                }
                assert(views(now)[rect_id] == r1) by {
                    assert(now[rect_id] == cur[rect_id]);
                }
                assert forall|q: usize| #[trigger] a.contains_key(q) && !subtree_of(a, rect_id).contains(q) implies now[q] == a[q] by {
                    assert(cur.contains_key(q));
                }
            }
            k += 1;
        }
        let ghost s1 = views(self.rects@);
        proof {
            if n > 0 {
                assert(kids@.skip(kids@.len() as int) =~= Seq::<usize>::empty());
                assert(s1 == refresh_kids(s0, kids@, req, (n - 1) as nat));
            } else {
                assert(kids@ =~= Seq::<usize>::empty());
                assert(s1 == s0);
            }
        }
        // the picks at the covered positions, read from the refreshed children
        let mut picks: Vec<(Option<(QueuedCell, usize)>, bool)> = Vec::new();
        let mut j: usize = 0;
        while j < pos_stack.len()
            invariant
                views(self.rects@) == s1,
                self.rects@.contains_key(rect_id),
                s1[rect_id] == r1,
                tree_ok(self.rects@),
                j <= pos_stack@.len(),
                picks@.len() == j,
                forall|m: int| 0 <= m < pos_stack@.len() ==> r0.covered(#[trigger] pos_stack@[m].0)
                    && pos_stack@[m].1@ == stack(r0.space[pos_stack@[m].0], s),
                forall|m: int| 0 <= m < j ==> #[trigger] picks@[m] == pick_at(r1, pos_stack@[m].0, s, s1),
                r1.space == r0.space,
                r1.child_positions == r0.child_positions,
                r0.rect_id == rect_id,
            decreases pos_stack@.len() - j,
        {
            let rect = self.rects.get(&rect_id).unwrap();
            proof {
                let st = pos_stack@[j as int].1@;
                let q = pos_stack@[j as int].0;
                assert forall|m: int| 0 <= m < st.len() && #[trigger] rect.child_positions@.contains_key(st[m].0)
                    implies self.rects@.contains_key(st[m].0) by {
                    crate::render::lemma_stack_from_list(r0.space[q], s, m);
                    let c = st[m].0;
                    assert(r0.space[q].contains(c));
                    let ii = choose|ii: int| 0 <= ii < r0.space[q].len() && r0.space[q][ii] == c;
                    assert(rect.space()[q][ii] == c);
                    assert(rect.space_ok());
                    assert(rect.children@.contains(c));
                    let jj = choose|jj: int| 0 <= jj < rect.children@.len() && rect.children@[jj] == c;
                    assert(rect.children@[jj] == c);
                }
            }
            let pk = self.pick_cell(&pos_stack[j].1, pos_stack[j].0, &rect.child_positions);
            match pk {
                Ok(v) => {
                    picks.push(v);
                },
                Err(e) => {
                    return Err(e);
                },
            }
            j += 1;
        }
        // where children stand
        let ghost m1 = self.rects@;
        let mut rect = self.rects.remove(&rect_id).unwrap();
        let mut j: usize = 0;
        proof {
            assert(keys_before(pos_stack@, 0) =~= Set::<Pos>::empty());
            assert(covered_done(r1, keys_before(pos_stack@, 0), s, s1).character_space =~= r1.character_space);
            assert(covered_done(r1, keys_before(pos_stack@, 0), s, s1).queued_display =~= r1.queued_display);
        }
        while j < pos_stack.len()
            invariant
                self.rects@ == m1.remove(rect_id),
                views(m1) == s1,
                j <= pos_stack@.len(),
                picks@.len() == pos_stack@.len(),
                forall|m: int| 0 <= m < pos_stack@.len() ==> #[trigger] picks@[m] == pick_at(r1, pos_stack@[m].0, s, s1),
                forall|m: int| 0 <= m < pos_stack@.len() ==> r1.covered(#[trigger] pos_stack@[m].0),
                forall|j1: int, j2: int| 0 <= j1 < j2 < pos_stack@.len() ==> pos_stack@[j1].0 != pos_stack@[j2].0,
                rect@ == covered_done(r1, keys_before(pos_stack@, j as int), s, s1),
            decreases pos_stack@.len() - j,
        {
            let p = pos_stack[j].0;
            let (res, t) = picks[j];
            let ghost pre = rect@;
            proof {
                let d1 = keys_before(pos_stack@, j as int + 1);
                let d0 = keys_before(pos_stack@, j as int);
                assert(d1 =~= d0.insert(p)) by {
                    assert forall|q: Pos| #[trigger] d1.contains(q) <==> d0.insert(p).contains(q) by {
                        if q == p {
                            assert(pos_stack@[j as int].0 == q);
                        }
                        if d1.contains(q) {
                            let jj = choose|jj: int| 0 <= jj < j + 1 && pos_stack@[jj].0 == q;
                        }
                        if d0.contains(q) {
                            let jj = choose|jj: int| 0 <= jj < j && pos_stack@[jj].0 == q;
                        }
                    }
                }
                assert(!keys_before(pos_stack@, j as int).contains(p)) by {
                    if keys_before(pos_stack@, j as int).contains(p) {
                        let jj = choose|jj: int| 0 <= jj < j && pos_stack@[jj].0 == p;
                    }
                }
                assert((res, t) == pick_at(r1, p, s, s1));
            }
            match res {
                Some(found) => {
                    let (v, rank) = found;
                    let keep = match rect.queued_display.get(&p) {
                        Some(e) => e.2 > rank,
                        None => false,
                    };
                    if !keep {
                        rect.queued_display.insert(p, (v.0, v.1, rank));
                    }
                },
                None => {
                    if t {
                        let shows_own = match rect.character_space.get(&p) {
                            Some(_) => true,
                            None => !rect.transparent,
                        };
                        if !shows_own {
                            rect.queued_display.remove(&p);
                        } else {
                            let ch = match rect.character_space.get(&p) {
                                Some(c) => *c,
                                None => {
                                    let dc = rect.default_character;
                                    rect.character_space.insert(p, dc);
                                    dc
                                },
                            };
                            let fx = rect.effects;
                            rect.queued_display.insert(p, (ch, fx, 0));
                        }
                    }
                },
            }
            proof {
                let want = covered_done(r1, keys_before(pos_stack@, j as int + 1), s, s1);
                assert(rect@.character_space =~= want.character_space);
                assert(rect@.queued_display =~= want.queued_display);
                assert(rect@ == want);
            }
            j += 1;
        }
        proof {
            let dn = keys_before(pos_stack@, pos_stack@.len() as int);
            let bc = b.filter(|q: Pos| r1.covered(q));
            assert(dn =~= bc) by {
                assert forall|q: Pos| #[trigger] dn.contains(q) <==> bc.contains(q) by {
                    if dn.contains(q) {
                        let jj = choose|jj: int| 0 <= jj < pos_stack@.len() && pos_stack@[jj].0 == q;
                        assert(positions@.take(positions@.len() as int).contains(q));
                        assert(positions@.to_set().contains(q));
                    }
                    if bc.contains(q) {
                        assert(positions@.take(positions@.len() as int).contains(q));
                    }
                }
            }
            assert(covered_done(r1, keys_before(pos_stack@, pos_stack@.len() as int), s, s1).character_space
                =~= covered_done(r1, b, s, s1).character_space);
            assert(covered_done(r1, keys_before(pos_stack@, pos_stack@.len() as int), s, s1).queued_display
                =~= covered_done(r1, b, s, s1).queued_display);
        }
        let ghost before_insert = self.rects@;
        self.rects.insert(rect_id, rect);
        proof {
            let f = self.rects@;
            assert(f =~= m1.insert(rect_id, rect));
            assert(views(f) =~= s1.insert(rect_id, covered_done(r1, b, s, s1)));
            assert(same_links_map(a, f)) by {
                assert forall|q: usize| #[trigger] a.contains_key(q) implies same_links(a[q], f[q]) by {}
            }
            lemma_tree_ok_same_links(a, f);
        }
        Ok(())
    }

    /// The part of the screen a rectangle can show (see `visible_box`).
    pub fn get_visible_box(&self, rect_id: usize) -> (r: Result<VisibleBox, WreckedError>)
        requires
            self.wf(),
        ensures
            r == visible_box(self.rects(), rect_id),
    {
        let dims = match self.get_rect_size(rect_id) {
            Some(d) => d,
            None => {
                return Err(WreckedError::NotFound(rect_id));
            },
        };
        let mut rect_box: VisibleBox = (0, 0, dims.0 as isize, dims.1 as isize);
        match self.get_absolute_offset(rect_id) {
            Some(offset) => {
                rect_box.0 = offset.0;
                rect_box.1 = offset.1;
            },
            None => {},
        }
        let mut working_id = rect_id;
        let ghost n = choose|n: nat| chain_ends(self.rects@, rect_id, n);
        let ghost mut k = n;
        proof {
            assert(self.rects@.contains_key(rect_id));
            assert(chain_ends(self.rects@, rect_id, n));
        }
        loop
            invariant_except_break
                self.wf(),
                chain_ends(self.rects@, working_id, k),
                visible_box(self.rects@, rect_id) == clip_walk(self.rects@, working_id, rect_box, k),
            ensures
                visible_box(self.rects@, rect_id) == Ok::<VisibleBox, WreckedError>(rect_box),
            decreases k,
        {
            let parent_dim = match self.get_parent(working_id) {
                Some(parent) => {
                    let ghost w0 = working_id;
                    proof {
                        assert(has_up(self.rects@, w0));
                        assert(parent.rect_id == up(self.rects@, w0));
                        assert(k > 0);
                    }
                    working_id = parent.rect_id;
                    (parent.width, parent.height)
                },
                None => {
                    break;
                },
            };
            match self.get_absolute_offset(working_id) {
                Some(offset) => {
                    rect_box.0 = if rect_box.0 > offset.0 { rect_box.0 } else { offset.0 };
                    rect_box.1 = if rect_box.1 > offset.1 { rect_box.1 } else { offset.1 };
                    let right = offset.0.wrapping_add(parent_dim.0 as isize).wrapping_sub(rect_box.0);
                    let bottom = offset.1.wrapping_add(parent_dim.1 as isize).wrapping_sub(rect_box.1);
                    rect_box.2 = if right < rect_box.2 { right } else { rect_box.2 };
                    rect_box.3 = if bottom < rect_box.3 { bottom } else { rect_box.3 };
                },
                None => {
                    return Err(WreckedError::NotFound(working_id));
                },
            }
            proof {
                k = (k - 1) as nat;
            }
        }
        Ok(rect_box)
    }

    /// Refreshes a rectangle's queue (see `refresh`), and tells whether it can be drawn.
    fn get_queued_display(&mut self, rect_id: usize, Ghost(d): Ghost<nat>) -> (r: Result<(), WreckedError>)
        requires
            old(self).wf(),
            depth_bound(old(self).rects(), d),
        ensures
            final(self).wf(),
            final(self).same_bookkeeping(old(self)),
            same_links_map(old(self).rects(), final(self).rects()),
            views(final(self).rects()) == (if old(self).rects().contains_key(rect_id) {
                refresh(views(old(self).rects()), rect_id, (d - steps(old(self).rects(), rect_id, d)) as nat)
            } else {
                views(old(self).rects())
            }),
            r == (if !old(self).rects().contains_key(rect_id) {
                Err::<(), WreckedError>(WreckedError::NotFound(rect_id))
            } else if !old(self).rects()[rect_id].enabled {
                Err::<(), WreckedError>(WreckedError::Disabled(rect_id))
            } else {
                Ok::<(), WreckedError>(())
            }),
    {
        let enabled = self.is_rect_enabled(rect_id);
        let r = self.update_queued_display(rect_id, Ghost(d));
        if r.is_err() {
            return r;
        }
        if enabled {
            Ok(())
        } else {
            Err(WreckedError::Disabled(rect_id))
        }
    }

    /// Refreshes a rectangle and lists the cells of its queue that fall on the part of the
    /// screen it can show, at their absolute positions; those cells move from its queue to
    /// what it has drawn.
    pub fn get_queued_draw_map(&mut self, rect_id: usize) -> (v: Vec<DisplayCell>)
        requires
            old(self).wf(),
        ensures
            final(self).wf(),
            final(self).same_bookkeeping(old(self)),
            views(final(self).rects()) == after_draw(old(self).rects(), rect_id),
            distinct_positions(v@),
            v@.to_set() == frame_cells(old(self).rects(), rect_id),
    {
        let ghost a = self.rects@;
        let offset = match self.get_absolute_offset(rect_id) {
            Some(o) => o,
            None => (0, 0),
        };
        let boundry_box = match self.get_visible_box(rect_id) {
            Ok(b) => b,
            Err(_) => (0, 0, 0, 0),
        };
        proof {
            crate::tree::lemma_depth_bound_exists(a);
        }
        let ghost d = choose|d: nat| depth_bound(a, d);
        let mut to_draw: Vec<DisplayCell> = Vec::new();
        let mut to_cache: Vec<Pos> = Vec::new();
        let shown = self.get_queued_display(rect_id, Ghost(d));
        let ghost r_state = self.rects@;
        let ghost q = views(r_state)[rect_id].queued_display;
        let ghost dp = drawn(q, offset, boundry_box);
        proof {
            assert(offset == screen_offset(a, rect_id));
            assert(boundry_box == screen_box(a, rect_id));
            assert(views(r_state) == refreshed(a, rect_id) || !a.contains_key(rect_id));
        }
        match shown {
            Ok(_) => {
                let rect = self.rects.get(&rect_id).unwrap();
                proof {
                    assert(rect.queued_display@ == q);
                }
                let (d_list, c_list) = collect_drawn(&rect.queued_display, offset, boundry_box);
                to_draw = d_list;
                to_cache = c_list;
            },
            Err(_) => {},
        }
        let ghost b_state = self.rects@;
        proof {
            if a.contains_key(rect_id) && a[rect_id].enabled {
                assert(forall|p: Pos| #[trigger] dp.contains(p) ==> to_cache@.contains(p));
            }
        }
        let ghost cset = to_cache@.to_set();
        proof {
            if a.contains_key(rect_id) && a[rect_id].enabled {
                assert(cset =~= dp) by {
                    assert forall|p: Pos| #[trigger] cset.contains(p) <==> dp.contains(p) by {
                        if cset.contains(p) {
                            let i = choose|i: int| 0 <= i < to_cache@.len() && to_cache@[i] == p;
                        }
                    }
                }
            } else {
                assert(to_cache@.len() == 0);
                assert(cset =~= Set::<Pos>::empty());
            }
        }
        if self.rects.contains_key(&rect_id) {
            let mut rect = self.rects.remove(&rect_id).unwrap();
            proof {
                assert forall|m: int| 0 <= m < to_cache@.len() implies rect.queued_display@.contains_key(#[trigger] to_cache@[m]) by {
                    assert(dp.contains(to_cache@[m]));
                }
            }
            let ghost rv0 = rect@;
            rect.move_to_cached(&to_cache);
            proof {
                if to_cache@.len() == 0 {
                    assert(to_cache@.to_set() =~= Set::<Pos>::empty());
                    assert(rect@.queued_display =~= rv0.queued_display);
                    assert(rect@.cached_display =~= rv0.cached_display);
                    assert(rect@ == rv0);
                }
            }
            self.rects.insert(rect_id, rect);
            proof {
                assert(self.rects@ =~= b_state.insert(rect_id, rect));
                if to_cache@.len() == 0 {
                    assert(views(self.rects@) =~= views(b_state));
                }
            }
        }
        proof {
            let f = self.rects@;
            assert(same_links_map(a, f)) by {
                assert forall|k: usize| #[trigger] a.contains_key(k) implies same_links(a[k], f[k]) by {
                    assert(b_state.contains_key(k));
                }
            }
            lemma_tree_ok_same_links(a, f);
            if drawable(a, rect_id) {
                assert(views(b_state) == refreshed(a, rect_id));
                assert(dp == frame_positions(a, rect_id));
                assert(views(f) =~= after_draw(a, rect_id));
            } else {
                assert(views(b_state) == views(a));
                assert(views(f) =~= views(a));
                assert(after_draw(a, rect_id) == views(a));
            }
            // the cells listed are those of the drawn positions
            assert(to_draw@.to_set() =~= frame_cells(a, rect_id)) by {
                assert forall|x: DisplayCell| #[trigger] to_draw@.to_set().contains(x) <==> frame_cells(a, rect_id).contains(x) by {
                    if to_draw@.contains(x) {
                        let i = choose|i: int| 0 <= i < to_draw@.len() && to_draw@[i] == x;
                        assert(cset.contains(to_cache@[i]));
                    }
                    if frame_cells(a, rect_id).contains(x) {
                        let p = choose|p: Pos| frame_positions(a, rect_id).contains(p)
                            && x == draw_cell(refreshed(a, rect_id)[rect_id].queued_display, p, screen_offset(a, rect_id));
                        assert(cset.contains(p));
                        let i = choose|i: int| 0 <= i < to_cache@.len() && to_cache@[i] == p;
                        assert(to_draw@[i] == x);
                    }
                }
            }
            assert(distinct_positions(to_draw@)) by {
                assert forall|i: int, j: int| 0 <= i < j < to_draw@.len() implies to_draw@[i].0 != to_draw@[j].0 by {
                    assert(to_cache@[i] != to_cache@[j]);
                }
            }
        }
        to_draw
    }

    /// Keeps the cells that differ from what was last drawn at their position, and records
    /// them as drawn (see `filter_fold`).
    pub fn filter_cached(&mut self, full_display_map: &Vec<DisplayCell>) -> (v: Vec<DisplayCell>)
        ensures
            final(self).rects() == old(self).rects(),
            final(self).idgen() == old(self).idgen(),
            final(self).recycled() == old(self).recycled(),
            final(self).fallback_character() == old(self).fallback_character(),
            (v@, final(self).top_cache()) == filter_fold(old(self).top_cache(), full_display_map@),
            // on cells at distinct positions: the cells not already shown, in order; all of
            // them recorded as shown afterwards, and every other position as it was
            distinct_positions(full_display_map@) ==> {
                &&& v@ == full_display_map@.filter(|c: DisplayCell| fresh(old(self).top_cache(), c))
                &&& forall|i: int| 0 <= i < full_display_map@.len() ==> final(self).top_cache().contains_key(
                    #[trigger] full_display_map@[i].0) && final(self).top_cache()[full_display_map@[i].0] == full_display_map@[i].1
                &&& forall|q: Pos| !crate::laws::cell_positions(full_display_map@).contains(q)
                    ==> (#[trigger] final(self).top_cache().contains_key(q) == old(self).top_cache().contains_key(q))
                    && (old(self).top_cache().contains_key(q) ==> final(self).top_cache()[q] == old(self).top_cache()[q])
            },
    {
        proof {
            if distinct_positions(full_display_map@) {
                crate::laws::law_filter_keeps_fresh(old(self).top_cache(), full_display_map@);
            }
        }
        let mut filtered_map: Vec<DisplayCell> = Vec::new();
        let mut i: usize = 0;
        proof {
            assert(full_display_map@.take(0) =~= Seq::<DisplayCell>::empty());
        }
        while i < full_display_map.len()
            invariant
                i <= full_display_map@.len(),
                self.rects@ == old(self).rects@,
                self.idgen == old(self).idgen,
                self.recycle_ids@ == old(self).recycle_ids@,
                self.default_character == old(self).default_character,
                (filtered_map@, self.top_cache@) == filter_fold(old(self).top_cache@, full_display_map@.take(i as int)),
            decreases full_display_map@.len() - i,
        {
            let (pos, val) = full_display_map[i];
            let update_top_cache = match self.top_cache.get(&pos) {
                Some(char_pair) => !(char_pair.0 == val.0 && char_pair.1 == val.1),
                None => true,
            };
            proof {
                let t1 = full_display_map@.take(i as int + 1);
                assert(t1.drop_last() =~= full_display_map@.take(i as int));
                assert(t1.last() == (pos, val));
            }
            if update_top_cache {
                self.top_cache.insert(pos, val);
                filtered_map.push((pos, val));
            }
            i += 1;
        }
        proof {
            assert(full_display_map@.take(full_display_map@.len() as int) =~= full_display_map@);
            if distinct_positions(full_display_map@) {
                let c0 = old(self).top_cache();
                assert forall|q: Pos| !crate::laws::cell_positions(full_display_map@).contains(q) implies
                    (#[trigger] self.top_cache().contains_key(q) == c0.contains_key(q))
                    && (c0.contains_key(q) ==> self.top_cache()[q] == c0[q]) by {
                    assert(filter_fold(c0, full_display_map@).1.contains_key(q) == c0.contains_key(q));
                }
            }
        }
        filtered_map
    }

    /// Refreshes a rectangle and builds the ANSI text that draws what changed on the part of
    /// the screen it can show, row by row; None where nothing changed.
    fn build_latest_rect_string(&mut self, rect_id: usize) -> (r: Option<String>)
        requires
            old(self).wf(),
        ensures
            final(self).wf(),
            final(self).idgen() == old(self).idgen(),
            final(self).recycled() == old(self).recycled(),
            final(self).fallback_character() == old(self).fallback_character(),
            views(final(self).rects()) == after_draw(old(self).rects(), rect_id),
            final(self).top_cache() == old(self).top_cache().union_prefer_right(as_map(frame_cells(old(self).rects(), rect_id))),
            ({
                let fresh_cells = frame_cells(old(self).rects(), rect_id).filter(|c: DisplayCell| fresh(old(self).top_cache(), c));
                &&& r is None <==> fresh_cells == Set::<DisplayCell>::empty()
                &&& r matches Some(s) ==> exists|cells: Seq<DisplayCell>| in_row_order(cells) && cells.to_set() == fresh_cells
                    && s@ == spec_ansi_string(cells)
            }),
    {
        let ghost cache0 = self.top_cache@;
        let draw_map = self.get_queued_draw_map(rect_id);
        let filtered_map = self.filter_cached(&draw_map);
        let ghost fresh_cells = frame_cells(old(self).rects@, rect_id).filter(|c: DisplayCell| fresh(cache0, c));
        proof {
            crate::render::lemma_filter_distinct(cache0, draw_map@);
            assert(filtered_map@.to_set() == fresh_cells);
        }
        if filtered_map.len() > 0 {
            let sorted = sort_cells(&filtered_map);
            let s = build_ansi_string(&sorted);
            proof {
                assert(in_row_order(sorted@) && sorted@.to_set() == fresh_cells && s@ == spec_ansi_string(sorted@));
                assert(fresh_cells.contains(filtered_map@[0]));
            }
            Some(s)
        } else {
            proof {
                assert(filtered_map@ =~= Seq::<DisplayCell>::empty());
                assert(fresh_cells =~= Set::<DisplayCell>::empty());
            }
            None
        }
    }

    /// Draws a rectangle: refreshes it and returns the ANSI text, ending with an effects reset
    /// and the cursor back at the top left corner, that puts on the screen what changed on the
    /// part of it the rectangle can show; None where nothing changed. Writing the text out is
    /// up to the caller.
    pub fn draw(&mut self, rect_id: usize) -> (r: Option<String>)
        requires
            old(self).wf(),
        ensures
            Self::drew(old(self), final(self), rect_id, r),
    {
        match self.build_latest_rect_string(rect_id) {
            Some(renderstring) => {
                let mut out = renderstring;
                push_frame_end(&mut out);
                Some(out)
            },
            None => None,
        }
    }

    /// Draws the whole environment (see `draw`), from `ROOT`.
    pub fn render(&mut self) -> (r: Option<String>)
        requires
            old(self).wf(),
        ensures
            Self::drew(old(self), final(self), ROOT, r),
    {
        self.draw(ROOT)
    }

    /// What drawing rectangle `id` does (see `draw`): `after` is `before` with `id` refreshed
    /// and its drawn cells recorded, and `r` is the text that draws what changed, row by row.
    pub open spec fn drew(before: &RectManager, after: &RectManager, id: usize, r: Option<String>) -> bool {
        let fresh_cells = frame_cells(before.rects(), id).filter(|c: DisplayCell| fresh(before.top_cache(), c));
        &&& after.wf()
        &&& after.idgen() == before.idgen()
        &&& after.recycled() == before.recycled()
        &&& after.fallback_character() == before.fallback_character()
        &&& views(after.rects()) == after_draw(before.rects(), id)
        &&& after.top_cache() == before.top_cache().union_prefer_right(as_map(frame_cells(before.rects(), id)))
        &&& r is None <==> fresh_cells == Set::<DisplayCell>::empty()
        &&& r matches Some(s) ==> exists|cells: Seq<DisplayCell>| in_row_order(cells) && cells.to_set() == fresh_cells
            && s@ == spec_ansi_string(cells) + frame_end()
    }

    /// `mid` is `before` once the children of ROOT are deleted (giving `m1`), its characters
    /// cleared (giving `m2`) and its effects cleared.
    pub open spec fn cleared_for_exit(before: RectManager, m1: Map<usize, Rect>, m2: Map<usize, Rect>, mid: RectManager) -> bool {
        let a = before.rects();
        let freed = before.recycled().to_set() + Self::descendants(a, ROOT);
        &&& mid.wf()
        &&& mid.top_cache() == before.top_cache()
        &&& mid.fallback_character() == before.fallback_character()
        &&& a.contains_key(ROOT) ==> {
            &&& Self::children_cleared(a, m1, ROOT)
            &&& Self::chars_cleared(m1, m2, ROOT)
            &&& Self::effects_cleared(m2, mid.rects(), ROOT)
            &&& trimmed(freed, before.idgen(), mid.idgen())
            &&& mid.recycled().to_set() == below(freed, mid.idgen())
        }
        &&& !a.contains_key(ROOT) ==> mid.rects() == a && mid.idgen() == before.idgen() && mid.recycled() == before.recycled()
    }

    /// Clears the environment for the end of a session: deletes everything below `ROOT`,
    /// clears its characters and effects, and draws it. Returns the text to write out, and the
    /// last error met (`ROOT` missing). Giving the terminal back is up to the caller.
    pub fn kill(&mut self) -> (r: (Option<String>, Result<(), WreckedError>))
        requires
            old(self).wf(),
        ensures
            r.1 == (if old(self).rects().contains_key(ROOT) {
                Ok::<(), WreckedError>(())
            } else {
                Err::<(), WreckedError>(WreckedError::NotFound(ROOT))
            }),
            // the children of ROOT deleted, then its characters and its effects cleared, then it
            // is drawn
            exists|m1: Map<usize, Rect>, m2: Map<usize, Rect>, mid: RectManager|
                #[trigger] Self::cleared_for_exit(*old(self), m1, m2, mid) && Self::drew(&mid, final(self), ROOT, r.0),
    {
        let mut last_error: Result<(), WreckedError> = Ok(());
        let ghost a = self.rects@;
        let ghost s0 = *self;
        let r1 = self.clear_children(ROOT);
        match r1 {
            Ok(_) => {},
            Err(e) => {
                last_error = Err(e);
            },
        }
        let ghost a1 = self.rects@;
        let r2 = self.clear_characters(ROOT);
        match r2 {
            Ok(_) => {},
            Err(e) => {
                last_error = Err(e);
            },
        }
        let ghost a2 = self.rects@;
        let r3 = self.clear_effects(ROOT);
        match r3 {
            Ok(_) => {},
            Err(e) => {
                last_error = Err(e);
            },
        }
        let ghost mid = *self;
        proof {
            if a.contains_key(ROOT) {
                assert(a1.contains_key(ROOT));
                assert(a2.contains_key(ROOT));
            }
            assert(Self::cleared_for_exit(s0, a1, a2, mid));
        }
        let frame = self.render();
        proof {
            assert(Self::drew(&mid, self, ROOT, frame));
        }
        (frame, last_error)
    }

    /// Gives an id back: it joins the freed ids, and while the highest freed id sits just
    /// below the counter, the counter steps down over it.
    fn recycle_id(&mut self, old_id: usize)
        requires
            ids_ok(old(self).rects@, old(self).idgen, old(self).recycle_ids@),
            !old(self).rects@.contains_key(old_id),
            !old(self).recycle_ids@.contains(old_id),
            old_id < old(self).idgen,
        ensures
            final(self).rects@ == old(self).rects@,
            final(self).top_cache@ == old(self).top_cache@,
            final(self).default_character == old(self).default_character,
            ids_ok(final(self).rects@, final(self).idgen, final(self).recycle_ids@),
            trimmed(old(self).recycle_ids@.to_set().insert(old_id), old(self).idgen, final(self).idgen),
            final(self).recycle_ids@.to_set() == below(old(self).recycle_ids@.to_set().insert(old_id), final(self).idgen),
    {
        let ghost r0 = self.recycle_ids@;
        let ghost g0 = self.idgen;
        let ghost s = r0.to_set().insert(old_id);
        let mut i: usize = 0;
        while i < self.recycle_ids.len() && self.recycle_ids[i] < old_id
            invariant
                self.recycle_ids@ == r0,
                i <= r0.len(),
                forall|j: int| 0 <= j < i ==> #[trigger] r0[j] < old_id,
            decreases r0.len() - i,
        {
            i += 1;
        }
        self.recycle_ids.insert(i, old_id);
        proof {
            let r1 = self.recycle_ids@;
            assert(r1 =~= r0.take(i as int).push(old_id) + r0.skip(i as int));
            assert forall|j: int| i <= j < r0.len() implies old_id < #[trigger] r0[j] by {
                assert(r0[i as int] >= old_id);
                if j > i {
                    assert(r0[i as int] < r0[j]);
                }
                assert(r0[j] != old_id) by {
                    if r0[j] == old_id {
                        assert(r0.contains(old_id));
                    }
                }
            }
            assert forall|a: int, b: int| 0 <= a < b < r1.len() implies r1[a] < r1[b] by {
                if b < i {
                } else if b == i {
                    assert(r1[a] == r0[a]);
                } else if a < i {
                    assert(r1[a] == r0[a] && r1[b] == r0[b - 1]);
                    assert(r0[a] < old_id);
                } else if a == i {
                    assert(r1[b] == r0[b - 1]);
                } else {
                    assert(r1[a] == r0[a - 1] && r1[b] == r0[b - 1]);
                }
            }
            assert forall|j: int| 0 <= j < r1.len() implies #[trigger] r1[j] < self.idgen && !self.rects@.contains_key(r1[j]) by {
                if j < i {
                    assert(r1[j] == r0[j]);
                } else if j > i {
                    assert(r1[j] == r0[j - 1]);
                }
            }
            assert forall|k: usize| #[trigger] r1.to_set().contains(k) <==> s.contains(k) by {
                if r1.to_set().contains(k) {
                    let j = choose|j: int| 0 <= j < r1.len() && r1[j] == k;
                    if j < i {
                        assert(r1[j] == r0[j]);
                        assert(r0.contains(k));
                    } else if j > i {
                        assert(r1[j] == r0[j - 1]);
                        assert(r0.contains(k));
                    }
                }
                if s.contains(k) {
                    if k == old_id {
                        assert(r1[i as int] == k);
                    } else {
                        assert(r0.contains(k));
                        let j = choose|j: int| 0 <= j < r0.len() && r0[j] == k;
                        if j < i {
                            assert(r1[j] == k);
                        } else {
                            assert(r1[j + 1] == k);
                        }
                    }
                }
            }
            assert(r1.to_set() =~= below(s, self.idgen)) by {
                assert forall|k: usize| #[trigger] s.contains(k) implies k < self.idgen by {
                    if k != old_id {
                        assert(r0.contains(k));
                    }
                }
            }
        }
        while self.recycle_ids.len() > 0 && self.recycle_ids[self.recycle_ids.len() - 1] == self.idgen - 1
            invariant
                ids_below(self.rects@, self.idgen, self.recycle_ids@),
                self.rects@ == old(self).rects@,
                self.top_cache@ == old(self).top_cache@,
                self.default_character == old(self).default_character,
                self.idgen <= g0,
                forall|k: usize| self.idgen <= k < g0 ==> #[trigger] s.contains(k),
                self.recycle_ids@.to_set() == below(s, self.idgen),
            decreases self.recycle_ids.len(),
        {
            let ghost ra = self.recycle_ids@;
            let ghost ga = self.idgen;
            self.recycle_ids.pop();
            self.idgen = self.idgen - 1;
            proof {
                let rb = self.recycle_ids@;
                assert(ra =~= rb.push((ga - 1) as usize));
                assert(ra[ra.len() - 1] == ga - 1);
                assert(s.contains((ga - 1) as usize)) by {
                    assert(ra.to_set().contains(ra[ra.len() - 1]));
                }
                assert forall|j: int| 0 <= j < rb.len() implies #[trigger] rb[j] < self.idgen && !self.rects@.contains_key(rb[j]) by {
                    assert(rb[j] == ra[j]);
                    assert(ra[j] < ra[ra.len() - 1]);
                }
                assert forall|k: usize| #[trigger] self.rects@.contains_key(k) implies k < self.idgen by {
                    assert(k < ga);
                    if k == ga - 1 {
                        assert(ra[ra.len() - 1] == k);
                    }
                }
                assert forall|k: usize| #[trigger] rb.to_set().contains(k) <==> below(s, self.idgen).contains(k) by {
                    if rb.to_set().contains(k) {
                        let j = choose|j: int| 0 <= j < rb.len() && rb[j] == k;
                        assert(ra[j] == k);
                        assert(ra.to_set().contains(k));
                        assert(ra[j] < ra[ra.len() - 1]);
                    }
                    if below(s, self.idgen).contains(k) {
                        assert(below(s, ga).contains(k));
                        assert(ra.to_set().contains(k));
                        let j = choose|j: int| 0 <= j < ra.len() && ra[j] == k;
                        if j == ra.len() - 1 {
                            assert(k == ga - 1);
                        } else {
                            assert(rb[j] == k);
                        }
                    }
                }
                assert(rb.to_set() =~= below(s, self.idgen));
            }
        }
        proof {
            let rf = self.recycle_ids@;
            if self.idgen > 0 && s.contains((self.idgen - 1) as usize) {
                assert(below(s, self.idgen).contains((self.idgen - 1) as usize));
                assert(rf.to_set().contains((self.idgen - 1) as usize));
                let j = choose|j: int| 0 <= j < rf.len() && rf[j] == self.idgen - 1;
                assert(rf.len() > 0);
                if j < rf.len() - 1 {
                    assert(rf[j] < rf[rf.len() - 1]);
                }
                assert(rf[rf.len() - 1] < self.idgen);
            }
        }
    }
}

/// Giving back the ids of `t`, all below the counter `g1`, after an earlier round that left
/// the counter at `g1`, ends where giving back everything at once would.
proof fn lemma_trimmed_compose(f: Set<usize>, g0: usize, g1: usize, t: Set<usize>, g2: usize)
    requires
        trimmed(f, g0, g1),
        trimmed(below(f, g1) + t, g1, g2),
        forall|x: usize| #[trigger] t.contains(x) ==> x < g1,
    ensures
        trimmed(f + t, g0, g2),
        below(below(f, g1) + t, g2) == below(f + t, g2),
{
    assert forall|k: usize| g2 <= k < g0 implies #[trigger] (f + t).contains(k) by {
        if k < g1 {
            assert((below(f, g1) + t).contains(k));
        } else {
            assert(f.contains(k));
        }
    }
    if g2 > 0 {
        let k = (g2 - 1) as usize;
        assert(!(below(f, g1) + t).contains(k));
        if f.contains(k) {
            assert(below(f, g1).contains(k));
        }
    }
    assert(below(below(f, g1) + t, g2) =~= below(f + t, g2));
}

/// Whether `g` is where the counter `g0` stops stepping down over the ids of `s`: every id
/// from `g` up to `g0` is in `s`, and the one just below `g` is not.
pub open spec fn trimmed(s: Set<usize>, g0: usize, g: usize) -> bool {
    &&& g <= g0
    &&& forall|k: usize| g <= k < g0 ==> #[trigger] s.contains(k)
    &&& g > 0 ==> !s.contains((g - 1) as usize)
}

/// The ids of `s` below `g`.
pub open spec fn below(s: Set<usize>, g: usize) -> Set<usize> {
    s.filter(|k: usize| k < g)
}

} // verus!
