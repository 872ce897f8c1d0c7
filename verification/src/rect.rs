//! A single rectangle: its size, characters, effects, and the placement of its children.
use vstd::prelude::*;
use std::collections::{BTreeMap, BTreeSet};
use crate::effects::{Color, EffectsHandler, plain_effects};
use crate::error::WreckedError;

verus! {

broadcast use vstd::std_specs::btree::group_btree_axioms, vstd::laws_cmp::group_laws_cmp;

/// What the queue of a rectangle holds at a position: the character, its effects, and the
/// rank of the child it came from (0 for the rectangle itself).
pub type QueuedCell = (char, EffectsHandler, usize);

/// A position inside a rectangle, column first.
pub type Pos = (isize, isize);

/// A rectangle of the environment.
pub struct Rect {
    pub rect_id: usize,
    pub width: usize,
    pub height: usize,
    pub default_character: char,
    pub parent: Option<usize>,
    pub children: Vec<usize>,
    /// For each position, the children that cover it, lowest rank first.
    pub child_space: BTreeMap<Pos, Vec<usize>>,
    /// For each child, the positions at which it stands in `child_space`.
    pub inverse_child_space: BTreeMap<usize, Vec<Pos>>,
    /// The offset of each child inside this rectangle.
    pub child_positions: BTreeMap<usize, Pos>,
    /// The index of each child in `children`, as of the last child added.
    pub child_ranks: BTreeMap<usize, usize>,
    pub character_space: BTreeMap<Pos, char>,
    pub flag_full_refresh: bool,
    pub flags_pos_refresh: BTreeSet<Pos>,
    pub enabled: bool,
    pub transparent: bool,
    pub effects: EffectsHandler,
    pub queued_display: BTreeMap<Pos, QueuedCell>,
    pub cached_display: BTreeMap<Pos, QueuedCell>,
}

/// A `usize` read as the `isize` with the same bits, as `as` does.
pub open spec fn signed(n: usize) -> isize {
    n as isize
}

/// Whether `(x, y)` lies inside a `width` by `height` area, with the sizes read as `isize`.
pub open spec fn inside(x: isize, y: isize, width: usize, height: usize) -> bool {
    0 <= x && x < signed(width) && 0 <= y && y < signed(height)
}

/// Whether a list of child ids is ordered by rank (lowest first).
pub open spec fn sorted_by_rank(s: Seq<usize>, ranks: Map<usize, usize>) -> bool {
    forall|i: int, j: int| 0 <= i < j < s.len() ==> ranks[s[i]] <= ranks[s[j]]
}

/// Whether every id of the list has a rank.
pub open spec fn all_ranked(s: Seq<usize>, ranks: Map<usize, usize>) -> bool {
    forall|i: int| 0 <= i < s.len() ==> ranks.contains_key(#[trigger] s[i])
}

/// Whether `p` lies in the box whose corners are (left, top, right, bottom), right and bottom
/// excluded.
pub open spec fn in_box(p: Pos, corners: (isize, isize, isize, isize)) -> bool {
    corners.0 <= p.0 < corners.2 && corners.1 <= p.1 < corners.3
}

/// The positions recorded for `id` in an inverse record, as a set.
pub open spec fn inv_set(inverse: Map<usize, Seq<Pos>>, id: usize) -> Set<Pos> {
    if inverse.contains_key(id) { inverse[id].to_set() } else { Set::empty() }
}

/// The positions of a `w` by `h` box whose corner is at `off` (wrapping as release builds do).
pub open spec fn refresh_box(off: Pos, w: usize, h: usize) -> Set<Pos> {
    Set::new(|p: Pos| exists|x: usize, y: usize| #![trigger box_at(off, x, y)] x < w && y < h && p == box_at(off, x, y))
}

/// The position `(x, y)` of a box whose corner is at `off`.
pub open spec fn box_at(off: Pos, x: usize, y: usize) -> Pos {
    (off.0.wrapping_add(x as isize), off.1.wrapping_add(y as isize))
}

/// Whether key `k` is among the first `i` entries of a list of key and value pairs.
pub open spec fn key_in_prefix<V>(s: Seq<(Pos, V)>, i: int, k: Pos) -> bool {
    exists|j: int| 0 <= j < i && s[j].0 == k
}

/// `p` with both coordinates moved by the given offsets (wrapping as release builds do).
pub open spec fn shifted(p: Pos, x_offset: isize, y_offset: isize) -> Pos {
    (p.0.wrapping_add(x_offset), p.1.wrapping_add(y_offset))
}

/// The list with every occurrence of `id` taken out.
pub open spec fn without(s: Seq<usize>, id: usize) -> Seq<usize> {
    s.filter(|c: usize| c != id)
}

/// A copy of the list with every occurrence of `id` taken out.
pub fn remove_all(v: &Vec<usize>, id: usize) -> (r: Vec<usize>)
    ensures
        r@ == without(v@, id),
{
    let mut r: Vec<usize> = Vec::new();
    let mut i: usize = 0;
    while i < v.len()
        invariant
            0 <= i <= v.len(),
            r@ == without(v@.take(i as int), id),
        decreases v.len() - i,
    {
        proof {
            let t = v@.take(i as int + 1);
            assert(t.drop_last() =~= v@.take(i as int));
            assert(t.last() == v@[i as int]);
            reveal(Seq::filter);
        }
        if v[i] != id {
            r.push(v[i]);
        }
        i += 1;
    }
    assert(v@.take(v@.len() as int) =~= v@);
    r
}

/// A copy of a list.
pub fn copy_vec<T: Copy>(v: &Vec<T>) -> (r: Vec<T>)
    ensures
        r@ == v@,
{
    let mut r: Vec<T> = Vec::new();
    let mut i: usize = 0;
    while i < v.len()
        invariant
            0 <= i <= v.len(),
            r@ == v@.take(i as int),
        decreases v.len() - i,
    {
        r.push(v[i]);
        assert(r@ =~= v@.take(i as int + 1));
        i += 1;
    }
    assert(v@.take(v@.len() as int) =~= v@);
    r
}

/// Taking an id out twice is the same as taking it out once.
pub proof fn lemma_without_twice(s: Seq<usize>, id: usize)
    ensures
        without(without(s, id), id) == without(s, id),
    decreases s.len(),
{
    reveal(Seq::filter);
    if s.len() > 0 {
        lemma_without_twice(s.drop_last(), id);
        let f = without(s.drop_last(), id);
        if s.last() != id {
            assert(without(s, id) == f.push(s.last()));
            assert(without(s, id).drop_last() =~= f);
        } else {
            assert(without(s, id) == f);
        }
    } else {
        assert(without(s, id) =~= s);
    }
}

/// Taking out an id that is not there changes nothing.
pub proof fn lemma_without_absent(s: Seq<usize>, id: usize)
    requires
        !s.contains(id),
    ensures
        without(s, id) == s,
    decreases s.len(),
{
    reveal(Seq::filter);
    if s.len() > 0 {
        assert(!s.drop_last().contains(id)) by {
            if s.drop_last().contains(id) {
                let j = choose|j: int| 0 <= j < s.drop_last().len() && s.drop_last()[j] == id;
                assert(s[j] == id);
            }
        }
        lemma_without_absent(s.drop_last(), id);
        assert(s.last() != id) by {
            assert(s[s.len() - 1] == s.last());
        }
        assert(without(s, id) == without(s.drop_last(), id).push(s.last()));
        assert(s =~= s.drop_last().push(s.last()));
    } else {
        assert(without(s, id) =~= s);
    }
}

/// What is left after taking an id out is what was there, but for that id.
pub proof fn lemma_without_contains(s: Seq<usize>, id: usize, x: usize)
    ensures
        without(s, id).contains(x) <==> (s.contains(x) && x != id),
    decreases s.len(),
{
    reveal(Seq::filter);
    if s.len() > 0 {
        lemma_without_contains(s.drop_last(), id, x);
        let f = without(s.drop_last(), id);
        assert(s =~= s.drop_last().push(s.last()));
        if s.contains(x) && x != id {
            let j = choose|j: int| 0 <= j < s.len() && s[j] == x;
            if j < s.len() - 1 {
                assert(s.drop_last()[j] == x);
            }
        }
        if s.drop_last().contains(x) {
            let j = choose|j: int| 0 <= j < s.drop_last().len() && s.drop_last()[j] == x;
            assert(s[j] == x);
        }
        if s.last() != id {
            assert(without(s, id) == f.push(s.last()));
            if without(s, id).contains(x) {
                let j = choose|j: int| 0 <= j < without(s, id).len() && without(s, id)[j] == x;
                if j < f.len() {
                    assert(f[j] == x);
                }
            }
            if f.contains(x) {
                let j = choose|j: int| 0 <= j < f.len() && f[j] == x;
                assert(without(s, id)[j] == x);
            }
            if x == s.last() {
                assert(without(s, id)[f.len() as int] == x);
            }
        } else {
            assert(without(s, id) == f);
        }
    } else {
        assert(without(s, id) =~= s);
    }
}

/// A copy of the list ordered by rank, lowest first; ids of equal rank keep their order.
pub fn sort_by_rank(v: &Vec<usize>, ranks: &BTreeMap<usize, usize>) -> (r: Vec<usize>)
    requires
        all_ranked(v@, ranks@),
    ensures
        r@.to_multiset() == v@.to_multiset(),
        sorted_by_rank(r@, ranks@),
        all_ranked(r@, ranks@),
{
    broadcast use vstd::seq_lib::group_to_multiset_ensures;
    let mut r: Vec<usize> = Vec::new();
    let mut i: usize = 0;
    while i < v.len()
        invariant
            0 <= i <= v.len(),
            all_ranked(v@, ranks@),
            r@.to_multiset() == v@.take(i as int).to_multiset(),
            sorted_by_rank(r@, ranks@),
            all_ranked(r@, ranks@),
        decreases v.len() - i,
    {
        let e = v[i];
        assert(ranks@.contains_key(v@[i as int]));
        let re = *ranks.get(&e).unwrap();
        let mut k: usize = 0;
        while k < r.len() && *ranks.get(&r[k]).unwrap() <= re
            invariant
                0 <= k <= r.len(),
                all_ranked(r@, ranks@),
                re == ranks@[e],
                forall|j: int| 0 <= j < k ==> ranks@[#[trigger] r@[j]] <= re,
            decreases r.len() - k,
        {
            assert(ranks@.contains_key(r@[k as int]));
            k += 1;
        }
        let ghost before = r@;
        r.insert(k, e);
        proof {
            assert forall|a: int, b: int| 0 <= a < b < r@.len() implies ranks@[r@[a]] <= ranks@[r@[b]] by {
                if a < k && b < k {
                } else if a < k && b == k {
                } else if a < k && b > k {
                    assert(r@[b] == before[b - 1]);
                } else if a == k {
                    if k < before.len() {
                        assert(ranks@[before[k as int]] > re);
                        assert(r@[b] == before[b - 1]);
                    }
                } else {
                    assert(r@[a] == before[a - 1]);
                    assert(r@[b] == before[b - 1]);
                }
            }
            assert(v@.take(i as int + 1) =~= v@.take(i as int).push(e));
            assert(r@ =~= before.insert(k as int, e));
            vstd::seq_lib::to_multiset_insert(before, k as int, e);
            vstd::seq_lib::to_multiset_build(v@.take(i as int), e);
        }
        i += 1;
    }
    assert(v@.take(v@.len() as int) =~= v@);
    r
}

/// Everything a rectangle holds, as mathematical values.
pub struct RectView {
    pub rect_id: usize,
    pub width: usize,
    pub height: usize,
    pub default_character: char,
    pub parent: Option<usize>,
    pub children: Seq<usize>,
    pub space: Map<Pos, Seq<usize>>,
    pub inverse: Map<usize, Seq<Pos>>,
    pub child_positions: Map<usize, Pos>,
    pub child_ranks: Map<usize, usize>,
    pub character_space: Map<Pos, char>,
    pub flag_full_refresh: bool,
    pub flags_pos_refresh: Set<Pos>,
    pub enabled: bool,
    pub transparent: bool,
    pub effects: EffectsHandler,
    pub queued_display: Map<Pos, QueuedCell>,
    pub cached_display: Map<Pos, QueuedCell>,
}

impl RectView {
    /// Whether `(x, y)` is inside the rectangle.
    pub open spec fn holds(self, x: isize, y: isize) -> bool {
        inside(x, y, self.width, self.height)
    }

    /// The character shown at a position: the one set there, else the default.
    pub open spec fn char_at(self, x: isize, y: isize) -> char {
        if self.character_space.contains_key((x, y)) {
            self.character_space[(x, y)]
        } else {
            self.default_character
        }
    }

    /// Whether some child is recorded at a position.
    pub open spec fn covered(self, p: Pos) -> bool {
        self.space.contains_key(p) && self.space[p].len() > 0
    }
}

impl View for Rect {
    type V = RectView;

    open spec fn view(&self) -> RectView {
        RectView {
            rect_id: self.rect_id,
            width: self.width,
            height: self.height,
            default_character: self.default_character,
            parent: self.parent,
            children: self.children@,
            space: self.space(),
            inverse: self.inverse(),
            child_positions: self.child_positions@,
            child_ranks: self.child_ranks@,
            character_space: self.character_space@,
            flag_full_refresh: self.flag_full_refresh,
            flags_pos_refresh: self.flags_pos_refresh@,
            enabled: self.enabled,
            transparent: self.transparent,
            effects: self.effects,
            queued_display: self.queued_display@,
            cached_display: self.cached_display@,
        }
    }
}

impl Rect {
    /// The lists of `child_space`, as sequences.
    pub open spec fn space(self) -> Map<Pos, Seq<usize>> {
        self.child_space@.map_values(|v: Vec<usize>| v@)
    }

    /// The lists of `inverse_child_space`, as sequences.
    pub open spec fn inverse(self) -> Map<usize, Seq<Pos>> {
        self.inverse_child_space@.map_values(|v: Vec<Pos>| v@)
    }

    /// Whether `(x, y)` is inside this rectangle.
    pub open spec fn holds(self, x: isize, y: isize) -> bool {
        inside(x, y, self.width, self.height)
    }

    /// The character shown at a position inside the rectangle: the one set there, else the default.
    pub open spec fn char_at(self, x: isize, y: isize) -> char {
        if self.character_space@.contains_key((x, y)) {
            self.character_space@[(x, y)]
        } else {
            self.default_character
        }
    }

    /// The fields that describe the rectangle itself and its place in the tree.
    pub open spec fn same_frame(self, other: Rect) -> bool {
        &&& self.rect_id == other.rect_id
        &&& self.width == other.width
        &&& self.height == other.height
        &&& self.default_character == other.default_character
        &&& self.parent == other.parent
        &&& self.children@ == other.children@
        &&& self.child_positions@ == other.child_positions@
        &&& self.child_ranks@ == other.child_ranks@
        &&& self.enabled == other.enabled
        &&& self.transparent == other.transparent
        &&& self.effects == other.effects
    }

    /// The frame fields but the effects are the same.
    pub open spec fn same_frame_but_effects(self, other: Rect) -> bool {
        &&& self.rect_id == other.rect_id
        &&& self.width == other.width
        &&& self.height == other.height
        &&& self.default_character == other.default_character
        &&& self.parent == other.parent
        &&& self.children@ == other.children@
        &&& self.child_positions@ == other.child_positions@
        &&& self.child_ranks@ == other.child_ranks@
        &&& self.enabled == other.enabled
        &&& self.transparent == other.transparent
    }

    /// The frame fields but `enabled` are the same.
    pub open spec fn same_frame_but_enabled(self, other: Rect) -> bool {
        &&& self.rect_id == other.rect_id
        &&& self.width == other.width
        &&& self.height == other.height
        &&& self.default_character == other.default_character
        &&& self.parent == other.parent
        &&& self.children@ == other.children@
        &&& self.child_positions@ == other.child_positions@
        &&& self.child_ranks@ == other.child_ranks@
        &&& self.transparent == other.transparent
        &&& self.effects == other.effects
    }

    /// The frame fields but `parent` are the same.
    pub open spec fn same_but_parent_frame(self, other: Rect) -> bool {
        &&& self.rect_id == other.rect_id
        &&& self.width == other.width
        &&& self.height == other.height
        &&& self.default_character == other.default_character
        &&& self.children@ == other.children@
        &&& self.child_positions@ == other.child_positions@
        &&& self.child_ranks@ == other.child_ranks@
        &&& self.enabled == other.enabled
        &&& self.transparent == other.transparent
        &&& self.effects == other.effects
    }

    /// The frame fields but `child_positions` are the same.
    pub open spec fn same_but_positions_frame(self, other: Rect) -> bool {
        &&& self.rect_id == other.rect_id
        &&& self.width == other.width
        &&& self.height == other.height
        &&& self.default_character == other.default_character
        &&& self.parent == other.parent
        &&& self.children@ == other.children@
        &&& self.child_ranks@ == other.child_ranks@
        &&& self.enabled == other.enabled
        &&& self.transparent == other.transparent
        &&& self.effects == other.effects
    }

    /// The frame fields but the width and height are the same.
    pub open spec fn same_but_size_frame(self, other: Rect) -> bool {
        &&& self.rect_id == other.rect_id
        &&& self.default_character == other.default_character
        &&& self.parent == other.parent
        &&& self.children@ == other.children@
        &&& self.child_positions@ == other.child_positions@
        &&& self.child_ranks@ == other.child_ranks@
        &&& self.enabled == other.enabled
        &&& self.transparent == other.transparent
        &&& self.effects == other.effects
    }

    /// The fields that record which child covers which position.
    pub open spec fn same_space(self, other: Rect) -> bool {
        &&& self.space() == other.space()
        &&& self.inverse() == other.inverse()
    }

    /// The fields that hold what is waiting to be drawn and what was drawn.
    pub open spec fn same_display(self, other: Rect) -> bool {
        &&& self.flag_full_refresh == other.flag_full_refresh
        &&& self.flags_pos_refresh@ == other.flags_pos_refresh@
        &&& self.queued_display@ == other.queued_display@
        &&& self.cached_display@ == other.cached_display@
    }

    /// Everything but the effects is the same.
    pub open spec fn same_but_effects(self, other: Rect) -> bool {
        &&& self.rect_id == other.rect_id
        &&& self.width == other.width
        &&& self.height == other.height
        &&& self.default_character == other.default_character
        &&& self.parent == other.parent
        &&& self.children@ == other.children@
        &&& self.child_positions@ == other.child_positions@
        &&& self.child_ranks@ == other.child_ranks@
        &&& self.enabled == other.enabled
        &&& self.transparent == other.transparent
        &&& self.same_space(other)
        &&& self.character_space@ == other.character_space@
        &&& self.same_display(other)
    }

    /// Everything but `enabled` is the same.
    pub open spec fn same_but_enabled(self, other: Rect) -> bool {
        &&& self.rect_id == other.rect_id
        &&& self.width == other.width
        &&& self.height == other.height
        &&& self.default_character == other.default_character
        &&& self.parent == other.parent
        &&& self.children@ == other.children@
        &&& self.child_positions@ == other.child_positions@
        &&& self.child_ranks@ == other.child_ranks@
        &&& self.transparent == other.transparent
        &&& self.effects == other.effects
        &&& self.same_space(other)
        &&& self.character_space@ == other.character_space@
        &&& self.same_display(other)
    }

    /// Everything but `child_positions` is the same.
    pub open spec fn same_but_positions(self, other: Rect) -> bool {
        &&& self.rect_id == other.rect_id
        &&& self.width == other.width
        &&& self.height == other.height
        &&& self.default_character == other.default_character
        &&& self.parent == other.parent
        &&& self.children@ == other.children@
        &&& self.child_ranks@ == other.child_ranks@
        &&& self.enabled == other.enabled
        &&& self.transparent == other.transparent
        &&& self.effects == other.effects
        &&& self.same_space(other)
        &&& self.character_space@ == other.character_space@
        &&& self.same_display(other)
    }

    /// Everything but `child_ranks` is the same.
    pub open spec fn same_but_ranks(self, other: Rect) -> bool {
        &&& self.rect_id == other.rect_id
        &&& self.width == other.width
        &&& self.height == other.height
        &&& self.default_character == other.default_character
        &&& self.parent == other.parent
        &&& self.children@ == other.children@
        &&& self.child_positions@ == other.child_positions@
        &&& self.enabled == other.enabled
        &&& self.transparent == other.transparent
        &&& self.effects == other.effects
        &&& self.same_space(other)
        &&& self.character_space@ == other.character_space@
        &&& self.same_display(other)
    }

    /// Everything but `parent` is the same.
    pub open spec fn same_but_parent(self, other: Rect) -> bool {
        &&& self.rect_id == other.rect_id
        &&& self.width == other.width
        &&& self.height == other.height
        &&& self.default_character == other.default_character
        &&& self.children@ == other.children@
        &&& self.child_positions@ == other.child_positions@
        &&& self.child_ranks@ == other.child_ranks@
        &&& self.enabled == other.enabled
        &&& self.transparent == other.transparent
        &&& self.effects == other.effects
        &&& self.same_space(other)
        &&& self.character_space@ == other.character_space@
        &&& self.same_display(other)
    }

    /// Everything but the width and height is the same.
    pub open spec fn same_but_size(self, other: Rect) -> bool {
        &&& self.rect_id == other.rect_id
        &&& self.default_character == other.default_character
        &&& self.parent == other.parent
        &&& self.children@ == other.children@
        &&& self.child_positions@ == other.child_positions@
        &&& self.child_ranks@ == other.child_ranks@
        &&& self.enabled == other.enabled
        &&& self.transparent == other.transparent
        &&& self.effects == other.effects
        &&& self.same_space(other)
        &&& self.character_space@ == other.character_space@
        &&& self.same_display(other)
    }

    /// Whether this is a new 1 by 1 rectangle with the given id, no parent, no children, no
    /// characters, no effects, and a full refresh pending.
    pub open spec fn is_new(self, rect_id: usize) -> bool {
        &&& self.rect_id == rect_id
        &&& self.width == 1
        &&& self.height == 1
        &&& self.default_character == ' '
        &&& self.parent is None
        &&& self.children@ == Seq::<usize>::empty()
        &&& self.child_space@ == Map::<Pos, Vec<usize>>::empty()
        &&& self.inverse_child_space@ == Map::<usize, Vec<Pos>>::empty()
        &&& self.child_positions@ == Map::<usize, Pos>::empty()
        &&& self.child_ranks@ == Map::<usize, usize>::empty()
        &&& self.character_space@ == Map::<Pos, char>::empty()
        &&& self.flag_full_refresh
        &&& self.flags_pos_refresh@ == Set::<Pos>::empty()
        &&& self.enabled
        &&& !self.transparent
        &&& self.effects == plain_effects()
        &&& self.queued_display@ == Map::<Pos, QueuedCell>::empty()
        &&& self.cached_display@ == Map::<Pos, QueuedCell>::empty()
    }

    /// A new 1 by 1 rectangle with the given id and nothing in it.
    pub fn new(rect_id: usize) -> (r: Rect)
        ensures
            r.is_new(rect_id),
    {
        Rect {
            rect_id,
            parent: None,
            width: 1,
            height: 1,
            children: Vec::new(),
            child_space: BTreeMap::new(),
            inverse_child_space: BTreeMap::new(),
            child_positions: BTreeMap::new(),
            child_ranks: BTreeMap::new(),
            character_space: BTreeMap::new(),
            flag_full_refresh: true,
            flags_pos_refresh: BTreeSet::new(),
            enabled: true,
            transparent: false,
            effects: EffectsHandler::new(),
            queued_display: BTreeMap::new(),
            cached_display: BTreeMap::new(),
            default_character: ' ',
        }
    }

    pub fn disable(&mut self)
        ensures
            final(self).enabled == false,
            final(self).same_but_enabled(*old(self)),
            !old(self).enabled ==> *final(self) == *old(self),
    {
        self.enabled = false;
    }

    pub fn enable(&mut self)
        ensures
            final(self).enabled == true,
            final(self).same_but_enabled(*old(self)),
            old(self).enabled ==> *final(self) == *old(self),
    {
        self.enabled = true;
    }

    /// Asks for the whole rectangle to be redrawn, forgetting what was drawn.
    pub fn flag_refresh(&mut self)
        ensures
            final(self).flag_full_refresh,
            final(self).cached_display@ == Map::<Pos, QueuedCell>::empty(),
            final(self).same_frame(*old(self)),
            final(self).same_space(*old(self)),
            final(self).character_space@ == old(self).character_space@,
            final(self).flags_pos_refresh@ == old(self).flags_pos_refresh@,
            final(self).queued_display@ == old(self).queued_display@,
    {
        self.flag_full_refresh = true;
        self.cached_display.clear();
    }

    pub fn get_default_character(&self) -> (c: char)
        ensures
            c == self.default_character,
    {
        self.default_character
    }

    /// Moves every child by the given offsets.
    pub fn shift_contents(&mut self, x_offset: isize, y_offset: isize)
        ensures
            final(self).child_positions@.dom() == old(self).child_positions@.dom(),
            forall|c: usize| #[trigger] final(self).child_positions@.contains_key(c)
                ==> final(self).child_positions@[c] == shifted(old(self).child_positions@[c], x_offset, y_offset),
            final(self).same_but_positions(*old(self)),
    {
        let mut new_positions: BTreeMap<usize, Pos> = BTreeMap::new();
        let ghost old_map = self.child_positions@;
        for kv in it: self.child_positions.iter()
            invariant
                it.seq().len() == old_map.dom().len(),
                forall|k: usize| #[trigger] old_map.contains_key(k) ==> it.seq().contains((&k, &old_map[k])),
                forall|j: int| 0 <= j < it.seq().len() ==> old_map.contains_key(*it.seq()[j].0)
                    && old_map[*it.seq()[j].0] == *it.seq()[j].1,
                forall|k: usize| #[trigger] new_positions@.contains_key(k) <==>
                    (exists|j: int| 0 <= j < it.index() && *it.seq()[j].0 == k),
                forall|k: usize| #[trigger] new_positions@.contains_key(k) ==>
                    new_positions@[k] == shifted(old_map[k], x_offset, y_offset),
        {
            let (k, p) = kv;
            new_positions.insert(*k, (p.0.wrapping_add(x_offset), p.1.wrapping_add(y_offset)));
        }
        self.child_positions = new_positions;
    }

    /// The offset of a child, if it is one.
    pub fn get_child_position(&self, child_id: usize) -> (r: Option<Pos>)
        ensures
            r == (if self.child_positions@.contains_key(child_id) {
                Some(self.child_positions@[child_id])
            } else {
                None
            }),
    {
        match self.child_positions.get(&child_id) {
            Some(p) => Some(*p),
            None => None,
        }
    }

    /// Whether `p` is one of the positions recorded for `id` in `inverse_child_space`.
    pub open spec fn covers(self, id: usize, p: Pos) -> bool {
        self.inverse().contains_key(id) && self.inverse()[id].contains(p)
    }

    /// The lists of `child_space` once `id` is taken out wherever it is recorded.
    pub open spec fn space_without(self, id: usize) -> Map<Pos, Seq<usize>> {
        Map::new(
            |p: Pos| self.space().contains_key(p),
            |p: Pos| if self.covers(id, p) { without(self.space()[p], id) } else { self.space()[p] },
        )
    }

    /// The positions recorded for `id`, as a set.
    pub open spec fn covered_by(self, id: usize) -> Set<Pos> {
        if self.inverse().contains_key(id) { self.inverse()[id].to_set() } else { Set::empty() }
    }

    /// Takes child `rect_id` out of every position it was recorded at, flags those positions
    /// for redrawing, and empties its record.
    pub fn clear_child_space(&mut self, rect_id: usize)
        ensures
            final(self).space() == old(self).space_without(rect_id),
            final(self).inverse() == old(self).inverse().insert(rect_id, Seq::<Pos>::empty()),
            final(self).flags_pos_refresh@ == old(self).flags_pos_refresh@.union(old(self).covered_by(rect_id)),
            final(self).same_frame(*old(self)),
            final(self).character_space@ == old(self).character_space@,
            final(self).flag_full_refresh == old(self).flag_full_refresh,
            final(self).queued_display@ == old(self).queued_display@,
            final(self).cached_display@ == old(self).cached_display@,
    {
        let new_positions: Vec<Pos> = match self.inverse_child_space.get(&rect_id) {
            Some(positions) => copy_vec(positions),
            None => Vec::new(),
        };
        let ghost old_self = *self;
        let mut i: usize = 0;
        while i < new_positions.len()
            invariant
                0 <= i <= new_positions.len(),
                new_positions@ == (if old_self.inverse().contains_key(rect_id) {
                    old_self.inverse()[rect_id]
                } else {
                    Seq::<Pos>::empty()
                }),
                self.same_frame(old_self),
                self.inverse() == old_self.inverse(),
                self.character_space@ == old_self.character_space@,
                self.flag_full_refresh == old_self.flag_full_refresh,
                self.queued_display@ == old_self.queued_display@,
                self.cached_display@ == old_self.cached_display@,
                self.flags_pos_refresh@ == old_self.flags_pos_refresh@.union(new_positions@.take(i as int).to_set()),
                self.space().dom() == old_self.space().dom(),
                forall|p: Pos| #[trigger] self.space().contains_key(p) ==> self.space()[p] == (
                    if new_positions@.take(i as int).contains(p) {
                        without(old_self.space()[p], rect_id)
                    } else {
                        old_self.space()[p]
                    }),
            decreases new_positions.len() - i,
        {
            let position = new_positions[i];
            self.flags_pos_refresh.insert(position);
            let ghost pre_space = self.space();
            match self.child_space.get(&position) {
                Some(child_ids) => {
                    let filtered = remove_all(child_ids, rect_id);
                    proof {
                        if new_positions@.take(i as int).contains(position) {
                            // removing twice changes nothing
                            assert(without(without(old_self.space()[position], rect_id), rect_id) =~= without(old_self.space()[position], rect_id)) by {
                                lemma_without_twice(old_self.space()[position], rect_id);
                            }
                        }
                    }
                    self.child_space.insert(position, filtered);
                },
                None => {},
            }
            proof {
                assert(new_positions@.take(i as int + 1) =~= new_positions@.take(i as int).push(position));
                assert(new_positions@.take(i as int + 1)[i as int] == position);
                assert forall|q: Pos| new_positions@.take(i as int + 1).contains(q) <==> (
                    new_positions@.take(i as int).contains(q) || q == position) by {
                    if new_positions@.take(i as int + 1).contains(q) {
                        let j = choose|j: int| 0 <= j < i + 1 && #[trigger] new_positions@.take(i as int + 1)[j] == q;
                        if j < i {
                            assert(new_positions@.take(i as int)[j] == q);
                        }
                    }
                    if new_positions@.take(i as int).contains(q) {
                        let j = choose|j: int| 0 <= j < i && #[trigger] new_positions@.take(i as int)[j] == q;
                        assert(new_positions@.take(i as int + 1)[j] == q);
                    }
                }
                assert(self.flags_pos_refresh@ =~= old_self.flags_pos_refresh@.union(new_positions@.take(i as int + 1).to_set()));
                assert(self.space().dom() =~= old_self.space().dom());
                assert forall|p: Pos| #[trigger] self.space().contains_key(p) implies self.space()[p] == (
                    if new_positions@.take(i as int + 1).contains(p) {
                        without(old_self.space()[p], rect_id)
                    } else {
                        old_self.space()[p]
                    }) by {
                    if p != position {
                        assert(new_positions@.take(i as int + 1).contains(p) == new_positions@.take(i as int).contains(p));
                    } else {
                        assert(new_positions@.take(i as int + 1).contains(p));
                        if new_positions@.take(i as int).contains(p) {
                            lemma_without_twice(old_self.space()[p], rect_id);
                        }
                    }
                }
            }
            i += 1;
        }
        proof {
            assert(new_positions@.take(new_positions@.len() as int) =~= new_positions@);
        }
        let ghost mid = *self;
        match self.inverse_child_space.get(&rect_id) {
            Some(_) => {},
            None => {},
        }
        self.inverse_child_space.insert(rect_id, Vec::new());
        proof {
            assert(self.space() =~= old_self.space_without(rect_id)) by {
                assert forall|p: Pos| #[trigger] self.space().contains_key(p) implies self.space()[p] == old_self.space_without(rect_id)[p] by {
                    if new_positions@.contains(p) {
                        assert(old_self.covers(rect_id, p));
                    } else {
                        assert(!old_self.covers(rect_id, p));
                    }
                }
            }
            assert(self.inverse() =~= old_self.inverse().insert(rect_id, Seq::<Pos>::empty()));
            assert(self.flags_pos_refresh@ =~= old_self.flags_pos_refresh@.union(old_self.covered_by(rect_id)));
        }
    }

    /// Whether `p` is in the box and inside this rectangle.
    pub open spec fn placed(self, p: Pos, corners: (isize, isize, isize, isize)) -> bool {
        in_box(p, corners) && self.holds(p.0, p.1)
    }

    /// The positions of the box that are inside this rectangle.
    pub open spec fn placed_set(self, corners: (isize, isize, isize, isize)) -> Set<Pos> {
        Set::new(|p: Pos| self.placed(p, corners))
    }

    /// Whether every list of `child_space` holds only ranked ids.
    pub open spec fn space_ranked(self) -> bool {
        forall|p: Pos| #[trigger] self.space().contains_key(p) ==> all_ranked(self.space()[p], self.child_ranks@)
    }

    /// Records child `rect_id` at every position of the box (left, top, right, bottom) that is
    /// inside this rectangle, keeping each list ordered by rank. Unless `keep_cached`, its old
    /// record is cleared first.
    pub fn update_child_space(&mut self, rect_id: usize, corners: (isize, isize, isize, isize), keep_cached: bool)
        requires
            old(self).child_ranks@.contains_key(rect_id),
            old(self).space_ranked(),
        ensures
            ({
                let mid_space = if keep_cached { old(self).space() } else { old(self).space_without(rect_id) };
                let mid_inverse = if keep_cached {
                    old(self).inverse()
                } else {
                    old(self).inverse().insert(rect_id, Seq::<Pos>::empty())
                };
                &&& final(self).space().dom() == mid_space.dom().union(old(self).placed_set(corners))
                &&& forall|p: Pos| #[trigger] final(self).space().contains_key(p) ==> (
                    if old(self).placed(p, corners) {
                        &&& final(self).space()[p].to_multiset() == (if mid_space.contains_key(p) {
                            mid_space[p]
                        } else {
                            Seq::<usize>::empty()
                        }).push(rect_id).to_multiset()
                        &&& sorted_by_rank(final(self).space()[p], old(self).child_ranks@)
                    } else {
                        final(self).space()[p] == mid_space[p]
                    })
                &&& forall|k: usize| k != rect_id ==> (#[trigger] final(self).inverse().contains_key(k)
                    == mid_inverse.contains_key(k))
                &&& forall|k: usize| k != rect_id && #[trigger] final(self).inverse().contains_key(k)
                    ==> final(self).inverse()[k] == mid_inverse[k]
                &&& mid_inverse.contains_key(rect_id) ==> final(self).inverse().contains_key(rect_id)
                &&& inv_set(final(self).inverse(), rect_id) == inv_set(mid_inverse, rect_id).union(old(self).placed_set(corners))
                &&& final(self).flags_pos_refresh@ == (if keep_cached {
                    old(self).flags_pos_refresh@
                } else {
                    old(self).flags_pos_refresh@.union(old(self).covered_by(rect_id))
                })
            }),
            final(self).space_ranked(),
            final(self).same_frame(*old(self)),
            final(self).character_space@ == old(self).character_space@,
            final(self).flag_full_refresh == old(self).flag_full_refresh,
            final(self).queued_display@ == old(self).queued_display@,
            final(self).cached_display@ == old(self).cached_display@,
    {
        if !keep_cached {
            self.clear_child_space(rect_id);
        }
        let ghost mid = *self;
        proof {
            assert(mid.space_ranked()) by {
                assert forall|p: Pos| #[trigger] mid.space().contains_key(p) implies all_ranked(mid.space()[p], mid.child_ranks@) by {
                    if !keep_cached && old(self).covers(rect_id, p) {
                        let s = old(self).space()[p];
                        assert forall|i: int| 0 <= i < without(s, rect_id).len() implies mid.child_ranks@.contains_key(#[trigger] without(s, rect_id)[i]) by {
                            assert(without(s, rect_id).contains(without(s, rect_id)[i]));
                            lemma_without_contains(s, rect_id, without(s, rect_id)[i]);
                            let j = choose|j: int| 0 <= j < s.len() && #[trigger] s[j] == without(s, rect_id)[i];
                        }
                    }
                }
            }
        }
        let w = self.width as isize;
        let h = self.height as isize;
        let mut y = corners.1;
        while y < corners.3
            invariant
                corners.1 <= y,
                w == signed(mid.width),
                h == signed(mid.height),
                self.same_frame(mid),
                self.space_ranked(),
                self.character_space@ == mid.character_space@,
                self.flag_full_refresh == mid.flag_full_refresh,
                self.queued_display@ == mid.queued_display@,
                self.cached_display@ == mid.cached_display@,
                self.flags_pos_refresh@ == mid.flags_pos_refresh@,
                self.child_ranks@.contains_key(rect_id),
                self.space().dom() == mid.space().dom().union(Set::new(|p: Pos| mid.placed(p, corners) && p.1 < y)),
                forall|p: Pos| #[trigger] self.space().contains_key(p) ==> (
                    if mid.placed(p, corners) && p.1 < y {
                        &&& self.space()[p].to_multiset() == (if mid.space().contains_key(p) {
                            mid.space()[p]
                        } else {
                            Seq::<usize>::empty()
                        }).push(rect_id).to_multiset()
                        &&& sorted_by_rank(self.space()[p], mid.child_ranks@)
                    } else {
                        self.space()[p] == mid.space()[p]
                    }),
                forall|k: usize| k != rect_id ==> (#[trigger] self.inverse().contains_key(k) == mid.inverse().contains_key(k)),
                forall|k: usize| k != rect_id && #[trigger] self.inverse().contains_key(k) ==> self.inverse()[k] == mid.inverse()[k],
                mid.inverse().contains_key(rect_id) ==> self.inverse().contains_key(rect_id),
                inv_set(self.inverse(), rect_id) == inv_set(mid.inverse(), rect_id).union(Set::new(|p: Pos| mid.placed(p, corners) && p.1 < y)),
            decreases corners.3 - y,
        {
            let mut x = corners.0;
            while x < corners.2
                invariant
                    corners.1 <= y < corners.3,
                    corners.0 <= x,
                    w == signed(mid.width),
                    h == signed(mid.height),
                    self.same_frame(mid),
                    self.space_ranked(),
                    self.character_space@ == mid.character_space@,
                    self.flag_full_refresh == mid.flag_full_refresh,
                    self.queued_display@ == mid.queued_display@,
                    self.cached_display@ == mid.cached_display@,
                    self.flags_pos_refresh@ == mid.flags_pos_refresh@,
                    self.child_ranks@.contains_key(rect_id),
                    self.space().dom() == mid.space().dom().union(Set::new(|p: Pos| mid.placed(p, corners) && (p.1 < y || (p.1 == y && p.0 < x)))),
                    forall|p: Pos| #[trigger] self.space().contains_key(p) ==> (
                        if mid.placed(p, corners) && (p.1 < y || (p.1 == y && p.0 < x)) {
                            &&& self.space()[p].to_multiset() == (if mid.space().contains_key(p) {
                                mid.space()[p]
                            } else {
                                Seq::<usize>::empty()
                            }).push(rect_id).to_multiset()
                            &&& sorted_by_rank(self.space()[p], mid.child_ranks@)
                        } else {
                            self.space()[p] == mid.space()[p]
                        }),
                    forall|k: usize| k != rect_id ==> (#[trigger] self.inverse().contains_key(k) == mid.inverse().contains_key(k)),
                    forall|k: usize| k != rect_id && #[trigger] self.inverse().contains_key(k) ==> self.inverse()[k] == mid.inverse()[k],
                    mid.inverse().contains_key(rect_id) ==> self.inverse().contains_key(rect_id),
                    inv_set(self.inverse(), rect_id) == inv_set(mid.inverse(), rect_id).union(Set::new(|p: Pos| mid.placed(p, corners) && (p.1 < y || (p.1 == y && p.0 < x)))),
                decreases corners.2 - x,
            {
                let ghost pre = *self;
                if x >= 0 && x < w && y >= 0 && y < h {
                    let mut list: Vec<usize> = match self.child_space.get(&(x, y)) {
                        Some(l) => copy_vec(l),
                        None => Vec::new(),
                    };
                    assert(!(mid.placed((x, y), corners) && ((x, y).1 < y || ((x, y).1 == y && (x, y).0 < x))));
                    let ghost before_list = list@;
                    proof {
                        assert(pre.space().contains_key((x, y)) == mid.space().contains_key((x, y)));
                        if pre.space().contains_key((x, y)) {
                            assert(pre.space()[(x, y)] == mid.space()[(x, y)]);
                        }
                    }
                    list.push(rect_id);
                    assert(all_ranked(list@, self.child_ranks@)) by {
                        assert forall|i: int| 0 <= i < list@.len() implies self.child_ranks@.contains_key(#[trigger] list@[i]) by {
                            if i < before_list.len() {
                                assert(self.space().contains_key((x, y)));
                                assert(list@[i] == self.space()[(x, y)][i]);
                            }
                        }
                    }
                    let sorted = sort_by_rank(&list, &self.child_ranks);
                    assert(before_list == (if mid.space().contains_key((x, y)) {
                        mid.space()[(x, y)]
                    } else {
                        Seq::<usize>::empty()
                    }));
                    self.child_space.insert((x, y), sorted);
                    let mut inv: Vec<Pos> = match self.inverse_child_space.get(&rect_id) {
                        Some(l) => copy_vec(l),
                        None => Vec::new(),
                    };
                    let ghost before_inv = inv@;
                    inv.push((x, y));
                    self.inverse_child_space.insert(rect_id, inv);
                    proof {
                        assert forall|k: usize| k != rect_id implies #[trigger] self.inverse().contains_key(k) == pre.inverse().contains_key(k)
                            && (self.inverse().contains_key(k) ==> self.inverse()[k] == pre.inverse()[k]) by {}
                        assert(inv@ =~= before_inv.push((x, y)));
                        assert(inv_set(self.inverse(), rect_id) =~= inv_set(pre.inverse(), rect_id).insert((x, y))) by {
                            assert forall|q: Pos| #[trigger] inv@.contains(q) <==> (before_inv.contains(q) || q == (x, y)) by {
                                if inv@.contains(q) {
                                    let j = choose|j: int| 0 <= j < inv@.len() && #[trigger] inv@[j] == q;
                                    if j < before_inv.len() {
                                        assert(before_inv[j] == q);
                                    }
                                }
                                if before_inv.contains(q) {
                                    let j = choose|j: int| 0 <= j < before_inv.len() && #[trigger] before_inv[j] == q;
                                    assert(inv@[j] == q);
                                }
                                if q == (x, y) {
                                    assert(inv@[before_inv.len() as int] == q);
                                }
                            }
                        }
                    }
                }
                proof {
                    let placed_now = Set::new(|p: Pos| mid.placed(p, corners) && (p.1 < y || (p.1 == y && p.0 < x + 1)));
                    let placed_before = Set::new(|p: Pos| mid.placed(p, corners) && (p.1 < y || (p.1 == y && p.0 < x)));
                    assert(mid.placed((x, y), corners) == (x >= 0 && x < w && y >= 0 && y < h));
                    assert(pre.space().dom() == mid.space().dom().union(placed_before));
                    if x >= 0 && x < w && y >= 0 && y < h {
                        assert(placed_now =~= placed_before.insert((x, y)));
                        assert(self.space().dom() =~= pre.space().dom().insert((x, y)));
                    } else {
                        assert(placed_now =~= placed_before);
                    }
                    assert(self.space().dom() =~= mid.space().dom().union(placed_now));
                    assert forall|p: Pos| #[trigger] self.space().contains_key(p) && p != (x, y) implies self.space()[p] == pre.space()[p] by {}
                    assert(inv_set(self.inverse(), rect_id) =~= inv_set(mid.inverse(), rect_id).union(placed_now));
                    assert forall|p: Pos| #[trigger] self.space().contains_key(p) implies all_ranked(self.space()[p], self.child_ranks@) by {
                        if p != (x, y) {
                            assert(pre.space().contains_key(p));
                        }
                    }
                }
                x = x + 1;
            }
            proof {
                let a = Set::new(|p: Pos| mid.placed(p, corners) && (p.1 < y || (p.1 == y && p.0 < x)));
                let b = Set::new(|p: Pos| mid.placed(p, corners) && p.1 < y + 1);
                assert(a =~= b);
            }
            y = y + 1;
        }
        proof {
            let a = Set::new(|p: Pos| mid.placed(p, corners) && p.1 < y);
            assert(a =~= old(self).placed_set(corners));
            if !keep_cached {
                assert(mid.space() == old(self).space_without(rect_id));
            }
        }
    }

    /// The character at a position: the one set there, else the default; an error outside.
    pub fn get_character(&self, x: isize, y: isize) -> (r: Result<char, WreckedError>)
        ensures
            self.holds(x, y) ==> r == Ok::<char, WreckedError>(self.char_at(x, y)),
            !self.holds(x, y) ==> r == Err::<char, WreckedError>(WreckedError::BadPosition(x, y)),
    {
        if y < self.height as isize && y >= 0 && x < self.width as isize && x >= 0 {
            match self.character_space.get(&(x, y)) {
                Some(character) => Ok(*character),
                None => Ok(self.default_character),
            }
        } else {
            Err(WreckedError::BadPosition(x, y))
        }
    }

    /// Whether setting `character` at a position inside the rectangle changes what is stored:
    /// it differs from the character set there, or, where none is set, from the default.
    pub open spec fn char_change(self, x: isize, y: isize, character: char) -> bool {
        if self.character_space@.contains_key((x, y)) {
            self.character_space@[(x, y)] != character
        } else {
            character != self.default_character
        }
    }

    /// Sets the character at a position; tells whether anything changed. Where no character
    /// is set, the default character is not stored.
    pub fn set_character(&mut self, x: isize, y: isize, character: char) -> (r: Result<bool, WreckedError>)
        ensures
            old(self).holds(x, y) ==> {
                &&& r == Ok::<bool, WreckedError>(old(self).char_change(x, y, character))
                &&& final(self).character_space@ == (if old(self).char_change(x, y, character) {
                    old(self).character_space@.insert((x, y), character)
                } else {
                    old(self).character_space@
                })
            },
            !old(self).holds(x, y) ==> {
                &&& r == Err::<bool, WreckedError>(WreckedError::BadPosition(x, y))
                &&& final(self).character_space@ == old(self).character_space@
            },
            final(self).same_frame(*old(self)),
            final(self).same_space(*old(self)),
            final(self).same_display(*old(self)),
            (r is Err || r == Ok::<bool, WreckedError>(false)) ==> *final(self) == *old(self),
    {
        if y < self.height as isize && y >= 0 && x < self.width as isize && x >= 0 {
            let changed = match self.character_space.get(&(x, y)) {
                Some(existing_char) => *existing_char != character,
                None => character != self.default_character,
            };
            if changed {
                self.character_space.insert((x, y), character);
            }
            Ok(changed)
        } else {
            Err(WreckedError::BadPosition(x, y))
        }
    }

    /// Sets the default character at a position.
    pub fn unset_character(&mut self, x: isize, y: isize) -> (r: Result<bool, WreckedError>)
        ensures
            old(self).holds(x, y) ==> {
                &&& r == Ok::<bool, WreckedError>(old(self).char_change(x, y, old(self).default_character))
                &&& final(self).character_space@ == (if old(self).char_change(x, y, old(self).default_character) {
                    old(self).character_space@.insert((x, y), old(self).default_character)
                } else {
                    old(self).character_space@
                })
            },
            !old(self).holds(x, y) ==> {
                &&& r == Err::<bool, WreckedError>(WreckedError::BadPosition(x, y))
                &&& final(self).character_space@ == old(self).character_space@
            },
            final(self).same_frame(*old(self)),
            final(self).same_space(*old(self)),
            final(self).same_display(*old(self)),
            (r is Err || r == Ok::<bool, WreckedError>(false)) ==> *final(self) == *old(self),
    {
        let c = self.default_character;
        self.set_character(x, y, c)
    }

    pub fn set_bold_flag(&mut self) -> (changed: bool)
        ensures
            changed == !old(self).effects.bold,
            final(self).effects == (EffectsHandler { bold: true, ..old(self).effects }),
            final(self).same_but_effects(*old(self)),
            !changed ==> *final(self) == *old(self),
    {
        if !self.effects.bold {
            self.effects.bold = true;
            true
        } else {
            false
        }
    }

    pub fn unset_bold_flag(&mut self) -> (changed: bool)
        ensures
            changed == old(self).effects.bold,
            final(self).effects == (EffectsHandler { bold: false, ..old(self).effects }),
            final(self).same_but_effects(*old(self)),
            !changed ==> *final(self) == *old(self),
    {
        if self.effects.bold {
            self.effects.bold = false;
            true
        } else {
            false
        }
    }

    pub fn set_underline_flag(&mut self) -> (changed: bool)
        ensures
            changed == !old(self).effects.underline,
            final(self).effects == (EffectsHandler { underline: true, ..old(self).effects }),
            final(self).same_but_effects(*old(self)),
            !changed ==> *final(self) == *old(self),
    {
        if !self.effects.underline {
            self.effects.underline = true;
            true
        } else {
            false
        }
    }

    pub fn unset_underline_flag(&mut self) -> (changed: bool)
        ensures
            changed == old(self).effects.underline,
            final(self).effects == (EffectsHandler { underline: false, ..old(self).effects }),
            final(self).same_but_effects(*old(self)),
            !changed ==> *final(self) == *old(self),
    {
        if self.effects.underline {
            self.effects.underline = false;
            true
        } else {
            false
        }
    }

    pub fn set_invert_flag(&mut self) -> (changed: bool)
        ensures
            changed == !old(self).effects.invert,
            final(self).effects == (EffectsHandler { invert: true, ..old(self).effects }),
            final(self).same_but_effects(*old(self)),
            !changed ==> *final(self) == *old(self),
    {
        if !self.effects.invert {
            self.effects.invert = true;
            true
        } else {
            false
        }
    }

    pub fn unset_invert_flag(&mut self) -> (changed: bool)
        ensures
            changed == old(self).effects.invert,
            final(self).effects == (EffectsHandler { invert: false, ..old(self).effects }),
            final(self).same_but_effects(*old(self)),
            !changed ==> *final(self) == *old(self),
    {
        if self.effects.invert {
            self.effects.invert = false;
            true
        } else {
            false
        }
    }

    pub fn set_italics_flag(&mut self) -> (changed: bool)
        ensures
            changed == !old(self).effects.italics,
            final(self).effects == (EffectsHandler { italics: true, ..old(self).effects }),
            final(self).same_but_effects(*old(self)),
            !changed ==> *final(self) == *old(self),
    {
        if !self.effects.italics {
            self.effects.italics = true;
            true
        } else {
            false
        }
    }

    pub fn unset_italics_flag(&mut self) -> (changed: bool)
        ensures
            changed == old(self).effects.italics,
            final(self).effects == (EffectsHandler { italics: false, ..old(self).effects }),
            final(self).same_but_effects(*old(self)),
            !changed ==> *final(self) == *old(self),
    {
        if self.effects.italics {
            self.effects.italics = false;
            true
        } else {
            false
        }
    }

    pub fn set_strike_flag(&mut self) -> (changed: bool)
        ensures
            changed == !old(self).effects.strike,
            final(self).effects == (EffectsHandler { strike: true, ..old(self).effects }),
            final(self).same_but_effects(*old(self)),
            !changed ==> *final(self) == *old(self),
    {
        if !self.effects.strike {
            self.effects.strike = true;
            true
        } else {
            false
        }
    }

    pub fn unset_strike_flag(&mut self) -> (changed: bool)
        ensures
            changed == old(self).effects.strike,
            final(self).effects == (EffectsHandler { strike: false, ..old(self).effects }),
            final(self).same_but_effects(*old(self)),
            !changed ==> *final(self) == *old(self),
    {
        if self.effects.strike {
            self.effects.strike = false;
            true
        } else {
            false
        }
    }

    pub fn set_blink_flag(&mut self) -> (changed: bool)
        ensures
            changed == !old(self).effects.blink,
            final(self).effects == (EffectsHandler { blink: true, ..old(self).effects }),
            final(self).same_but_effects(*old(self)),
            !changed ==> *final(self) == *old(self),
    {
        if !self.effects.blink {
            self.effects.blink = true;
            true
        } else {
            false
        }
    }

    pub fn unset_blink_flag(&mut self) -> (changed: bool)
        ensures
            changed == old(self).effects.blink,
            final(self).effects == (EffectsHandler { blink: false, ..old(self).effects }),
            final(self).same_but_effects(*old(self)),
            !changed ==> *final(self) == *old(self),
    {
        if self.effects.blink {
            self.effects.blink = false;
            true
        } else {
            false
        }
    }

    pub fn unset_bg_color(&mut self) -> (changed: bool)
        ensures
            changed == (old(self).effects.background_color is Some),
            final(self).effects == (EffectsHandler { background_color: None, ..old(self).effects }),
            final(self).same_but_effects(*old(self)),
            !changed ==> *final(self) == *old(self),
    {
        if self.effects.background_color.is_some() {
            self.effects.background_color = None;
            true
        } else {
            false
        }
    }

    pub fn unset_fg_color(&mut self) -> (changed: bool)
        ensures
            changed == (old(self).effects.foreground_color is Some),
            final(self).effects == (EffectsHandler { foreground_color: None, ..old(self).effects }),
            final(self).same_but_effects(*old(self)),
            !changed ==> *final(self) == *old(self),
    {
        if self.effects.foreground_color.is_some() {
            self.effects.foreground_color = None;
            true
        } else {
            false
        }
    }

    /// Removes both colors; tells whether either was set.
    pub fn unset_color(&mut self) -> (changed: bool)
        ensures
            changed == (old(self).effects.background_color is Some || old(self).effects.foreground_color is Some),
            final(self).effects == (EffectsHandler {
                background_color: None,
                foreground_color: None,
                ..old(self).effects
            }),
            final(self).same_but_effects(*old(self)),
            !changed ==> *final(self) == *old(self),
    {
        let bg_changed = self.unset_bg_color();
        let fg_changed = self.unset_fg_color();
        bg_changed || fg_changed
    }

    pub fn set_bg_color(&mut self, color: Color) -> (changed: bool)
        ensures
            changed == (old(self).effects.background_color != Some(color)),
            final(self).effects == (EffectsHandler { background_color: Some(color), ..old(self).effects }),
            final(self).same_but_effects(*old(self)),
            !changed ==> *final(self) == *old(self),
    {
        if self.effects.background_color != Some(color) {
            self.effects.background_color = Some(color);
            true
        } else {
            false
        }
    }

    pub fn set_fg_color(&mut self, color: Color) -> (changed: bool)
        ensures
            changed == (old(self).effects.foreground_color != Some(color)),
            final(self).effects == (EffectsHandler { foreground_color: Some(color), ..old(self).effects }),
            final(self).same_but_effects(*old(self)),
            !changed ==> *final(self) == *old(self),
    {
        if self.effects.foreground_color != Some(color) {
            self.effects.foreground_color = Some(color);
            true
        } else {
            false
        }
    }

    /// Whether `ranks` gives every child its index in `children`.
    pub open spec fn ranks_index(children: Seq<usize>, ranks: Map<usize, usize>) -> bool {
        &&& forall|c: usize| #[trigger] ranks.contains_key(c) <==> children.contains(c)
        &&& forall|c: usize| #[trigger] ranks.contains_key(c) ==> ranks[c] < children.len() && children[ranks[c] as int] == c
    }

    /// Recomputes the rank of every child from its place in `children`.
    pub fn update_child_ranks(&mut self)
        ensures
            Self::ranks_index(final(self).children@, final(self).child_ranks@),
            final(self).children@ == old(self).children@,
            final(self).same_but_ranks(*old(self)),
    {
        self.child_ranks.clear();
        let mut new_rank: usize = 0;
        while new_rank < self.children.len()
            invariant
                0 <= new_rank <= self.children.len(),
                self.children@ == old(self).children@,
                self.same_but_ranks(*old(self)),
                forall|c: usize| #[trigger] self.child_ranks@.contains_key(c) <==> self.children@.take(new_rank as int).contains(c),
                forall|c: usize| #[trigger] self.child_ranks@.contains_key(c) ==> self.child_ranks@[c] < new_rank
                    && self.children@[self.child_ranks@[c] as int] == c,
            decreases self.children.len() - new_rank,
        {
            let child_id = self.children[new_rank];
            self.child_ranks.insert(child_id, new_rank);
            proof {
                let t1 = self.children@.take(new_rank as int + 1);
                let t0 = self.children@.take(new_rank as int);
                assert forall|c: usize| t1.contains(c) <==> (t0.contains(c) || c == child_id) by {
                    if t1.contains(c) {
                        let j = choose|j: int| 0 <= j < t1.len() && #[trigger] t1[j] == c;
                        if j < new_rank {
                            assert(t0[j] == c);
                        }
                    }
                    if t0.contains(c) {
                        let j = choose|j: int| 0 <= j < t0.len() && #[trigger] t0[j] == c;
                        assert(t1[j] == c);
                    }
                    if c == child_id {
                        assert(t1[new_rank as int] == c);
                    }
                }
            }
            new_rank += 1;
        }
        assert(self.children@.take(self.children@.len() as int) =~= self.children@);
    }

    /// Adds a child at the end of `children`, at offset (0, 0), with an empty record.
    pub fn add_child(&mut self, child_id: usize)
        ensures
            final(self).children@ == old(self).children@.push(child_id),
            final(self).inverse() == old(self).inverse().insert(child_id, Seq::<Pos>::empty()),
            final(self).space() == old(self).space(),
            Self::ranks_index(final(self).children@, final(self).child_ranks@),
            final(self).child_positions@ == old(self).child_positions@.insert(child_id, (0isize, 0isize)),
            final(self).rect_id == old(self).rect_id,
            final(self).width == old(self).width,
            final(self).height == old(self).height,
            final(self).default_character == old(self).default_character,
            final(self).parent == old(self).parent,
            final(self).enabled == old(self).enabled,
            final(self).transparent == old(self).transparent,
            final(self).effects == old(self).effects,
            final(self).character_space@ == old(self).character_space@,
            final(self).same_display(*old(self)),
    {
        self.children.push(child_id);
        self.inverse_child_space.insert(child_id, Vec::new());
        self.update_child_ranks();
        self.set_child_position(child_id, 0, 0);
        assert(final(self).inverse() =~= old(self).inverse().insert(child_id, Seq::<Pos>::empty()));
        assert(final(self).space() =~= old(self).space());
    }

    pub fn set_parent(&mut self, rect_id: usize)
        ensures
            final(self).parent == Some(rect_id),
            final(self).same_but_parent(*old(self)),
    {
        self.parent = Some(rect_id);
    }

    pub fn unset_parent(&mut self)
        ensures
            final(self).parent is None,
            final(self).same_but_parent(*old(self)),
    {
        self.parent = None;
    }

    /// Removes a child: its record, its offset, and every occurrence in `children`.
    pub fn detach_child(&mut self, rect_id: usize)
        ensures
            final(self).space() == old(self).space_without(rect_id),
            final(self).inverse() == old(self).inverse().insert(rect_id, Seq::<Pos>::empty()),
            final(self).flags_pos_refresh@ == old(self).flags_pos_refresh@.union(old(self).covered_by(rect_id)),
            final(self).child_positions@ == old(self).child_positions@.remove(rect_id),
            final(self).children@ == without(old(self).children@, rect_id),
            final(self).rect_id == old(self).rect_id,
            final(self).width == old(self).width,
            final(self).height == old(self).height,
            final(self).default_character == old(self).default_character,
            final(self).parent == old(self).parent,
            final(self).child_ranks@ == old(self).child_ranks@,
            final(self).enabled == old(self).enabled,
            final(self).transparent == old(self).transparent,
            final(self).effects == old(self).effects,
            final(self).character_space@ == old(self).character_space@,
            final(self).flag_full_refresh == old(self).flag_full_refresh,
            final(self).queued_display@ == old(self).queued_display@,
            final(self).cached_display@ == old(self).cached_display@,
    {
        self.clear_child_space(rect_id);
        self.child_positions.remove(&rect_id);
        let new_children = remove_all(&self.children, rect_id);
        self.children = new_children;
    }

    pub fn resize(&mut self, width: usize, height: usize)
        ensures
            final(self).width == width,
            final(self).height == height,
            final(self).same_but_size(*old(self)),
    {
        self.width = width;
        self.height = height;
    }

    /// Sets the offset of a child.
    pub fn set_child_position(&mut self, rect_id: usize, x: isize, y: isize)
        ensures
            final(self).child_positions@ == old(self).child_positions@.insert(rect_id, (x, y)),
            final(self).same_but_positions(*old(self)),
    {
        self.child_positions.insert(rect_id, (x, y));
    }

    /// Removes every character set, and everything waiting to be drawn.
    pub fn clear_characters(&mut self)
        ensures
            final(self).character_space@ == Map::<Pos, char>::empty(),
            final(self).queued_display@ == Map::<Pos, QueuedCell>::empty(),
            final(self).same_frame(*old(self)),
            final(self).same_space(*old(self)),
            final(self).flag_full_refresh == old(self).flag_full_refresh,
            final(self).flags_pos_refresh@ == old(self).flags_pos_refresh@,
            final(self).cached_display@ == old(self).cached_display@,
    {
        self.character_space.clear();
        self.queued_display.clear();
    }

    pub fn get_fg_color(&self) -> (c: Option<Color>)
        ensures
            c == self.effects.foreground_color,
    {
        self.effects.foreground_color
    }

    pub fn get_bg_color(&self) -> (c: Option<Color>)
        ensures
            c == self.effects.background_color,
    {
        self.effects.background_color
    }

    pub fn is_plain(&self) -> (b: bool)
        ensures
            b == self.effects.spec_is_plain(),
    {
        self.effects.is_plain()
    }

    pub fn is_bold(&self) -> (b: bool)
        ensures
            b == self.effects.bold,
    {
        self.effects.bold
    }

    pub fn is_underlined(&self) -> (b: bool)
        ensures
            b == self.effects.underline,
    {
        self.effects.underline
    }

    pub fn is_inverted(&self) -> (b: bool)
        ensures
            b == self.effects.invert,
    {
        self.effects.invert
    }

    pub fn is_italicized(&self) -> (b: bool)
        ensures
            b == self.effects.italics,
    {
        self.effects.italics
    }

    pub fn is_striken(&self) -> (b: bool)
        ensures
            b == self.effects.strike,
    {
        self.effects.strike
    }

    pub fn is_blinking(&self) -> (b: bool)
        ensures
            b == self.effects.blink,
    {
        self.effects.blink
    }

    /// Whether the id is in `children`.
    pub fn has_child(&self, child_id: usize) -> (b: bool)
        ensures
            b == self.children@.contains(child_id),
    {
        let mut output = false;
        let mut i: usize = 0;
        assert(self.children@.take(self.children@.len() as int) =~= self.children@);
        while i < self.children.len()
            invariant_except_break
                0 <= i <= self.children.len(),
                !output,
                !self.children@.take(i as int).contains(child_id),
            invariant
                self.children@.take(self.children@.len() as int) == self.children@,
            ensures
                output == self.children@.contains(child_id),
            decreases self.children.len() - i,
        {
            if self.children[i] == child_id {
                output = true;
                assert(self.children@[i as int] == child_id);
                break;
            }
            proof {
                if self.children@.take(i as int + 1).contains(child_id) {
                    let j = choose|j: int| 0 <= j < i + 1 && #[trigger] self.children@.take(i as int + 1)[j] == child_id;
                    assert(self.children@.take(i as int)[j] == child_id);
                }
            }
            i += 1;
        }
        proof {
            if !output {
                assert(self.children@.take(self.children@.len() as int) =~= self.children@);
            }
        }
        output
    }

    /// Flags every position of a `w` by `h` box at `off` for redrawing.
    pub fn flag_box(&mut self, off: Pos, w: usize, h: usize)
        ensures
            final(self).flags_pos_refresh@ == old(self).flags_pos_refresh@.union(refresh_box(off, w, h)),
            final(self).same_frame(*old(self)),
            final(self).same_space(*old(self)),
            final(self).character_space@ == old(self).character_space@,
            final(self).flag_full_refresh == old(self).flag_full_refresh,
            final(self).queued_display@ == old(self).queued_display@,
            final(self).cached_display@ == old(self).cached_display@,
    {
        let ghost f0 = self.flags_pos_refresh@;
        let mut x: usize = 0;
        while x < w
            invariant
                0 <= x <= w,
                self.flags_pos_refresh@ == f0.union(Set::new(|p: Pos| exists|a: usize, b: usize|
                    #![trigger box_at(off, a, b)] a < x && b < h && p == box_at(off, a, b))),
                self.same_frame(*old(self)),
                self.same_space(*old(self)),
                self.character_space@ == old(self).character_space@,
                self.flag_full_refresh == old(self).flag_full_refresh,
                self.queued_display@ == old(self).queued_display@,
                self.cached_display@ == old(self).cached_display@,
            decreases w - x,
        {
            let mut y: usize = 0;
            while y < h
                invariant
                    0 <= x < w,
                    0 <= y <= h,
                    self.flags_pos_refresh@ == f0.union(Set::new(|p: Pos| exists|a: usize, b: usize|
                        #![trigger box_at(off, a, b)] (a < x && b < h || a == x && b < y) && p == box_at(off, a, b))),
                    self.same_frame(*old(self)),
                    self.same_space(*old(self)),
                    self.character_space@ == old(self).character_space@,
                    self.flag_full_refresh == old(self).flag_full_refresh,
                    self.queued_display@ == old(self).queued_display@,
                    self.cached_display@ == old(self).cached_display@,
                decreases h - y,
            {
                let ghost before = self.flags_pos_refresh@;
                self.flags_pos_refresh.insert((off.0.wrapping_add(x as isize), off.1.wrapping_add(y as isize)));
                proof {
                    let after = Set::new(|p: Pos| exists|a: usize, b: usize|
                        #![trigger box_at(off, a, b)] (a < x && b < h || a == x && b < y + 1) && p == box_at(off, a, b));
                    let prev = Set::new(|p: Pos| exists|a: usize, b: usize|
                        #![trigger box_at(off, a, b)] (a < x && b < h || a == x && b < y) && p == box_at(off, a, b));
                    assert(box_at(off, x, y) == (off.0.wrapping_add(x as isize), off.1.wrapping_add(y as isize)));
                    assert forall|p: Pos| after.contains(p) <==> prev.contains(p) || p == box_at(off, x, y) by {
                        if after.contains(p) {
                            let (a, b) = choose|a: usize, b: usize| #![trigger box_at(off, a, b)] (a < x && b < h || a == x && b < y + 1) && p == box_at(off, a, b);
                            if !(a == x && b == y) {
                                assert(prev.contains(p));
                            }
                        }
                        if p == box_at(off, x, y) {
                            assert(after.contains(p));
                        }
                    }
                    assert(self.flags_pos_refresh@ =~= f0.union(after));
                }
                y += 1;
            }
            proof {
                let a1 = Set::new(|p: Pos| exists|a: usize, b: usize|
                    #![trigger box_at(off, a, b)] (a < x && b < h || a == x && b < y) && p == box_at(off, a, b));
                let a2 = Set::new(|p: Pos| exists|a: usize, b: usize|
                    #![trigger box_at(off, a, b)] a < x + 1 && b < h && p == box_at(off, a, b));
                assert forall|p: Pos| a1.contains(p) <==> a2.contains(p) by {
                    if a1.contains(p) {
                        let (a, b) = choose|a: usize, b: usize| #![trigger box_at(off, a, b)] (a < x && b < h || a == x && b < y) && p == box_at(off, a, b);
                        assert(a2.contains(p));
                    }
                    if a2.contains(p) {
                        let (a, b) = choose|a: usize, b: usize| #![trigger box_at(off, a, b)] a < x + 1 && b < h && p == box_at(off, a, b);
                        assert(a1.contains(p));
                    }
                }
                assert(a1 =~= a2);
            }
            x += 1;
        }
        proof {
            let a1 = Set::new(|p: Pos| exists|a: usize, b: usize|
                #![trigger box_at(off, a, b)] a < x && b < h && p == box_at(off, a, b));
            assert(a1 =~= refresh_box(off, w, h));
        }
    }

    /// Flags one position for redrawing and forgets what was drawn there.
    pub fn flag_pos(&mut self, x: isize, y: isize)
        ensures
            final(self).flags_pos_refresh@ == old(self).flags_pos_refresh@.insert((x, y)),
            final(self).cached_display@ == old(self).cached_display@.remove((x, y)),
            final(self).same_frame(*old(self)),
            final(self).same_space(*old(self)),
            final(self).character_space@ == old(self).character_space@,
            final(self).flag_full_refresh == old(self).flag_full_refresh,
            final(self).queued_display@ == old(self).queued_display@,
    {
        self.flags_pos_refresh.insert((x, y));
        match self.cached_display.remove(&(x, y)) {
            Some(_) => {},
            None => {},
        }
    }

    /// Every id recorded at a position is a child, and the position is in its record.
    pub open spec fn space_ok(self) -> bool {
        forall|p: Pos, i: int| #![trigger self.space()[p][i]]
            self.space().contains_key(p) && 0 <= i < self.space()[p].len() ==> {
                let c = self.space()[p][i];
                &&& self.children@.contains(c)
                &&& self.covers(c, p)
            }
    }

    /// Clearing a child's record keeps the records consistent.
    pub proof fn lemma_clear_keeps_space_ok(old_r: Rect, new_r: Rect, child: usize)
        requires
            old_r.space_ok(),
            new_r.space() == old_r.space_without(child),
            new_r.inverse() == old_r.inverse().insert(child, Seq::<Pos>::empty()),
            new_r.children@ == old_r.children@,
        ensures
            new_r.space_ok(),
            forall|p: Pos, i: int| #![trigger new_r.space()[p][i]]
                new_r.space().contains_key(p) && 0 <= i < new_r.space()[p].len() ==> new_r.space()[p][i] != child,
    {
        assert forall|p: Pos, i: int| #![trigger new_r.space()[p][i]]
            new_r.space().contains_key(p) && 0 <= i < new_r.space()[p].len() implies {
                let c = new_r.space()[p][i];
                &&& new_r.children@.contains(c)
                &&& new_r.covers(c, p)
                &&& c != child
            } by {
            let c = new_r.space()[p][i];
            let l = old_r.space()[p];
            if old_r.covers(child, p) {
                assert(new_r.space()[p] == without(l, child));
                assert(without(l, child).contains(c));
                lemma_without_contains(l, child, c);
                let j = choose|j: int| 0 <= j < l.len() && l[j] == c;
                assert(old_r.space()[p][j] == c);
            } else {
                assert(old_r.space()[p][i] == c);
                if c == child {
                    assert(old_r.covers(c, p));
                }
            }
        }
    }

    /// An id left at a position once a child's record is cleared was there before, is not
    /// that child, is a child, and has the position in its record.
    pub proof fn lemma_cleared_element(old_r: Rect, child: usize, p: Pos, c: usize)
        requires
            old_r.space_ok(),
            old_r.space_without(child).contains_key(p),
            old_r.space_without(child)[p].contains(c),
        ensures
            c != child,
            old_r.children@.contains(c),
            old_r.covers(c, p),
    {
        let l = old_r.space()[p];
        if old_r.covers(child, p) {
            lemma_without_contains(l, child, c);
        }
        let j = choose|j: int| 0 <= j < l.len() && l[j] == c;
        assert(old_r.space()[p][j] == c);
        if c == child {
            assert(old_r.covers(child, p));
            lemma_without_contains(l, child, c);
        }
    }

    /// Recording a child at new positions, after clearing its record, keeps the records
    /// consistent.
    pub proof fn lemma_update_keeps_space_ok(old_r: Rect, new_r: Rect, child: usize, corners: (isize, isize, isize, isize))
        requires
            old_r.space_ok(),
            old_r.children@.contains(child),
            new_r.children@ == old_r.children@,
            ({
                let mid_space = old_r.space_without(child);
                let mid_inverse = old_r.inverse().insert(child, Seq::<Pos>::empty());
                &&& new_r.space().dom() == mid_space.dom().union(old_r.placed_set(corners))
                &&& forall|p: Pos| #[trigger] new_r.space().contains_key(p) ==> (
                    if old_r.placed(p, corners) {
                        new_r.space()[p].to_multiset() == (if mid_space.contains_key(p) {
                            mid_space[p]
                        } else {
                            Seq::<usize>::empty()
                        }).push(child).to_multiset()
                    } else {
                        new_r.space()[p] == mid_space[p]
                    })
                &&& forall|k: usize| k != child ==> (#[trigger] new_r.inverse().contains_key(k) == mid_inverse.contains_key(k))
                &&& forall|k: usize| k != child && #[trigger] new_r.inverse().contains_key(k) ==> new_r.inverse()[k] == mid_inverse[k]
                &&& inv_set(new_r.inverse(), child) == inv_set(mid_inverse, child).union(old_r.placed_set(corners))
            }),
        ensures
            new_r.space_ok(),
    {
        broadcast use vstd::seq_lib::group_to_multiset_ensures;
        let mid_space = old_r.space_without(child);
        assert forall|p: Pos, i: int| #![trigger new_r.space()[p][i]]
            new_r.space().contains_key(p) && 0 <= i < new_r.space()[p].len() implies {
                let c = new_r.space()[p][i];
                &&& new_r.children@.contains(c)
                &&& new_r.covers(c, p)
            } by {
            let c = new_r.space()[p][i];
            let ml = if mid_space.contains_key(p) { mid_space[p] } else { Seq::<usize>::empty() };
            if old_r.placed(p, corners) {
                assert(new_r.space()[p].contains(c));
                assert(new_r.space()[p].to_multiset().count(c) > 0);
                assert(ml.push(child).to_multiset().count(c) > 0);
                assert(ml.push(child).contains(c));
                let j = choose|j: int| 0 <= j < ml.push(child).len() && ml.push(child)[j] == c;
                if j < ml.len() {
                    assert(ml[j] == c);
                    assert(mid_space.contains_key(p));
                    assert(mid_space[p].contains(c));
                    Self::lemma_cleared_element(old_r, child, p, c);
                    assert(new_r.inverse().contains_key(c));
                    assert(new_r.inverse()[c] == old_r.inverse()[c]);
                } else {
                    assert(c == child);
                    assert(old_r.placed_set(corners).contains(p));
                    assert(inv_set(new_r.inverse(), child).contains(p));
                }
            } else {
                assert(mid_space[p][i] == c);
                assert(mid_space[p].contains(c));
                Self::lemma_cleared_element(old_r, child, p, c);
                assert(new_r.inverse().contains_key(c));
                assert(new_r.inverse()[c] == old_r.inverse()[c]);
            }
        }
    }


    /// Removing a child (its records and its place in `children`) keeps the records consistent.
    pub proof fn lemma_detach_keeps_space_ok(old_r: Rect, new_r: Rect, child: usize)
        requires
            old_r.space_ok(),
            new_r.space() == old_r.space_without(child),
            new_r.inverse() == old_r.inverse().insert(child, Seq::<Pos>::empty()),
            new_r.children@ == without(old_r.children@, child),
        ensures
            new_r.space_ok(),
    {
        assert forall|p: Pos, i: int| #![trigger new_r.space()[p][i]]
            new_r.space().contains_key(p) && 0 <= i < new_r.space()[p].len() implies {
                let c = new_r.space()[p][i];
                &&& new_r.children@.contains(c)
                &&& new_r.covers(c, p)
            } by {
            let c = new_r.space()[p][i];
            assert(new_r.space()[p].contains(c));
            Self::lemma_cleared_element(old_r, child, p, c);
            lemma_without_contains(old_r.children@, child, c);
        }
    }

    /// Moves the cells at the given positions from what is waiting to be drawn to what was
    /// drawn.
    pub fn move_to_cached(&mut self, keys: &Vec<Pos>)
        requires
            keys@.no_duplicates(),
            forall|m: int| 0 <= m < keys@.len() ==> old(self).queued_display@.contains_key(#[trigger] keys@[m]),
        ensures
            final(self)@ == (RectView {
                queued_display: old(self).queued_display@.remove_keys(keys@.to_set()),
                cached_display: old(self).cached_display@.union_prefer_right(old(self).queued_display@.restrict(keys@.to_set())),
                ..old(self)@
            }),
    {
        let ghost r0 = self@;
        let mut i: usize = 0;
        proof {
            assert(keys@.take(0) =~= Seq::<Pos>::empty());
            assert(keys@.take(0).to_set() =~= Set::<Pos>::empty());
            assert(r0.queued_display.remove_keys(Set::<Pos>::empty()) =~= r0.queued_display);
            assert(r0.cached_display.union_prefer_right(r0.queued_display.restrict(Set::<Pos>::empty())) =~= r0.cached_display);
        }
        while i < keys.len()
            invariant
                i <= keys@.len(),
                keys@.no_duplicates(),
                forall|m: int| 0 <= m < keys@.len() ==> r0.queued_display.contains_key(#[trigger] keys@[m]),
                self@ == (RectView {
                    queued_display: r0.queued_display.remove_keys(keys@.take(i as int).to_set()),
                    cached_display: r0.cached_display.union_prefer_right(r0.queued_display.restrict(keys@.take(i as int).to_set())),
                    ..r0
                }),
            decreases keys@.len() - i,
        {
            let key = keys[i];
            let ghost s0 = keys@.take(i as int);
            let ghost s1 = keys@.take(i as int + 1);
            let ghost t0 = s0.to_set();
            let ghost t1 = s1.to_set();
            proof {
                assert(s1 =~= s0.push(key));
                assert(!s0.contains(key)) by {
                    if s0.contains(key) {
                        let m = choose|m: int| 0 <= m < s0.len() && s0[m] == key;
                        assert(keys@[m] == keys@[i as int]);
                    }
                }
                assert(self.queued_display@.contains_key(key));
            }
            let val = self.queued_display.remove(&key).unwrap();
            self.cached_display.insert(key, val);
            proof {
                assert forall|p: Pos| #[trigger] t1.contains(p) <==> t0.insert(key).contains(p) by {
                    if s1.contains(p) {
                        let m = choose|m: int| 0 <= m < s1.len() && s1[m] == p;
                        if m < i {
                            assert(s0[m] == p);
                        }
                    }
                    if s0.contains(p) {
                        let m = choose|m: int| 0 <= m < s0.len() && s0[m] == p;
                        assert(s1[m] == p);
                    }
                    if p == key {
                        assert(s1[i as int] == p);
                    }
                }
                assert(self@.queued_display =~= r0.queued_display.remove_keys(t1));
                assert(self@.cached_display =~= r0.cached_display.union_prefer_right(r0.queued_display.restrict(t1)));
            }
            i += 1;
        }
        proof {
            assert(keys@.take(keys@.len() as int) =~= keys@);
        }
    }

    /// Moves everything that was drawn back to what is waiting to be drawn.
    pub fn cached_to_queued(&mut self)
        ensures
            final(self).queued_display@ == old(self).queued_display@.union_prefer_right(old(self).cached_display@),
            final(self).cached_display@ == Map::<Pos, QueuedCell>::empty(),
            final(self).same_frame(*old(self)),
            final(self).same_space(*old(self)),
            final(self).character_space@ == old(self).character_space@,
            final(self).flag_full_refresh == old(self).flag_full_refresh,
            final(self).flags_pos_refresh@ == old(self).flags_pos_refresh@,
    {
        let mut tmp: Vec<(Pos, QueuedCell)> = Vec::new();
        let ghost cached = self.cached_display@;
        for kv in it: self.cached_display.iter()
            invariant
                it.seq().len() == cached.dom().len(),
                forall|k: Pos| #[trigger] cached.contains_key(k) ==> it.seq().contains((&k, &cached[k])),
                forall|j: int| 0 <= j < it.seq().len() ==> cached.contains_key(*it.seq()[j].0)
                    && cached[*it.seq()[j].0] == *it.seq()[j].1,
                tmp@.len() == it.index(),
                forall|j: int| 0 <= j < it.index() ==> #[trigger] tmp@[j] == (*it.seq()[j].0, *it.seq()[j].1),
                forall|k: Pos| #[trigger] cached.contains_key(k) ==> key_in_prefix(tmp@, tmp@.len() as int, k)
                    || exists|j: int| it.index() <= j < it.seq().len() && *it.seq()[j].0 == k,
        {
            let (k, v) = kv;
            let ghost idx = it.index();
            let ghost t0 = tmp@;
            tmp.push((*k, *v));
            proof {
                assert(tmp@[idx as int] == (*k, *v));
                assert forall|q: Pos| #[trigger] cached.contains_key(q) implies key_in_prefix(tmp@, tmp@.len() as int, q)
                    || exists|j: int| idx + 1 <= j < it.seq().len() && *it.seq()[j].0 == q by {
                    if key_in_prefix(t0, idx as int, q) {
                        let j = choose|j: int| 0 <= j < idx && t0[j].0 == q;
                        assert(tmp@[j].0 == q);
                    } else if exists|j: int| idx <= j < it.seq().len() && *it.seq()[j].0 == q {
                        let j = choose|j: int| idx <= j < it.seq().len() && *it.seq()[j].0 == q;
                        if j == idx {
                            assert(tmp@[idx as int].0 == q);
                        }
                    }
                }
            }
        }
        self.cached_display.clear();
        let ghost q0 = self.queued_display@;
        let mut i: usize = 0;
        while i < tmp.len()
            invariant
                0 <= i <= tmp.len(),
                forall|j: int| 0 <= j < tmp@.len() ==> cached.contains_key(#[trigger] tmp@[j].0) && cached[tmp@[j].0] == tmp@[j].1,
                forall|k: Pos| #[trigger] cached.contains_key(k) ==> key_in_prefix(tmp@, tmp@.len() as int, k),
                self.cached_display@ == Map::<Pos, QueuedCell>::empty(),
                self.same_frame(*old(self)),
                self.same_space(*old(self)),
                self.character_space@ == old(self).character_space@,
                self.flag_full_refresh == old(self).flag_full_refresh,
                self.flags_pos_refresh@ == old(self).flags_pos_refresh@,
                forall|k: Pos| #[trigger] self.queued_display@.contains_key(k) <==> (q0.contains_key(k) || key_in_prefix(tmp@, i as int, k)),
                forall|k: Pos| #[trigger] self.queued_display@.contains_key(k) ==> self.queued_display@[k] == (
                    if key_in_prefix(tmp@, i as int, k) { cached[k] } else { q0[k] }),
            decreases tmp.len() - i,
        {
            let (k, v) = tmp[i];
            self.queued_display.insert(k, v);
            proof {
                assert(tmp@[i as int].0 == k);
                assert forall|q: Pos| key_in_prefix(tmp@, i + 1, q) <==> (key_in_prefix(tmp@, i as int, q) || q == k) by {
                    if key_in_prefix(tmp@, i + 1, q) {
                        let j = choose|j: int| 0 <= j < i + 1 && tmp@[j].0 == q;
                        if j < i {
                            assert(key_in_prefix(tmp@, i as int, q));
                        }
                    }
                    if q == k {
                        assert(tmp@[i as int].0 == q);
                    }
                    if key_in_prefix(tmp@, i as int, q) {
                        let j = choose|j: int| 0 <= j < i && tmp@[j].0 == q;
                        assert(tmp@[j].0 == q);
                    }
                }
            }
            i += 1;
        }
        proof {
            assert forall|k: Pos| key_in_prefix(tmp@, tmp@.len() as int, k) <==> cached.contains_key(k) by {
                if key_in_prefix(tmp@, tmp@.len() as int, k) {
                    let j = choose|j: int| 0 <= j < tmp@.len() && tmp@[j].0 == k;
                    assert(cached.contains_key(tmp@[j].0));
                }
            }
            assert(self.queued_display@ =~= q0.union_prefer_right(cached));
        }
    }
}

} // verus!
