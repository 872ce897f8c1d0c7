//! Laying a string out in a rectangle, row after row.
use vstd::prelude::*;
use crate::rect::{Rect, Pos};

verus! {

/// The absolute value of an integer.
pub open spec fn abs(i: int) -> int {
    if i >= 0 { i } else { -i }
}

/// The quotient of `i` by `w` rounded toward zero, as Rust's `/` on signed integers gives it.
pub open spec fn tdiv(i: int, w: int) -> int {
    if (i >= 0) == (w > 0) { abs(i) / abs(w) } else { -(abs(i) / abs(w)) }
}

/// The remainder that goes with `tdiv`: it has the sign of `i`, as Rust's `%` gives it.
pub open spec fn trem(i: int, w: int) -> int {
    if i >= 0 { abs(i) % abs(w) } else { -(abs(i) % abs(w)) }
}

/// The quotient and the remainder of `i` by `w`, rounded toward zero.
pub fn trunc_div_rem(i: isize, w: isize) -> (r: (isize, isize))
    requires
        w != 0,
        !(w == -1 && i == isize::MIN),
    ensures
        r.0 == tdiv(i as int, w as int),
        r.1 == trem(i as int, w as int),
{
    let wide_i = i as i128;
    let wide_w = w as i128;
    let ai: u128 = if wide_i >= 0 { wide_i as u128 } else { (0 - wide_i) as u128 };
    let aw: u128 = if wide_w >= 0 { wide_w as u128 } else { (0 - wide_w) as u128 };
    let qa = ai / aw;
    let ra = ai % aw;
    proof {
        assert(ai == abs(i as int));
        assert(aw == abs(w as int));
        assert(qa <= ai) by (nonlinear_arith)
            requires
                aw >= 1,
                qa == ai / aw,
        ;
        assert(aw >= 2 ==> qa * 2 <= ai) by (nonlinear_arith)
            requires
                aw >= 1,
                qa == ai / aw,
        ;
        assert(ra < aw);
    }
    let q: i128 = if (wide_i >= 0) == (wide_w > 0) { qa as i128 } else { 0 - (qa as i128) };
    let r: i128 = if wide_i >= 0 { ra as i128 } else { 0 - (ra as i128) };
    (q as isize, r as isize)
}

/// Each `char` takes at least one byte in UTF-8.
pub proof fn lemma_utf8_len(cs: Seq<char>)
    ensures
        cs.len() <= vstd::utf8::encode_utf8(cs).len(),
    decreases cs.len(),
{
    if cs.len() > 0 {
        lemma_utf8_len(cs.drop_first());
        assert(vstd::utf8::encode_scalar(cs[0] as u32).len() >= 1);
    }
}

/// The position at which the character at `offset` (counted row after row from the
/// rectangle's corner) goes, in a rectangle `w` wide.
pub open spec fn slot(offset: int, w: int) -> Pos {
    (trem(offset, w) as isize, tdiv(offset, w) as isize)
}

/// The characters of `r` once the characters of `cs` are set in turn from `start` on, each
/// as `Rect::set_character` sets one: where none was set, the default character is not stored.
pub open spec fn written(r: Rect, cs: Seq<char>, start: int) -> Map<Pos, char>
    decreases cs.len(),
{
    if cs.len() == 0 {
        r.character_space@
    } else {
        let prev = written(r, cs.drop_last(), start);
        let p = slot(start + cs.len() - 1, crate::rect::signed(r.width) as int);
        let c = cs.last();
        let change = if prev.contains_key(p) { prev[p] != c } else { c != r.default_character };
        if change { prev.insert(p, c) } else { prev }
    }
}

} // verus!
