//! Turning a list of positioned, styled characters into an ANSI escape string.
use vstd::prelude::*;
use crate::effects::{Color, EffectsHandler, spec_color_code, color_code, plain_effects};

verus! {

/// `String::push` of std appends one character to the string.
pub assume_specification[ String::push ](s: &mut String, ch: char)
    ensures
        final(s)@ == old(s)@.push(ch),
;

/// A character at an absolute position, with the effects it is drawn with.
pub type DisplayCell = ((isize, isize), (char, EffectsHandler));

/// The character of a decimal digit.
pub open spec fn digit_char(d: nat) -> char {
    if d == 0 { '0' }
    else if d == 1 { '1' }
    else if d == 2 { '2' }
    else if d == 3 { '3' }
    else if d == 4 { '4' }
    else if d == 5 { '5' }
    else if d == 6 { '6' }
    else if d == 7 { '7' }
    else if d == 8 { '8' }
    else { '9' }
}

/// The decimal digits of a natural number, most significant first, without leading zeros.
pub open spec fn dec_digits(n: nat) -> Seq<char>
    decreases n,
{
    if n < 10 {
        seq![digit_char(n)]
    } else {
        dec_digits(n / 10).push(digit_char(n % 10))
    }
}

/// The decimal form of an integer, with a leading '-' when it is negative.
pub open spec fn dec_int(i: int) -> Seq<char> {
    if i < 0 {
        seq!['-'] + dec_digits((-i) as nat)
    } else {
        dec_digits(i as nat)
    }
}

fn push_digit(s: &mut String, d: u128)
    requires
        d < 10,
    ensures
        final(s)@ == old(s)@.push(digit_char(d as nat)),
{
    let c = if d == 0 { '0' }
    else if d == 1 { '1' }
    else if d == 2 { '2' }
    else if d == 3 { '3' }
    else if d == 4 { '4' }
    else if d == 5 { '5' }
    else if d == 6 { '6' }
    else if d == 7 { '7' }
    else if d == 8 { '8' }
    else { '9' };
    s.push(c);
}

fn push_digits(s: &mut String, n: u128)
    ensures
        final(s)@ == old(s)@ + dec_digits(n as nat),
    decreases n,
{
    if n >= 10 {
        push_digits(s, n / 10);
    }
    push_digit(s, n % 10);
    assert(final(s)@ =~= old(s)@ + dec_digits(n as nat));
}

/// Appends the decimal form of `i` to `s`.
pub fn push_decimal(s: &mut String, i: i128)
    requires
        i > i128::MIN,
    ensures
        final(s)@ == old(s)@ + dec_int(i as int),
{
    if i < 0 {
        s.push('-');
        let m: u128 = (-i) as u128;
        push_digits(s, m);
        assert(final(s)@ =~= old(s)@ + dec_int(i as int));
    } else {
        push_digits(s, i as u128);
    }
}

/// The code that selects color `c` as foreground.
pub open spec fn fg_code(c: Color) -> u8 {
    let n = spec_color_code(c);
    if n >= 8 { (90 + (n - 8)) as u8 } else { (30 + n) as u8 }
}

/// The code that selects color `c` as background.
pub open spec fn bg_code(c: Color) -> u8 {
    let n = spec_color_code(c);
    if n >= 8 { (100 + (n - 8)) as u8 } else { (40 + n) as u8 }
}

/// The codes that change the foreground from `old` to `new`.
pub open spec fn fg_change(new: Option<Color>, old: Option<Color>) -> Seq<u8> {
    if new != old {
        match new {
            Some(c) => seq![fg_code(c)],
            None => seq![39u8],
        }
    } else {
        seq![]
    }
}

/// The codes that change the background from `old` to `new`.
pub open spec fn bg_change(new: Option<Color>, old: Option<Color>) -> Seq<u8> {
    if new != old {
        match new {
            Some(c) => seq![bg_code(c)],
            None => seq![49u8],
        }
    } else {
        seq![]
    }
}

/// The code that switches a flag from `old` to `new`: `on` or `off`, or none if it stays.
pub open spec fn toggle_code(new: bool, old: bool, on: u8, off: u8) -> Seq<u8> {
    if new != old {
        seq![if new { on } else { off }]
    } else {
        seq![]
    }
}

/// The SGR codes that switch the terminal from the effects `active` to `new`.
pub open spec fn sgr_codes(new: EffectsHandler, active: EffectsHandler) -> Seq<u8> {
    if new.spec_is_plain() {
        seq![0u8]
    } else {
        fg_change(new.foreground_color, active.foreground_color)
            + bg_change(new.background_color, active.background_color)
            + toggle_code(new.bold, active.bold, 1, 22)
            + toggle_code(new.underline, active.underline, 4, 24)
            + toggle_code(new.invert, active.invert, 7, 27)
            + toggle_code(new.italics, active.italics, 3, 23)
            + toggle_code(new.blink, active.blink, 5, 25)
            + toggle_code(new.strike, active.strike, 9, 29)
    }
}

/// Codes written in decimal and separated by ';'.
pub open spec fn join_codes(codes: Seq<u8>) -> Seq<char>
    decreases codes.len(),
{
    if codes.len() == 0 {
        seq![]
    } else if codes.len() == 1 {
        dec_int(codes[0] as int)
    } else {
        join_codes(codes.drop_last()) + seq![';'] + dec_int(codes.last() as int)
    }
}

/// The escape sequence that moves the cursor to column `x`, row `y` (counted from 0).
pub open spec fn cursor_move(x: isize, y: isize) -> Seq<char> {
    seq!['\x1B', '['] + dec_int(y.wrapping_add(1) as int) + seq![';'] + dec_int(
        x.wrapping_add(1) as int,
    ) + seq!['H']
}

/// The escape sequence that switches the effects from `active` to `new`.
pub open spec fn sgr_sequence(new: EffectsHandler, active: EffectsHandler) -> Seq<char> {
    seq!['\x1B', '['] + join_codes(sgr_codes(new, active)) + seq!['m']
}

/// The text that draws `cells` in order, when the cursor stands at (`col`, `row`) and the
/// effects `active` are in force: a cursor move where a cell is not where the cursor is, an
/// effects change where its effects differ, then its character.
pub open spec fn ansi_cells(cells: Seq<DisplayCell>, col: isize, row: isize, active: EffectsHandler) -> Seq<char>
    decreases cells.len(),
{
    if cells.len() == 0 {
        seq![]
    } else {
        let (pos, val) = cells[0];
        let moved = if pos.1 != row || pos.0 != col { cursor_move(pos.0, pos.1) } else { seq![] };
        let styled = if val.1 != active { sgr_sequence(val.1, active) } else { seq![] };
        moved + styled + seq![val.0] + ansi_cells(cells.skip(1), pos.0.wrapping_add(1), pos.1, val.1)
    }
}

/// The column and row the cursor is taken to start at: away from every cell a screen has.
pub open spec fn start_cursor() -> isize {
    -10isize
}

/// The full ANSI text for a list of cells, starting from plain effects.
pub open spec fn spec_ansi_string(cells: Seq<DisplayCell>) -> Seq<char> {
    ansi_cells(cells, start_cursor(), start_cursor(), plain_effects())
}

fn push_escape_start(s: &mut String)
    ensures
        final(s)@ == old(s)@ + seq!['\x1B', '['],
{
    s.push('\x1B');
    s.push('[');
    assert(final(s)@ =~= old(s)@ + seq!['\x1B', '[']);
}

fn color_fg_code(c: Color) -> (n: u8)
    ensures
        n == fg_code(c),
{
    let tmp = color_code(c);
    if tmp & 8 == 8 {
        assert(tmp & 8 == 8 ==> tmp >= 8 && (tmp & 7) == tmp - 8) by (bit_vector)
            requires tmp < 16u8;
        90 + (tmp & 7)
    } else {
        assert(tmp & 8 != 8 ==> tmp < 8 && (tmp & 7) == tmp) by (bit_vector)
            requires tmp < 16u8;
        30 + (tmp & 7)
    }
}

fn color_bg_code(c: Color) -> (n: u8)
    ensures
        n == bg_code(c),
{
    let tmp = color_code(c);
    if tmp & 8 == 8 {
        assert(tmp & 8 == 8 ==> tmp >= 8 && (tmp & 7) == tmp - 8) by (bit_vector)
            requires tmp < 16u8;
        100 + (tmp & 7)
    } else {
        assert(tmp & 8 != 8 ==> tmp < 8 && (tmp & 7) == tmp) by (bit_vector)
            requires tmp < 16u8;
        40 + (tmp & 7)
    }
}

fn push_toggle(codes: &mut Vec<u8>, new: bool, prev: bool, on: u8, off: u8)
    ensures
        final(codes)@ == old(codes)@ + toggle_code(new, prev, on, off),
{
    if new != prev {
        if new {
            codes.push(on);
        } else {
            codes.push(off);
        }
    }
    assert(final(codes)@ =~= old(codes)@ + toggle_code(new, prev, on, off));
}

fn push_fg_change(codes: &mut Vec<u8>, new: Option<Color>, prev: Option<Color>)
    ensures
        final(codes)@ == old(codes)@ + fg_change(new, prev),
{
    if new != prev {
        match new {
            Some(fg) => {
                let n = color_fg_code(fg);
                codes.push(n);
            },
            None => {
                codes.push(39);
            },
        }
    }
    assert(final(codes)@ =~= old(codes)@ + fg_change(new, prev));
}

fn push_bg_change(codes: &mut Vec<u8>, new: Option<Color>, prev: Option<Color>)
    ensures
        final(codes)@ == old(codes)@ + bg_change(new, prev),
{
    if new != prev {
        match new {
            Some(bg) => {
                let n = color_bg_code(bg);
                codes.push(n);
            },
            None => {
                codes.push(49);
            },
        }
    }
    assert(final(codes)@ =~= old(codes)@ + bg_change(new, prev));
}

/// The SGR codes that switch from the effects `active` to `new`.
fn build_sgr_codes(new: &EffectsHandler, active: &EffectsHandler) -> (codes: Vec<u8>)
    ensures
        codes@ == sgr_codes(*new, *active),
{
    let mut codes: Vec<u8> = Vec::new();
    if new.is_plain() {
        codes.push(0);
        assert(codes@ =~= sgr_codes(*new, *active));
        return codes;
    }
    push_fg_change(&mut codes, new.foreground_color, active.foreground_color);
    push_bg_change(&mut codes, new.background_color, active.background_color);
    let ghost c1 = codes@;
    push_toggle(&mut codes, new.bold, active.bold, 1, 22);
    let ghost c2 = codes@;
    push_toggle(&mut codes, new.underline, active.underline, 4, 24);
    let ghost c3 = codes@;
    push_toggle(&mut codes, new.invert, active.invert, 7, 27);
    let ghost c4 = codes@;
    push_toggle(&mut codes, new.italics, active.italics, 3, 23);
    let ghost c5 = codes@;
    push_toggle(&mut codes, new.blink, active.blink, 5, 25);
    push_toggle(&mut codes, new.strike, active.strike, 9, 29);
    proof {
        let f = fg_change(new.foreground_color, active.foreground_color);
        let b = bg_change(new.background_color, active.background_color);
        let t1 = toggle_code(new.bold, active.bold, 1, 22);
        let t2 = toggle_code(new.underline, active.underline, 4, 24);
        let t3 = toggle_code(new.invert, active.invert, 7, 27);
        let t4 = toggle_code(new.italics, active.italics, 3, 23);
        let t5 = toggle_code(new.blink, active.blink, 5, 25);
        let t6 = toggle_code(new.strike, active.strike, 9, 29);
        assert(c1 =~= f + b);
        assert(codes@ =~= f + b + t1 + t2 + t3 + t4 + t5 + t6);
        assert(!new.spec_is_plain());
        assert(sgr_codes(*new, *active) == f + b + t1 + t2 + t3 + t4 + t5 + t6);
    }
    codes
}

fn push_joined_codes(s: &mut String, codes: &Vec<u8>)
    ensures
        final(s)@ == old(s)@ + join_codes(codes@),
{
    let mut i: usize = 0;
    while i < codes.len()
        invariant
            0 <= i <= codes.len(),
            s@ == old(s)@ + join_codes(codes@.take(i as int)),
        decreases codes.len() - i,
    {
        let ghost before = s@;
        if i > 0 {
            s.push(';');
        }
        push_decimal(s, codes[i] as i128);
        proof {
            let t = codes@.take(i as int + 1);
            assert(t.drop_last() =~= codes@.take(i as int));
            if i == 0 {
                assert(join_codes(codes@.take(0)) =~= seq![]);
            }
            assert(s@ =~= old(s)@ + join_codes(t));
        }
        i += 1;
    }
    assert(codes@.take(codes@.len() as int) =~= codes@);
}

/// Builds the ANSI text that draws the given cells in order (see `spec_ansi_string`).
pub fn build_ansi_string(display_map: &Vec<DisplayCell>) -> (out: String)
    ensures
        out@ == spec_ansi_string(display_map@),
{
    let mut renderstring = String::new();
    let mut active_effects = EffectsHandler::new();
    let mut current_col: isize = -10;
    let mut current_row: isize = -10;
    let mut i: usize = 0;
    assert(display_map@.skip(0) =~= display_map@);
    assert(renderstring@ + spec_ansi_string(display_map@) =~= spec_ansi_string(display_map@));
    while i < display_map.len()
        invariant
            0 <= i <= display_map.len(),
            renderstring@ + ansi_cells(display_map@.skip(i as int), current_col, current_row, active_effects)
                == spec_ansi_string(display_map@),
        decreases display_map.len() - i,
    {
        let ghost before = renderstring@;
        let ghost rest = display_map@.skip(i as int);
        let ghost old_col = current_col;
        let ghost old_row = current_row;
        let (pos, val) = display_map[i];
        assert(rest[0] == (pos, val));
        assert(rest.skip(1) =~= display_map@.skip(i as int + 1));
        if pos.1 != current_row || pos.0 != current_col {
            push_escape_start(&mut renderstring);
            push_decimal(&mut renderstring, pos.1.wrapping_add(1) as i128);
            renderstring.push(';');
            push_decimal(&mut renderstring, pos.0.wrapping_add(1) as i128);
            renderstring.push('H');
            current_col = pos.0;
            current_row = pos.1;
        }
        let ghost after_move = renderstring@;
        let new_effects = val.1;
        if new_effects != active_effects {
            let codes = build_sgr_codes(&new_effects, &active_effects);
            push_escape_start(&mut renderstring);
            push_joined_codes(&mut renderstring, &codes);
            renderstring.push('m');
        }
        let ghost after_style = renderstring@;
        let ghost old_active = active_effects;
        active_effects = new_effects;
        renderstring.push(val.0);
        current_col = current_col.wrapping_add(1);
        proof {
            let moved = if pos.1 != old_row || pos.0 != old_col { cursor_move(pos.0, pos.1) } else { seq![] };
            let styled = if val.1 != old_active { sgr_sequence(val.1, old_active) } else { seq![] };
            assert(after_move =~= before + moved);
            assert(after_style =~= after_move + styled);
            assert(renderstring@ =~= before + moved + styled + seq![val.0]);
        }
        i += 1;
    }
    assert(display_map@.skip(display_map.len() as int) =~= seq![]);
    renderstring
}

/// What ends a drawn frame: effects reset, and the cursor back at the top left corner.
pub open spec fn frame_end() -> Seq<char> {
    seq!['\x1B', '[', '0', 'm', '\x1B', '[', '1', ';', '1', 'H']
}

/// Appends the end of a frame (see `frame_end`).
pub fn push_frame_end(s: &mut String)
    ensures
        final(s)@ == old(s)@ + frame_end(),
{
    push_escape_start(s);
    s.push('0');
    s.push('m');
    push_escape_start(s);
    s.push('1');
    s.push(';');
    s.push('1');
    s.push('H');
    assert(final(s)@ =~= old(s)@ + frame_end());
}

} // verus!
