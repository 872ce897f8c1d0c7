//! Colors and text effects of a rectangle.
use vstd::prelude::*;

verus! {

/// The ANSI colors, the eight plain ones and their bright variants.
#[derive(PartialEq, Eq, Structural, Clone, Copy, PartialOrd, Ord, Debug)]
pub enum Color {
    BLACK,
    RED,
    GREEN,
    YELLOW,
    BLUE,
    MAGENTA,
    CYAN,
    WHITE,
    BRIGHTBLACK,
    BRIGHTRED,
    BRIGHTGREEN,
    BRIGHTYELLOW,
    BRIGHTBLUE,
    BRIGHTMAGENTA,
    BRIGHTCYAN,
    BRIGHTWHITE,
}

/// The number of a color: 0 to 7 for the plain colors, 8 to 15 for the bright ones.
pub open spec fn spec_color_code(c: Color) -> u8 {
    match c {
        Color::BLACK => 0,
        Color::RED => 1,
        Color::GREEN => 2,
        Color::YELLOW => 3,
        Color::BLUE => 4,
        Color::MAGENTA => 5,
        Color::CYAN => 6,
        Color::WHITE => 7,
        Color::BRIGHTBLACK => 8,
        Color::BRIGHTRED => 9,
        Color::BRIGHTGREEN => 10,
        Color::BRIGHTYELLOW => 11,
        Color::BRIGHTBLUE => 12,
        Color::BRIGHTMAGENTA => 13,
        Color::BRIGHTCYAN => 14,
        Color::BRIGHTWHITE => 15,
    }
}

/// The number of a color (see `spec_color_code`).
pub fn color_code(c: Color) -> (n: u8)
    ensures
        n == spec_color_code(c),
        n < 16,
{
    match c {
        Color::BLACK => 0,
        Color::RED => 1,
        Color::GREEN => 2,
        Color::YELLOW => 3,
        Color::BLUE => 4,
        Color::MAGENTA => 5,
        Color::CYAN => 6,
        Color::WHITE => 7,
        Color::BRIGHTBLACK => 8,
        Color::BRIGHTRED => 9,
        Color::BRIGHTGREEN => 10,
        Color::BRIGHTYELLOW => 11,
        Color::BRIGHTBLUE => 12,
        Color::BRIGHTMAGENTA => 13,
        Color::BRIGHTCYAN => 14,
        Color::BRIGHTWHITE => 15,
    }
}

/// The text effects of a rectangle, kept together instead of as separate flags.
#[derive(PartialEq, Eq, Structural, PartialOrd, Ord, Clone, Copy, Debug)]
pub struct EffectsHandler {
    pub bold: bool,
    pub underline: bool,
    pub invert: bool,
    pub italics: bool,
    pub strike: bool,
    pub blink: bool,
    pub background_color: Option<Color>,
    pub foreground_color: Option<Color>,
}

/// Effects with every flag off and no color.
pub open spec fn plain_effects() -> EffectsHandler {
    EffectsHandler {
        bold: false,
        underline: false,
        invert: false,
        italics: false,
        strike: false,
        blink: false,
        background_color: None,
        foreground_color: None,
    }
}

/// 1 for a set flag, 0 otherwise.
pub open spec fn flag_count(b: bool) -> nat {
    if b { 1 } else { 0 }
}

impl EffectsHandler {
    /// Whether no effect at all is set.
    pub open spec fn spec_is_plain(self) -> bool {
        self == plain_effects()
    }

    /// How many effects are set, counting each color as one.
    pub open spec fn spec_len(self) -> nat {
        flag_count(self.bold) + flag_count(self.underline) + flag_count(self.invert)
            + flag_count(self.italics) + flag_count(self.strike) + flag_count(self.blink)
            + flag_count(self.background_color is Some) + flag_count(self.foreground_color is Some)
    }

    /// Effects with nothing set.
    pub fn new() -> (e: EffectsHandler)
        ensures
            e == plain_effects(),
    {
        EffectsHandler {
            bold: false,
            underline: false,
            invert: false,
            italics: false,
            strike: false,
            blink: false,
            background_color: None,
            foreground_color: None,
        }
    }

    /// Whether no flag and no color is set.
    pub fn is_plain(&self) -> (b: bool)
        ensures
            b == self.spec_is_plain(),
    {
        !self.bold && !self.underline && !self.invert && !self.italics && !self.strike
            && !self.blink && self.background_color.is_none() && self.foreground_color.is_none()
    }

    /// Turns every flag off and removes both colors.
    pub fn clear(&mut self)
        ensures
            *final(self) == plain_effects(),
    {
        self.bold = false;
        self.underline = false;
        self.invert = false;
        self.italics = false;
        self.strike = false;
        self.blink = false;
        self.background_color = None;
        self.foreground_color = None;
    }

    /// The number of effects that are set, each color counting as one.
    pub fn len(&mut self) -> (n: usize)
        ensures
            n == old(self).spec_len(),
            *final(self) == *old(self),
    {
        let mut output: usize = 0;
        if self.bold {
            output += 1;
        }
        assert(output == flag_count(self.bold));
        if self.underline {
            output += 1;
        }
        assert(output == flag_count(self.bold) + flag_count(self.underline));
        if self.invert {
            output += 1;
        }
        let ghost three = flag_count(self.bold) + flag_count(self.underline) + flag_count(
            self.invert,
        );
        assert(output == three);
        if self.italics {
            output += 1;
        }
        assert(output == three + flag_count(self.italics));
        if self.strike {
            output += 1;
        }
        assert(output == three + flag_count(self.italics) + flag_count(self.strike));
        if self.blink {
            output += 1;
        }
        let ghost six = three + flag_count(self.italics) + flag_count(self.strike) + flag_count(
            self.blink,
        );
        assert(output == six);
        if self.background_color.is_some() {
            output += 1;
        }
        assert(output == six + flag_count(self.background_color is Some));
        if self.foreground_color.is_some() {
            output += 1;
        }
        output
    }
}

} // verus!
