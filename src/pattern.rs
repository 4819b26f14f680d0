//! The game is played using *code pegs* of six different colors.
//! The codemaker chooses a pattern of four code pegs.
//!
//! Here a pattern is held as its index, and its pegs are named colours.
use vstd::prelude::*;
use crate::scoring::{feedback_of, index_of, symbols, symbols_of, tally, CARDINALITY, RADIX, SIZE};

verus! {

/// The game is played using *code pegs* of six different colors.
#[derive(PartialEq, Eq, Copy, Clone, Debug, Structural)]
pub enum CodePeg {
    Red,
    Orn,
    Yel,
    Grn,
    Blu,
    Wht,
}

/// The symbol of a colour: its place in the order Red, Orn, Yel, Grn, Blu, Wht.
pub open spec fn colour_index(peg: CodePeg) -> u8 {
    match peg {
        CodePeg::Red => 0,
        CodePeg::Orn => 1,
        CodePeg::Yel => 2,
        CodePeg::Grn => 3,
        CodePeg::Blu => 4,
        CodePeg::Wht => 5,
    }
}

/// The symbols of four pegs.
pub open spec fn peg_symbols(pegs: Seq<CodePeg>) -> Seq<u8> {
    pegs.map_values(|p: CodePeg| colour_index(p))
}

impl CodePeg {
    /// The symbol of this colour.
    fn encode(self) -> (r: u8)
        ensures
            r == colour_index(self),
    {
        match self {
            CodePeg::Red => 0,
            CodePeg::Orn => 1,
            CodePeg::Yel => 2,
            CodePeg::Grn => 3,
            CodePeg::Blu => 4,
            CodePeg::Wht => 5,
        }
    }

    /// The colour of a symbol below RADIX.
    fn decode(symbol: u8) -> (r: CodePeg)
        requires
            symbol < RADIX,
        ensures
            colour_index(r) == symbol,
    {
        match symbol {
            0 => CodePeg::Red,
            1 => CodePeg::Orn,
            2 => CodePeg::Yel,
            3 => CodePeg::Grn,
            4 => CodePeg::Blu,
            _ => CodePeg::Wht,
        }
    }
}

/// The codemaker chooses a pattern of four code pegs. Duplicates are
/// allowed, so a pattern may even hold four pegs of one colour. The field is
/// the pattern's index; an index of CARDINALITY or more stands for the
/// pattern of its last four base-six digits.
#[derive(PartialEq, Eq, Copy, Clone, PartialOrd, Ord, Debug, Structural)]
pub struct Pattern(pub usize);

/// A colored or black key peg is placed for each code peg from the guess
/// which is correct in both color and position. A white key peg indicates the
/// existence of a correct color code peg placed in the wrong position.
#[derive(Debug, PartialEq, Eq, Copy, Clone, Hash, Structural)]
pub struct Distance {
    pub blacks: usize,
    pub whites: usize,
}

impl Distance {
    /// If the response is four colored pegs, the game is won.
    pub fn win(self) -> (r: bool)
        ensures
            r == (self.blacks == SIZE),
    {
        self.blacks == Pattern::size()
    }
}

impl Pattern {
    /// The codemaker chooses a pattern of four code pegs.
    pub fn size() -> (r: usize)
        ensures
            r == SIZE,
    {
        4
    }

    /// The game is played using code pegs of six different colors.
    pub fn radix() -> (r: usize)
        ensures
            r == RADIX,
    {
        6
    }

    /// Number of possible patterns, 1111, 1112, .., 6666.
    pub fn cardinality() -> (r: usize)
        ensures
            r == CARDINALITY,
    {
        let radix = Pattern::radix();
        radix * radix * radix * radix
    }

    /// The pattern with a given index.
    pub fn ith(lex_ix: usize) -> (r: Pattern)
        requires
            lex_ix < CARDINALITY,
        ensures
            r.0 == lex_ix,
    {
        Pattern(lex_ix)
    }

    /// The pattern of four pegs, the first one the most significant.
    pub fn new(pegs: [CodePeg; 4]) -> (r: Pattern)
        ensures
            r.0 == index_of(peg_symbols(pegs@)),
            r.0 < CARDINALITY,
    {
        let radix = Pattern::radix();
        let e0 = pegs[0].encode() as usize;
        let e1 = pegs[1].encode() as usize;
        let e2 = pegs[2].encode() as usize;
        let e3 = pegs[3].encode() as usize;
        let ix = e3 + radix * (e2 + radix * (e1 + radix * e0));
        Pattern(ix)
    }

    /// The four pegs of this pattern, the first one the most significant.
    pub fn pegs(&self) -> (r: [CodePeg; 4])
        ensures
            peg_symbols(r@) == symbols_of(self.0 as nat),
    {
        let sym = symbols(self.0);
        let mut out: [CodePeg; 4] = [CodePeg::Red, CodePeg::Red, CodePeg::Red, CodePeg::Red];
        let mut pos: usize = 0;
        while pos < Pattern::size()
            invariant
                pos <= SIZE,
                sym@ == symbols_of(self.0 as nat),
                forall|i: int| 0 <= i < 4 ==> sym@[i] < RADIX,
                forall|i: int| 0 <= i < pos ==> colour_index(#[trigger] out@[i]) == sym@[i],
            decreases SIZE - pos,
        {
            out[pos] = CodePeg::decode(sym[pos]);
            pos = pos + 1;
        }
        assert(peg_symbols(out@) =~= symbols_of(self.0 as nat));
        out
    }

    /// The key pegs that the codemaker, holding this pattern, places for
    /// `guess`: black pegs for exact matches, then, for each other guess
    /// position from left to right, a white peg when an unused position of
    /// this pattern holds the same colour.
    pub fn score(&self, guess: Pattern) -> (r: Distance)
        ensures
            (r.blacks as nat, r.whites as nat) == feedback_of(self.0 as nat, guess.0 as nat),
    {
        let s = symbols(self.0);
        let g = symbols(guess.0);
        let (blacks, whites) = tally(&s, &g);
        Distance { blacks: blacks as usize, whites: whites as usize }
    }
}

} // verus!
