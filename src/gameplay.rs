//! Mastermind is a code-breaking game for two players.
//!
//! The codemaker hides a pattern of four code pegs, each one of six colours,
//! duplicates allowed. The codebreaker guesses patterns; for each guess the
//! codemaker answers with key pegs: a black one for each code peg of the guess
//! that is right in both colour and position, a white one for each further
//! code peg of the right colour in the wrong position. Duplicate colours in
//! the guess earn key pegs only up to their number in the hidden pattern.
//!
//! Patterns are written with the digits '1' to '6', one per position; a
//! pattern is identified with its index among all 1296 of them, the digits
//! read in base six, most significant first.
use vstd::prelude::*;
use vstd::string::StringExecFns;
use crate::scoring::{
    feedback_of,
    index_of,
    lemma_index_round_trip,
    symbols,
    symbols_of,
    tally,
    CARDINALITY,
    RADIX,
    SIZE,
};

verus! {

/// The board: a shield over the hidden pattern at one end, and rows for the
/// guesses.
pub struct DecodingBoard {
    pub rows: u8,
}

impl Default for DecodingBoard {
    /// A board of twelve rows.
    fn default() -> (r: Self)
        ensures
            r.rows == 12,
    {
        DecodingBoard { rows: 12 }
    }
}

/// The code pegs, placed in the large holes of the board.
pub struct CodePeg;

impl CodePeg {
    /// The game is played using code pegs of six different colours.
    pub fn colors() -> (r: u8)
        ensures
            r == RADIX,
    {
        6
    }
}

/// The character that shows symbol `d`: '1' for the first colour, up to '6'.
pub open spec fn glyph(d: u8) -> char {
    ('1' as int + d) as char
}

/// The symbol that character `c` stands for: '1' to '6' give 0 to 5, and any
/// other character counts as '1'.
pub open spec fn digit_value(c: char) -> u8 {
    if '1' as int <= c as int <= '6' as int {
        (c as int - '1' as int) as u8
    } else {
        0
    }
}

/// The four characters that show the pattern with index `n`.
pub open spec fn digits_of(n: nat) -> Seq<char> {
    symbols_of(n).map_values(|d: u8| glyph(d))
}

/// The symbols that four characters stand for.
pub open spec fn digit_values(digits: Seq<char>) -> Seq<u8> {
    digits.map_values(|c: char| digit_value(c))
}

/// The codemaker chooses a pattern of four code pegs. Duplicates are
/// allowed, so a pattern may even hold four pegs of one colour.
#[derive(PartialEq, Eq, Copy, Clone, PartialOrd, Ord, Debug, Hash, Structural)]
pub struct Pattern(u32);

impl View for Pattern {
    type V = nat;

    /// The index of the pattern among all patterns.
    closed spec fn view(&self) -> nat {
        self.0 as nat
    }
}

/// A colored or black key peg is placed for each code peg from the guess
/// which is correct in both color and position. A white key peg indicates the
/// existence of a correct color code peg placed in the wrong position.
#[derive(Debug, PartialEq, Eq, Copy, Clone, Hash, Structural)]
pub struct KeyPegs {
    blacks: u8,
    whites: u8,
}

impl View for KeyPegs {
    type V = (nat, nat);

    /// The number of black pegs and the number of white pegs.
    closed spec fn view(&self) -> (nat, nat) {
        (self.blacks as nat, self.whites as nat)
    }
}

impl KeyPegs {
    /// At most four key pegs fit in a row.
    #[verifier::type_invariant]
    spec fn fits_row(self) -> bool {
        self.blacks + self.whites <= SIZE
    }

    /// Two answers are the same exactly when they have as many black and as
    /// many white pegs.
    pub proof fn lemma_view_eq(a: KeyPegs, b: KeyPegs)
        ensures
            (a == b) == (a@ == b@),
    {
    }

    /// If the response is four colored pegs, the game is won.
    pub fn win(&self) -> (r: bool)
        ensures
            r == (self@.0 == SIZE),
    {
        self.blacks as usize == Pattern::size()
    }

    /// No key pegs at all.
    pub fn new() -> (r: KeyPegs)
        ensures
            r@ == (0nat, 0nat),
    {
        KeyPegs { blacks: 0, whites: 0 }
    }

    /// The same answer with `blacks` black pegs.
    pub fn blacks(self, blacks: u8) -> (r: KeyPegs)
        requires
            blacks + self@.1 <= SIZE,
        ensures
            r@ == (blacks as nat, self@.1),
    {
        KeyPegs { blacks: blacks, ..self }
    }

    /// The same answer with `whites` white pegs.
    pub fn whites(self, whites: u8) -> (r: KeyPegs)
        requires
            self@.0 + whites <= SIZE,
        ensures
            r@ == (self@.0, whites as nat),
    {
        KeyPegs { whites: whites, ..self }
    }

    /// The place of this answer in a table of 25: five places for each
    /// number of black pegs, in order of white pegs.
    pub(crate) fn slot(&self) -> (r: usize)
        ensures
            r == self@.0 * 5 + self@.1,
            self@.0 + self@.1 <= SIZE,
            r < 25,
    {
        proof {
            use_type_invariant(self);
        }
        self.blacks as usize * 5 + self.whites as usize
    }

    /// The answer written as a 'B' for each black peg followed by a 'W' for
    /// each white peg.
    pub fn to_string(&self) -> (r: String)
        ensures
            r@ == Seq::new(self@.0, |i: int| 'B') + Seq::new(self@.1, |i: int| 'W'),
    {
        let mut out = String::new();
        let mut i: u8 = 0;
        while i < self.blacks
            invariant
                i <= self.blacks,
                out@ == Seq::new(i as nat, |k: int| 'B'),
            decreases self.blacks - i,
        {
            proof {
                reveal_strlit("B");
            }
            out.append("B");
            i = i + 1;
            assert(out@ =~= Seq::new(i as nat, |k: int| 'B'));
        }
        let mut j: u8 = 0;
        while j < self.whites
            invariant
                j <= self.whites,
                out@ == Seq::new(self.blacks as nat, |k: int| 'B') + Seq::new(j as nat, |k: int| 'W'),
            decreases self.whites - j,
        {
            proof {
                reveal_strlit("W");
            }
            out.append("W");
            j = j + 1;
            assert(out@ =~= Seq::new(self.blacks as nat, |k: int| 'B') + Seq::new(j as nat, |k: int| 'W'));
        }
        out
    }
}

impl Pattern {
    /// Every pattern has an index below CARDINALITY.
    #[verifier::type_invariant]
    spec fn in_range(self) -> bool {
        self.0 < CARDINALITY
    }

    /// The pattern with index `i`, for `i` below CARDINALITY.
    pub closed spec fn from_index(i: nat) -> Pattern {
        Pattern(i as u32)
    }

    /// `from_index` gives the pattern with that index.
    pub proof fn lemma_from_index(i: nat)
        requires
            i < CARDINALITY,
        ensures
            Pattern::from_index(i)@ == i,
    {
    }

    /// Two patterns are the same exactly when their indices are.
    pub proof fn lemma_view_eq(a: Pattern, b: Pattern)
        ensures
            (a == b) == (a@ == b@),
    {
    }

    /// The codemaker chooses a pattern of four code pegs.
    pub fn size() -> (r: usize)
        ensures
            r == SIZE,
    {
        4
    }

    /// Number of possible patterns, 1111, 1112, .., 6666: six colours in
    /// each of four positions.
    pub fn cardinality() -> (r: u32)
        ensures
            r == CARDINALITY,
    {
        let colors = CodePeg::colors() as u32;
        colors * colors * colors * colors
    }

    /// The pattern with a given index.
    pub fn ith(lex_ix: u32) -> (r: Pattern)
        requires
            lex_ix < CARDINALITY,
        ensures
            r@ == lex_ix,
            r == Pattern::from_index(lex_ix as nat),
    {
        Pattern(lex_ix)
    }

    /// The index of the pattern.
    pub fn index(&self) -> (r: u32)
        ensures
            r == self@,
            r < CARDINALITY,
    {
        proof {
            use_type_invariant(self);
        }
        self.0
    }

    /// All patterns, in increasing order of index.
    pub fn range() -> (r: Vec<Pattern>)
        ensures
            r@.len() == CARDINALITY,
            forall|i: int| 0 <= i < CARDINALITY ==> (#[trigger] r@[i])@ == i,
    {
        let mut out: Vec<Pattern> = Vec::new();
        let mut i: u32 = 0;
        while i < Pattern::cardinality()
            invariant
                i <= CARDINALITY,
                out@.len() == i,
                forall|k: int| 0 <= k < i ==> (#[trigger] out@[k])@ == k,
            decreases CARDINALITY - i,
        {
            out.push(Pattern::ith(i));
            i = i + 1;
        }
        out
    }

    /// The pattern shown by four digits '1' to '6', the first digit the most
    /// significant. Any other character counts as '1'.
    pub fn from_digits(digits: [char; 4]) -> (r: Pattern)
        ensures
            r@ == index_of(digit_values(digits@)),
    {
        let base: u32 = CodePeg::colors() as u32;
        let d0 = Pattern::digit(digits[0]) as u32;
        let d1 = Pattern::digit(digits[1]) as u32;
        let d2 = Pattern::digit(digits[2]) as u32;
        let d3 = Pattern::digit(digits[3]) as u32;
        let ix = d3 + base * (d2 + base * (d1 + base * d0));
        Pattern(ix)
    }

    /// The symbol that one digit stands for.
    fn digit(c: char) -> (r: u8)
        ensures
            r == digit_value(c),
            r < RADIX,
    {
        if '1' <= c && c <= '6' {
            (c as u32 - '1' as u32) as u8
        } else {
            0
        }
    }

    /// The four digits that show this pattern.
    pub fn to_digits(&self) -> (r: [char; 4])
        ensures
            r@ == digits_of(self@),
    {
        let sym = symbols(self.0 as usize);
        let mut out: [char; 4] = ['1', '1', '1', '1'];
        let mut pos: usize = 0;
        while pos < Pattern::size()
            invariant
                pos <= SIZE,
                sym@ == symbols_of(self@),
                forall|i: int| 0 <= i < pos ==> out@[i] == glyph(sym@[i]),
            decreases SIZE - pos,
        {
            out[pos] = ('1' as u8 + sym[pos]) as char;
            pos = pos + 1;
        }
        assert(out@ =~= digits_of(self@));
        out
    }

    /// The four digits that show this pattern, as text.
    pub fn to_string(&self) -> (r: String)
        ensures
            r@ == digits_of(self@),
    {
        let digits = self.to_digits();
        let mut out = String::new();
        let mut pos: usize = 0;
        while pos < Pattern::size()
            invariant
                pos <= SIZE,
                digits@ == digits_of(self@),
                out@ == digits@.subrange(0, pos as int),
            decreases SIZE - pos,
        {
            out.append(Pattern::glyph_text(digits[pos]));
            pos = pos + 1;
            assert(out@ =~= digits@.subrange(0, pos as int));
        }
        assert(digits@.subrange(0, 4) =~= digits@);
        out
    }

    /// One digit as text.
    fn glyph_text(c: char) -> (r: &'static str)
        requires
            '1' <= c <= '6',
        ensures
            r@ == seq![c],
    {
        proof {
            reveal_strlit("1");
            reveal_strlit("2");
            reveal_strlit("3");
            reveal_strlit("4");
            reveal_strlit("5");
            reveal_strlit("6");
        }
        if c == '1' {
            "1"
        } else if c == '2' {
            "2"
        } else if c == '3' {
            "3"
        } else if c == '4' {
            "4"
        } else if c == '5' {
            "5"
        } else {
            "6"
        }
    }

    /// The key pegs that the codemaker, holding this pattern, places for
    /// `guess`: black pegs for exact matches, then, for each other guess
    /// position from left to right, a white peg when an unused position of
    /// this pattern holds the same colour.
    pub fn score(&self, guess: Pattern) -> (r: KeyPegs)
        ensures
            r@ == feedback_of(self@, guess@),
    {
        let s = symbols(self.0 as usize);
        let g = symbols(guess.0 as usize);
        let (blacks, whites) = tally(&s, &g);
        KeyPegs::new().blacks(blacks).whites(whites)
    }
}

/// Writing a pattern as digits and reading the digits back gives the same
/// pattern.
pub proof fn lemma_digits_round_trip(i: nat)
    requires
        i < CARDINALITY,
    ensures
        index_of(digit_values(digits_of(i))) == i,
{
    lemma_index_round_trip(i);
    let d = digits_of(i);
    assert forall|k: int| 0 <= k < 4 implies digit_value(d[k]) == symbols_of(i)[k] by {
        assert(symbols_of(i)[k] < 6);
    }
    assert(digit_values(d) =~= symbols_of(i));
}

} // verus!
