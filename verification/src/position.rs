use vstd::prelude::*;

verus! {

/// One of the 64 board cells: a file (column, letter `a` to `h`) and a rank
/// (row, digit `1` to `8`), both stored zero-based.  A well-formed `Position`
/// always has both coordinates in `0..8`; every function of the engine that
/// hands out a `Position` hands out a well-formed one.
#[derive(Clone, Copy, PartialEq, Eq, Structural, Debug, Hash)]
pub struct Position(pub u8, pub u8);

/// Why a two-character square text failed to parse.
#[derive(Clone, Copy, PartialEq, Eq, Structural, Debug)]
pub enum ParseError {
    /// The text is not exactly two characters long.
    WrongLength,
    /// The first character is not a file letter `a` to `h`.
    BadFile,
    /// The second character is not a rank digit `1` to `8`.
    BadRank,
}

/// The file letter that names the zero-based file coordinate `f`.
pub open spec fn file_char(f: int) -> char {
    if f == 0 {
        'a'
    } else if f == 1 {
        'b'
    } else if f == 2 {
        'c'
    } else if f == 3 {
        'd'
    } else if f == 4 {
        'e'
    } else if f == 5 {
        'f'
    } else if f == 6 {
        'g'
    } else {
        'h'
    }
}

/// The rank digit that names the zero-based rank coordinate `r`.
pub open spec fn rank_char(r: int) -> char {
    if r == 0 {
        '1'
    } else if r == 1 {
        '2'
    } else if r == 2 {
        '3'
    } else if r == 3 {
        '4'
    } else if r == 4 {
        '5'
    } else if r == 5 {
        '6'
    } else if r == 6 {
        '7'
    } else {
        '8'
    }
}

/// A valid square text: exactly two characters, a file letter `a` to `h`
/// followed by a rank digit `1` to `8`.
pub open spec fn valid_square_text(s: Seq<char>) -> bool {
    s.len() == 2 && 97 <= s[0] as int <= 104 && 49 <= s[1] as int <= 56
}

/// The square that a valid two-character text names.
pub open spec fn text_square(s: Seq<char>) -> Position {
    Position((s[0] as int - 97) as u8, (s[1] as int - 49) as u8)
}

/// The two-character algebraic text that names a square.
pub open spec fn square_text(p: Position) -> Seq<char> {
    seq![file_char(p.0 as int), rank_char(p.1 as int)]
}

impl Position {
    /// Both coordinates lie on the board.
    pub open spec fn wf(self) -> bool {
        self.0 < 8 && self.1 < 8
    }

    /// Constructs the square at the given zero-based file and rank.
    pub fn from_file_rank(file: u8, rank: u8) -> (r: Position)
        requires
            file < 8,
            rank < 8,
        ensures
            r == Position(file, rank),
            r.wf(),
    {
        Position(file, rank)
    }

    /// Constructs the square named by a file letter `a` to `h` and a
    /// one-based rank `1` to `8`.
    pub fn new(x: char, y: u8) -> (r: Position)
        requires
            97 <= x as int <= 104,
            1 <= y <= 8,
        ensures
            r.wf(),
            r.0 as int == x as int - 97,
            r.1 == y - 1,
    {
        let code = x as u32;
        Position((code - 97) as u8, y - 1)
    }

    /// Parses a two-character algebraic square text such as `"e2"`, and
    /// reports exactly which way a malformed text is malformed.
    pub fn from_algebraic(s: &str) -> (r: Result<Position, ParseError>)
        ensures
            match r {
                Ok(p) => valid_square_text(s@) && p == text_square(s@) && p.wf(),
                Err(ParseError::WrongLength) => s@.len() != 2,
                Err(ParseError::BadFile) => s@.len() == 2 && !(97 <= s@[0] as int <= 104),
                Err(ParseError::BadRank) => s@.len() == 2 && 97 <= s@[0] as int <= 104 && !(49
                    <= s@[1] as int <= 56),
            },
    {
        if s.unicode_len() != 2 {
            return Err(ParseError::WrongLength);
        }
        let code0 = s.get_char(0) as u32;
        let code1 = s.get_char(1) as u32;
        if code0 < 97 || code0 > 104 {
            return Err(ParseError::BadFile);
        }
        if code1 < 49 || code1 > 56 {
            return Err(ParseError::BadRank);
        }
        Ok(Position((code0 - 97) as u8, (code1 - 49) as u8))
    }

    /// Prints the square as its two-character algebraic text.
    pub fn to_algebraic(&self) -> (r: String)
        requires
            self.wf(),
        ensures
            r@ == square_text(*self),
            valid_square_text(r@),
    {
        let fs: &str = if self.0 == 0 {
            "a"
        } else if self.0 == 1 {
            "b"
        } else if self.0 == 2 {
            "c"
        } else if self.0 == 3 {
            "d"
        } else if self.0 == 4 {
            "e"
        } else if self.0 == 5 {
            "f"
        } else if self.0 == 6 {
            "g"
        } else {
            "h"
        };
        let rs: &str = if self.1 == 0 {
            "1"
        } else if self.1 == 1 {
            "2"
        } else if self.1 == 2 {
            "3"
        } else if self.1 == 3 {
            "4"
        } else if self.1 == 4 {
            "5"
        } else if self.1 == 5 {
            "6"
        } else if self.1 == 6 {
            "7"
        } else {
            "8"
        };
        proof {
            reveal_strlit("a");
            reveal_strlit("b");
            reveal_strlit("c");
            reveal_strlit("d");
            reveal_strlit("e");
            reveal_strlit("f");
            reveal_strlit("g");
            reveal_strlit("h");
            reveal_strlit("1");
            reveal_strlit("2");
            reveal_strlit("3");
            reveal_strlit("4");
            reveal_strlit("5");
            reveal_strlit("6");
            reveal_strlit("7");
            reveal_strlit("8");
        }
        let r = String::from_str(fs).concat(rs);
        proof {
            assert(r@ =~= square_text(*self));
        }
        r
    }
}

/// Parsing a valid two-character square text and printing the resulting
/// square again gives back exactly the original text.
pub proof fn lemma_algebraic_round_trip(s: Seq<char>)
    requires
        valid_square_text(s),
    ensures
        square_text(text_square(s)) == s,
{
    let p = text_square(s);
    assert(p.0 as int == s[0] as int - 97);
    assert(p.1 as int == s[1] as int - 49);
    assert(file_char(p.0 as int) == s[0]);
    assert(rank_char(p.1 as int) == s[1]);
    assert(square_text(p) =~= s);
}

} // verus!
