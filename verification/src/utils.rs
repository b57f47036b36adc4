//! Square names in algebraic notation.
use vstd::prelude::*;
use vstd::string::StringSliceAdditionalSpecFns;

verus! {

/// The square index named by a file letter and a rank digit: `a1` is 0, `h8` is 63.
pub open spec fn square_of(file: u8, rank: u8) -> int {
    (rank - 49) * 8 + (file - 97)
}

/// The file and rank bytes name a square on the board.
pub open spec fn square_name_ok(file: u8, rank: u8) -> bool {
    97 <= file && 49 <= rank && square_of(file, rank) < 64
}

/// The square index named by the first two bytes of `s` (e.g. `"e4"` is 28).
pub fn string_to_square(s: &str) -> (r: u8)
    requires
        s.spec_bytes().len() >= 2,
        s.spec_bytes()[0] >= 97,
        s.spec_bytes()[1] >= 49,
        (s.spec_bytes()[1] - 49) * 8 <= 255,
        square_of(s.spec_bytes()[0], s.spec_bytes()[1]) <= 255,
    ensures
        r as int == square_of(s.spec_bytes()[0], s.spec_bytes()[1]),
{
    let bytes = s.as_bytes();
    // File: 'a' (97) is 0, 'b' is 1... 'h' is 7
    let file = bytes[0] - 97u8;
    // Rank: '1' (49) is 0, '2' is 1... '8' is 7
    let rank = bytes[1] - 49u8;
    (rank * 8) + file
}

} // verus!
