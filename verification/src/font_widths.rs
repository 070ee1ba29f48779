//! The width table of the font.

use vstd::prelude::*;
use std::collections::HashMap;

verus! {

/// Width of every character that the table does not list.
pub const DEFAULT_WIDTH: u32 = 12;

/// The measured width of the ASCII character with code `code`.
pub open spec fn ascii_width(code: u32) -> u32 {
    if code == 32 {
        4
    } else if code == 33 || code == 39 || code == 44 || code == 46 || code == 58 || code == 59
        || code == 124 {
        2
    } else if code == 34 || code == 42 || code == 60 || code == 62 {
        5
    } else if code == 40 || code == 41 || code == 91 || code == 93 || code == 123 || code == 125 {
        4
    } else if code == 64 || code == 126 {
        7
    } else if code == 96 {
        3
    } else {
        6
    }
}

/// The width of the character with code `code`: measured for ASCII, the default
/// width for every other code.
pub open spec fn width_of_code(code: u32) -> u32 {
    if code < 128 {
        ascii_width(code)
    } else {
        DEFAULT_WIDTH
    }
}

/// The table of the measured widths: one entry for each ASCII code.
pub open spec fn ascii_table() -> Map<u32, u32> {
    Map::new(|code: u32| code < 128, |code: u32| ascii_width(code))
}

fn measured_width(code: u32) -> (w: u32)
    ensures
        w == ascii_width(code),
{
    if code == 32 {
        4
    } else if code == 33 || code == 39 || code == 44 || code == 46 || code == 58 || code == 59
        || code == 124 {
        2
    } else if code == 34 || code == 42 || code == 60 || code == 62 {
        5
    } else if code == 40 || code == 41 || code == 91 || code == 93 || code == 123 || code == 125 {
        4
    } else if code == 64 || code == 126 {
        7
    } else if code == 96 {
        3
    } else {
        6
    }
}

/// The width table: one entry for each ASCII code.
pub struct FontWidths {
    widths: HashMap<u32, u32>,
}

impl FontWidths {
    /// The table lists the ASCII codes, each with its measured width, and no other.
    #[verifier::type_invariant]
    spec fn well_formed(self) -> bool {
        &&& forall|code: u32| #[trigger] self.widths@.contains_key(code) <==> code < 128
        &&& forall|code: u32| code < 128 ==> #[trigger] self.widths@[code] == ascii_width(code)
    }

    /// The entries of the table.
    pub closed spec fn entries(&self) -> Map<u32, u32> {
        self.widths@
    }

    /// The table of the font.
    pub fn new() -> (r: Self)
        ensures
            r.entries() == ascii_table(),
    {
        broadcast use vstd::std_specs::hash::group_hash_axioms;

        let mut widths: HashMap<u32, u32> = HashMap::new();
        let mut i: u32 = 0;
        while i < 128
            invariant
                i <= 128,
                forall|code: u32| #[trigger] widths@.contains_key(code) <==> code < i,
                forall|code: u32| code < i ==> #[trigger] widths@[code] == ascii_width(code),
            decreases 128 - i,
        {
            let w = measured_width(i);
            widths.insert(i, w);
            i = i + 1;
        }
        proof {
            assert(widths@ =~= ascii_table());
        }
        FontWidths { widths }
    }

    /// The width of the character with code `char_code`.
    pub fn get_width(&self, char_code: u32) -> (w: u32)
        ensures
            w == width_of_code(char_code),
            2 <= w <= 12,
    {
        broadcast use vstd::std_specs::hash::group_hash_axioms;

        proof {
            use_type_invariant(self);
        }
        match self.widths.get(&char_code) {
            Some(w) => *w,
            None => DEFAULT_WIDTH,
        }
    }
}

impl Default for FontWidths {
    fn default() -> (r: Self)
        ensures
            r.entries() == ascii_table(),
    {
        FontWidths::new()
    }
}

} // verus!
