use vstd::prelude::*;

verus! {

/// The sizes a board may have.
#[derive(Clone, Copy, PartialEq, Eq, Structural, Debug)]
pub enum Size {
    Size3,
    Size5,
    Size7,
}

/// The board dimension that a size stands for.
pub open spec fn dimension(s: Size) -> usize {
    match s {
        Size::Size3 => 3,
        Size::Size5 => 5,
        Size::Size7 => 7,
    }
}

/// The sizes a board may have, as raw numbers.
pub open spec fn is_valid_dimension(n: int) -> bool {
    n == 3 || n == 5 || n == 7
}

/// The label of a size, "NxN", as characters.
pub open spec fn label(s: Size) -> Seq<char> {
    let d = match s {
        Size::Size3 => '3',
        Size::Size5 => '5',
        Size::Size7 => '7',
    };
    seq![d, 'x', d]
}

impl Size {
    /// The label of the size: "3x3", "5x5" or "7x7".
    pub fn as_str(&self) -> (r: &str)
        ensures
            r@ == label(*self),
    {
        match self {
            Size::Size3 => {
                proof {
                    reveal_strlit("3x3");
                }
                "3x3"
            },
            Size::Size5 => {
                proof {
                    reveal_strlit("5x5");
                }
                "5x5"
            },
            Size::Size7 => {
                proof {
                    reveal_strlit("7x7");
                }
                "7x7"
            },
        }
    }

    /// The board dimension of the size.
    pub fn as_usize(&self) -> (r: usize)
        ensures
            r == dimension(*self),
            is_valid_dimension(r as int),
    {
        match self {
            Size::Size3 => 3,
            Size::Size5 => 5,
            Size::Size7 => 7,
        }
    }

    /// The size of the given dimension, which must be 3, 5 or 7.
    pub fn from_usize(raw: i32) -> (r: Size)
        requires
            is_valid_dimension(raw as int),
        ensures
            dimension(r) == raw,
    {
        match raw {
            3 => Size::Size3,
            5 => Size::Size5,
            _ => Size::Size7,
        }
    }
}

} // verus!
