use vstd::prelude::*;
use vstd::string::StringSliceAdditionalSpecFns;

verus! {

/// One of the two players of a game.
#[derive(Clone, Copy, PartialEq, Eq, Structural, Debug)]
pub enum Player {
    X,
    O,
}

/// The one-character symbol of a player.
pub open spec fn symbol_chars(p: Player) -> Seq<char> {
    match p {
        Player::X => seq!['X'],
        Player::O => seq!['O'],
    }
}

/// The one-character symbol of a player, as bytes.
pub open spec fn symbol_bytes(p: Player) -> Seq<u8> {
    match p {
        Player::X => seq![88u8],
        Player::O => seq![79u8],
    }
}

/// The player whose symbol is exactly `s`, if any.
pub open spec fn player_of_bytes(s: Seq<u8>) -> Option<Player> {
    if s == symbol_bytes(Player::X) {
        Some(Player::X)
    } else if s == symbol_bytes(Player::O) {
        Some(Player::O)
    } else {
        None
    }
}

impl Player {
    /// The textual symbol of the player: "X" or "O".
    pub fn symbol(&self) -> (r: &'static str)
        ensures
            r@ == symbol_chars(*self),
    {
        match self {
            Player::X => {
                proof {
                    reveal_strlit("X");
                }
                "X"
            },
            Player::O => {
                proof {
                    reveal_strlit("O");
                }
                "O"
            },
        }
    }

    /// Reads a player from its symbol; anything but "X" or "O" is refused.
    pub fn from_symbol(s: &str) -> (r: Option<Player>)
        ensures
            r == player_of_bytes(s.spec_bytes()),
    {
        Player::from_bytes(s.as_bytes())
    }

    /// Reads a player from the bytes of its symbol.
    pub fn from_bytes(s: &[u8]) -> (r: Option<Player>)
        ensures
            r == player_of_bytes(s@),
    {
        if s.len() == 1 && s[0] == 88u8 {
            assert(s@ =~= symbol_bytes(Player::X));
            Some(Player::X)
        } else if s.len() == 1 && s[0] == 79u8 {
            assert(s@ =~= symbol_bytes(Player::O));
            Some(Player::O)
        } else {
            None
        }
    }
}

impl std::str::FromStr for Player {
    type Err = String;

    fn from_str(s: &str) -> Result<Player, String> {
        match Player::from_symbol(s) {
            Some(p) => Ok(p),
            None => Err("Sorry. Can't deserialize.".to_owned()),
        }
    }
}

} // verus!
