use crate::board::{
    empties, lemma_empties_are_empty, lemma_unplayed_board_empties, occupied_count, Board, Move,
    Position,
};
use crate::player::Player;
use rand::seq::SliceRandom;
use vstd::arithmetic::div_mod::lemma_fundamental_div_mod_converse;
use vstd::prelude::*;

verus! {

/// Why an engine could not produce a move.
#[derive(Debug)]
pub enum GameEngineError {
    LoadingError { message: String },
    NoMove { message: String },
    UnsupportedSize { message: String },
}

/// A policy that picks the next move on a loaded board.
pub trait GameEngine: Sized {
    /// The board the engine was loaded with.
    spec fn loaded(&self) -> Board;

    /// Loads a board; refused unless the board is well formed.
    fn load_board(board: Board) -> (r: Result<Self, GameEngineError>)
        ensures
            r is Ok <==> board.wf(),
            r matches Ok(e) ==> e.loaded() == board,
            r matches Err(e) ==> e is LoadingError,
    ;

    /// Picks a move for `playing` on one of the empty positions, without
    /// changing the board. Fails exactly when no position is empty.
    fn next_move(&mut self, playing: Player) -> (r: Result<Move, GameEngineError>)
        ensures
            final(self).loaded() == old(self).loaded(),
            r is Ok <==> empties(old(self).loaded()@, old(self).loaded().size as int).len() > 0,
            r matches Ok(m) ==> m.player == playing && empties(
                old(self).loaded()@,
                old(self).loaded().size as int,
            ).contains(m.position),
            r matches Ok(m) ==> m.position.0 < old(self).loaded().size && m.position.1 < old(
                self,
            ).loaded().size && old(self).loaded().cell(
                m.position.0 as int,
                m.position.1 as int,
            ) is None,
            r matches Err(e) ==> e is NoMove,
    ;
}

/// The opening cell of the center-biased policy on a board of dimension `n`.
pub open spec fn center_of(n: int) -> Option<Position> {
    if n == 3 {
        Some((1, 1))
    } else if n == 5 {
        Some((3, 3))
    } else if n == 7 {
        Some((4, 4))
    } else {
        None
    }
}

/// Relies on rand's `SliceRandom::choose` over the thread-local generator:
/// `None` exactly for an empty slice, otherwise one of its elements.
#[verifier::external_body]
fn choose_position(positions: &Vec<Position>) -> (r: Option<Position>)
    ensures
        r is None <==> positions@.len() == 0,
        r matches Some(p) ==> positions@.contains(p),
{
    positions.choose(&mut rand::thread_rng()).copied()
}

/// The move that `choice` gives `playing`: the chosen position, or no move
/// when nothing could be chosen.
pub fn move_from_choice(playing: Player, choice: Option<Position>) -> (r: Result<
    Move,
    GameEngineError,
>)
    ensures
        choice matches Some(p) ==> r == Ok::<Move, GameEngineError>(
            Move { player: playing, position: p },
        ),
        choice is None ==> (r matches Err(e) && e is NoMove),
{
    match choice {
        Some(position) => Ok(Move { player: playing, position }),
        None => Err(GameEngineError::NoMove { message: "No valid moves available".to_owned() }),
    }
}

/// A position listed among a board's empty positions is on the board and empty.
proof fn lemma_listed_position_is_open(board: Board, p: Position)
    requires
        board.wf(),
        empties(board@, board.size as int).contains(p),
    ensures
        p.0 < board.size && p.1 < board.size && board.cell(p.0 as int, p.1 as int) is None,
{
    let n = board.size as int;
    let j = choose|j: int| 0 <= j < empties(board@, n).len() && empties(board@, n)[j] == p;
    lemma_empties_are_empty(board@, n, n * n, j);
}

/// The opening cell of the center-biased policy, if the dimension has one.
pub fn center_position(n: usize) -> (r: Option<Position>)
    ensures
        r == center_of(n as int),
{
    if n == 3 {
        Some((1, 1))
    } else if n == 5 {
        Some((3, 3))
    } else if n == 7 {
        Some((4, 4))
    } else {
        None
    }
}

/// Picks uniformly at random among the empty positions.
pub struct RandomEngine {
    board: Board,
}

impl RandomEngine {
    #[verifier::type_invariant]
    spec fn inv(&self) -> bool {
        self.board.wf()
    }
}

impl GameEngine for RandomEngine {
    closed spec fn loaded(&self) -> Board {
        self.board
    }

    fn load_board(board: Board) -> (r: Result<RandomEngine, GameEngineError>) {
        if board.is_well_formed() {
            Ok(RandomEngine { board })
        } else {
            Err(
                GameEngineError::LoadingError {
                    message: "Problem with board loading.".to_owned(),
                },
            )
        }
    }

    fn next_move(&mut self, playing: Player) -> (r: Result<Move, GameEngineError>) {
        proof {
            use_type_invariant(&*self);
        }
        let positions = self.board.empty_positions();
        let choice = choose_position(&positions);
        if let Some(p) = choice {
            proof {
                lemma_listed_position_is_open(self.board, p);
            }
        }
        move_from_choice(playing, choice)
    }
}

/// Opens in the center of an empty board; otherwise picks uniformly at random
/// among the empty positions.
pub struct AlmostRandomEngine {
    board: Board,
}

impl AlmostRandomEngine {
    #[verifier::type_invariant]
    spec fn inv(&self) -> bool {
        self.board.wf()
    }

    /// The move for `playing`, given the position drawn at random (`None` when
    /// nothing was drawn): the center cell while no move has been played, else
    /// the drawn position.
    pub fn decide(&self, playing: Player, choice: Option<Position>) -> (r: Result<
        Move,
        GameEngineError,
    >)
        ensures
            occupied_count(self.loaded()@) == 0 ==> r == Ok::<Move, GameEngineError>(
                Move { player: playing, position: center_of(self.loaded().size as int)->Some_0 },
            ),
            occupied_count(self.loaded()@) != 0 ==> match choice {
                Some(p) => r == Ok::<Move, GameEngineError>(Move { player: playing, position: p }),
                None => (r matches Err(e) && e is NoMove),
            },
    {
        proof {
            use_type_invariant(self);
        }
        if self.board.number_of_moves() == 0 {
            match center_position(self.board.size) {
                Some(position) => Ok(Move { player: playing, position }),
                None => Err(
                    GameEngineError::UnsupportedSize { message: "No center for this size.".to_owned() },
                ),
            }
        } else {
            move_from_choice(playing, choice)
        }
    }
}

impl GameEngine for AlmostRandomEngine {
    closed spec fn loaded(&self) -> Board {
        self.board
    }

    fn load_board(board: Board) -> (r: Result<AlmostRandomEngine, GameEngineError>) {
        if board.is_well_formed() {
            Ok(AlmostRandomEngine { board })
        } else {
            Err(
                GameEngineError::LoadingError {
                    message: "Problem with board loading.".to_owned(),
                },
            )
        }
    }

    fn next_move(&mut self, playing: Player) -> (r: Result<Move, GameEngineError>) {
        proof {
            use_type_invariant(&*self);
        }
        let choice = if self.board.number_of_moves() == 0 {
            None
        } else {
            let positions = self.board.empty_positions();
            choose_position(&positions)
        };
        proof {
            let n = self.board.size as int;
            if occupied_count(self.board@) == 0 {
                lemma_unplayed_board_empties(self.board@, n);
                let c = center_of(n)->Some_0;
                let (q, r) = (c.0 as int, c.1 as int);
                assert(0 <= q < n && 0 <= r < n);
                let x = q * n + r;
                assert(0 <= x < n * n) by (nonlinear_arith)
                    requires
                        0 <= q < n,
                        0 <= r < n,
                        x == q * n + r,
                ;
                lemma_fundamental_div_mod_converse(x, n, q, r);
                assert(empties(self.board@, n)[x] == c);
                lemma_listed_position_is_open(self.board, c);
            }
            if let Some(p) = choice {
                lemma_listed_position_is_open(self.board, p);
            }
        }
        self.decide(playing, choice)
    }
}

} // verus!
