//! What a request to the move service carries, and the move it is answered with.

pub mod game_query;

use crate::board::{empties, replay, Board, Move};
use crate::engine::{GameEngine, GameEngineError, RandomEngine};
use crate::size::is_valid_dimension;
use game_query::GameQuery;
use vstd::prelude::*;

verus! {

/// The next move for the player whose turn the query names: the query's moves
/// are replayed on a board of its size, and a uniformly random engine picks
/// one of the empty positions. A query that cannot be replayed is a loading
/// error; a full board has no move.
pub fn next_move(game_query: GameQuery) -> (r: Result<Move, GameEngineError>)
    ensures
        ({
            let n = game_query.size as int;
            let replayed = replay(n, game_query.moves@);
            &&& !is_valid_dimension(n) || replayed is Err ==> (r matches Err(e) && e is LoadingError)
            &&& is_valid_dimension(n) && replayed is Ok ==> {
                let open_cells = empties(replayed->Ok_0, n);
                &&& r is Ok <==> open_cells.len() > 0
                &&& r matches Ok(m) ==> m.player == game_query.playing && open_cells.contains(
                    m.position,
                )
                &&& r matches Err(e) ==> e is NoMove
            }
        }),
{
    let playing = game_query.playing;
    let board = match Board::try_from(game_query) {
        Ok(b) => b,
        Err(_) => {
            return Err(
                GameEngineError::LoadingError { message: "Problem with board loading.".to_owned() },
            );
        },
    };
    let mut engine = match RandomEngine::load_board(board) {
        Ok(e) => e,
        Err(e) => {
            return Err(e);
        },
    };
    engine.next_move(playing)
}

} // verus!
