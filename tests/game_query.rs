use hardy::board::Move;
use hardy::engine::GameEngineError;
use hardy::player::Player::{self, O, X};
use hardy::server::game_query::{GameQuery, QueryError};
use hardy::server::next_move;
use hardy::size::Size;
use uuid::Uuid;

fn decode(size: Option<usize>, token: &str) -> Result<GameQuery, QueryError> {
    GameQuery::decode(Uuid::new_v4(), size, X, token)
}

#[test]
fn empty_token_has_no_moves_at_every_size() {
    for size in [Some(3), Some(5), Some(7)] {
        let query = decode(size, "").unwrap();
        assert!(query.moves.is_empty());
        assert_eq!(Some(query.size), size);
    }
}

#[test]
fn single_unreadable_segment_means_no_moves() {
    assert!(decode(Some(3), "nothing").unwrap().moves.is_empty());
    assert!(decode(Some(5), "X-1").unwrap().moves.is_empty());
}

#[test]
fn invalid_player_symbol_fails_decoding() {
    assert_eq!(decode(Some(3), "X-0-0_Z-1-1").unwrap_err(), QueryError::InvalidMove);
    assert_eq!(decode(Some(3), "Z-1-1_X-0-0").unwrap_err(), QueryError::InvalidMove);
}

#[test]
fn well_formed_token_decodes_in_order() {
    let gid = Uuid::new_v4();
    let query = GameQuery::decode(gid, Some(5), O, "X-1-1_O-0-1_X-12-+3").unwrap();
    assert_eq!(query.gid, gid);
    assert_eq!(query.size, 5);
    assert_eq!(query.playing, O);
    assert_eq!(
        query.moves,
        vec![
            Move { player: X, position: (1, 1) },
            Move { player: O, position: (0, 1) },
            Move { player: X, position: (12, 3) },
        ]
    );
}

#[test]
fn size_outside_the_supported_ones_reads_as_three() {
    assert_eq!(decode(None, "X-0-0").unwrap().size, 3);
    assert_eq!(decode(Some(4), "X-0-0").unwrap().size, 3);
    assert_eq!(decode(Some(0), "").unwrap().size, 3);
}

#[test]
fn segments_beyond_the_limit_stay_in_the_last_one() {
    let nine = "X-0-0_O-0-1_X-0-2_O-1-0_X-1-1_O-1-2_X-2-0_O-2-1_X-2-2";
    assert_eq!(decode(Some(3), nine).unwrap().moves.len(), 9);
    let ten = "X-0-0_O-0-1_X-0-2_O-1-0_X-1-1_O-1-2_X-2-0_O-2-1_X-2-2_O-0-0";
    assert_eq!(decode(Some(3), ten).unwrap_err(), QueryError::InvalidMove);
    assert_eq!(decode(Some(5), ten).unwrap().moves.len(), 10);
}

#[test]
fn numbers_must_be_plain_unsigned() {
    assert_eq!(decode(Some(3), "X-1-1_O--1-1").unwrap_err(), QueryError::InvalidMove);
    assert_eq!(decode(Some(3), "X-1-1_O-+-1").unwrap_err(), QueryError::InvalidMove);
    assert_eq!(decode(Some(3), "X-1-1_O-1-").unwrap_err(), QueryError::InvalidMove);
    assert_eq!(decode(Some(3), "X-1-1_O-1-1-2").unwrap_err(), QueryError::InvalidMove);
    assert_eq!(
        decode(Some(3), "X-1-1_O-1-99999999999999999999999").unwrap_err(),
        QueryError::InvalidMove
    );
    assert_eq!(decode(Some(3), "X-1-1_").unwrap_err(), QueryError::InvalidMove);
}

#[test]
fn player_symbols_read_and_show() {
    assert_eq!(Player::from_symbol("X"), Some(X));
    assert_eq!(Player::from_symbol("O"), Some(O));
    assert_eq!(Player::from_symbol("x"), None);
    assert_eq!(Player::from_symbol("XO"), None);
    assert_eq!("O".parse::<Player>(), Ok(O));
    assert!("Q".parse::<Player>().is_err());
    assert_eq!(X.symbol(), "X");
    assert_eq!(O.symbol(), "O");
}

#[test]
fn sizes_convert() {
    assert_eq!(Size::from_usize(5), Size::Size5);
    assert_eq!(Size::Size7.as_usize(), 7);
    assert_eq!(Size::Size3.as_str(), "3x3");
    assert_eq!(Size::Size5.as_str(), "5x5");
    assert_eq!(Size::Size7.as_str(), "7x7");
}

#[test]
fn next_move_answers_a_query() {
    let query = GameQuery::decode(Uuid::new_v4(), Some(3), O, "X-1-1_O-0-0_X-2-2").unwrap();
    let m = next_move(query).unwrap();
    assert_eq!(m.player, O);
    assert!(![(1, 1), (0, 0), (2, 2)].contains(&m.position));
    assert!(m.position.0 < 3 && m.position.1 < 3);

    let clash = GameQuery::decode(Uuid::new_v4(), Some(3), O, "X-1-1_O-1-1").unwrap();
    assert!(matches!(next_move(clash), Err(GameEngineError::LoadingError { .. })));

    let full = GameQuery::decode(
        Uuid::new_v4(),
        Some(3),
        X,
        "X-0-0_O-0-1_X-0-2_O-1-0_X-1-2_O-1-1_X-2-0_O-2-2_X-2-1",
    )
    .unwrap();
    assert!(matches!(next_move(full), Err(GameEngineError::NoMove { .. })));
}
