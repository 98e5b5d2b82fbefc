use crate::board::Move;
use crate::player::{player_of_bytes, symbol_bytes, Player};
use vstd::prelude::*;
use vstd::string::StringSliceAdditionalSpecFns;

verus! {

/// The game identifier is carried through untouched.
#[verifier::external_type_specification]
#[verifier::external_body]
pub struct ExUuid(uuid::Uuid);

pub type GID = uuid::Uuid;

/// A request for the next move: the game, its size, whose turn it is, and the
/// moves played so far.
#[derive(Debug)]
pub struct GameQuery {
    pub gid: GID,
    pub size: usize,
    pub playing: Player,
    pub moves: Vec<Move>,
}

/// Why a move token could not be decoded.
#[derive(Clone, Copy, PartialEq, Eq, Structural, Debug)]
pub enum QueryError {
    InvalidMove,
}

/// The byte that separates the segments of a move token: `_`.
pub const SEGMENT_DELIMITER: u8 = 95;

/// The byte that separates the parts of a segment: `-`.
pub const PART_DELIMITER: u8 = 45;

/// Splitting `s` on `delim` into at most `limit` pieces, after reading all of
/// `s`: the finished pieces, and the piece being read. Once `limit - 1` pieces
/// are finished, delimiters are kept in the last piece.
pub open spec fn split_state(s: Seq<u8>, limit: int, delim: u8) -> (Seq<Seq<u8>>, Seq<u8>)
    decreases s.len(),
{
    if s.len() == 0 {
        (seq![], seq![])
    } else {
        let prev = split_state(s.drop_last(), limit, delim);
        if s.last() == delim && prev.0.len() + 1 < limit {
            (prev.0.push(prev.1), seq![])
        } else {
            (prev.0, prev.1.push(s.last()))
        }
    }
}

/// `s` split on `delim` into at most `limit` pieces; the last piece holds the rest.
pub open spec fn split_pieces(s: Seq<u8>, limit: int, delim: u8) -> Seq<Seq<u8>> {
    let st = split_state(s, limit, delim);
    st.0.push(st.1)
}

pub open spec fn is_digit(b: u8) -> bool {
    48 <= b <= 57
}

pub open spec fn all_digits(s: Seq<u8>) -> bool {
    forall|i: int| 0 <= i < s.len() ==> is_digit(#[trigger] s[i])
}

/// The decimal value of a string of digits.
pub open spec fn digits_value(s: Seq<u8>) -> int
    decreases s.len(),
{
    if s.len() == 0 {
        0
    } else {
        10 * digits_value(s.drop_last()) + (s.last() - 48)
    }
}

/// An unsigned number as text: an optional `+`, then at least one decimal
/// digit, with a value that fits in `usize`.
pub open spec fn parse_number(s: Seq<u8>) -> Option<usize> {
    let d = if s.len() > 0 && s[0] == 43 {
        s.drop_first()
    } else {
        s
    };
    if d.len() > 0 && all_digits(d) && digits_value(d) <= usize::MAX {
        Some(digits_value(d) as usize)
    } else {
        None
    }
}

/// The move a segment `P-R-C` stands for, if its player symbol and both
/// coordinates read.
pub open spec fn decode_segment(seg: Seq<u8>) -> Option<Move> {
    let parts = split_pieces(seg, 3, PART_DELIMITER);
    let player = player_of_bytes(parts[0]);
    let row = if parts.len() > 1 {
        parse_number(parts[1])
    } else {
        None
    };
    let col = if parts.len() > 2 {
        parse_number(parts[2])
    } else {
        None
    };
    if player is Some && row is Some && col is Some {
        Some(Move { player: player->Some_0, position: (row->Some_0, col->Some_0) })
    } else {
        None
    }
}

/// The size a query is read at: the given one when it is 3, 5 or 7, else 3.
pub open spec fn effective_size(size: Option<usize>) -> usize {
    match size {
        Some(s) => if s == 3 || s == 5 || s == 7 {
            s
        } else {
            3
        },
        None => 3,
    }
}

/// The moves of a token on a board of dimension `n`. A token of one segment
/// that does not read stands for no moves; otherwise every segment must read.
pub open spec fn decode_moves(token: Seq<u8>, n: int) -> Result<Seq<Move>, QueryError> {
    let segs = split_pieces(token, n * n, SEGMENT_DELIMITER);
    if segs.len() == 1 && decode_segment(segs[0]) is None {
        Ok(seq![])
    } else if forall|i: int| 0 <= i < segs.len() ==> (#[trigger] decode_segment(segs[i])) is Some {
        Ok(Seq::new(segs.len(), |i: int| decode_segment(segs[i])->Some_0))
    } else {
        Err(QueryError::InvalidMove)
    }
}

/// Text without the delimiter stays whole.
proof fn lemma_split_without_delimiter(s: Seq<u8>, limit: int, delim: u8)
    requires
        !s.contains(delim),
    ensures
        split_state(s, limit, delim) == (Seq::<Seq<u8>>::empty(), s),
    decreases s.len(),
{
    if s.len() > 0 {
        assert(!s.drop_last().contains(delim)) by {
            if s.drop_last().contains(delim) {
                let k = choose|k: int| 0 <= k < s.drop_last().len() && s.drop_last()[k] == delim;
                assert(s[k] == delim);
            }
        }
        lemma_split_without_delimiter(s.drop_last(), limit, delim);
        assert(s.last() != delim) by {
            assert(s[s.len() - 1] == s.last());
        }
        assert(s.drop_last().push(s.last()) =~= s);
    }
}

/// A token made of one segment that does not read stands for no moves, at
/// every size.
pub proof fn lemma_unreadable_single_segment(token: Seq<u8>, n: int)
    requires
        n >= 1,
        !token.contains(SEGMENT_DELIMITER),
        decode_segment(token) is None,
    ensures
        decode_moves(token, n) == Ok::<Seq<Move>, QueryError>(seq![]),
{
    lemma_split_without_delimiter(token, n * n, SEGMENT_DELIMITER);
    assert(split_pieces(token, n * n, SEGMENT_DELIMITER) =~= seq![token]);
}

/// The empty token decodes to no moves at every supported size.
pub proof fn lemma_empty_token_has_no_moves(n: int)
    requires
        n == 3 || n == 5 || n == 7,
    ensures
        decode_moves(seq![], n) == Ok::<Seq<Move>, QueryError>(seq![]),
{
    let parts = split_pieces(seq![], 3, PART_DELIMITER);
    assert(parts =~= seq![Seq::<u8>::empty()]);
    assert(player_of_bytes(parts[0]) is None) by {
        assert(parts[0].len() != symbol_bytes(Player::X).len());
        assert(parts[0].len() != symbol_bytes(Player::O).len());
    }
    lemma_unreadable_single_segment(seq![], n);
}

/// Splits `s` on `delim` into at most `limit` pieces.
fn split_limited(s: &[u8], limit: usize, delim: u8) -> (r: Vec<Vec<u8>>)
    requires
        limit >= 1,
    ensures
        r.deep_view() == split_pieces(s@, limit as int, delim),
{
    let mut done: Vec<Vec<u8>> = Vec::new();
    let mut cur: Vec<u8> = Vec::new();
    let mut i: usize = 0;
    while i < s.len()
        invariant
            limit >= 1,
            i <= s@.len(),
            done.len() <= i,
            done.deep_view() == split_state(s@.take(i as int), limit as int, delim).0,
            cur@ == split_state(s@.take(i as int), limit as int, delim).1,
        decreases s@.len() - i,
    {
        assert(s@.take(i + 1).drop_last() =~= s@.take(i as int));
        let b = s[i];
        if b == delim && done.len() < limit - 1 {
            let ghost before = done.deep_view();
            let ghost piece = cur@;
            assert(cur.deep_view() =~= piece);
            done.push(cur);
            cur = Vec::new();
            assert(done.deep_view() =~= before.push(piece));
        } else {
            cur.push(b);
        }
        i = i + 1;
    }
    assert(s@.take(i as int) =~= s@);
    let ghost before = done.deep_view();
    let ghost piece = cur@;
    assert(cur.deep_view() =~= piece);
    done.push(cur);
    assert(done.deep_view() =~= before.push(piece));
    done
}

/// A prefix of a string of digits has at most its value.
proof fn lemma_prefix_value(d: Seq<u8>, j: int)
    requires
        all_digits(d),
        0 <= j <= d.len(),
    ensures
        0 <= digits_value(d.take(j)) <= digits_value(d),
    decreases d.len(),
{
    if j == d.len() {
        assert(d.take(j) =~= d);
        lemma_value_nonneg(d);
    } else {
        assert(d.drop_last().take(j) =~= d.take(j));
        lemma_prefix_value(d.drop_last(), j);
    }
}

proof fn lemma_value_nonneg(d: Seq<u8>)
    requires
        all_digits(d),
    ensures
        digits_value(d) >= 0,
    decreases d.len(),
{
    if d.len() > 0 {
        lemma_value_nonneg(d.drop_last());
    }
}

/// Reads an unsigned number: an optional `+`, then decimal digits.
fn read_number(s: &[u8]) -> (r: Option<usize>)
    ensures
        r == parse_number(s@),
{
    let start: usize = if s.len() > 0 && s[0] == 43 {
        1
    } else {
        0
    };
    let ghost d = if s@.len() > 0 && s@[0] == 43 {
        s@.drop_first()
    } else {
        s@
    };
    assert(d =~= s@.subrange(start as int, s@.len() as int));
    if start >= s.len() {
        return None;
    }
    let mut value: usize = 0;
    let mut i: usize = start;
    while i < s.len()
        invariant
            start <= i <= s@.len(),
            d == (if s@.len() > 0 && s@[0] == 43 {
                s@.drop_first()
            } else {
                s@
            }),
            d =~= s@.subrange(start as int, s@.len() as int),
            all_digits(d.take(i - start)),
            value == digits_value(d.take(i - start)),
        decreases s@.len() - i,
    {
        let ghost j = i - start;
        assert(d.take(j + 1).drop_last() =~= d.take(j));
        let b = s[i];
        assert(d[j] == b);
        if b < 48 || b > 57 {
            assert(!is_digit(d[j]));
            assert(!all_digits(d));
            return None;
        }
        assert(digits_value(d.take(j + 1)) == 10 * value + (b - 48));
        let step = value.checked_mul(10);
        let next = match step {
            Some(v) => v.checked_add((b - 48) as usize),
            None => None,
        };
        match next {
            Some(v) => {
                value = v;
            },
            None => {
                proof {
                    assert(digits_value(d.take(j + 1)) > usize::MAX);
                    if all_digits(d) {
                        lemma_prefix_value(d, j + 1);
                    }
                }
                return None;
            },
        }
        i = i + 1;
    }
    assert(d.take(i - start) =~= d);
    Some(value)
}

/// Reads one segment `P-R-C` into a move.
fn read_segment(seg: &[u8]) -> (r: Option<Move>)
    ensures
        r == decode_segment(seg@),
{
    let parts = split_limited(seg, 3, PART_DELIMITER);
    assert(parts.deep_view()[0] == parts@[0]@);
    let player = Player::from_bytes(parts[0].as_slice());
    let row = if parts.len() > 1 {
        assert(parts.deep_view()[1] == parts@[1]@);
        read_number(parts[1].as_slice())
    } else {
        None
    };
    let col = if parts.len() > 2 {
        assert(parts.deep_view()[2] == parts@[2]@);
        read_number(parts[2].as_slice())
    } else {
        None
    };
    match (player, row, col) {
        (Some(p), Some(r), Some(c)) => Some(Move { player: p, position: (r, c) }),
        _ => None,
    }
}

impl GameQuery {
    /// Builds a query from its raw parts. A size other than 3, 5 or 7 reads
    /// as 3. The move token is split into at most `size * size` segments on
    /// `_`, each read as `P-R-C`; see `decode_moves`.
    pub fn decode(gid: GID, size: Option<usize>, playing: Player, moves: &str) -> (r: Result<
        GameQuery,
        QueryError,
    >)
        ensures
            match decode_moves(moves.spec_bytes(), effective_size(size) as int) {
                Ok(ms) => r is Ok && r->Ok_0.gid == gid && r->Ok_0.size == effective_size(size)
                    && r->Ok_0.playing == playing && r->Ok_0.moves@ == ms,
                Err(e) => r == Err::<GameQuery, QueryError>(e),
            },
    {
        let n: usize = match size {
            Some(s) => if s == 3 || s == 5 || s == 7 {
                s
            } else {
                3
            },
            None => 3,
        };
        assert(1 <= n * n <= 49) by (nonlinear_arith)
            requires
                3 <= n <= 7,
        ;
        let segs = split_limited(moves.as_bytes(), n * n, SEGMENT_DELIMITER);
        let ghost pieces = segs.deep_view();
        if segs.len() == 1 {
            assert(pieces[0] == segs@[0]@);
            if read_segment(segs[0].as_slice()).is_none() {
                return Ok(GameQuery { gid, size: n, playing, moves: Vec::new() });
            }
        }
        let mut decoded: Vec<Move> = Vec::new();
        let mut i: usize = 0;
        while i < segs.len()
            invariant
                i <= segs@.len(),
                pieces == segs.deep_view(),
                pieces.len() == segs@.len(),
                pieces == split_pieces(moves.spec_bytes(), (n * n) as int, SEGMENT_DELIMITER),
                n == effective_size(size),
                pieces.len() == 1 ==> decode_segment(pieces[0]) is Some,
                forall|j: int| 0 <= j < i ==> (#[trigger] decode_segment(pieces[j])) is Some,
                decoded@ =~= Seq::new(i as nat, |j: int| decode_segment(pieces[j])->Some_0),
            decreases segs@.len() - i,
        {
            assert(pieces[i as int] == segs@[i as int]@);
            match read_segment(segs[i].as_slice()) {
                Some(m) => {
                    decoded.push(m);
                },
                None => {
                    return Err(QueryError::InvalidMove);
                },
            }
            i = i + 1;
        }
        Ok(GameQuery { gid, size: n, playing, moves: decoded })
    }
}

} // verus!
