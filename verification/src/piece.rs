use crate::position::Position;
use vstd::prelude::*;

verus! {

/// The six kinds of chessmen.  The enumeration is closed: no other kind can
/// exist, so move generation needs no error path for an unknown kind.
#[derive(Clone, Copy, PartialEq, Eq, Structural, Debug)]
pub enum Kind {
    Pawn,
    Knight,
    Bishop,
    Rook,
    Queen,
    King,
}

/// A single chessman: its current square, its color (`white` is `true` for
/// White, `false` for Black), and its kind.  The square changes when the
/// piece moves and the kind changes on promotion; the color never changes.
#[derive(Clone, Copy, PartialEq, Eq, Structural, Debug)]
pub struct Piece {
    pub position: Position,
    pub white: bool,
    pub piece: Kind,
}

/// A well-formed collection of live pieces: every piece stands on the board,
/// and no two pieces share a square.
pub open spec fn wf_pieces(pieces: Seq<Piece>) -> bool {
    &&& forall|i: int| 0 <= i < pieces.len() ==> (#[trigger] pieces[i]).position.wf()
    &&& forall|i: int, j: int|
        0 <= i < j < pieces.len() ==> (#[trigger] pieces[i]).position != (
        #[trigger] pieces[j]).position
}

/// No square appears twice in the list.
pub open spec fn no_repeats(moves: Seq<Position>) -> bool {
    forall|i: int, j: int| 0 <= i < j < moves.len() ==> moves[i] != moves[j]
}

/// Some piece stands on the square with file `f` and rank `r`.
pub open spec fn occupied(pieces: Seq<Piece>, f: int, r: int) -> bool {
    exists|i: int|
        0 <= i < pieces.len() && (#[trigger] pieces[i]).position.0 as int == f
            && pieces[i].position.1 as int == r
}

/// A piece of the given color stands on the square with file `f` and rank `r`.
pub open spec fn occupied_by(pieces: Seq<Piece>, f: int, r: int, white: bool) -> bool {
    exists|i: int|
        0 <= i < pieces.len() && (#[trigger] pieces[i]).position.0 as int == f
            && pieces[i].position.1 as int == r && pieces[i].white == white
}

/// The coordinates lie on the board.
pub open spec fn on_board(f: int, r: int) -> bool {
    0 <= f < 8 && 0 <= r < 8
}

/// The direction a pawn of the given color advances in: White moves up the
/// ranks, Black moves down.
pub open spec fn pawn_dir(white: bool) -> int {
    if white {
        1
    } else {
        -1
    }
}

/// The rank a pawn of the given color starts on, from which alone it may
/// advance two squares.
pub open spec fn pawn_start_rank(white: bool) -> int {
    if white {
        1
    } else {
        6
    }
}

/// The rank on which a pawn of the given color promotes: the opponent's home
/// rank.
pub open spec fn promotion_rank(white: bool) -> int {
    if white {
        7
    } else {
        0
    }
}

/// The pawn `p` may advance to `to`: one square forward onto an empty
/// square, or two squares forward from its starting rank when both squares
/// ahead are empty.
pub open spec fn pawn_forward_move(p: Piece, pieces: Seq<Piece>, to: Position) -> bool {
    let f = p.position.0 as int;
    let r = p.position.1 as int;
    let tf = to.0 as int;
    let tr = to.1 as int;
    let d = pawn_dir(p.white);
    on_board(tf, tr) && tf == f && ((tr == r + d && !occupied(pieces, tf, tr)) || (tr == r + 2 * d
        && r == pawn_start_rank(p.white) && !occupied(pieces, f, r + d) && !occupied(
        pieces,
        tf,
        tr,
    )))
}

/// The pawn `p` may capture towards file side `side` (`-1` or `1`): one
/// square diagonally forward onto an opposing piece.
pub open spec fn pawn_capture_move(p: Piece, pieces: Seq<Piece>, to: Position, side: int) -> bool {
    let f = p.position.0 as int;
    let r = p.position.1 as int;
    let tf = to.0 as int;
    let tr = to.1 as int;
    let d = pawn_dir(p.white);
    on_board(tf, tr) && tf == f + side && tr == r + d && occupied_by(pieces, tf, tr, !p.white)
}

/// The pawn `p` may move to `to`: one square forward onto an empty square;
/// two squares forward from its starting rank when both squares ahead are
/// empty; or one square diagonally forward onto an opposing piece.
pub open spec fn pawn_move(p: Piece, pieces: Seq<Piece>, to: Position) -> bool {
    ||| pawn_forward_move(p, pieces, to)
    ||| pawn_capture_move(p, pieces, to, -1)
    ||| pawn_capture_move(p, pieces, to, 1)
}

/// The offset of a knight's jump.
pub open spec fn knight_jump(df: int, dr: int) -> bool {
    ((df == 1 || df == -1) && (dr == 2 || dr == -2)) || ((df == 2 || df == -2) && (dr == 1 || dr
        == -1))
}

/// The offset of a king's step: to one of the up to eight adjacent squares.
pub open spec fn king_step(df: int, dr: int) -> bool {
    -1 <= df <= 1 && -1 <= dr <= 1 && !(df == 0 && dr == 0)
}

/// The knight `p` may move to `to`: a knight's jump away, on the board, and
/// not onto a piece of its own color.
pub open spec fn knight_move(p: Piece, pieces: Seq<Piece>, to: Position) -> bool {
    let f = p.position.0 as int;
    let r = p.position.1 as int;
    let tf = to.0 as int;
    let tr = to.1 as int;
    on_board(tf, tr) && knight_jump(tf - f, tr - r) && !occupied_by(pieces, tf, tr, p.white)
}

/// The king `p` may move to `to`: one step away in any direction, on the
/// board, and not onto a piece of its own color.
pub open spec fn king_move(p: Piece, pieces: Seq<Piece>, to: Position) -> bool {
    let f = p.position.0 as int;
    let r = p.position.1 as int;
    let tf = to.0 as int;
    let tr = to.1 as int;
    on_board(tf, tr) && king_step(tf - f, tr - r) && !occupied_by(pieces, tf, tr, p.white)
}

/// A ray direction along a diagonal.
pub open spec fn bishop_dir(di: int, dj: int) -> bool {
    (di == 1 || di == -1) && (dj == 1 || dj == -1)
}

/// Some piece stands `m` steps out from `(f, r)` along the ray with direction
/// `(di, dj)`.
pub open spec fn ray_square_occupied(
    pieces: Seq<Piece>,
    f: int,
    r: int,
    di: int,
    dj: int,
    m: int,
) -> bool {
    occupied(pieces, f + di * m, r + dj * m)
}

/// The first `k - 1` squares out from `(f, r)` along the ray with direction
/// `(di, dj)` are all empty.
pub open spec fn ray_clear_to(
    pieces: Seq<Piece>,
    f: int,
    r: int,
    di: int,
    dj: int,
    k: int,
) -> bool {
    forall|m: int| 1 <= m < k ==> !#[trigger] ray_square_occupied(pieces, f, r, di, dj, m)
}

/// How many steps along the ray with direction `(di, dj)` lead from `from`
/// to `to`, assuming `to` lies on that ray.
pub open spec fn ray_steps(from: Position, to: Position, di: int, dj: int) -> int {
    if di != 0 {
        di * (to.0 as int - from.0 as int)
    } else {
        dj * (to.1 as int - from.1 as int)
    }
}

/// The piece `p` may slide to `to` along the ray with direction `(di, dj)`:
/// `to` lies on that ray within the board, every square strictly between is
/// empty, and `to` holds no piece of `p`'s own color.
pub open spec fn ray_move(p: Piece, pieces: Seq<Piece>, to: Position, di: int, dj: int) -> bool {
    let f = p.position.0 as int;
    let r = p.position.1 as int;
    let tf = to.0 as int;
    let tr = to.1 as int;
    let k = ray_steps(p.position, to, di, dj);
    &&& on_board(tf, tr)
    &&& k >= 1
    &&& tf == f + di * k
    &&& tr == r + dj * k
    &&& ray_clear_to(pieces, f, r, di, dj, k)
    &&& !occupied_by(pieces, tf, tr, p.white)
}

/// The rook `p` may move to `to`: a slide along one of the four orthogonal
/// rays.
pub open spec fn rook_move(p: Piece, pieces: Seq<Piece>, to: Position) -> bool {
    ||| ray_move(p, pieces, to, 1, 0)
    ||| ray_move(p, pieces, to, -1, 0)
    ||| ray_move(p, pieces, to, 0, 1)
    ||| ray_move(p, pieces, to, 0, -1)
}

/// The bishop `p` may move to `to`: a slide along one of the four diagonal
/// rays.
pub open spec fn bishop_move(p: Piece, pieces: Seq<Piece>, to: Position) -> bool {
    ||| ray_move(p, pieces, to, 1, 1)
    ||| ray_move(p, pieces, to, 1, -1)
    ||| ray_move(p, pieces, to, -1, 1)
    ||| ray_move(p, pieces, to, -1, -1)
}

/// The queen `p` may move to `to`: a rook's or a bishop's slide.
pub open spec fn queen_move(p: Piece, pieces: Seq<Piece>, to: Position) -> bool {
    rook_move(p, pieces, to) || bishop_move(p, pieces, to)
}

/// The piece `p` may move to `to` under the pseudo-legal movement rules:
/// piece-movement and occupancy rules are obeyed, while leaving one's own
/// king in check is deliberately not ruled out.
pub open spec fn piece_move(p: Piece, pieces: Seq<Piece>, to: Position) -> bool {
    match p.piece {
        Kind::Pawn => pawn_move(p, pieces, to),
        Kind::Knight => knight_move(p, pieces, to),
        Kind::Bishop => bishop_move(p, pieces, to),
        Kind::Rook => rook_move(p, pieces, to),
        Kind::Queen => queen_move(p, pieces, to),
        Kind::King => king_move(p, pieces, to),
    }
}

/// A piece of one color standing on a square means the square is occupied.
pub proof fn lemma_occupied_by_implies_occupied(pieces: Seq<Piece>, f: int, r: int, white: bool)
    ensures
        occupied_by(pieces, f, r, white) ==> occupied(pieces, f, r),
{
    if occupied_by(pieces, f, r, white) {
        let i = choose|i: int|
            0 <= i < pieces.len() && (#[trigger] pieces[i]).position.0 as int == f
                && pieces[i].position.1 as int == r && pieces[i].white == white;
        assert(0 <= i < pieces.len() && pieces[i].position.0 as int == f
            && pieces[i].position.1 as int == r);
    }
}

/// In a well-formed collection the piece found on a square is the only piece
/// there, so it settles which color occupies the square.
pub proof fn lemma_unique_occupant(pieces: Seq<Piece>, i: int, white: bool)
    requires
        wf_pieces(pieces),
        0 <= i < pieces.len(),
    ensures
        occupied_by(pieces, pieces[i].position.0 as int, pieces[i].position.1 as int, white)
            <==> pieces[i].white == white,
{
    let f = pieces[i].position.0 as int;
    let r = pieces[i].position.1 as int;
    if occupied_by(pieces, f, r, white) {
        let j = choose|j: int|
            0 <= j < pieces.len() && (#[trigger] pieces[j]).position.0 as int == f
                && pieces[j].position.1 as int == r && pieces[j].white == white;
        assert(pieces[j].position == pieces[i].position);
        assert(j == i);
    }
    if pieces[i].white == white {
        assert(0 <= i < pieces.len() && pieces[i].position.0 as int == f
            && pieces[i].position.1 as int == r && pieces[i].white == white);
    }
}

/// Multiplying by a factor drawn from `{-1, 0, 1}` only negates, cancels or
/// keeps the other factor.
pub proof fn lemma_unit_mul(d: int, k: int)
    requires
        d == -1 || d == 0 || d == 1,
    ensures
        d * k == if d == 1 {
            k
        } else if d == -1 {
            -k
        } else {
            0
        },
{
    assert(d * k == if d == 1 {
        k
    } else if d == -1 {
        -k
    } else {
        0
    }) by (nonlinear_arith)
        requires
            d == -1 || d == 0 || d == 1,
    ;
}

/// The piece standing on `pos`; meaningful only when the square is occupied
/// in a well-formed collection.
pub open spec fn piece_at(pieces: Seq<Piece>, pos: Position) -> Piece {
    pieces[choose|i: int| 0 <= i < pieces.len() && (#[trigger] pieces[i]).position == pos]
}

/// In a well-formed collection at most one index holds any given square.
pub proof fn lemma_index_of_position(pieces: Seq<Piece>, i: int, k: int)
    requires
        wf_pieces(pieces),
        0 <= i < pieces.len(),
        0 <= k < pieces.len(),
        pieces[i].position == pieces[k].position,
    ensures
        i == k,
{
}

/// In a well-formed collection `piece_at` finds the piece at the index that
/// holds the square.
pub proof fn lemma_piece_at_index(pieces: Seq<Piece>, i: int)
    requires
        wf_pieces(pieces),
        0 <= i < pieces.len(),
    ensures
        piece_at(pieces, pieces[i].position) == pieces[i],
{
    let pos = pieces[i].position;
    assert(0 <= i < pieces.len() && pieces[i].position == pos);
    let j = choose|j: int| 0 <= j < pieces.len() && (#[trigger] pieces[j]).position == pos;
    lemma_index_of_position(pieces, i, j);
}

/// Finds the index of the piece standing on `position` by a linear scan.
pub fn get_index(pieces: &Vec<Piece>, position: Position) -> (r: Option<usize>)
    ensures
        r is Some <==> occupied(pieces@, position.0 as int, position.1 as int),
        r matches Some(i) ==> i < pieces@.len() && pieces@[i as int].position == position,
{
    let mut i: usize = 0;
    while i < pieces.len()
        invariant
            i <= pieces@.len(),
            forall|j: int| 0 <= j < i ==> (#[trigger] pieces@[j]).position != position,
        decreases pieces@.len() - i,
    {
        if pieces[i].position == position {
            proof {
                assert(0 <= i < pieces@.len() && pieces@[i as int].position.0 as int == position.0
                    as int && pieces@[i as int].position.1 as int == position.1 as int);
            }
            return Some(i);
        }
        i += 1;
    }
    proof {
        if occupied(pieces@, position.0 as int, position.1 as int) {
            let j = choose|j: int|
                0 <= j < pieces@.len() && (#[trigger] pieces@[j]).position.0 as int == position.0
                    as int && pieces@[j].position.1 as int == position.1 as int;
            assert(pieces@[j].position == position);
        }
    }
    None
}

/// Finds the piece standing on `position` by a linear scan.  On a
/// well-formed collection the piece found is the square's unique occupant.
pub fn get_piece(pieces: &Vec<Piece>, position: Position) -> (r: Option<&Piece>)
    ensures
        r is Some <==> occupied(pieces@, position.0 as int, position.1 as int),
        r matches Some(p) ==> p.position == position && pieces@.contains(*p),
        wf_pieces(pieces@) ==> (r matches Some(p) ==> *p == piece_at(pieces@, position)),
{
    match get_index(pieces, position) {
        Some(i) => {
            proof {
                assert(pieces@.contains(pieces@[i as int]));
                if wf_pieces(pieces@) {
                    lemma_piece_at_index(pieces@, i as int);
                }
            }
            Some(&pieces[i])
        },
        None => None,
    }
}

/// Reports whether a move list holds the given square, by a linear scan.
pub fn contains_position(moves: &Vec<Position>, q: Position) -> (r: bool)
    ensures
        r == moves@.contains(q),
{
    let mut i: usize = 0;
    while i < moves.len()
        invariant
            i <= moves@.len(),
            forall|k: int| 0 <= k < i as int ==> moves@[k] != q,
        decreases moves@.len() - i,
    {
        if moves[i] == q {
            proof {
                assert(moves@[i as int] == q);
            }
            return true;
        }
        i += 1;
    }
    false
}

/// Appends one destination square to a move list, unless it is already
/// present: a list free of repeats stays so.
fn push_move(moves: &mut Vec<Position>, q: Position)
    ensures
        forall|x: Position| final(moves)@.contains(x) <==> old(moves)@.contains(x) || x == q,
        no_repeats(old(moves)@) ==> no_repeats(final(moves)@),
{
    if contains_position(moves, q) {
        return ;
    }
    moves.push(q);
    proof {
        assert forall|x: Position| moves@.contains(x) <==> old(moves)@.contains(x) || x == q by {
            if old(moves)@.contains(x) {
                let i = choose|i: int| 0 <= i < old(moves)@.len() && old(moves)@[i] == x;
                assert(moves@[i] == x);
            }
            if x == q {
                assert(moves@[moves@.len() - 1] == x);
            }
            if moves@.contains(x) {
                let i = choose|i: int| 0 <= i < moves@.len() && moves@[i] == x;
                if i < old(moves)@.len() {
                    assert(old(moves)@[i] == x);
                }
            }
        }
        if no_repeats(old(moves)@) {
            assert forall|i: int, j: int|
                0 <= i < j < moves@.len() implies moves@[i] != moves@[j] by {
                if j == moves@.len() - 1 {
                    assert(moves@[i] == old(moves)@[i]);
                    assert(old(moves)@.contains(old(moves)@[i]));
                } else {
                    assert(moves@[i] == old(moves)@[i] && moves@[j] == old(moves)@[j]);
                }
            }
        }
    }
}

/// The single square at offset `(df, dr)` from `p` is on the board, is `to`,
/// and holds no piece of `p`'s own color.
pub open spec fn leap_target(p: Piece, pieces: Seq<Piece>, to: Position, df: int, dr: int) -> bool {
    let f = p.position.0 as int;
    let r = p.position.1 as int;
    on_board(f + df, r + dr) && to == Position((f + df) as u8, (r + dr) as u8) && !occupied_by(
        pieces,
        f + df,
        r + dr,
        p.white,
    )
}

/// A knight's move reaches exactly the reachable targets of the eight
/// knight's jump offsets.
proof fn lemma_knight_cases(p: Piece, pieces: Seq<Piece>, x: Position)
    requires
        p.wf(),
    ensures
        knight_move(p, pieces, x) <==> {
            ||| leap_target(p, pieces, x, 1, 2)
            ||| leap_target(p, pieces, x, 2, 1)
            ||| leap_target(p, pieces, x, 2, -1)
            ||| leap_target(p, pieces, x, 1, -2)
            ||| leap_target(p, pieces, x, -1, -2)
            ||| leap_target(p, pieces, x, -2, -1)
            ||| leap_target(p, pieces, x, -2, 1)
            ||| leap_target(p, pieces, x, -1, 2)
        },
{
    let f = p.position.0 as int;
    let r = p.position.1 as int;
    if knight_move(p, pieces, x) {
        let df = x.0 as int - f;
        let dr = x.1 as int - r;
        assert(x == Position((f + df) as u8, (r + dr) as u8));
    }
}

/// A king's move reaches exactly the reachable targets of the eight adjacent
/// offsets.
proof fn lemma_king_cases(p: Piece, pieces: Seq<Piece>, x: Position)
    requires
        p.wf(),
    ensures
        king_move(p, pieces, x) <==> {
            ||| leap_target(p, pieces, x, 1, 0)
            ||| leap_target(p, pieces, x, 1, 1)
            ||| leap_target(p, pieces, x, 0, 1)
            ||| leap_target(p, pieces, x, -1, 1)
            ||| leap_target(p, pieces, x, -1, 0)
            ||| leap_target(p, pieces, x, -1, -1)
            ||| leap_target(p, pieces, x, 0, -1)
            ||| leap_target(p, pieces, x, 1, -1)
        },
{
    let f = p.position.0 as int;
    let r = p.position.1 as int;
    if king_move(p, pieces, x) {
        let df = x.0 as int - f;
        let dr = x.1 as int - r;
        assert(x == Position((f + df) as u8, (r + dr) as u8));
    }
}

/// Appends the square at offset `(df, dr)` from `p` when it is on the board
/// and free of `p`'s own color.
fn push_leap(moves: &mut Vec<Position>, p: &Piece, pieces: &Vec<Piece>, df: i8, dr: i8)
    requires
        p.wf(),
        wf_pieces(pieces@),
        -2 <= df <= 2,
        -2 <= dr <= 2,
    ensures
        forall|x: Position|
            final(moves)@.contains(x) <==> old(moves)@.contains(x) || leap_target(
                *p,
                pieces@,
                x,
                df as int,
                dr as int,
            ),
        no_repeats(old(moves)@) ==> no_repeats(final(moves)@),
{
    let nf = p.position.0 as i8 + df;
    let nr = p.position.1 as i8 + dr;
    if 0 <= nf && nf <= 7 && 0 <= nr && nr <= 7 {
        let q = Position(nf as u8, nr as u8);
        match get_index(pieces, q) {
            None => {
                proof {
                    lemma_occupied_by_implies_occupied(
                        pieces@,
                        q.0 as int,
                        q.1 as int,
                        p.white,
                    );
                }
                push_move(moves, q);
            },
            Some(i) => {
                proof {
                    lemma_unique_occupant(pieces@, i as int, p.white);
                }
                if pieces[i].white != p.white {
                    push_move(moves, q);
                }
            },
        }
    }
}

/// Walks the ray from `p` in direction `(di, dj)`, starting `k` steps out,
/// and appends every destination square along it: each empty square in turn,
/// stopping at the first occupied square, which is appended only when it
/// holds an opposing piece.
fn push_ray_from(moves: &mut Vec<Position>, p: &Piece, pieces: &Vec<Piece>, di: i8, dj: i8, k: i8)
    requires
        p.wf(),
        wf_pieces(pieces@),
        di == -1 || di == 0 || di == 1,
        dj == -1 || dj == 0 || dj == 1,
        !(di == 0 && dj == 0),
        1 <= k <= 8,
        ray_clear_to(pieces@, p.position.0 as int, p.position.1 as int, di as int, dj as int, k as int),
    ensures
        forall|x: Position|
            final(moves)@.contains(x) <==> old(moves)@.contains(x) || (ray_move(
                *p,
                pieces@,
                x,
                di as int,
                dj as int,
            ) && ray_steps(p.position, x, di as int, dj as int) >= k as int),
        no_repeats(old(moves)@) ==> no_repeats(final(moves)@),
    decreases 8 - k,
{
    let ghost fi = p.position.0 as int;
    let ghost ri = p.position.1 as int;
    let ghost dii = di as int;
    let ghost djj = dj as int;
    let f = p.position.0 as i8;
    let r = p.position.1 as i8;
    if k == 8 {
        proof {
            assert forall|x: Position| #[trigger] ray_move(
                *p,
                pieces@,
                x,
                dii,
                djj,
            ) implies ray_steps(p.position, x, dii, djj) < 8 by {
                let s = ray_steps(p.position, x, dii, djj);
                lemma_unit_mul(dii, s);
                lemma_unit_mul(djj, s);
            }
        }
        return ;
    }
    let nf = if di == 1 {
        f + k
    } else if di == -1 {
        f - k
    } else {
        f
    };
    let nr = if dj == 1 {
        r + k
    } else if dj == -1 {
        r - k
    } else {
        r
    };
    proof {
        lemma_unit_mul(dii, k as int);
        lemma_unit_mul(djj, k as int);
        assert(nf as int == fi + dii * (k as int));
        assert(nr as int == ri + djj * (k as int));
    }
    if nf < 0 || nf > 7 || nr < 0 || nr > 7 {
        proof {
            assert forall|x: Position| #[trigger] ray_move(
                *p,
                pieces@,
                x,
                dii,
                djj,
            ) implies ray_steps(p.position, x, dii, djj) < k as int by {
                let s = ray_steps(p.position, x, dii, djj);
                lemma_unit_mul(dii, s);
                lemma_unit_mul(djj, s);
            }
        }
        return ;
    }
    let q = Position(nf as u8, nr as u8);
    proof {
        assert(q.0 as int == fi + dii * (k as int));
        assert(q.1 as int == ri + djj * (k as int));
        lemma_unit_mul(dii, q.0 as int - fi);
        lemma_unit_mul(djj, q.1 as int - ri);
        assert(ray_steps(p.position, q, dii, djj) == k as int);
        assert forall|x: Position|
            #[trigger] ray_move(*p, pieces@, x, dii, djj) && ray_steps(
                p.position,
                x,
                dii,
                djj,
            ) == k as int implies x == q by {
            let s = ray_steps(p.position, x, dii, djj);
            lemma_unit_mul(dii, s);
            lemma_unit_mul(djj, s);
            assert(x.0 as int == q.0 as int && x.1 as int == q.1 as int);
            assert(x == Position(q.0, q.1));
        }
    }
    match get_index(pieces, q) {
        None => {
            proof {
                assert(!occupied(pieces@, fi + dii * (k as int), ri + djj * (k as int)));
                assert(!ray_square_occupied(pieces@, fi, ri, dii, djj, k as int));
                lemma_occupied_by_implies_occupied(pieces@, q.0 as int, q.1 as int, p.white);
                assert(ray_move(*p, pieces@, q, dii, djj));
                assert(ray_clear_to(pieces@, fi, ri, dii, djj, k as int + 1)) by {
                    assert(forall|m: int|
                        1 <= m < k as int + 1 ==> !#[trigger] ray_square_occupied(
                            pieces@,
                            fi,
                            ri,
                            dii,
                            djj,
                            m,
                        ));
                }
            }
            let ghost moves_pre = moves@;
            push_move(moves, q);
            let ghost moves_mid = moves@;
            push_ray_from(moves, p, pieces, di, dj, k + 1);
            proof {
                assert forall|x: Position|
                    moves@.contains(x) <==> moves_pre.contains(x) || (ray_move(
                        *p,
                        pieces@,
                        x,
                        dii,
                        djj,
                    ) && ray_steps(p.position, x, dii, djj) >= k as int) by {
                    assert(moves@.contains(x) <==> moves_mid.contains(x) || (ray_move(
                        *p,
                        pieces@,
                        x,
                        dii,
                        djj,
                    ) && ray_steps(p.position, x, dii, djj) >= k as int + 1));
                    assert(moves_mid.contains(x) <==> moves_pre.contains(x) || x == q);
                    if ray_move(*p, pieces@, x, dii, djj) && ray_steps(
                        p.position,
                        x,
                        dii,
                        djj,
                    ) == k as int {
                        assert(x == q);
                    }
                }
            }
        },
        Some(i) => {
            proof {
                assert(pieces@[i as int].position == q);
                assert(pieces@[i as int].position.0 as int == fi + dii * (k as int)
                    && pieces@[i as int].position.1 as int == ri + djj * (k as int));
                assert(ray_square_occupied(pieces@, fi, ri, dii, djj, k as int));
                lemma_unique_occupant(pieces@, i as int, p.white);
                lemma_unique_occupant(pieces@, i as int, !p.white);
                assert forall|x: Position| #[trigger] ray_move(
                    *p,
                    pieces@,
                    x,
                    dii,
                    djj,
                ) implies ray_steps(p.position, x, dii, djj) <= k as int by {
                    let s = ray_steps(p.position, x, dii, djj);
                    lemma_unit_mul(dii, s);
                    lemma_unit_mul(djj, s);
                    if s > k as int {
                        assert(!ray_square_occupied(pieces@, fi, ri, dii, djj, k as int));
                    }
                }
            }
            if pieces[i].white != p.white {
                proof {
                    assert(ray_move(*p, pieces@, q, dii, djj));
                }
                push_move(moves, q);
            } else {
                proof {
                    assert(!ray_move(*p, pieces@, q, dii, djj));
                }
            }
        },
    }
}

/// Walks the whole ray from `p` in direction `(di, dj)` and appends every
/// destination square along it.
fn push_ray(moves: &mut Vec<Position>, p: &Piece, pieces: &Vec<Piece>, di: i8, dj: i8)
    requires
        p.wf(),
        wf_pieces(pieces@),
        di == -1 || di == 0 || di == 1,
        dj == -1 || dj == 0 || dj == 1,
        !(di == 0 && dj == 0),
    ensures
        forall|x: Position|
            final(moves)@.contains(x) <==> old(moves)@.contains(x) || ray_move(
                *p,
                pieces@,
                x,
                di as int,
                dj as int,
            ),
        no_repeats(old(moves)@) ==> no_repeats(final(moves)@),
{
    proof {
        assert(ray_clear_to(
            pieces@,
            p.position.0 as int,
            p.position.1 as int,
            di as int,
            dj as int,
            1,
        ));
    }
    push_ray_from(moves, p, pieces, di, dj, 1);
}

/// On a diagonal ray from a bishop, the first occupied square is a
/// destination exactly when it holds an opposing piece, and no square
/// farther out along the same ray is a destination.
pub proof fn lemma_bishop_blocked_ray(
    p: Piece,
    pieces: Seq<Piece>,
    di: int,
    dj: int,
    k: int,
    to: Position,
)
    requires
        wf_pieces(pieces),
        p.wf(),
        p.piece == Kind::Bishop,
        bishop_dir(di, dj),
        1 <= k,
        ray_clear_to(pieces, p.position.0 as int, p.position.1 as int, di, dj, k),
        to.wf(),
        to.0 as int == p.position.0 as int + di * k,
        to.1 as int == p.position.1 as int + dj * k,
        occupied(pieces, to.0 as int, to.1 as int),
    ensures
        piece_move(p, pieces, to) <==> occupied_by(pieces, to.0 as int, to.1 as int, !p.white),
        forall|q: Position|
            #![trigger piece_move(p, pieces, q)]
            ray_steps(p.position, q, di, dj) > k && q.0 as int == p.position.0 as int + di
                * ray_steps(p.position, q, di, dj) && q.1 as int == p.position.1 as int + dj
                * ray_steps(p.position, q, di, dj) ==> !piece_move(p, pieces, q),
{
    let fi = p.position.0 as int;
    let ri = p.position.1 as int;
    lemma_unit_mul(di, k);
    lemma_unit_mul(dj, k);
    assert(ray_square_occupied(pieces, fi, ri, di, dj, k));
    lemma_unit_mul(di, to.0 as int - fi);
    lemma_unit_mul(dj, to.1 as int - ri);
    assert(ray_steps(p.position, to, di, dj) == k);
    if occupied_by(pieces, to.0 as int, to.1 as int, !p.white) {
        if occupied_by(pieces, to.0 as int, to.1 as int, p.white) {
            let a = choose|i: int|
                0 <= i < pieces.len() && (#[trigger] pieces[i]).position.0 as int == to.0 as int
                    && pieces[i].position.1 as int == to.1 as int && pieces[i].white == p.white;
            assert(pieces[a].position == to);
            lemma_unique_occupant(pieces, a, !p.white);
            assert(false);
        }
        assert(ray_move(p, pieces, to, di, dj));
        assert(bishop_move(p, pieces, to));
    }
    if piece_move(p, pieces, to) {
        let b = choose|i: int|
            0 <= i < pieces.len() && (#[trigger] pieces[i]).position.0 as int == to.0 as int
                && pieces[i].position.1 as int == to.1 as int;
        assert(pieces[b].position == to);
        lemma_unique_occupant(pieces, b, p.white);
        lemma_unique_occupant(pieces, b, !p.white);
        assert(occupied_by(pieces, to.0 as int, to.1 as int, !p.white));
    }
    assert forall|q: Position|
        ray_steps(p.position, q, di, dj) > k && q.0 as int == fi + di * ray_steps(
            p.position,
            q,
            di,
            dj,
        ) && q.1 as int == ri + dj * ray_steps(p.position, q, di, dj) implies !piece_move(
        p,
        pieces,
        q,
    ) by {
        let s = ray_steps(p.position, q, di, dj);
        lemma_unit_mul(di, s);
        lemma_unit_mul(dj, s);
        if ray_move(p, pieces, q, 1, 1) {
            let s2 = ray_steps(p.position, q, 1, 1);
            assert(di == 1 && dj == 1 && s2 == s);
            assert(!ray_square_occupied(pieces, fi, ri, 1, 1, k));
            assert(false);
        }
        if ray_move(p, pieces, q, 1, -1) {
            let s2 = ray_steps(p.position, q, 1, -1);
            assert(di == 1 && dj == -1 && s2 == s);
            assert(!ray_square_occupied(pieces, fi, ri, 1, -1, k));
            assert(false);
        }
        if ray_move(p, pieces, q, -1, 1) {
            let s2 = ray_steps(p.position, q, -1, 1);
            assert(di == -1 && dj == 1 && s2 == s);
            assert(!ray_square_occupied(pieces, fi, ri, -1, 1, k));
            assert(false);
        }
        if ray_move(p, pieces, q, -1, -1) {
            let s2 = ray_steps(p.position, q, -1, -1);
            assert(di == -1 && dj == -1 && s2 == s);
            assert(!ray_square_occupied(pieces, fi, ri, -1, -1, k));
            assert(false);
        }
        assert(!bishop_move(p, pieces, q));
    }
}

/// Every square a move predicate admits lies on the board.
proof fn lemma_move_wf(p: Piece, pieces: Seq<Piece>, x: Position)
    requires
        piece_move(p, pieces, x),
    ensures
        x.wf(),
{
}

/// Every square in a complete move list lies on the board.
proof fn lemma_moves_wf(p: Piece, pieces: Seq<Piece>, moves: Seq<Position>)
    requires
        forall|x: Position| moves.contains(x) <==> piece_move(p, pieces, x),
    ensures
        forall|i: int| 0 <= i < moves.len() ==> (#[trigger] moves[i]).wf(),
{
    assert forall|i: int| 0 <= i < moves.len() implies (#[trigger] moves[i]).wf() by {
        assert(moves.contains(moves[i]));
        lemma_move_wf(p, pieces, moves[i]);
    }
}

/// Appends the forward destinations of the pawn `p`: one square ahead when
/// empty, and two squares ahead from the starting rank when that is empty
/// too.
fn push_pawn_forward(moves: &mut Vec<Position>, p: &Piece, pieces: &Vec<Piece>)
    requires
        p.wf(),
        wf_pieces(pieces@),
    ensures
        forall|x: Position|
            final(moves)@.contains(x) <==> old(moves)@.contains(x) || pawn_forward_move(
                *p,
                pieces@,
                x,
            ),
        no_repeats(old(moves)@) ==> no_repeats(final(moves)@),
{
    let ri = p.position.1 as i8;
    let r1 = if p.white {
        ri + 1
    } else {
        ri - 1
    };
    if r1 < 0 || r1 > 7 {
        return ;
    }
    let q1 = Position(p.position.0, r1 as u8);
    if get_index(pieces, q1).is_some() {
        return ;
    }
    push_move(moves, q1);
    let start: u8 = if p.white {
        1
    } else {
        6
    };
    if p.position.1 != start {
        return ;
    }
    let r2 = if p.white {
        ri + 2
    } else {
        ri - 2
    };
    let q2 = Position(p.position.0, r2 as u8);
    if get_index(pieces, q2).is_some() {
        return ;
    }
    push_move(moves, q2);
}

/// Appends the capture destination of the pawn `p` towards file side `side`:
/// the square diagonally ahead, when an opposing piece stands on it.
fn push_pawn_capture(moves: &mut Vec<Position>, p: &Piece, pieces: &Vec<Piece>, side: i8)
    requires
        p.wf(),
        wf_pieces(pieces@),
        side == -1 || side == 1,
    ensures
        forall|x: Position|
            final(moves)@.contains(x) <==> old(moves)@.contains(x) || pawn_capture_move(
                *p,
                pieces@,
                x,
                side as int,
            ),
        no_repeats(old(moves)@) ==> no_repeats(final(moves)@),
{
    let nf = p.position.0 as i8 + side;
    let nr = if p.white {
        p.position.1 as i8 + 1
    } else {
        p.position.1 as i8 - 1
    };
    if nf < 0 || nf > 7 || nr < 0 || nr > 7 {
        return ;
    }
    let q = Position(nf as u8, nr as u8);
    match get_index(pieces, q) {
        None => {
            proof {
                lemma_occupied_by_implies_occupied(pieces@, q.0 as int, q.1 as int, !p.white);
            }
        },
        Some(i) => {
            proof {
                lemma_unique_occupant(pieces@, i as int, !p.white);
            }
            if pieces[i].white != p.white {
                push_move(moves, q);
            }
        },
    }
}

/// Generates the complete move list of the pawn `p`.
fn pawn_moves(p: &Piece, pieces: &Vec<Piece>) -> (moves: Vec<Position>)
    requires
        p.wf(),
        wf_pieces(pieces@),
    ensures
        forall|x: Position| moves@.contains(x) <==> pawn_move(*p, pieces@, x),
        no_repeats(moves@),
{
    let mut moves: Vec<Position> = Vec::new();
    push_pawn_forward(&mut moves, p, pieces);
    push_pawn_capture(&mut moves, p, pieces, -1);
    push_pawn_capture(&mut moves, p, pieces, 1);
    moves
}

/// Generates the complete move list of the knight `p`.
fn knight_moves(p: &Piece, pieces: &Vec<Piece>) -> (moves: Vec<Position>)
    requires
        p.wf(),
        wf_pieces(pieces@),
    ensures
        forall|x: Position| moves@.contains(x) <==> knight_move(*p, pieces@, x),
        no_repeats(moves@),
{
    let mut moves: Vec<Position> = Vec::new();
    push_leap(&mut moves, p, pieces, 1, 2);
    push_leap(&mut moves, p, pieces, 2, 1);
    push_leap(&mut moves, p, pieces, 2, -1);
    push_leap(&mut moves, p, pieces, 1, -2);
    push_leap(&mut moves, p, pieces, -1, -2);
    push_leap(&mut moves, p, pieces, -2, -1);
    push_leap(&mut moves, p, pieces, -2, 1);
    push_leap(&mut moves, p, pieces, -1, 2);
    proof {
        assert forall|x: Position| moves@.contains(x) <==> knight_move(*p, pieces@, x) by {
            lemma_knight_cases(*p, pieces@, x);
        }
    }
    moves
}

/// Generates the complete move list of the king `p`.
fn king_moves(p: &Piece, pieces: &Vec<Piece>) -> (moves: Vec<Position>)
    requires
        p.wf(),
        wf_pieces(pieces@),
    ensures
        forall|x: Position| moves@.contains(x) <==> king_move(*p, pieces@, x),
        no_repeats(moves@),
{
    let mut moves: Vec<Position> = Vec::new();
    push_leap(&mut moves, p, pieces, 1, 0);
    push_leap(&mut moves, p, pieces, 1, 1);
    push_leap(&mut moves, p, pieces, 0, 1);
    push_leap(&mut moves, p, pieces, -1, 1);
    push_leap(&mut moves, p, pieces, -1, 0);
    push_leap(&mut moves, p, pieces, -1, -1);
    push_leap(&mut moves, p, pieces, 0, -1);
    push_leap(&mut moves, p, pieces, 1, -1);
    proof {
        assert forall|x: Position| moves@.contains(x) <==> king_move(*p, pieces@, x) by {
            lemma_king_cases(*p, pieces@, x);
        }
    }
    moves
}

/// Generates the complete move list of the rook `p`.
fn rook_moves(p: &Piece, pieces: &Vec<Piece>) -> (moves: Vec<Position>)
    requires
        p.wf(),
        wf_pieces(pieces@),
    ensures
        forall|x: Position| moves@.contains(x) <==> rook_move(*p, pieces@, x),
        no_repeats(moves@),
{
    let mut moves: Vec<Position> = Vec::new();
    push_ray(&mut moves, p, pieces, 1, 0);
    push_ray(&mut moves, p, pieces, -1, 0);
    push_ray(&mut moves, p, pieces, 0, 1);
    push_ray(&mut moves, p, pieces, 0, -1);
    moves
}

/// Generates the complete move list of the bishop `p`.
fn bishop_moves(p: &Piece, pieces: &Vec<Piece>) -> (moves: Vec<Position>)
    requires
        p.wf(),
        wf_pieces(pieces@),
    ensures
        forall|x: Position| moves@.contains(x) <==> bishop_move(*p, pieces@, x),
        no_repeats(moves@),
{
    let mut moves: Vec<Position> = Vec::new();
    push_ray(&mut moves, p, pieces, 1, 1);
    push_ray(&mut moves, p, pieces, 1, -1);
    push_ray(&mut moves, p, pieces, -1, 1);
    push_ray(&mut moves, p, pieces, -1, -1);
    moves
}

/// Generates the complete move list of the queen `p`.
fn queen_moves(p: &Piece, pieces: &Vec<Piece>) -> (moves: Vec<Position>)
    requires
        p.wf(),
        wf_pieces(pieces@),
    ensures
        forall|x: Position| moves@.contains(x) <==> queen_move(*p, pieces@, x),
        no_repeats(moves@),
{
    let mut moves: Vec<Position> = Vec::new();
    push_ray(&mut moves, p, pieces, 1, 0);
    push_ray(&mut moves, p, pieces, -1, 0);
    push_ray(&mut moves, p, pieces, 0, 1);
    push_ray(&mut moves, p, pieces, 0, -1);
    push_ray(&mut moves, p, pieces, 1, 1);
    push_ray(&mut moves, p, pieces, 1, -1);
    push_ray(&mut moves, p, pieces, -1, 1);
    push_ray(&mut moves, p, pieces, -1, -1);
    moves
}

impl Piece {
    /// The piece stands on the board.
    pub open spec fn wf(self) -> bool {
        self.position.wf()
    }

    /// The piece is a pawn standing on its promotion rank, so its kind must
    /// change on request.
    pub open spec fn can_promote(self) -> bool {
        self.piece == Kind::Pawn && self.position.1 as int == promotion_rank(self.white)
    }

    /// Constructs a piece of the given color and kind on the given square.
    pub fn new(position: Position, white: bool, piece: Kind) -> (r: Piece)
        requires
            position.wf(),
        ensures
            r == (Piece { position, white, piece }),
            r.wf(),
    {
        Piece { position, white, piece }
    }

    /// Generates the piece's complete pseudo-legal move list against the
    /// given board occupancy: exactly the squares that [`piece_move`]
    /// admits, each of them on the board and none listed twice.  The order
    /// of the list carries no meaning.
    pub fn get_moves(&self, pieces: &Vec<Piece>) -> (moves: Vec<Position>)
        requires
            self.wf(),
            wf_pieces(pieces@),
        ensures
            forall|x: Position| #[trigger] moves@.contains(x) <==> piece_move(*self, pieces@, x),
            forall|i: int| 0 <= i < moves@.len() ==> (#[trigger] moves@[i]).wf(),
            no_repeats(moves@),
    {
        match self.piece {
            Kind::Pawn => {
                let moves = pawn_moves(self, pieces);
                proof {
                    assert(forall|x: Position|
                        moves@.contains(x) <==> piece_move(*self, pieces@, x));
                    lemma_moves_wf(*self, pieces@, moves@);
                }
                return moves;
            },
            Kind::Knight => {
                let moves = knight_moves(self, pieces);
                proof {
                    assert(forall|x: Position|
                        moves@.contains(x) <==> piece_move(*self, pieces@, x));
                    lemma_moves_wf(*self, pieces@, moves@);
                }
                return moves;
            },
            Kind::Bishop => {
                let moves = bishop_moves(self, pieces);
                proof {
                    assert(forall|x: Position|
                        moves@.contains(x) <==> piece_move(*self, pieces@, x));
                    lemma_moves_wf(*self, pieces@, moves@);
                }
                return moves;
            },
            Kind::Rook => {
                let moves = rook_moves(self, pieces);
                proof {
                    assert(forall|x: Position|
                        moves@.contains(x) <==> piece_move(*self, pieces@, x));
                    lemma_moves_wf(*self, pieces@, moves@);
                }
                return moves;
            },
            Kind::Queen => {
                let moves = queen_moves(self, pieces);
                proof {
                    assert(forall|x: Position|
                        moves@.contains(x) <==> piece_move(*self, pieces@, x));
                    lemma_moves_wf(*self, pieces@, moves@);
                }
                return moves;
            },
            Kind::King => {
                let moves = king_moves(self, pieces);
                proof {
                    assert(forall|x: Position|
                        moves@.contains(x) <==> piece_move(*self, pieces@, x));
                    lemma_moves_wf(*self, pieces@, moves@);
                }
                return moves;
            },
        }
    }

    /// Changes the kind of a pawn standing on its promotion rank to the
    /// requested kind; any other piece is left unchanged.  Color and square
    /// are always retained.
    pub fn promote(&mut self, new_kind: Kind)
        ensures
            old(self).can_promote() ==> *final(self) == (Piece {
                piece: new_kind,
                ..*old(self)
            }),
            !old(self).can_promote() ==> *final(self) == *old(self),
    {
        if matches!(self.piece, Kind::Pawn) {
            let rank = self.position.1;
            if (self.white && rank == 7) || (!self.white && rank == 0) {
                self.piece = new_kind;
            }
        }
    }
}

} // verus!
