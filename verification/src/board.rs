use crate::piece::{
    contains_position, get_index, occupied, on_board, piece_at, piece_move, ray_steps, wf_pieces,
    Kind, Piece,
};
use crate::position::Position;
use vstd::prelude::*;

verus! {

/// Some king of the given color stands on a square that some opposing piece
/// may move to.
pub open spec fn in_check(pieces: Seq<Piece>, white: bool) -> bool {
    exists|a: int, b: int|
        0 <= a < pieces.len() && 0 <= b < pieces.len() && (#[trigger] pieces[a]).piece
            == Kind::King && pieces[a].white == white && (#[trigger] pieces[b]).white != white
            && piece_move(pieces[b], pieces, pieces[a].position)
}

/// The kind standing on file `f` of each side's home rank at the start of a
/// game.
pub open spec fn back_rank_kind(f: int) -> Kind {
    if f == 0 || f == 7 {
        Kind::Rook
    } else if f == 1 || f == 6 {
        Kind::Knight
    } else if f == 2 || f == 5 {
        Kind::Bishop
    } else if f == 3 {
        Kind::Queen
    } else {
        Kind::King
    }
}

/// `pc` is one of the 32 pieces of the standard starting layout.
pub open spec fn starting_piece(pc: Piece) -> bool {
    let f = pc.position.0 as int;
    let r = pc.position.1 as int;
    f < 8 && ((pc.white && r == 0 && pc.piece == back_rank_kind(f)) || (pc.white && r == 1
        && pc.piece == Kind::Pawn) || (!pc.white && r == 6 && pc.piece == Kind::Pawn) || (!pc.white
        && r == 7 && pc.piece == back_rank_kind(f)))
}

/// Why a requested move was rejected.
#[derive(Clone, Copy, PartialEq, Eq, Structural, Debug)]
pub enum MoveError {
    /// No piece stands on the source square.
    NoPieceAtSource,
}

/// The board: the unordered collection of live pieces, with at most one
/// piece per square.  The board owns every live piece; a piece leaves it
/// only by being captured.
pub struct Board {
    pub pieces: Vec<Piece>,
}

/// The starting kind for file `f` of each side's home rank.
fn back_rank(f: u8) -> (k: Kind)
    requires
        f < 8,
    ensures
        k == back_rank_kind(f as int),
{
    if f == 0 || f == 7 {
        Kind::Rook
    } else if f == 1 || f == 6 {
        Kind::Knight
    } else if f == 2 || f == 5 {
        Kind::Bishop
    } else if f == 3 {
        Kind::Queen
    } else {
        Kind::King
    }
}

impl Board {
    /// The board is well-formed: every piece stands on the board and no two
    /// pieces share a square.
    pub open spec fn wf(self) -> bool {
        wf_pieces(self.pieces@)
    }

    /// Fills an empty board with the 32 pieces of the standard starting
    /// layout: each side's back rank holds rook, knight, bishop, queen,
    /// king, bishop, knight, rook, and the rank before it eight pawns.
    pub fn initialize(self) -> (board: Board)
        requires
            self.pieces@.len() == 0,
        ensures
            board.wf(),
            board.pieces@.len() == 32,
            forall|pc: Piece| #[trigger] board.pieces@.contains(pc) <==> starting_piece(pc),
            forall|f: int, r: int|
                on_board(f, r) ==> (#[trigger] occupied(board.pieces@, f, r) <==> (r <= 1 || 6
                    <= r)),
    {
        let mut pieces = self.pieces;
        let mut i: u8 = 0;
        while i < 8
            invariant
                i <= 8,
                pieces@.len() == i as int,
                forall|k: int|
                    0 <= k < i as int ==> #[trigger] pieces@[k] == (Piece {
                        position: Position(k as u8, 0),
                        white: true,
                        piece: back_rank_kind(k),
                    }),
            decreases 8 - i,
        {
            pieces.push(Piece { position: Position(i, 0), white: true, piece: back_rank(i) });
            i += 1;
        }
        let mut i: u8 = 0;
        while i < 8
            invariant
                i <= 8,
                pieces@.len() == 8 + i as int,
                forall|k: int|
                    0 <= k < 8 ==> #[trigger] pieces@[k] == (Piece {
                        position: Position(k as u8, 0),
                        white: true,
                        piece: back_rank_kind(k),
                    }),
                forall|k: int|
                    8 <= k < 8 + i as int ==> #[trigger] pieces@[k] == (Piece {
                        position: Position((k - 8) as u8, 1),
                        white: true,
                        piece: Kind::Pawn,
                    }),
            decreases 8 - i,
        {
            pieces.push(Piece { position: Position(i, 1), white: true, piece: Kind::Pawn });
            i += 1;
        }
        let mut i: u8 = 0;
        while i < 8
            invariant
                i <= 8,
                pieces@.len() == 16 + i as int,
                forall|k: int|
                    0 <= k < 8 ==> #[trigger] pieces@[k] == (Piece {
                        position: Position(k as u8, 0),
                        white: true,
                        piece: back_rank_kind(k),
                    }),
                forall|k: int|
                    8 <= k < 16 ==> #[trigger] pieces@[k] == (Piece {
                        position: Position((k - 8) as u8, 1),
                        white: true,
                        piece: Kind::Pawn,
                    }),
                forall|k: int|
                    16 <= k < 16 + i as int ==> #[trigger] pieces@[k] == (Piece {
                        position: Position((k - 16) as u8, 6),
                        white: false,
                        piece: Kind::Pawn,
                    }),
            decreases 8 - i,
        {
            pieces.push(Piece { position: Position(i, 6), white: false, piece: Kind::Pawn });
            i += 1;
        }
        let mut i: u8 = 0;
        while i < 8
            invariant
                i <= 8,
                pieces@.len() == 24 + i as int,
                forall|k: int|
                    0 <= k < 8 ==> #[trigger] pieces@[k] == (Piece {
                        position: Position(k as u8, 0),
                        white: true,
                        piece: back_rank_kind(k),
                    }),
                forall|k: int|
                    8 <= k < 16 ==> #[trigger] pieces@[k] == (Piece {
                        position: Position((k - 8) as u8, 1),
                        white: true,
                        piece: Kind::Pawn,
                    }),
                forall|k: int|
                    16 <= k < 24 ==> #[trigger] pieces@[k] == (Piece {
                        position: Position((k - 16) as u8, 6),
                        white: false,
                        piece: Kind::Pawn,
                    }),
                forall|k: int|
                    24 <= k < 24 + i as int ==> #[trigger] pieces@[k] == (Piece {
                        position: Position((k - 24) as u8, 7),
                        white: false,
                        piece: back_rank_kind(k - 24),
                    }),
            decreases 8 - i,
        {
            pieces.push(
                Piece { position: Position(i, 7), white: false, piece: back_rank(i) },
            );
            i += 1;
        }
        let board = Board { pieces };
        proof {
            assert forall|pc: Piece| #[trigger] board.pieces@.contains(pc) <==> starting_piece(
                pc,
            ) by {
                if board.pieces@.contains(pc) {
                    let k = choose|k: int|
                        0 <= k < board.pieces@.len() && board.pieces@[k] == pc;
                    assert(starting_piece(pc));
                }
                if starting_piece(pc) {
                    let f = pc.position.0 as int;
                    let r = pc.position.1 as int;
                    if pc.white && r == 0 {
                        assert(board.pieces@[f] == pc);
                    } else if pc.white && r == 1 {
                        assert(board.pieces@[8 + f] == pc);
                    } else if !pc.white && r == 6 {
                        assert(board.pieces@[16 + f] == pc);
                    } else {
                        assert(board.pieces@[24 + f] == pc);
                    }
                    assert(board.pieces@.contains(pc));
                }
            }
            assert forall|k1: int, k2: int| 0 <= k1 < k2 < 32 implies (
            #[trigger] board.pieces@[k1]).position != (#[trigger] board.pieces@[k2]).position by {
                assert(board.pieces@[k1].position.1 != board.pieces@[k2].position.1
                    || board.pieces@[k1].position.0 != board.pieces@[k2].position.0);
            }
            assert forall|f: int, r: int| on_board(f, r) implies (#[trigger] occupied(
                board.pieces@,
                f,
                r,
            ) <==> (r <= 1 || 6 <= r)) by {
                if occupied(board.pieces@, f, r) {
                    let k = choose|k: int|
                        0 <= k < board.pieces@.len() && (#[trigger] board.pieces@[k]).position.0
                            as int == f && board.pieces@[k].position.1 as int == r;
                    assert(r <= 1 || 6 <= r);
                }
                if r <= 1 || 6 <= r {
                    let k = if r == 0 {
                        f
                    } else if r == 1 {
                        8 + f
                    } else if r == 6 {
                        16 + f
                    } else {
                        24 + f
                    };
                    assert(board.pieces@[k].position.0 as int == f && board.pieces@[k].position.1
                        as int == r);
                    assert(occupied(board.pieces@, f, r));
                }
            }
        }
        board
    }

    /// Looks up the piece standing on `position`, or `None` when the square
    /// is empty.  On a well-formed board the piece found is the square's
    /// unique occupant.
    pub fn get_piece(&self, position: Position) -> (r: Option<&Piece>)
        ensures
            r is Some <==> occupied(self.pieces@, position.0 as int, position.1 as int),
            r matches Some(p) ==> p.position == position && self.pieces@.contains(*p),
            self.wf() ==> (r matches Some(p) ==> *p == piece_at(self.pieces@, position)),
    {
        crate::piece::get_piece(&self.pieces, position)
    }

    /// Applies a move: the piece standing on `position` is relocated to
    /// `new_position`, capturing (removing) whatever piece stood there.  No
    /// legality checking happens here: the caller is trusted to have
    /// validated `new_position` against the mover's generated moves.  With
    /// no piece on `position` the move is rejected and the board is
    /// unchanged.
    pub fn move_piece(&mut self, position: Position, new_position: Position) -> (r: Result<
        (),
        MoveError,
    >)
        requires
            old(self).wf(),
            new_position.wf(),
            position != new_position,
        ensures
            final(self).wf(),
            r is Ok <==> occupied(old(self).pieces@, position.0 as int, position.1 as int),
            r matches Err(e) ==> e == MoveError::NoPieceAtSource && *final(self) == *old(self),
            r is Ok ==> {
                let moved = Piece {
                    position: new_position,
                    ..piece_at(old(self).pieces@, position)
                };
                &&& !occupied(final(self).pieces@, position.0 as int, position.1 as int)
                &&& final(self).pieces@.contains(moved)
                &&& forall|pc: Piece|
                    #[trigger] final(self).pieces@.contains(pc) <==> (old(
                        self,
                    ).pieces@.contains(pc) && pc.position != position && pc.position
                        != new_position) || pc == moved
                &&& final(self).pieces@.len() == old(self).pieces@.len() - (if occupied(
                    old(self).pieces@,
                    new_position.0 as int,
                    new_position.1 as int,
                ) {
                    1int
                } else {
                    0int
                })
            },
    {
        let idx = get_index(&self.pieces, position);
        match idx {
            None => Err(MoveError::NoPieceAtSource),
            Some(i) => {
                let ghost old_pieces = self.pieces@;
                let other = get_index(&self.pieces, new_position);
                proof {
                    crate::piece::lemma_piece_at_index(old_pieces, i as int);
                }
                let mut pc = self.pieces[i];
                pc.position = new_position;
                self.pieces[i] = pc;
                let ghost moved = pc;
                let ghost mid = self.pieces@;
                match other {
                    Some(j) => {
                        proof {
                            assert(i != j);
                            mid.remove_ensures(j as int);
                        }
                        self.pieces.remove(j);
                        proof {
                            lemma_move_capture(
                                old_pieces,
                                self.pieces@,
                                i as int,
                                j as int,
                                position,
                                new_position,
                            );
                        }
                    },
                    None => {
                        proof {
                            lemma_move_plain(
                                old_pieces,
                                self.pieces@,
                                i as int,
                                position,
                                new_position,
                            );
                        }
                    },
                }
                Ok(())
            },
        }
    }

    /// Reports whether the given color stands in check: some king of that
    /// color stands on a square that some opposing piece may move to.  With
    /// no king of that color on the board, the color is not in check.
    pub fn is_check(&self, white: bool) -> (r: bool)
        requires
            self.wf(),
        ensures
            r == in_check(self.pieces@, white),
    {
        let n = self.pieces.len();
        let mut i: usize = 0;
        while i < n
            invariant
                self.wf(),
                n == self.pieces@.len(),
                i <= n,
                forall|a: int, b: int|
                    0 <= a < i as int && 0 <= b < n as int && (#[trigger] self.pieces@[a]).piece
                        == Kind::King && self.pieces@[a].white == white && (
                    #[trigger] self.pieces@[b]).white != white ==> !piece_move(
                        self.pieces@[b],
                        self.pieces@,
                        self.pieces@[a].position,
                    ),
            decreases n - i,
        {
            if matches!(self.pieces[i].piece, Kind::King) && self.pieces[i].white == white {
                let king_position = self.pieces[i].position;
                let mut j: usize = 0;
                while j < n
                    invariant
                        self.wf(),
                        n == self.pieces@.len(),
                        i < n,
                        j <= n,
                        self.pieces@[i as int].piece == Kind::King,
                        self.pieces@[i as int].white == white,
                        king_position == self.pieces@[i as int].position,
                        forall|b: int|
                            0 <= b < j as int && (#[trigger] self.pieces@[b]).white != white
                                ==> !piece_move(self.pieces@[b], self.pieces@, king_position),
                    decreases n - j,
                {
                    if self.pieces[j].white != white {
                        let attacker = self.pieces[j];
                        let attacker_moves = attacker.get_moves(&self.pieces);
                        if contains_position(&attacker_moves, king_position) {
                            proof {
                                assert(piece_move(
                                    self.pieces@[j as int],
                                    self.pieces@,
                                    self.pieces@[i as int].position,
                                ));
                            }
                            return true;
                        }
                    }
                    j += 1;
                }
            }
            i += 1;
        }
        proof {
            if in_check(self.pieces@, white) {
                let (a, b) = choose|a: int, b: int|
                    0 <= a < self.pieces@.len() && 0 <= b < self.pieces@.len() && (
                    #[trigger] self.pieces@[a]).piece == Kind::King && self.pieces@[a].white
                        == white && (#[trigger] self.pieces@[b]).white != white && piece_move(
                        self.pieces@[b],
                        self.pieces@,
                        self.pieces@[a].position,
                    );
                assert(false);
            }
        }
        false
    }

    /// Changes the kind of the piece standing on `position` to `new_kind`
    /// when that piece is a pawn on its promotion rank; any other board is
    /// left unchanged.  The promoted piece keeps its color and square.
    pub fn promote(&mut self, position: Position, new_kind: Kind)
        requires
            old(self).wf(),
        ensures
            final(self).wf(),
            final(self).pieces@.len() == old(self).pieces@.len(),
            if occupied(old(self).pieces@, position.0 as int, position.1 as int) && piece_at(
                old(self).pieces@,
                position,
            ).can_promote() {
                forall|k: int|
                    0 <= k < old(self).pieces@.len() ==> #[trigger] final(self).pieces@[k] == (if
                    old(self).pieces@[k].position == position {
                        Piece { piece: new_kind, ..old(self).pieces@[k] }
                    } else {
                        old(self).pieces@[k]
                    })
            } else {
                *final(self) == *old(self)
            },
    {
        let idx = get_index(&self.pieces, position);
        match idx {
            None => {
            },
            Some(i) => {
                proof {
                    crate::piece::lemma_piece_at_index(self.pieces@, i as int);
                }
                let mut pc = self.pieces[i];
                let was_promotable = matches!(pc.piece, Kind::Pawn) && ((pc.white && pc.position.1
                    == 7) || (!pc.white && pc.position.1 == 0));
                pc.promote(new_kind);
                if was_promotable {
                    let ghost old_pieces = self.pieces@;
                    self.pieces[i] = pc;
                    proof {
                        assert forall|k: int|
                            0 <= k < old_pieces.len() implies #[trigger] self.pieces@[k] == (if
                        old_pieces[k].position == position {
                            Piece { piece: new_kind, ..old_pieces[k] }
                        } else {
                            old_pieces[k]
                        }) by {
                            if k != i as int && old_pieces[k].position == position {
                                crate::piece::lemma_index_of_position(
                                    old_pieces,
                                    i as int,
                                    k,
                                );
                            }
                        }
                    }
                }
            },
        }
    }
}

/// A rook standing on the same rank as the opposing king, with every square
/// strictly between them empty, puts that king's color in check.
pub proof fn lemma_rook_rank_check(pieces: Seq<Piece>, a: int, b: int)
    requires
        wf_pieces(pieces),
        0 <= a < pieces.len(),
        0 <= b < pieces.len(),
        pieces[a].piece == Kind::King,
        pieces[b].piece == Kind::Rook,
        pieces[b].white != pieces[a].white,
        pieces[a].position.1 == pieces[b].position.1,
        pieces[a].position.0 != pieces[b].position.0,
        forall|f: int|
            ((pieces[b].position.0 as int) < f < (pieces[a].position.0 as int)) || ((
            pieces[a].position.0 as int) < f < (pieces[b].position.0 as int)) ==> !occupied(
                pieces,
                f,
                pieces[a].position.1 as int,
            ),
    ensures
        in_check(pieces, pieces[a].white),
{
    let king = pieces[a];
    let rook = pieces[b];
    let rf = rook.position.0 as int;
    let kf = king.position.0 as int;
    let r = rook.position.1 as int;
    let di: int = if kf > rf {
        1
    } else {
        -1
    };
    let k = if kf > rf {
        kf - rf
    } else {
        rf - kf
    };
    crate::piece::lemma_unit_mul(di, k);
    crate::piece::lemma_unit_mul(di, kf - rf);
    assert(ray_steps(rook.position, king.position, di, 0) == k);
    assert forall|m: int| 1 <= m < k implies !#[trigger] crate::piece::ray_square_occupied(
        pieces,
        rf,
        r,
        di,
        0,
        m,
    ) by {
        crate::piece::lemma_unit_mul(di, m);
        assert((rf < rf + di * m < kf) || (kf < rf + di * m < rf));
        assert(!occupied(pieces, rf + di * m, r));
    }
    assert(crate::piece::ray_clear_to(pieces, rf, r, di, 0, k));
    crate::piece::lemma_unique_occupant(pieces, a, rook.white);
    assert(!crate::piece::occupied_by(pieces, kf, r, rook.white));
    assert(crate::piece::ray_move(rook, pieces, king.position, di, 0));
    assert(crate::piece::rook_move(rook, pieces, king.position));
    assert(piece_move(pieces[b], pieces, pieces[a].position));
    assert(in_check(pieces, pieces[a].white));
}

/// With only a white king, a black rook on the king's rank, and a white
/// pawn standing strictly between them, White is not in check: the pawn
/// blocks the rook's ray, and nothing else on the board attacks.
pub proof fn lemma_blocked_rook_rank_no_check(
    king: Piece,
    rook: Piece,
    pawn: Piece,
    pieces: Seq<Piece>,
)
    requires
        wf_pieces(pieces),
        pieces == seq![king, rook, pawn],
        king.piece == Kind::King,
        king.white,
        rook.piece == Kind::Rook,
        !rook.white,
        pawn.piece == Kind::Pawn,
        pawn.white,
        king.position.1 == rook.position.1,
        pawn.position.1 == rook.position.1,
        ((rook.position.0 as int) < (pawn.position.0 as int) < (king.position.0 as int)) || ((
        king.position.0 as int) < (pawn.position.0 as int) < (rook.position.0 as int)),
    ensures
        !in_check(pieces, true),
{
    if in_check(pieces, true) {
        let (a, b) = choose|a: int, b: int|
            0 <= a < pieces.len() && 0 <= b < pieces.len() && (#[trigger] pieces[a]).piece
                == Kind::King && pieces[a].white == true && (#[trigger] pieces[b]).white != true
                && piece_move(pieces[b], pieces, pieces[a].position);
        assert(pieces[0] == king && pieces[1] == rook && pieces[2] == pawn);
        assert(a == 0 && b == 1);
        let kf = king.position.0 as int;
        let rf = rook.position.0 as int;
        let pf = pawn.position.0 as int;
        let r = rook.position.1 as int;
        if kf > rf {
            if crate::piece::ray_move(rook, pieces, king.position, 1, 0) {
                let m = pf - rf;
                assert(pieces[2].position.0 as int == rf + 1 * m && pieces[2].position.1 as int
                    == r + 0 * m);
                assert(crate::piece::ray_square_occupied(pieces, rf, r, 1, 0, m));
                assert(false);
            }
        } else {
            if crate::piece::ray_move(rook, pieces, king.position, -1, 0) {
                let m = rf - pf;
                assert(pieces[2].position.0 as int == rf + (-1) * m && pieces[2].position.1 as int
                    == r + 0 * m);
                assert(crate::piece::ray_square_occupied(pieces, rf, r, -1, 0, m));
                assert(false);
            }
        }
        assert(!crate::piece::rook_move(rook, pieces, king.position));
        assert(false);
    }
}

/// Relocating the mover and removing the captured piece yields exactly the
/// old collection with the source square emptied, the target square taken
/// by the mover, and every other piece untouched.
proof fn lemma_move_capture(
    old_pieces: Seq<Piece>,
    new_pieces: Seq<Piece>,
    i: int,
    j: int,
    position: Position,
    new_position: Position,
)
    requires
        wf_pieces(old_pieces),
        new_position.wf(),
        position != new_position,
        0 <= i < old_pieces.len(),
        0 <= j < old_pieces.len(),
        i != j,
        old_pieces[i].position == position,
        old_pieces[j].position == new_position,
        new_pieces == old_pieces.update(
            i,
            Piece { position: new_position, ..old_pieces[i] },
        ).remove(j),
    ensures
        wf_pieces(new_pieces),
        !occupied(new_pieces, position.0 as int, position.1 as int),
        new_pieces.contains(Piece { position: new_position, ..old_pieces[i] }),
        forall|pc: Piece|
            #[trigger] new_pieces.contains(pc) <==> (old_pieces.contains(pc) && pc.position
                != position && pc.position != new_position) || pc == (Piece {
                position: new_position,
                ..old_pieces[i]
            }),
        new_pieces.len() == old_pieces.len() - 1,
{
    let moved = Piece { position: new_position, ..old_pieces[i] };
    let mid = old_pieces.update(i, moved);
    mid.remove_ensures(j);
    assert(new_pieces.len() == old_pieces.len() - 1);
    assert forall|k: int| 0 <= k < new_pieces.len() implies #[trigger] new_pieces[k] == (if (if k
        < j {
        k
    } else {
        k + 1
    }) == i {
        moved
    } else {
        old_pieces[
            if k < j {
                k
            } else {
                k + 1
            }
        ]
    }) by {
        if k < j {
            assert(new_pieces[k] == mid[k]);
        } else {
            assert(new_pieces[k] == mid[k + 1]);
        }
    }
    assert forall|k1: int, k2: int|
        0 <= k1 < k2 < new_pieces.len() implies (#[trigger] new_pieces[k1]).position != (
    #[trigger] new_pieces[k2]).position by {
        let m1 = if k1 < j {
            k1
        } else {
            k1 + 1
        };
        let m2 = if k2 < j {
            k2
        } else {
            k2 + 1
        };
        if m1 == i {
            assert(new_pieces[k1] == moved);
            assert(new_pieces[k2] == old_pieces[m2]);
            if old_pieces[m2].position == new_position {
                crate::piece::lemma_index_of_position(old_pieces, j, m2);
            }
        } else if m2 == i {
            assert(new_pieces[k2] == moved);
            assert(new_pieces[k1] == old_pieces[m1]);
            if old_pieces[m1].position == new_position {
                crate::piece::lemma_index_of_position(old_pieces, j, m1);
            }
        } else {
            assert(new_pieces[k1] == old_pieces[m1]);
            assert(new_pieces[k2] == old_pieces[m2]);
        }
    }
    assert(wf_pieces(new_pieces));
    assert forall|pc: Piece|
        #[trigger] new_pieces.contains(pc) <==> (old_pieces.contains(pc) && pc.position
            != position && pc.position != new_position) || pc == moved by {
        if new_pieces.contains(pc) {
            let k = choose|k: int| 0 <= k < new_pieces.len() && new_pieces[k] == pc;
            let m = if k < j {
                k
            } else {
                k + 1
            };
            if m == i {
                assert(pc == moved);
            } else {
                assert(pc == old_pieces[m]);
                assert(old_pieces.contains(pc));
                if pc.position == position {
                    crate::piece::lemma_index_of_position(old_pieces, i, m);
                }
                if pc.position == new_position {
                    crate::piece::lemma_index_of_position(old_pieces, j, m);
                }
            }
        }
        if old_pieces.contains(pc) && pc.position != position && pc.position != new_position {
            let m = choose|m: int| 0 <= m < old_pieces.len() && old_pieces[m] == pc;
            assert(m != i && m != j);
            let k = if m < j {
                m
            } else {
                m - 1
            };
            assert(new_pieces[k] == pc);
            assert(new_pieces.contains(pc));
        }
        if pc == moved {
            let k = if i < j {
                i
            } else {
                i - 1
            };
            assert(new_pieces[k] == moved);
            assert(new_pieces.contains(pc));
        }
    }
    if occupied(new_pieces, position.0 as int, position.1 as int) {
        let k = choose|k: int|
            0 <= k < new_pieces.len() && (#[trigger] new_pieces[k]).position.0 as int
                == position.0 as int && new_pieces[k].position.1 as int == position.1 as int;
        assert(new_pieces[k].position == position);
        let m = if k < j {
            k
        } else {
            k + 1
        };
        if m != i {
            assert(new_pieces[k] == old_pieces[m]);
            crate::piece::lemma_index_of_position(old_pieces, i, m);
        }
        assert(false);
    }
    let ki = if i < j {
        i
    } else {
        i - 1
    };
    assert(new_pieces[ki] == moved);
    assert(new_pieces.contains(moved));
}

/// Relocating the mover onto an empty square yields exactly the old
/// collection with the source square emptied, the target square taken by
/// the mover, and every other piece untouched.
proof fn lemma_move_plain(
    old_pieces: Seq<Piece>,
    new_pieces: Seq<Piece>,
    i: int,
    position: Position,
    new_position: Position,
)
    requires
        wf_pieces(old_pieces),
        new_position.wf(),
        position != new_position,
        0 <= i < old_pieces.len(),
        old_pieces[i].position == position,
        !occupied(old_pieces, new_position.0 as int, new_position.1 as int),
        new_pieces == old_pieces.update(i, Piece { position: new_position, ..old_pieces[i] }),
    ensures
        wf_pieces(new_pieces),
        !occupied(new_pieces, position.0 as int, position.1 as int),
        new_pieces.contains(Piece { position: new_position, ..old_pieces[i] }),
        forall|pc: Piece|
            #[trigger] new_pieces.contains(pc) <==> (old_pieces.contains(pc) && pc.position
                != position && pc.position != new_position) || pc == (Piece {
                position: new_position,
                ..old_pieces[i]
            }),
        new_pieces.len() == old_pieces.len(),
{
    let moved = Piece { position: new_position, ..old_pieces[i] };
    assert forall|k1: int, k2: int|
        0 <= k1 < k2 < new_pieces.len() implies (#[trigger] new_pieces[k1]).position != (
    #[trigger] new_pieces[k2]).position by {
        if k1 == i {
            if old_pieces[k2].position == new_position {
                assert(occupied(old_pieces, new_position.0 as int, new_position.1 as int));
            }
        } else if k2 == i {
            if old_pieces[k1].position == new_position {
                assert(occupied(old_pieces, new_position.0 as int, new_position.1 as int));
            }
        }
    }
    assert(wf_pieces(new_pieces));
    assert forall|pc: Piece|
        #[trigger] new_pieces.contains(pc) <==> (old_pieces.contains(pc) && pc.position
            != position && pc.position != new_position) || pc == moved by {
        if new_pieces.contains(pc) {
            let k = choose|k: int| 0 <= k < new_pieces.len() && new_pieces[k] == pc;
            if k == i {
                assert(pc == moved);
            } else {
                assert(pc == old_pieces[k]);
                assert(old_pieces.contains(pc));
                if pc.position == position {
                    crate::piece::lemma_index_of_position(old_pieces, i, k);
                }
                if pc.position == new_position {
                    assert(occupied(old_pieces, new_position.0 as int, new_position.1 as int));
                }
            }
        }
        if old_pieces.contains(pc) && pc.position != position && pc.position != new_position {
            let m = choose|m: int| 0 <= m < old_pieces.len() && old_pieces[m] == pc;
            assert(m != i);
            assert(new_pieces[m] == pc);
            assert(new_pieces.contains(pc));
        }
        if pc == moved {
            assert(new_pieces[i] == moved);
            assert(new_pieces.contains(pc));
        }
    }
    if occupied(new_pieces, position.0 as int, position.1 as int) {
        let k = choose|k: int|
            0 <= k < new_pieces.len() && (#[trigger] new_pieces[k]).position.0 as int
                == position.0 as int && new_pieces[k].position.1 as int == position.1 as int;
        assert(new_pieces[k].position == position);
        if k != i {
            assert(new_pieces[k] == old_pieces[k]);
            crate::piece::lemma_index_of_position(old_pieces, i, k);
        }
        assert(false);
    }
    assert(new_pieces[i] == moved);
    assert(new_pieces.contains(moved));
}

} // verus!
