//! The game-record interpreter: replay a flattened sequence of SGF property
//! events onto a grid and two stone lists, remove dead stones after every
//! single move, and normalize the survivors into the final record.

use vstd::prelude::*;

use crate::analysis::{
    clear_cells, dead_stones, lemma_clear_cells_len, lemma_clear_cells_stone,
    lemma_dead_upto_sound, lemma_survivors_no_dup, lemma_survivors_sound, remove_dead, survivors,
};
use crate::events::PropertyEvent;
use crate::grid::{stone_idx, stone_in_bounds, Grid, GridPoint, Stone};
use crate::normalize::{normalize_spec, normalize_stones};

verus! {

/// Why a record was rejected.
#[derive(Clone, Copy, Debug, PartialEq, Eq, Structural)]
pub enum GameError {
    /// The text could not be parsed as SGF at all.
    Unparseable,
    /// A move or setup stone appeared before any board-size declaration.
    MissingBoardSize,
    /// A second board-size declaration appeared.
    DuplicateBoardSize,
    /// The declared board size is zero.
    ZeroBoardSize,
    /// A coordinate lies outside the declared board.
    OutOfRange,
    /// A stone was placed on a cell that is not empty.
    Occupied,
}

/// The finished record: the board size and each colour's surviving stones,
/// sorted by the canonical key `x * size + y`, with 1-based coordinates.
#[derive(Debug, PartialEq)]
pub struct GameData {
    pub white_stones: Vec<Stone>,
    pub black_stones: Vec<Stone>,
    pub size: u8,
}

/// The interpreter's state as mathematics: whether a size was declared, the
/// board side, the flat grid, and both stone lists in play order.
#[verifier::ext_equal]
pub struct BoardModel {
    pub declared: bool,
    pub size: int,
    pub cells: Seq<GridPoint>,
    pub white: Seq<Stone>,
    pub black: Seq<Stone>,
}

/// A fresh all-empty grid of the given side.
pub open spec fn empty_cells(size: int) -> Seq<GridPoint> {
    Seq::new((size * size) as nat, |i: int| GridPoint::Empty)
}

/// The state before any event: no size, nothing on the board.
pub open spec fn init_model() -> BoardModel {
    BoardModel {
        declared: false,
        size: 0,
        cells: Seq::empty(),
        white: Seq::empty(),
        black: Seq::empty(),
    }
}

/// One stone placed: its cell set to the colour, the coordinate appended to
/// that colour's list.
pub open spec fn place_model(b: BoardModel, colour: GridPoint, p: Stone) -> BoardModel {
    BoardModel {
        cells: b.cells.update(stone_idx(b.size, p), colour),
        white: if colour == GridPoint::White {
            b.white.push(p)
        } else {
            b.white
        },
        black: if colour == GridPoint::Black {
            b.black.push(p)
        } else {
            b.black
        },
        ..b
    }
}

/// A placement with the checks the interpreter makes: a size must have been
/// declared, the coordinate must lie on the board, and the cell must be
/// empty.
pub open spec fn place_checked(b: BoardModel, colour: GridPoint, p: Stone) -> Result<
    BoardModel,
    GameError,
> {
    if !b.declared {
        Err(GameError::MissingBoardSize)
    } else if !stone_in_bounds(b.size, p) {
        Err(GameError::OutOfRange)
    } else if b.cells[stone_idx(b.size, p)] != GridPoint::Empty {
        Err(GameError::Occupied)
    } else {
        Ok(place_model(b, colour, p))
    }
}

/// One colour's dead stones removed: dropped from its list, their cells
/// reset to empty.
pub open spec fn remove_dead_model(b: BoardModel, colour: GridPoint) -> BoardModel {
    if colour == GridPoint::White {
        BoardModel {
            white: survivors(b.white, b.cells, b.size),
            cells: clear_cells(b.cells, b.size, dead_stones(b.white, b.cells, b.size)),
            ..b
        }
    } else {
        BoardModel {
            black: survivors(b.black, b.cells, b.size),
            cells: clear_cells(b.cells, b.size, dead_stones(b.black, b.cells, b.size)),
            ..b
        }
    }
}

/// A single move: the checked placement, then dead-stone removal for the
/// mover's colour first and the opponent's colour second.
pub open spec fn move_model(b: BoardModel, colour: GridPoint, p: Stone) -> Result<
    BoardModel,
    GameError,
> {
    match place_checked(b, colour, p) {
        Err(e) => Err(e),
        Ok(b1) => {
            let b2 = remove_dead_model(b1, colour);
            let opp = if colour == GridPoint::White {
                GridPoint::Black
            } else {
                GridPoint::White
            };
            Ok(remove_dead_model(b2, opp))
        },
    }
}

/// Setup stones placed one after the other, in list order, with the same
/// checks as a move but no liberty analysis.
pub open spec fn add_all_model(b: BoardModel, colour: GridPoint, pts: Seq<Stone>) -> Result<
    BoardModel,
    GameError,
>
    decreases pts.len(),
{
    if pts.len() == 0 {
        Ok(b)
    } else {
        match add_all_model(b, colour, pts.drop_last()) {
            Err(e) => Err(e),
            Ok(b1) => place_checked(b1, colour, pts.last()),
        }
    }
}

/// One event applied to the state.
pub open spec fn step_model(b: BoardModel, ev: PropertyEvent) -> Result<BoardModel, GameError> {
    match ev {
        PropertyEvent::Size(n) => if b.declared {
            Err(GameError::DuplicateBoardSize)
        } else if n == 0 {
            Err(GameError::ZeroBoardSize)
        } else {
            Ok(
                BoardModel {
                    declared: true,
                    size: n as int,
                    cells: empty_cells(n as int),
                    ..b
                },
            )
        },
        PropertyEvent::WhiteMove(x, y) => move_model(b, GridPoint::White, Stone { x, y }),
        PropertyEvent::BlackMove(x, y) => move_model(b, GridPoint::Black, Stone { x, y }),
        PropertyEvent::AddWhite(pts) => add_all_model(b, GridPoint::White, pts@),
        PropertyEvent::AddBlack(pts) => add_all_model(b, GridPoint::Black, pts@),
        PropertyEvent::Other => Ok(b),
    }
}

/// The whole record replayed, event by event, in document order; the first
/// rejected event decides the error.
pub open spec fn run_events(evs: Seq<PropertyEvent>) -> Result<BoardModel, GameError>
    decreases evs.len(),
{
    if evs.len() == 0 {
        Ok(init_model())
    } else {
        match run_events(evs.drop_last()) {
            Err(e) => Err(e),
            Ok(b) => step_model(b, evs.last()),
        }
    }
}

/// What `interpret` promises: on success the returned record is the replayed
/// final state with both lists normalized; on failure the error is exactly
/// the one the replay gives.
pub open spec fn interpret_post(evs: Seq<PropertyEvent>, r: Result<GameData, GameError>) -> bool {
    match r {
        Ok(gd) => match run_events(evs) {
            Ok(b) => {
                &&& gd.size as int == b.size
                &&& gd.white_stones@ == normalize_spec(b.size, b.white)
                &&& gd.black_stones@ == normalize_spec(b.size, b.black)
            },
            Err(_) => false,
        },
        Err(e) => run_events(evs) == Err::<BoardModel, GameError>(e),
    }
}

/// The state invariant the replay maintains: the grid is square, the lists
/// are duplicate-free, and every listed stone sits in bounds on a cell of
/// its own colour; before a size declaration everything is empty.
pub open spec fn model_inv(b: BoardModel) -> bool {
    &&& b.declared ==> {
        &&& 1 <= b.size <= 255
        &&& b.cells.len() == b.size * b.size
        &&& b.white.no_duplicates()
        &&& b.black.no_duplicates()
        &&& forall|p: Stone| #[trigger]
            b.white.contains(p) ==> stone_in_bounds(b.size, p) && b.cells[stone_idx(b.size, p)]
                == GridPoint::White
        &&& forall|p: Stone| #[trigger]
            b.black.contains(p) ==> stone_in_bounds(b.size, p) && b.cells[stone_idx(b.size, p)]
                == GridPoint::Black
    }
    &&& !b.declared ==> b.size == 0 && b.cells.len() == 0 && b.white.len() == 0 && b.black.len()
        == 0
}

/// An error of a prefix of the events is the error of the whole replay.
pub proof fn lemma_run_events_err(evs: Seq<PropertyEvent>, k: int, e: GameError)
    requires
        0 <= k <= evs.len(),
        run_events(evs.take(k)) == Err::<BoardModel, GameError>(e),
    ensures
        run_events(evs) == Err::<BoardModel, GameError>(e),
    decreases evs.len() - k,
{
    if k == evs.len() {
        assert(evs.take(k) =~= evs);
    } else {
        assert(evs.take(k + 1).drop_last() =~= evs.take(k));
        assert(run_events(evs.take(k + 1)) == Err::<BoardModel, GameError>(e));
        lemma_run_events_err(evs, k + 1, e);
    }
}


/// What one removal pass does to the invariant's parts: survivors stay
/// duplicate-free, keep their colour on the cleared grid, and the other
/// colour's stones keep theirs.
proof fn lemma_removal_parts(
    cells: Seq<GridPoint>,
    size: int,
    own: Seq<Stone>,
    other: Seq<Stone>,
    c_own: GridPoint,
    c_other: GridPoint,
)
    requires
        cells.len() == size * size,
        own.no_duplicates(),
        c_own != c_other,
        forall|p: Stone| #[trigger]
            own.contains(p) ==> stone_in_bounds(size, p) && cells[stone_idx(size, p)] == c_own,
        forall|p: Stone| #[trigger]
            other.contains(p) ==> stone_in_bounds(size, p) && cells[stone_idx(size, p)] == c_other,
    ensures
        survivors(own, cells, size).no_duplicates(),
        clear_cells(cells, size, dead_stones(own, cells, size)).len() == cells.len(),
        forall|p: Stone| #[trigger]
            survivors(own, cells, size).contains(p) ==> stone_in_bounds(size, p) && clear_cells(
                cells,
                size,
                dead_stones(own, cells, size),
            )[stone_idx(size, p)] == c_own,
        forall|p: Stone| #[trigger]
            other.contains(p) ==> stone_in_bounds(size, p) && clear_cells(
                cells,
                size,
                dead_stones(own, cells, size),
            )[stone_idx(size, p)] == c_other,
{
    let dead = dead_stones(own, cells, size);
    let surv = survivors(own, cells, size);
    let cleared = clear_cells(cells, size, dead);
    assert forall|k: int| 0 <= k < dead.len() implies stone_in_bounds(
        size,
        #[trigger] dead[k],
    ) by {
        assert(dead.contains(dead[k]));
        lemma_dead_upto_sound(own, cells, size, own.len() as int, dead[k]);
    }
    assert forall|k: int| 0 <= k < dead.len() implies 0 <= stone_idx(size, #[trigger] dead[k])
        < cells.len() by {
        crate::grid::lemma_stone_idx_in_range(size, dead[k]);
    }
    lemma_clear_cells_len(cells, size, dead);
    lemma_survivors_no_dup(own, cells, size, own.len() as int);
    assert forall|p: Stone| #[trigger] surv.contains(p) implies stone_in_bounds(size, p)
        && cleared[stone_idx(size, p)] == c_own by {
        lemma_survivors_sound(own, cells, size, own.len() as int, p);
        if dead.contains(p) {
            lemma_dead_upto_sound(own, cells, size, own.len() as int, p);
        }
        lemma_clear_cells_stone(cells, size, dead, p);
    }
    assert forall|p: Stone| #[trigger] other.contains(p) implies stone_in_bounds(size, p)
        && cleared[stone_idx(size, p)] == c_other by {
        if dead.contains(p) {
            lemma_dead_upto_sound(own, cells, size, own.len() as int, p);
        }
        lemma_clear_cells_stone(cells, size, dead, p);
    }
}

/// A removal pass keeps the state invariant.
pub proof fn lemma_remove_dead_model_inv(b: BoardModel, colour: GridPoint)
    requires
        model_inv(b),
        b.declared,
        colour == GridPoint::White || colour == GridPoint::Black,
    ensures
        model_inv(remove_dead_model(b, colour)),
        remove_dead_model(b, colour).declared,
        remove_dead_model(b, colour).size == b.size,
{
    if colour == GridPoint::White {
        lemma_removal_parts(b.cells, b.size, b.white, b.black, GridPoint::White, GridPoint::Black);
    } else {
        lemma_removal_parts(b.cells, b.size, b.black, b.white, GridPoint::Black, GridPoint::White);
    }
}

/// An error of a prefix of the setup stones is the error of the whole
/// bulk placement.
pub proof fn lemma_add_all_err(
    b: BoardModel,
    colour: GridPoint,
    pts: Seq<Stone>,
    k: int,
    e: GameError,
)
    requires
        0 <= k <= pts.len(),
        add_all_model(b, colour, pts.take(k)) == Err::<BoardModel, GameError>(e),
    ensures
        add_all_model(b, colour, pts) == Err::<BoardModel, GameError>(e),
    decreases pts.len() - k,
{
    if k == pts.len() {
        assert(pts.take(k) =~= pts);
    } else {
        assert(pts.take(k + 1).drop_last() =~= pts.take(k));
        assert(add_all_model(b, colour, pts.take(k + 1)) == Err::<BoardModel, GameError>(e));
        lemma_add_all_err(b, colour, pts, k + 1, e);
    }
}

/// A checked placement keeps the state invariant.
proof fn lemma_place_inv(b: BoardModel, c: GridPoint, p: Stone)
    requires
        model_inv(b),
        b.declared,
        stone_in_bounds(b.size, p),
        b.cells[stone_idx(b.size, p)] == GridPoint::Empty,
        c == GridPoint::White || c == GridPoint::Black,
    ensures
        model_inv(place_model(b, c, p)),
{
    let b1 = place_model(b, c, p);
    crate::grid::lemma_stone_idx_in_range(b.size, p);
    assert(!b.white.contains(p));
    assert(!b.black.contains(p));
    let own = if c == GridPoint::White {
        b.white
    } else {
        b.black
    };
    let own1 = own.push(p);
    assert forall|i: int, j: int| 0 <= i < j < own1.len() implies own1[i] != own1[j] by {
        if j < own.len() {
        } else {
            assert(own1[j] == p);
            assert(own1[i] == own[i]);
            assert(own.contains(own[i]));
        }
    }
    assert(own1.no_duplicates());
    assert forall|q: Stone| #[trigger] own1.contains(q) implies stone_in_bounds(b.size, q)
        && b1.cells[stone_idx(b.size, q)] == c by {
        let i = choose|i: int| 0 <= i < own1.len() && own1[i] == q;
        if i < own.len() {
            assert(own[i] == q);
            assert(own.contains(q));
            crate::grid::lemma_stone_idx_in_range(b.size, q);
            if stone_idx(b.size, q) == stone_idx(b.size, p) {
                crate::grid::lemma_stone_idx_injective(b.size, q, p);
            }
        } else {
            assert(q == p);
        }
    }
    let other = if c == GridPoint::White {
        b.black
    } else {
        b.white
    };
    let c_other = if c == GridPoint::White {
        GridPoint::Black
    } else {
        GridPoint::White
    };
    assert forall|q: Stone| #[trigger] other.contains(q) implies stone_in_bounds(b.size, q)
        && b1.cells[stone_idx(b.size, q)] == c_other by {
        crate::grid::lemma_stone_idx_in_range(b.size, q);
        if stone_idx(b.size, q) == stone_idx(b.size, p) {
            crate::grid::lemma_stone_idx_injective(b.size, q, p);
        }
    }
}

/// The running interpreter: the grid and both stone lists, mutated in place
/// as each event is consumed.
pub struct Interp {
    declared: bool,
    size: u8,
    grid: Grid,
    white: Vec<Stone>,
    black: Vec<Stone>,
}

impl Interp {
    /// The state as mathematics.
    pub closed spec fn model(self) -> BoardModel {
        BoardModel {
            declared: self.declared,
            size: if self.declared {
                self.size as int
            } else {
                0
            },
            cells: if self.declared {
                self.grid.cells()
            } else {
                Seq::empty()
            },
            white: self.white@,
            black: self.black@,
        }
    }

    /// The grid buffer matches the declared side.
    pub closed spec fn inner_wf(self) -> bool {
        self.declared ==> self.grid.wf() && self.grid.side() == self.size as int
    }

    pub open spec fn wf(self) -> bool {
        model_inv(self.model()) && self.inner_wf()
    }

    /// The interpreter before any event.
    pub fn new() -> (st: Interp)
        ensures
            st.wf(),
            st.model() == init_model(),
    {
        let st = Interp {
            declared: false,
            size: 0,
            grid: Grid::new(1),
            white: Vec::new(),
            black: Vec::new(),
        };
        proof {
            assert(st.model() =~= init_model());
        }
        st
    }

    /// Consume a board-size declaration: allocate a fresh empty grid.
    fn declare_size(&mut self, n: u8) -> (r: Result<(), GameError>)
        requires
            old(self).wf(),
        ensures
            final(self).wf(),
            match r {
                Ok(_) => step_model(old(self).model(), PropertyEvent::Size(n)) == Ok::<
                    BoardModel,
                    GameError,
                >(final(self).model()),
                Err(e) => step_model(old(self).model(), PropertyEvent::Size(n)) == Err::<
                    BoardModel,
                    GameError,
                >(e) && final(self).model() == old(self).model(),
            },
    {
        if self.declared {
            return Err(GameError::DuplicateBoardSize);
        }
        if n == 0 {
            return Err(GameError::ZeroBoardSize);
        }
        self.grid = Grid::new(n);
        self.size = n;
        self.declared = true;
        proof {
            assert(self.model().cells =~= empty_cells(n as int));
            assert(self.model() =~= BoardModel {
                declared: true,
                size: n as int,
                cells: empty_cells(n as int),
                ..old(self).model()
            });
        }
        Ok(())
    }

    /// Place one stone with the interpreter's checks.
    fn place(&mut self, colour_white: bool, x: u8, y: u8) -> (r: Result<(), GameError>)
        requires
            old(self).wf(),
        ensures
            final(self).wf(),
            ({
                let c = if colour_white {
                    GridPoint::White
                } else {
                    GridPoint::Black
                };
                match r {
                    Ok(_) => place_checked(old(self).model(), c, Stone { x, y }) == Ok::<
                        BoardModel,
                        GameError,
                    >(final(self).model()),
                    Err(e) => place_checked(old(self).model(), c, Stone { x, y }) == Err::<
                        BoardModel,
                        GameError,
                    >(e) && final(self).model() == old(self).model(),
                }
            }),
    {
        let ghost b0 = self.model();
        let ghost c = if colour_white {
            GridPoint::White
        } else {
            GridPoint::Black
        };
        if !self.declared {
            return Err(GameError::MissingBoardSize);
        }
        if x >= self.size || y >= self.size {
            return Err(GameError::OutOfRange);
        }
        let p = Stone { x, y };
        if self.grid.at(x, y) != GridPoint::Empty {
            return Err(GameError::Occupied);
        }
        self.grid.set(x, y, if colour_white {
            GridPoint::White
        } else {
            GridPoint::Black
        });
        if colour_white {
            self.white.push(p);
        } else {
            self.black.push(p);
        }
        proof {
            lemma_place_inv(b0, c, p);
            assert(self.model() =~= place_model(b0, c, p));
        }
        Ok(())
    }

    /// Consume a single move: the checked placement, then a removal pass for
    /// the mover's colour and one for the opponent's.
    fn run_move(&mut self, colour_white: bool, x: u8, y: u8) -> (r: Result<(), GameError>)
        requires
            old(self).wf(),
        ensures
            final(self).wf(),
            ({
                let c = if colour_white {
                    GridPoint::White
                } else {
                    GridPoint::Black
                };
                match r {
                    Ok(_) => move_model(old(self).model(), c, Stone { x, y }) == Ok::<
                        BoardModel,
                        GameError,
                    >(final(self).model()),
                    Err(e) => move_model(old(self).model(), c, Stone { x, y }) == Err::<
                        BoardModel,
                        GameError,
                    >(e) && final(self).model() == old(self).model(),
                }
            }),
    {
        let ghost b0 = self.model();
        let ghost c = if colour_white {
            GridPoint::White
        } else {
            GridPoint::Black
        };
        let res = self.place(colour_white, x, y);
        match res {
            Err(e) => {
                return Err(e);
            },
            Ok(_) => {},
        }
        let ghost b1 = self.model();
        proof {
            assert(place_checked(b0, c, Stone { x, y }) == Ok::<BoardModel, GameError>(b1));
            assert(b1.declared);
            assert forall|j: int| 0 <= j < self.white@.len() implies stone_in_bounds(
                self.grid.side(),
                #[trigger] self.white@[j],
            ) by {
                assert(b1.white.contains(self.white@[j]));
            }
            assert forall|j: int| 0 <= j < self.black@.len() implies stone_in_bounds(
                self.grid.side(),
                #[trigger] self.black@[j],
            ) by {
                assert(b1.black.contains(self.black@[j]));
            }
        }
        let ghost b2 = remove_dead_model(b1, c);
        let ghost opp = if colour_white {
            GridPoint::Black
        } else {
            GridPoint::White
        };
        if colour_white {
            remove_dead(&mut self.grid, &mut self.white);
        } else {
            remove_dead(&mut self.grid, &mut self.black);
        }
        proof {
            assert(self.model() =~= b2);
            lemma_remove_dead_model_inv(b1, c);
            assert forall|j: int| 0 <= j < self.white@.len() implies stone_in_bounds(
                self.grid.side(),
                #[trigger] self.white@[j],
            ) by {
                assert(b2.white.contains(self.white@[j]));
            }
            assert forall|j: int| 0 <= j < self.black@.len() implies stone_in_bounds(
                self.grid.side(),
                #[trigger] self.black@[j],
            ) by {
                assert(b2.black.contains(self.black@[j]));
            }
        }
        if colour_white {
            remove_dead(&mut self.grid, &mut self.black);
        } else {
            remove_dead(&mut self.grid, &mut self.white);
        }
        proof {
            assert(self.model() =~= remove_dead_model(b2, opp));
            lemma_remove_dead_model_inv(b2, opp);
        }
        Ok(())
    }

    /// Consume a bulk add-stones property: place each stone in list order,
    /// with no liberty analysis.
    fn add_stones(&mut self, colour_white: bool, pts: &Vec<Stone>) -> (r: Result<(), GameError>)
        requires
            old(self).wf(),
        ensures
            final(self).wf(),
            ({
                let c = if colour_white {
                    GridPoint::White
                } else {
                    GridPoint::Black
                };
                match r {
                    Ok(_) => add_all_model(old(self).model(), c, pts@) == Ok::<
                        BoardModel,
                        GameError,
                    >(final(self).model()),
                    Err(e) => add_all_model(old(self).model(), c, pts@) == Err::<
                        BoardModel,
                        GameError,
                    >(e),
                }
            }),
    {
        let ghost b0 = self.model();
        let ghost c = if colour_white {
            GridPoint::White
        } else {
            GridPoint::Black
        };
        let mut i: usize = 0;
        proof {
            assert(pts@.take(0) =~= Seq::<Stone>::empty());
        }
        while i < pts.len()
            invariant
                old(self).wf(),
                self.wf(),
                i <= pts@.len(),
                b0 == old(self).model(),
                c == if colour_white {
                    GridPoint::White
                } else {
                    GridPoint::Black
                },
                add_all_model(b0, c, pts@.take(i as int)) == Ok::<BoardModel, GameError>(
                    self.model(),
                ),
            decreases pts@.len() - i,
        {
            let p = pts[i];
            let res = self.place(colour_white, p.x, p.y);
            proof {
                assert(pts@.take(i as int + 1).drop_last() =~= pts@.take(i as int));
                assert(pts@.take(i as int + 1).last() == pts@[i as int]);
            }
            match res {
                Err(e) => {
                    proof {
                        assert(add_all_model(b0, c, pts@.take(i as int + 1)) == Err::<
                            BoardModel,
                            GameError,
                        >(e));
                        lemma_add_all_err(b0, c, pts@, i as int + 1, e);
                    }
                    return Err(e);
                },
                Ok(_) => {},
            }
            i += 1;
        }
        proof {
            assert(pts@.take(pts@.len() as int) =~= pts@);
        }
        Ok(())
    }

    /// Consume one property event.
    pub fn apply(&mut self, ev: &PropertyEvent) -> (r: Result<(), GameError>)
        requires
            old(self).wf(),
        ensures
            final(self).wf(),
            match r {
                Ok(_) => step_model(old(self).model(), *ev) == Ok::<BoardModel, GameError>(
                    final(self).model(),
                ),
                Err(e) => step_model(old(self).model(), *ev) == Err::<BoardModel, GameError>(e),
            },
    {
        match ev {
            PropertyEvent::Size(n) => self.declare_size(*n),
            PropertyEvent::WhiteMove(x, y) => self.run_move(true, *x, *y),
            PropertyEvent::BlackMove(x, y) => self.run_move(false, *x, *y),
            PropertyEvent::AddWhite(pts) => self.add_stones(true, pts),
            PropertyEvent::AddBlack(pts) => self.add_stones(false, pts),
            PropertyEvent::Other => Ok(()),
        }
    }
}

/// Interpret a flattened record: replay every event in order, then sort each
/// surviving stone list by the canonical key and shift it to 1-based
/// coordinates.
pub fn interpret(events: &Vec<PropertyEvent>) -> (r: Result<GameData, GameError>)
    ensures
        interpret_post(events@, r),
{
    let mut st = Interp::new();
    let mut i: usize = 0;
    proof {
        assert(events@.take(0) =~= Seq::<PropertyEvent>::empty());
    }
    while i < events.len()
        invariant
            st.wf(),
            i <= events@.len(),
            run_events(events@.take(i as int)) == Ok::<BoardModel, GameError>(st.model()),
        decreases events@.len() - i,
    {
        let res = st.apply(&events[i]);
        proof {
            assert(events@.take(i as int + 1).drop_last() =~= events@.take(i as int));
            assert(events@.take(i as int + 1).last() == events@[i as int]);
        }
        match res {
            Err(e) => {
                proof {
                    assert(run_events(events@.take(i as int + 1)) == Err::<BoardModel, GameError>(
                        e,
                    ));
                    lemma_run_events_err(events@, i as int + 1, e);
                }
                return Err(e);
            },
            Ok(_) => {},
        }
        i += 1;
    }
    proof {
        assert(events@.take(events@.len() as int) =~= events@);
    }
    let ghost fin = st.model();
    let Interp { declared, size, grid: _, white, black } = st;
    let out_size: u8 = if declared {
        size
    } else {
        0
    };
    proof {
        assert forall|j: int| 0 <= j < white@.len() implies stone_in_bounds(
            out_size as int,
            #[trigger] white@[j],
        ) by {
            assert(fin.white.contains(white@[j]));
        }
        assert forall|j: int| 0 <= j < black@.len() implies stone_in_bounds(
            out_size as int,
            #[trigger] black@[j],
        ) by {
            assert(fin.black.contains(black@[j]));
        }
    }
    let white_stones = normalize_stones(white, out_size);
    let black_stones = normalize_stones(black, out_size);
    Ok(GameData { white_stones, black_stones, size: out_size })
}

/// The replay itself never reports unparseable text: that error belongs to
/// the parse alone.
pub proof fn lemma_add_all_never_unparseable(b: BoardModel, colour: GridPoint, pts: Seq<Stone>)
    ensures
        add_all_model(b, colour, pts) != Err::<BoardModel, GameError>(GameError::Unparseable),
    decreases pts.len(),
{
    if pts.len() > 0 {
        lemma_add_all_never_unparseable(b, colour, pts.drop_last());
    }
}

/// Replaying any event sequence never yields the unparseable-text error.
pub proof fn lemma_run_events_never_unparseable(evs: Seq<PropertyEvent>)
    ensures
        run_events(evs) != Err::<BoardModel, GameError>(GameError::Unparseable),
    decreases evs.len(),
{
    if evs.len() > 0 {
        lemma_run_events_never_unparseable(evs.drop_last());
        match run_events(evs.drop_last()) {
            Err(_) => {},
            Ok(b) => {
                match evs.last() {
                    PropertyEvent::AddWhite(pts) => {
                        lemma_add_all_never_unparseable(b, GridPoint::White, pts@);
                    },
                    PropertyEvent::AddBlack(pts) => {
                        lemma_add_all_never_unparseable(b, GridPoint::Black, pts@);
                    },
                    _ => {},
                }
            },
        }
    }
}

} // verus!



