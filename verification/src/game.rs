//! The board and game state machine: locked cells, the falling piece, the
//! piece queue and the score, driven one command at a time through
//! [`Game::step`].

use vstd::prelude::*;

use std::collections::VecDeque;

use crate::bag::{fair_suffix, full_bag, random_shape_index};
use crate::constants::{
    Movement, Rotation, DEFAULT_BOARD_HEIGHT, DEFAULT_BOARD_WIDTH, MAX_BOARD_DIM, NUMBER_OF_SHAPES,
    QUEUE_GROUPS, COORD_LIMIT,
};
use crate::pieces::{
    cells_bounded, cells_in_bounds, delta_x, delta_y, distinct_cells, kick_table, kicked_piece,
    lemma_kick_table_bounded, lemma_spawn_wf, out_bottom, out_sides, out_top, overlaps,
    piece_bounded, piece_wf, point_bounded, rotated_piece_ccw, rotated_piece_cw, shifted_cells,
    shifted_piece, shifted_point, spawn_piece_above, spawn_view, get_next_piece_display,
    display_view, Piece, PieceShape, PieceView, Point,
};
use crate::rows::{
    count_ge, erased, frozen_cells, full_rows, lemma_erased_props, lemma_full_rows_ascending,
    lemma_sorted_range_len, row_count, full_rows_upto, sorted_strict, ColoredPoint,
};

verus! {

/// The terminal condition: a freshly spawned piece was immediately
/// obstructed by locked cells.
#[derive(Debug, PartialEq, Eq, Structural)]
pub struct EndOfGame;

/// One external command: a one-cell move (or none), a rotation, a gravity
/// tick, or an instantaneous hard drop.
pub enum StepKind<T, R> {
    Move(T),
    Rotate(R),
    GoDown,
    HardDrop,
}

/// The whole game state.
pub struct Game {
    /// Board width in cells.
    pub width: i32,
    /// Board height in cells.
    pub height: i32,
    /// The locked ("frozen") cells, each with its color.
    pub frozen_squares: Vec<ColoredPoint>,
    /// The falling piece.
    pub player_piece: Piece,
    /// The pending shapes, front first.
    pub piece_queue: VecDeque<PieceShape>,
    /// The score so far.
    pub score: u64,
    /// Whether the game has ended.
    pub game_over: bool,
}

/// The mathematical model of a [`Game`].
#[verifier::ext_equal]
pub ghost struct GameView {
    pub width: int,
    pub height: int,
    pub frozen: Seq<ColoredPoint>,
    pub piece: PieceView,
    pub queue: Seq<PieceShape>,
    pub score: u64,
    pub over: bool,
}

impl View for Game {
    type V = GameView;

    open spec fn view(&self) -> GameView {
        GameView {
            width: self.width as int,
            height: self.height as int,
            frozen: self.frozen_squares@,
            piece: self.player_piece@,
            queue: self.piece_queue@,
            score: self.score,
            over: self.game_over,
        }
    }
}

/// Board dimensions the engine accepts: at least room for a spawning piece,
/// and small enough that every coordinate and score computation fits its
/// machine integer.
pub open spec fn dims_wf(w: int, h: int) -> bool {
    4 <= w <= MAX_BOARD_DIM && 4 <= h <= MAX_BOARD_DIM
}

/// The locked cells are well formed: no two on one coordinate, all inside
/// the board.
pub open spec fn frozen_wf(f: Seq<ColoredPoint>, w: int, h: int) -> bool {
    distinct_cells(frozen_cells(f)) && cells_in_bounds(frozen_cells(f), w, h)
}

/// The queue is well formed: it never runs low enough to empty before a
/// refill, and it deals fairly (see [`fair_suffix`]).
pub open spec fn queue_wf(q: Seq<PieceShape>) -> bool {
    q.len() >= 14 && fair_suffix(q)
}

/// Every reachable game state satisfies this invariant: dimensions in
/// range, locked cells distinct and on the board, the active piece well
/// formed and on the board, the queue fair and never empty, and — while the
/// game is running — the active piece disjoint from the locked cells.
pub open spec fn view_wf(g: GameView) -> bool {
    &&& dims_wf(g.width, g.height)
    &&& frozen_wf(g.frozen, g.width, g.height)
    &&& piece_wf(g.piece, g.width, g.height)
    &&& queue_wf(g.queue)
    &&& (!g.over ==> !overlaps(g.piece.cells, frozen_cells(g.frozen)))
}

/// The locked cells after the given piece freezes onto them.
pub open spec fn with_locked(f: Seq<ColoredPoint>, p: PieceView) -> Seq<ColoredPoint> {
    f + p.cells.map_values(|c: Point| ColoredPoint(c, p.color))
}

/// `g` with another active piece, all else equal.
pub open spec fn set_piece(g: GameView, p: PieceView) -> GameView {
    GameView {
        width: g.width,
        height: g.height,
        frozen: g.frozen,
        piece: p,
        queue: g.queue,
        score: g.score,
        over: g.over,
    }
}

/// `g` with another score, all else equal.
pub open spec fn with_score(g: GameView, s: u64) -> GameView {
    GameView {
        width: g.width,
        height: g.height,
        frozen: g.frozen,
        piece: g.piece,
        queue: g.queue,
        score: s,
        over: g.over,
    }
}

/// Saturating score addition: the score never wraps, it stops at the top.
pub open spec fn sat_add(a: u64, b: nat) -> u64 {
    if a + b <= u64::MAX {
        (a + b) as u64
    } else {
        u64::MAX
    }
}

/// A downward candidate is legal when it stays above the floor and on no
/// locked cell.
pub open spec fn down_legal(cells: Seq<Point>, frozen: Seq<ColoredPoint>, h: int) -> bool {
    !out_bottom(cells, h) && !overlaps(cells, frozen_cells(frozen))
}

/// A sideways candidate is legal when it stays inside the walls and on no
/// locked cell.
pub open spec fn lateral_legal(cells: Seq<Point>, frozen: Seq<ColoredPoint>, w: int) -> bool {
    !out_sides(cells, w) && !overlaps(cells, frozen_cells(frozen))
}

/// A rotation candidate must come to rest wholly on the board and on no
/// locked cell.
pub open spec fn rotation_legal(cells: Seq<Point>, frozen: Seq<ColoredPoint>, w: int, h: int) -> bool {
    &&& !out_sides(cells, w)
    &&& !out_bottom(cells, h)
    &&& !out_top(cells)
    &&& !overlaps(cells, frozen_cells(frozen))
}

/// The piece after the raw quarter turn a rotation command asks for.
pub open spec fn rot_apply(p: PieceView, rotation: Rotation) -> PieceView {
    match rotation {
        Rotation::CW => rotated_piece_cw(p),
        Rotation::CCW => rotated_piece_ccw(p),
    }
}

/// The first kick offset (in table order) whose candidate placement is
/// legal, applied to the rotated piece; none if every offset fails.
pub open spec fn first_legal_kick(
    p: PieceView,
    kicks: Seq<Point>,
    frozen: Seq<ColoredPoint>,
    w: int,
    h: int,
) -> Option<PieceView>
    decreases kicks.len(),
{
    if kicks.len() == 0 {
        None
    } else {
        let cand = kicked_piece(p, kicks[0]);
        if rotation_legal(cand.cells, frozen, w, h) {
            Some(cand)
        } else {
            first_legal_kick(p, kicks.subrange(1, kicks.len() as int), frozen, w, h)
        }
    }
}

/// What a rotation command leaves as the active piece: the first legal
/// kicked placement of the rotated piece, or — when every kick fails — the
/// old piece, coordinate for coordinate.
pub open spec fn rotation_result(g: GameView, rotation: Rotation) -> PieceView {
    match first_legal_kick(
        rot_apply(g.piece, rotation),
        kick_table(g.piece.shape),
        g.frozen,
        g.width,
        g.height,
    ) {
        Some(p) => p,
        None => g.piece,
    }
}

/// Where the active piece comes to rest under gravity: pushed down one cell
/// at a time while that stays legal.
pub open spec fn resting_piece(p: PieceView, frozen: Seq<ColoredPoint>, h: int) -> PieceView
    decreases h - p.cells[0].y
        when p.cells.len() > 0 && p.cells[0].y < h && h <= 0x7fffffff
{
    let cand = shifted_piece(p, 0, 1);
    if down_legal(cand.cells, frozen, h) {
        resting_piece(cand, frozen, h)
    } else {
        p
    }
}

/// The queue after one shape is dealt: the front goes; when fewer than
/// twice-seven shapes would remain, three fresh fair groups are appended.
pub open spec fn queue_popped(q0: Seq<PieceShape>, q1: Seq<PieceShape>) -> bool {
    &&& q0.len() >= 1
    &&& {
        let rest = q0.subrange(1, q0.len() as int);
        if rest.len() < 14 {
            &&& q1.len() == rest.len() + 21
            &&& q1.subrange(0, rest.len() as int) == rest
            &&& forall|g: int|
                0 <= g < 3 ==> full_bag(
                    #[trigger] q1.subrange(rest.len() + 7 * g, rest.len() + 7 * g + 7),
                )
        } else {
            q1 == rest
        }
    }
}

/// The lock step: the active piece's cells freeze with its color; full rows
/// score `k * k * 100` and are cleared, survivors compacting downward; the
/// front of the queue spawns as the new active piece; the game ends exactly
/// when that spawn lands on a locked cell of the cleared board.
pub open spec fn lock_rel(pre: GameView, post: GameView) -> bool {
    let locked = with_locked(pre.frozen, pre.piece);
    let lines = full_rows(locked, pre.width, pre.height);
    let cleared = if lines.len() == 0 {
        locked
    } else {
        erased(locked, lines)
    };
    let scored = if lines.len() == 0 {
        pre.score
    } else {
        sat_add(pre.score, (lines.len() * lines.len() * 100) as nat)
    };
    &&& post.width == pre.width
    &&& post.height == pre.height
    &&& post.frozen == cleared
    &&& post.score == scored
    &&& queue_popped(pre.queue, post.queue)
    &&& post.piece == spawn_view(pre.queue[0], pre.width)
    &&& post.over == overlaps(post.piece.cells, frozen_cells(post.frozen))
}

impl Game {
    /// The inductive invariant of every reachable game state.
    pub open spec fn wf(&self) -> bool {
        view_wf(self@)
    }

    /// The coordinates of the locked cells, colors forgotten.
    fn frozen_points(&self) -> (v: Vec<Point>)
        ensures
            v@ == frozen_cells(self.frozen_squares@),
    {
        let mut v: Vec<Point> = Vec::new();
        let mut i: usize = 0;
        while i < self.frozen_squares.len()
            invariant
                i <= self.frozen_squares@.len(),
                v@.len() == i,
                forall|j: int| 0 <= j < i ==> v@[j] == self.frozen_squares@[j].0,
            decreases self.frozen_squares@.len() - i,
        {
            v.push(self.frozen_squares[i].0);
            i += 1;
        }
        proof {
            assert(v@ =~= frozen_cells(self.frozen_squares@));
        }
        v
    }

    /// All cells to draw: every locked cell, then the active piece's cells
    /// in its color.
    pub fn list_squares(&self) -> (v: Vec<ColoredPoint>)
        ensures
            v@ == with_locked(self.frozen_squares@, self.player_piece@),
    {
        let mut v: Vec<ColoredPoint> = Vec::new();
        let mut i: usize = 0;
        while i < self.frozen_squares.len()
            invariant
                i <= self.frozen_squares@.len(),
                v@ == self.frozen_squares@.take(i as int),
            decreases self.frozen_squares@.len() - i,
        {
            v.push(self.frozen_squares[i]);
            proof {
                assert(v@ =~= self.frozen_squares@.take(i + 1));
            }
            i += 1;
        }
        proof {
            assert(v@ =~= self.frozen_squares@);
        }
        let color = self.player_piece.color;
        let mut i: usize = 0;
        while i < self.player_piece.coords.len()
            invariant
                i <= self.player_piece.coords@.len(),
                color == self.player_piece@.color,
                v@.len() == self.frozen_squares@.len() + i,
                forall|j: int|
                    0 <= j < self.frozen_squares@.len() ==> v@[j] == self.frozen_squares@[j],
                forall|j: int|
                    0 <= j < i ==> v@[self.frozen_squares@.len() + j] == ColoredPoint(
                        self.player_piece.coords@[j],
                        color,
                    ),
            decreases self.player_piece.coords@.len() - i,
        {
            let c = self.player_piece.coords[i];
            v.push(ColoredPoint(c, color));
            i += 1;
        }
        proof {
            assert(v@ =~= with_locked(self.frozen_squares@, self.player_piece@));
        }
        v
    }

    /// The piece drawn in the "next piece" preview pane: the front of the
    /// queue, laid out beside the board.
    pub fn get_next_piece(&self) -> (r: Piece)
        requires
            self.wf(),
        ensures
            r@ == display_view(self@.queue[0], self@.width),
    {
        let next_piece_shape: PieceShape = self.piece_queue[0];
        get_next_piece_display(next_piece_shape, self.width)
    }

    /// Deal the front shape and spawn it; refill the queue with three fresh
    /// fair groups once fewer than twice-seven shapes would remain.
    fn pop_next_piece(&mut self) -> (p: Piece)
        requires
            queue_wf(old(self)@.queue),
            dims_wf(old(self)@.width, old(self)@.height),
        ensures
            queue_wf(final(self)@.queue),
            queue_popped(old(self)@.queue, final(self)@.queue),
            p@ == spawn_view(old(self)@.queue[0], old(self)@.width),
            final(self)@.width == old(self)@.width,
            final(self)@.height == old(self)@.height,
            final(self)@.frozen == old(self)@.frozen,
            final(self)@.piece == old(self)@.piece,
            final(self)@.score == old(self)@.score,
            final(self)@.over == old(self)@.over,
    {
        let ghost q0 = self.piece_queue@;
        let front = self.piece_queue.pop_front();
        let new_piece_shape = match front {
            Some(s) => s,
            None => {
                proof {
                    assert(false);
                }
                PieceShape::L
            },
        };
        let ghost rest = self.piece_queue@;
        proof {
            crate::bag::lemma_fair_pop(q0);
            assert(rest == q0.subrange(1, q0.len() as int));
        }
        if self.piece_queue.len() < 2 * (NUMBER_OF_SHAPES as usize) {
            let fresh = PieceShape::generate_fair_collection(QUEUE_GROUPS);
            let mut t: usize = 0;
            while t < fresh.len()
                invariant
                    t <= fresh@.len(),
                    self.piece_queue@ == rest + fresh@.take(t as int),
                    self.width == old(self).width,
                    self.height == old(self).height,
                    self.frozen_squares@ == old(self).frozen_squares@,
                    self.player_piece@ == old(self).player_piece@,
                    self.score == old(self).score,
                    self.game_over == old(self).game_over,
                decreases fresh@.len() - t,
            {
                let s = fresh[t];
                self.piece_queue.push_back(s);
                proof {
                    assert(rest + fresh@.take(t as int) + seq![fresh@[t as int]] =~= rest
                        + fresh@.take(t + 1));
                }
                t += 1;
            }
            proof {
                assert(fresh@.take(fresh@.len() as int) =~= fresh@);
                assert(self.piece_queue@ == rest + fresh@);
                assert(fresh@.len() % 7 == 0);
                assert forall|g: int| 0 <= g && 7 * g + 7 <= fresh@.len() implies full_bag(
                    #[trigger] fresh@.subrange(7 * g, 7 * g + 7),
                ) by {
                    assert(0 <= g < QUEUE_GROUPS as int);
                }
                crate::bag::lemma_fair_append(rest, fresh@);
                // The popped-queue relation: the remainder is kept as a
                // prefix and the fresh windows are complete fair groups.
                assert(self.piece_queue@.subrange(0, rest.len() as int) =~= rest);
                assert forall|g: int| 0 <= g < 3 implies full_bag(
                    #[trigger] self.piece_queue@.subrange(
                        rest.len() + 7 * g,
                        rest.len() + 7 * g + 7,
                    ),
                ) by {
                    assert(self.piece_queue@.subrange(rest.len() + 7 * g, rest.len() + 7 * g + 7)
                        =~= fresh@.subrange(7 * g, 7 * g + 7));
                    assert(full_bag(fresh@.subrange(7 * g, 7 * g + 7)));
                }
            }
        }
        spawn_piece_above(new_piece_shape, self.width)
    }
}

/// A well-formed piece on an accepted board has small coordinates: every
/// cell, and the pivot among them, lies inside the board.
proof fn lemma_wf_piece_bounded(p: PieceView, w: int, h: int)
    requires
        piece_wf(p, w, h),
        dims_wf(w, h),
    ensures
        piece_bounded(p, COORD_LIMIT as int),
{
    assert(p.cells.contains(p.center));
    let i = choose|i: int| 0 <= i < p.cells.len() && p.cells[i] == p.center;
    assert(point_bounded(p.center, COORD_LIMIT as int));
}

/// Freezing the running piece keeps the locked cells well formed: its cells
/// are distinct, on the board, and disjoint from the cells already locked.
proof fn lemma_locked_wf(f: Seq<ColoredPoint>, p: PieceView, w: int, h: int)
    requires
        frozen_wf(f, w, h),
        piece_wf(p, w, h),
        !overlaps(p.cells, frozen_cells(f)),
    ensures
        frozen_wf(with_locked(f, p), w, h),
        frozen_cells(with_locked(f, p)) == frozen_cells(f) + p.cells,
{
    let l = with_locked(f, p);
    assert(frozen_cells(l) =~= frozen_cells(f) + p.cells);
    let n = f.len() as int;
    assert forall|i: int|
        0 <= i < frozen_cells(l).len() implies {
        let c = #[trigger] frozen_cells(l)[i];
        0 <= c.x < w && 0 <= c.y < h
    } by {
        if i < n {
            assert(frozen_cells(l)[i] == frozen_cells(f)[i]);
        } else {
            assert(frozen_cells(l)[i] == p.cells[i - n]);
        }
    }
    assert forall|i: int, j: int|
        0 <= i < j < frozen_cells(l).len() implies frozen_cells(l)[i] != frozen_cells(l)[j] by {
        if i < n && j < n {
            assert(frozen_cells(l)[i] == frozen_cells(f)[i]);
            assert(frozen_cells(l)[j] == frozen_cells(f)[j]);
        } else if i < n && j >= n {
            assert(frozen_cells(l)[i] == frozen_cells(f)[i]);
            assert(frozen_cells(l)[j] == p.cells[j - n]);
            if frozen_cells(f)[i] == p.cells[j - n] {
                assert(overlaps(p.cells, frozen_cells(f)));
            }
        } else {
            assert(frozen_cells(l)[i] == p.cells[i - n]);
            assert(frozen_cells(l)[j] == p.cells[j - n]);
        }
    }
}

/// True iff one of the heights is `y`.
fn contains_height(v: &Vec<i32>, y: i32) -> (r: bool)
    ensures
        r == v@.contains(y),
{
    let mut i: usize = 0;
    while i < v.len()
        invariant
            i <= v@.len(),
            forall|k: int| 0 <= k < i ==> v@[k] != y,
        decreases v@.len() - i,
    {
        if v[i] == y {
            return true;
        }
        i += 1;
    }
    false
}

impl Game {
    /// The heights of all full rows, ascending: a row is full iff it
    /// carries exactly `width` locked cells.
    fn get_full_lines_heights(&self) -> (r: Vec<i32>)
        requires
            dims_wf(self@.width, self@.height),
        ensures
            r@ == full_rows(self.frozen_squares@, self@.width, self@.height),
    {
        let ghost f = self.frozen_squares@;
        let ghost w = self@.width;
        let mut r: Vec<i32> = Vec::new();
        let mut y: i32 = 0;
        while y < self.height
            invariant
                0 <= y <= self@.height,
                dims_wf(self@.width, self@.height),
                r@ == full_rows_upto(f, w, y as int),
                f == self.frozen_squares@,
                w == self@.width,
            decreases self@.height - y,
        {
            let mut cnt: usize = 0;
            let mut j: usize = 0;
            while j < self.frozen_squares.len()
                invariant
                    j <= f.len(),
                    f == self.frozen_squares@,
                    cnt == row_count(f.take(j as int), y),
                    cnt <= j,
                decreases f.len() - j,
            {
                proof {
                    assert(f.take(j + 1).drop_last() =~= f.take(j as int));
                    assert(f.take(j + 1).last() == f[j as int]);
                }
                if self.frozen_squares[j].0.y == y {
                    cnt += 1;
                }
                j += 1;
            }
            proof {
                assert(f.take(f.len() as int) =~= f);
            }
            if cnt == self.width as usize {
                r.push(y);
                proof {
                    assert(r@ =~= full_rows_upto(f, w, y + 1));
                }
            } else {
                proof {
                    assert(r@ =~= full_rows_upto(f, w, y + 1));
                }
            }
            y += 1;
        }
        r
    }

    /// Clear the rows at the given heights: their cells vanish, every other
    /// locked cell drops one row per cleared row below it.
    fn erase_lines(&mut self, lines: Vec<i32>)
        requires
            dims_wf(old(self)@.width, old(self)@.height),
            cells_in_bounds(
                frozen_cells(old(self)@.frozen),
                old(self)@.width,
                old(self)@.height,
            ),
            sorted_strict(lines@),
            forall|t: int| 0 <= t < lines@.len() ==> 0 <= #[trigger] lines@[t] < old(self)@.height,
        ensures
            final(self)@.frozen == erased(old(self)@.frozen, lines@),
            final(self)@.width == old(self)@.width,
            final(self)@.height == old(self)@.height,
            final(self)@.piece == old(self)@.piece,
            final(self)@.queue == old(self)@.queue,
            final(self)@.score == old(self)@.score,
            final(self)@.over == old(self)@.over,
    {
        let ghost f = self.frozen_squares@;
        let ghost h = self@.height;
        proof {
            lemma_sorted_range_len(lines@, h);
        }
        let mut new_squares: Vec<ColoredPoint> = Vec::new();
        let mut j: usize = 0;
        while j < self.frozen_squares.len()
            invariant
                j <= f.len(),
                self.frozen_squares@ == f,
                self.width == old(self).width,
                self.height == old(self).height,
                self.player_piece@ == old(self).player_piece@,
                self.piece_queue@ == old(self).piece_queue@,
                self.score == old(self).score,
                self.game_over == old(self).game_over,
                h == self@.height,
                dims_wf(self@.width, h),
                cells_in_bounds(frozen_cells(f), self@.width, h),
                sorted_strict(lines@),
                forall|t: int| 0 <= t < lines@.len() ==> 0 <= #[trigger] lines@[t] < h,
                lines@.len() <= h,
                new_squares@ == erased(f.take(j as int), lines@),
            decreases f.len() - j,
        {
            let cp = self.frozen_squares[j];
            proof {
                assert(f.take(j + 1).drop_last() =~= f.take(j as int));
                assert(f.take(j + 1).last() == cp);
                assert(frozen_cells(f)[j as int] == cp.0);
            }
            if !contains_height(&lines, cp.0.y) {
                let mut cnt: usize = 0;
                let mut t: usize = 0;
                while t < lines.len()
                    invariant
                        t <= lines@.len(),
                        cnt == count_ge(lines@.take(t as int), cp.0.y),
                        cnt <= t,
                    decreases lines@.len() - t,
                {
                    proof {
                        assert(lines@.take(t + 1).drop_last() =~= lines@.take(t as int));
                        assert(lines@.take(t + 1).last() == lines@[t as int]);
                    }
                    if lines[t] >= cp.0.y {
                        cnt += 1;
                    }
                    t += 1;
                }
                proof {
                    assert(lines@.take(lines@.len() as int) =~= lines@);
                }
                new_squares.push(ColoredPoint(Point { x: cp.0.x, y: cp.0.y + (cnt as i32) }, cp.1));
                proof {
                    assert(new_squares@ =~= erased(f.take(j + 1), lines@));
                }
            } else {
                proof {
                    assert(new_squares@ =~= erased(f.take(j + 1), lines@));
                }
            }
            j += 1;
        }
        proof {
            assert(f.take(f.len() as int) =~= f);
        }
        self.frozen_squares = new_squares;
    }

    /// Lock the active piece where it stands, clear and score any rows now
    /// full, then spawn the next shape from the queue; the game ends
    /// exactly when the spawn lands on a locked cell of the cleared board.
    fn lock_clear_respawn(&mut self) -> (r: Result<(), EndOfGame>)
        requires
            view_wf(old(self)@),
            !old(self)@.over,
        ensures
            view_wf(final(self)@),
            lock_rel(old(self)@, final(self)@),
            final(self)@.over == (r is Err),
    {
        let ghost pre = self@;
        let ghost w = self@.width;
        let ghost h = self@.height;
        // 1. Freeze the active piece's cells with its color.
        let color = self.player_piece.color;
        let mut i: usize = 0;
        while i < self.player_piece.coords.len()
            invariant
                i <= self.player_piece.coords@.len(),
                self.width == old(self).width,
                self.height == old(self).height,
                self.player_piece@ == old(self).player_piece@,
                self.piece_queue@ == old(self).piece_queue@,
                self.score == old(self).score,
                self.game_over == old(self).game_over,
                color == self.player_piece@.color,
                self.frozen_squares@ == old(self).frozen_squares@
                    + old(self).player_piece.coords@.take(i as int).map_values(
                    |c: Point| ColoredPoint(c, old(self).player_piece@.color),
                ),
            decreases self.player_piece.coords@.len() - i,
        {
            let c = self.player_piece.coords[i];
            self.frozen_squares.push(ColoredPoint(c, color));
            proof {
                assert(self.frozen_squares@ =~= old(self).frozen_squares@
                    + old(self).player_piece.coords@.take(i + 1).map_values(
                    |cc: Point| ColoredPoint(cc, old(self).player_piece@.color),
                ));
            }
            i += 1;
        }
        proof {
            assert(old(self).player_piece.coords@.take(
                old(self).player_piece.coords@.len() as int,
            ) =~= old(self).player_piece.coords@);
            assert(self.frozen_squares@ =~= with_locked(pre.frozen, pre.piece));
            lemma_locked_wf(pre.frozen, pre.piece, w, h);
        }
        let ghost locked = self.frozen_squares@;
        // 2. Score and clear any rows now full.
        let lines = self.get_full_lines_heights();
        proof {
            lemma_full_rows_ascending(locked, w, h);
        }
        if lines.len() > 0 {
            proof {
                lemma_sorted_range_len(lines@, h);
            }
            let k = lines.len();
            proof {
                assert(k <= 1000);
                assert((k as int) * (k as int) <= 1000000) by (nonlinear_arith)
                    requires
                        0 <= k as int <= 1000,
                ;
            }
            let points: u64 = (k as u64) * (k as u64) * 100;
            self.score = if self.score <= u64::MAX - points {
                self.score + points
            } else {
                u64::MAX
            };
            self.erase_lines(lines);
            proof {
                lemma_erased_props(locked, full_rows(locked, w, h), w, h);
            }
        }
        // 3. Spawn the next shape; the game ends if it is obstructed.
        let p = self.pop_next_piece();
        let fp = self.frozen_points();
        let over = p.intersect(&fp);
        self.player_piece = p;
        self.game_over = over;
        proof {
            lemma_spawn_wf(pre.queue[0], w, h);
        }
        if over {
            Err(EndOfGame)
        } else {
            Ok(())
        }
    }
}

/// A displaced well-formed piece is well formed wherever it stays wholly on
/// the board.
proof fn lemma_shifted_piece_wf(p: PieceView, dx: int, dy: int, w: int, h: int)
    requires
        piece_wf(p, w, h),
        dims_wf(w, h),
        -2 <= dx <= 2,
        -2 <= dy <= 2,
        !out_sides(shifted_cells(p.cells, dx, dy), w),
        !out_bottom(shifted_cells(p.cells, dx, dy), h),
        !out_top(shifted_cells(p.cells, dx, dy)),
    ensures
        piece_wf(shifted_piece(p, dx, dy), w, h),
{
    let s = shifted_cells(p.cells, dx, dy);
    assert(forall|i: int|
        0 <= i < s.len() ==> #[trigger] s[i] == shifted_point(p.cells[i], dx, dy));
    assert forall|i: int, j: int| 0 <= i < j < s.len() implies s[i] != s[j] by {
        assert(p.cells[i] != p.cells[j]);
    }
    assert(p.cells.contains(p.center));
    let k = choose|k: int| 0 <= k < p.cells.len() && p.cells[k] == p.center;
    assert(s[k] == shifted_point(p.center, dx, dy));
    assert(s.contains(shifted_piece(p, dx, dy).center));
}

/// A rotation candidate — the raw quarter turn displaced by one kick — is a
/// well-formed piece wherever it comes to rest wholly on the board.
proof fn lemma_rotation_candidate_wf(p: PieceView, rotation: Rotation, k: Point, w: int, h: int)
    requires
        piece_wf(p, w, h),
        dims_wf(w, h),
        point_bounded(k, 2),
        !out_sides(kicked_piece(rot_apply(p, rotation), k).cells, w),
        !out_bottom(kicked_piece(rot_apply(p, rotation), k).cells, h),
        !out_top(kicked_piece(rot_apply(p, rotation), k).cells),
    ensures
        piece_wf(kicked_piece(rot_apply(p, rotation), k), w, h),
        kicked_piece(rot_apply(p, rotation), k).shape == p.shape,
        kicked_piece(rot_apply(p, rotation), k).color == p.color,
{
    let rp = rot_apply(p, rotation);
    let cand = kicked_piece(rp, k);
    assert(p.cells.contains(p.center));
    let ci = choose|ci: int| 0 <= ci < p.cells.len() && p.cells[ci] == p.center;
    // The raw turn keeps four distinct cells and fixes the pivot.
    assert(rp.cells.len() == p.cells.len());
    assert(rp.center == p.center);
    assert(cells_bounded(rp.cells, 3 * MAX_BOARD_DIM as int));
    assert forall|i: int, j: int| 0 <= i < j < rp.cells.len() implies rp.cells[i] != rp.cells[j] by {
        assert(p.cells[i] != p.cells[j]);
    }
    assert(rp.cells[ci] == rp.center);
    // The kick displaces everything alike.
    assert(forall|i: int|
        0 <= i < cand.cells.len() ==> #[trigger] cand.cells[i] == shifted_point(
            rp.cells[i],
            k.x as int,
            k.y as int,
        ));
    assert forall|i: int, j: int| 0 <= i < j < cand.cells.len() implies cand.cells[i]
        != cand.cells[j] by {
        assert(rp.cells[i] != rp.cells[j]);
    }
    assert(cand.cells[ci] == cand.center);
    assert(cand.cells.contains(cand.center));
}

/// Where gravity brings the piece to rest: still a well-formed piece, still
/// on no locked cell, still the same shape and color.
proof fn lemma_resting_props(p: PieceView, frozen: Seq<ColoredPoint>, w: int, h: int)
    requires
        piece_wf(p, w, h),
        dims_wf(w, h),
        !overlaps(p.cells, frozen_cells(frozen)),
    ensures
        piece_wf(resting_piece(p, frozen, h), w, h),
        !overlaps(resting_piece(p, frozen, h).cells, frozen_cells(frozen)),
        resting_piece(p, frozen, h).shape == p.shape,
        resting_piece(p, frozen, h).color == p.color,
    decreases h - p.cells[0].y,
{
    let cand = shifted_piece(p, 0, 1);
    if down_legal(cand.cells, frozen, h) {
        assert forall|i: int|
            0 <= i < cand.cells.len() implies !((#[trigger] cand.cells[i]).x < 0 || cand.cells[i].x
            >= w) by {
            assert(cand.cells[i] == shifted_point(p.cells[i], 0, 1));
        }
        assert forall|i: int| 0 <= i < cand.cells.len() implies (#[trigger] cand.cells[i]).y
            >= 0 by {
            assert(cand.cells[i] == shifted_point(p.cells[i], 0, 1));
        }
        lemma_shifted_piece_wf(p, 0, 1, w, h);
        assert(cand.cells[0] == shifted_point(p.cells[0], 0, 1));
        lemma_resting_props(cand, frozen, w, h);
    }
}

/// Whether a manual downward move completed a soft drop by locking the
/// piece.
enum SoftDropEnd {
    Yes,
    No,
}

/// What one command does to the game, as seen from outside: the contract of
/// [`Game::step`].
pub open spec fn step_rel(
    pre: GameView,
    cmd: StepKind<Option<Movement>, Rotation>,
    post: GameView,
) -> bool {
    match cmd {
        StepKind::Rotate(rotation) => post == set_piece(pre, rotation_result(pre, rotation))
            && !post.over,
        StepKind::GoDown => {
            let cand = shifted_piece(pre.piece, 0, 1);
            if down_legal(cand.cells, pre.frozen, pre.height) {
                post == set_piece(pre, cand) && !post.over
            } else {
                lock_rel(pre, post)
            }
        },
        StepKind::Move(movement) => {
            let cand = shifted_piece(pre.piece, delta_x(movement), delta_y(movement));
            if movement == Some(Movement::DOWN) {
                if down_legal(cand.cells, pre.frozen, pre.height) {
                    post == set_piece(pre, cand) && !post.over
                } else {
                    // Soft-drop completion: the lock, then one point per
                    // cell of the piece — unless the lock ended the game.
                    exists|mid: GameView|
                        #[trigger] lock_rel(pre, mid) && post == (if mid.over {
                            mid
                        } else {
                            with_score(mid, sat_add(mid.score, pre.piece.cells.len()))
                        })
                }
            } else {
                if lateral_legal(cand.cells, pre.frozen, pre.width) {
                    post == set_piece(pre, cand) && !post.over
                } else {
                    post == pre && !post.over
                }
            }
        },
        StepKind::HardDrop => lock_rel(
            with_score(
                set_piece(pre, resting_piece(pre.piece, pre.frozen, pre.height)),
                sat_add(pre.score, (2 * pre.piece.cells.len()) as nat),
            ),
            post,
        ),
    }
}

impl Game {
    /// Apply a rotation command: try the shape's kick offsets in order on
    /// the rotated piece and commit the first placement that lands wholly
    /// on the board and on no locked cell; when every offset fails, the
    /// piece stays exactly as it was.
    fn rotate_piece(&mut self, rotation: Rotation)
        requires
            view_wf(old(self)@),
            !old(self)@.over,
        ensures
            view_wf(final(self)@),
            !final(self)@.over,
            final(self)@ == set_piece(old(self)@, rotation_result(old(self)@, rotation)),
    {
        let ghost pre = self@;
        let ghost w = self@.width;
        let ghost h = self@.height;
        proof {
            lemma_wf_piece_bounded(pre.piece, w, h);
        }
        let phantom = match rotation {
            Rotation::CCW => self.player_piece.rotate_ccw(),
            Rotation::CW => self.player_piece.rotate_cw(),
        };
        let kicks = self.player_piece.piece_shape.get_kicks();
        let fp = self.frozen_points();
        let ghost rp = phantom@;
        let ghost table = kick_table(pre.piece.shape);
        proof {
            assert(rp == rot_apply(pre.piece, rotation));
            lemma_kick_table_bounded(pre.piece.shape);
            // The raw turn keeps coordinates small: each one is built from
            // two on-board coordinates.
            assert(cells_bounded(rp.cells, COORD_LIMIT as int)) by {
                assert(cells_bounded(rp.cells, 3 * MAX_BOARD_DIM as int));
            }
            assert(point_bounded(rp.center, COORD_LIMIT as int));
            assert(table.subrange(0, table.len() as int) =~= table);
        }
        let mut i: usize = 0;
        while i < kicks.len()
            invariant
                pre == old(self)@,
                i <= table.len(),
                kicks@ == table,
                table == kick_table(pre.piece.shape),
                phantom@ == rp,
                rp == rot_apply(pre.piece, rotation),
                piece_bounded(rp, COORD_LIMIT as int),
                forall|t: int|
                    0 <= t < table.len() ==> point_bounded(#[trigger] table[t], 2),
                fp@ == frozen_cells(pre.frozen),
                self@ == pre,
                view_wf(pre),
                !pre.over,
                w == pre.width,
                h == pre.height,
                first_legal_kick(rp, table.subrange(i as int, table.len() as int), pre.frozen, w, h)
                    == first_legal_kick(rp, table, pre.frozen, w, h),
            decreases table.len() - i,
        {
            let cand = phantom.kick(kicks[i]);
            let legal = !cand.hits_sides(self.width) && !cand.hits_bottom(self.height)
                && !cand.hits_top() && !cand.intersect(&fp);
            proof {
                let suffix = table.subrange(i as int, table.len() as int);
                assert(suffix[0] == table[i as int]);
                assert(cand@ == kicked_piece(rp, table[i as int]));
                assert(suffix.subrange(1, suffix.len() as int) =~= table.subrange(
                    i + 1,
                    table.len() as int,
                ));
            }
            if legal {
                proof {
                    assert(rotation_result(pre, rotation) == cand@);
                    lemma_rotation_candidate_wf(pre.piece, rotation, table[i as int], w, h);
                }
                self.player_piece = cand;
                proof {
                    assert(self@ =~= set_piece(pre, rotation_result(pre, rotation)));
                }
                return ;
            }
            i += 1;
        }
        proof {
            assert(table.subrange(table.len() as int, table.len() as int)
                =~= Seq::<Point>::empty());
            assert(rotation_result(pre, rotation) == pre.piece);
            assert(self@ =~= set_piece(pre, rotation_result(pre, rotation)));
        }
    }

    /// Apply a movement command. A legal move commits; an illegal sideways
    /// move does nothing; a blocked downward move locks the piece where it
    /// stands (see [`lock_rel`]) and reports a completed soft drop.
    fn move_piece(&mut self, movement: Option<Movement>) -> (r: Result<SoftDropEnd, EndOfGame>)
        requires
            view_wf(old(self)@),
            !old(self)@.over,
        ensures
            view_wf(final(self)@),
            final(self)@.over == (r is Err),
            ({
                let pre = old(self)@;
                let cand = shifted_piece(pre.piece, delta_x(movement), delta_y(movement));
                if movement == Some(Movement::DOWN) {
                    if down_legal(cand.cells, pre.frozen, pre.height) {
                        final(self)@ == set_piece(pre, cand) && r == Ok::<
                            SoftDropEnd,
                            EndOfGame,
                        >(SoftDropEnd::No)
                    } else {
                        lock_rel(pre, final(self)@) && (r is Ok ==> r == Ok::<
                            SoftDropEnd,
                            EndOfGame,
                        >(SoftDropEnd::Yes))
                    }
                } else {
                    if lateral_legal(cand.cells, pre.frozen, pre.width) {
                        final(self)@ == set_piece(pre, cand) && r == Ok::<
                            SoftDropEnd,
                            EndOfGame,
                        >(SoftDropEnd::No)
                    } else {
                        final(self)@ == pre && r == Ok::<SoftDropEnd, EndOfGame>(SoftDropEnd::No)
                    }
                }
            }),
    {
        let ghost pre = self@;
        let ghost w = self@.width;
        let ghost h = self@.height;
        proof {
            lemma_wf_piece_bounded(pre.piece, w, h);
        }
        let phantom = self.player_piece.make_move(movement);
        let fp = self.frozen_points();
        let ghost cand = phantom@;
        let is_down = matches!(movement, Some(Movement::DOWN));
        if is_down {
            if !phantom.hits_bottom(self.height) && !phantom.intersect(&fp) {
                proof {
                    assert forall|i: int|
                        0 <= i < cand.cells.len() implies !((#[trigger] cand.cells[i]).x < 0
                        || cand.cells[i].x >= w) by {
                        assert(cand.cells[i] == shifted_point(pre.piece.cells[i], 0, 1));
                    }
                    assert forall|i: int|
                        0 <= i < cand.cells.len() implies (#[trigger] cand.cells[i]).y >= 0 by {
                        assert(cand.cells[i] == shifted_point(pre.piece.cells[i], 0, 1));
                    }
                    lemma_shifted_piece_wf(pre.piece, 0, 1, w, h);
                }
                self.player_piece = phantom;
                proof {
                    assert(self@ =~= set_piece(pre, cand));
                }
                Ok(SoftDropEnd::No)
            } else {
                match self.lock_clear_respawn() {
                    Ok(()) => Ok(SoftDropEnd::Yes),
                    Err(e) => Err(e),
                }
            }
        } else {
            if !phantom.hits_sides(self.width) && !phantom.intersect(&fp) {
                proof {
                    let dx = delta_x(movement);
                    assert(delta_y(movement) == 0);
                    assert forall|i: int|
                        0 <= i < cand.cells.len() implies !((#[trigger] cand.cells[i]).y >= h)
                        && cand.cells[i].y >= 0 by {
                        assert(cand.cells[i] == shifted_point(pre.piece.cells[i], dx, 0));
                    }
                    lemma_shifted_piece_wf(pre.piece, dx, 0, w, h);
                }
                self.player_piece = phantom;
                proof {
                    assert(self@ =~= set_piece(pre, cand));
                }
                Ok(SoftDropEnd::No)
            } else {
                Ok(SoftDropEnd::No)
            }
        }
    }

    /// One gravity tick: push the piece down a cell if that is legal, else
    /// lock it where it stands.
    fn force_piece_down_or_stick(&mut self) -> (r: Result<(), EndOfGame>)
        requires
            view_wf(old(self)@),
            !old(self)@.over,
        ensures
            view_wf(final(self)@),
            final(self)@.over == (r is Err),
            ({
                let pre = old(self)@;
                let cand = shifted_piece(pre.piece, 0, 1);
                if down_legal(cand.cells, pre.frozen, pre.height) {
                    final(self)@ == set_piece(pre, cand) && r is Ok
                } else {
                    lock_rel(pre, final(self)@)
                }
            }),
    {
        let ghost pre = self@;
        let ghost w = self@.width;
        let ghost h = self@.height;
        proof {
            lemma_wf_piece_bounded(pre.piece, w, h);
        }
        let phantom = self.player_piece.step_down();
        let fp = self.frozen_points();
        let ghost cand = phantom@;
        if !phantom.hits_bottom(self.height) && !phantom.intersect(&fp) {
            proof {
                assert forall|i: int|
                    0 <= i < cand.cells.len() implies !((#[trigger] cand.cells[i]).x < 0
                    || cand.cells[i].x >= w) && cand.cells[i].y >= 0 by {
                    assert(cand.cells[i] == shifted_point(pre.piece.cells[i], 0, 1));
                }
                lemma_shifted_piece_wf(pre.piece, 0, 1, w, h);
            }
            self.player_piece = phantom;
            proof {
                assert(self@ =~= set_piece(pre, cand));
            }
            Ok(())
        } else {
            self.lock_clear_respawn()
        }
    }

    /// Where the active piece would come to rest under gravity: the ghost
    /// of the piece the renderer draws as a drop preview, and the place a
    /// hard drop locks it.
    pub fn projected_piece(&self) -> (r: Piece)
        requires
            self.wf(),
            !self@.over,
        ensures
            r@ == resting_piece(self@.piece, self@.frozen, self@.height),
            piece_wf(r@, self@.width, self@.height),
            !overlaps(r@.cells, frozen_cells(self@.frozen)),
    {
        let ghost w = self@.width;
        let ghost h = self@.height;
        let fp = self.frozen_points();
        let mut phantom = self.player_piece.copied();
        loop
            invariant
                self.wf(),
                piece_wf(phantom@, w, h),
                !overlaps(phantom@.cells, frozen_cells(self@.frozen)),
                fp@ == frozen_cells(self@.frozen),
                w == self@.width,
                h == self@.height,
                resting_piece(phantom@, self@.frozen, h) == resting_piece(
                    self@.piece,
                    self@.frozen,
                    h,
                ),
            decreases h - phantom@.cells[0].y,
        {
            proof {
                lemma_wf_piece_bounded(phantom@, w, h);
            }
            let next = phantom.step_down();
            let ghost cand = next@;
            if next.hits_bottom(self.height) || next.intersect(&fp) {
                proof {
                    assert(!down_legal(cand.cells, self@.frozen, h));
                    assert(resting_piece(phantom@, self@.frozen, h) == phantom@);
                }
                return phantom;
            }
            proof {
                assert forall|i: int|
                    0 <= i < cand.cells.len() implies !((#[trigger] cand.cells[i]).x < 0
                    || cand.cells[i].x >= w) && cand.cells[i].y >= 0 by {
                    assert(cand.cells[i] == shifted_point(phantom@.cells[i], 0, 1));
                }
                lemma_shifted_piece_wf(phantom@, 0, 1, w, h);
                assert(cand.cells[0] == shifted_point(phantom@.cells[0], 0, 1));
                assert(resting_piece(phantom@, self@.frozen, h) == resting_piece(
                    cand,
                    self@.frozen,
                    h,
                ));
            }
            phantom = next;
        }
    }

    /// A hard drop: advance the piece to its resting position and lock it
    /// there in one atomic step.
    fn drop_down(&mut self) -> (r: Result<(), EndOfGame>)
        requires
            view_wf(old(self)@),
            !old(self)@.over,
        ensures
            view_wf(final(self)@),
            final(self)@.over == (r is Err),
            lock_rel(
                set_piece(
                    old(self)@,
                    resting_piece(old(self)@.piece, old(self)@.frozen, old(self)@.height),
                ),
                final(self)@,
            ),
    {
        let ghost pre = self@;
        proof {
            lemma_resting_props(pre.piece, pre.frozen, pre.width, pre.height);
        }
        let rest = self.projected_piece();
        self.player_piece = rest;
        proof {
            assert(self@ =~= set_piece(pre, resting_piece(pre.piece, pre.frozen, pre.height)));
        }
        self.lock_clear_respawn()
    }

    /// Drive the game one command forward. A legal move or rotation
    /// commits; an illegal sideways move or rotation does nothing; blocked
    /// downward motion locks the piece, scores, clears full rows and spawns
    /// the next piece; the result is `Err` exactly when that spawn was
    /// obstructed — the end of the game.
    pub fn step(&mut self, step_kind: StepKind<Option<Movement>, Rotation>) -> (r: Result<
        (),
        EndOfGame,
    >)
        requires
            old(self).wf(),
            !old(self)@.over,
        ensures
            final(self).wf(),
            final(self)@.over == (r is Err),
            final(self)@.width == old(self)@.width,
            final(self)@.height == old(self)@.height,
            step_rel(old(self)@, step_kind, final(self)@),
    {
        let ghost pre = self@;
        match step_kind {
            StepKind::GoDown => self.force_piece_down_or_stick(),
            StepKind::Rotate(rotation) => {
                self.rotate_piece(rotation);
                Ok(())
            },
            StepKind::Move(movement) => {
                match self.move_piece(movement) {
                    Ok(SoftDropEnd::Yes) => {
                        let ghost mid = self@;
                        let points = self.player_piece.coords.len() as u64;
                        proof {
                            assert(piece_wf(self@.piece, pre.width, pre.height));
                            assert(points == pre.piece.cells.len());
                        }
                        self.score = if self.score <= u64::MAX - points {
                            self.score + points
                        } else {
                            u64::MAX
                        };
                        proof {
                            assert(self@ =~= with_score(
                                mid,
                                sat_add(mid.score, pre.piece.cells.len()),
                            ));
                            assert(lock_rel(pre, mid));
                        }
                        Ok(())
                    },
                    Ok(SoftDropEnd::No) => Ok(()),
                    Err(e) => {
                        proof {
                            let mid = self@;
                            assert(lock_rel(pre, mid));
                        }
                        Err(e)
                    },
                }
            },
            StepKind::HardDrop => {
                let points = 2 * (self.player_piece.coords.len() as u64);
                self.score = if self.score <= u64::MAX - points {
                    self.score + points
                } else {
                    u64::MAX
                };
                proof {
                    assert(self@ =~= with_score(
                        pre,
                        sat_add(pre.score, (2 * pre.piece.cells.len()) as nat),
                    ));
                }
                let r = self.drop_down();
                proof {
                    assert(set_piece(
                        with_score(pre, sat_add(pre.score, (2 * pre.piece.cells.len()) as nat)),
                        resting_piece(pre.piece, pre.frozen, pre.height),
                    ) =~= with_score(
                        set_piece(pre, resting_piece(pre.piece, pre.frozen, pre.height)),
                        sat_add(pre.score, (2 * pre.piece.cells.len()) as nat),
                    ));
                }
                r
            },
        }
    }
}

/// There is never a byte to read: the engine takes no byte input, so this
/// always reports the end of the game.
pub fn read_u8() -> (r: Result<u8, EndOfGame>)
    ensures
        r is Err,
{
    Err(EndOfGame)
}

/// A fresh game on a board of the given size: an empty board, a random
/// first piece spawned at the top, a fairly dealt queue of three groups,
/// and a zero score.
pub fn new_game_sized(width: i32, height: i32) -> (g: Game)
    requires
        4 <= width <= MAX_BOARD_DIM,
        4 <= height <= MAX_BOARD_DIM,
    ensures
        g.wf(),
        !g@.over,
        g@.width == width,
        g@.height == height,
        g@.score == 0,
        g@.frozen.len() == 0,
        g@.queue.len() == 21,
        exists|sh: PieceShape| g@.piece == spawn_view(sh, width as int),
{
    let idx = random_shape_index();
    let random_shape = match PieceShape::from(idx as usize) {
        Some(s) => s,
        None => {
            proof {
                assert(false);
            }
            PieceShape::L
        },
    };
    let player_piece = spawn_piece_above(random_shape, width);
    let fresh = PieceShape::generate_fair_collection(QUEUE_GROUPS);
    let mut piece_queue: VecDeque<PieceShape> = VecDeque::new();
    let mut t: usize = 0;
    while t < fresh.len()
        invariant
            t <= fresh@.len(),
            piece_queue@ == fresh@.take(t as int),
        decreases fresh@.len() - t,
    {
        let s = fresh[t];
        piece_queue.push_back(s);
        proof {
            assert(fresh@.take(t as int) + seq![fresh@[t as int]] =~= fresh@.take(t + 1));
        }
        t += 1;
    }
    proof {
        assert(piece_queue@ =~= fresh@);
    }
    let g = Game {
        width,
        height,
        frozen_squares: Vec::new(),
        player_piece,
        piece_queue,
        score: 0,
        game_over: false,
    };
    proof {
        lemma_spawn_wf(random_shape, width as int, height as int);
        assert(frozen_cells(g@.frozen) =~= Seq::<Point>::empty());
        let q = g@.queue;
        assert(q.len() % 7 == 0);
        assert(q.subrange(0, (q.len() % 7) as int) =~= Seq::<PieceShape>::empty());
        assert forall|w: int|
            0 <= w && (q.len() % 7) as int + 7 * w + 7 <= q.len() implies full_bag(
            #[trigger] q.subrange((q.len() % 7) as int + 7 * w, (q.len() % 7) as int + 7 * w + 7),
        ) by {
            assert(0 <= w < QUEUE_GROUPS as int);
            assert(q.subrange((q.len() % 7) as int + 7 * w, (q.len() % 7) as int + 7 * w + 7)
                =~= fresh@.subrange(7 * w, 7 * w + 7));
            assert(full_bag(fresh@.subrange(7 * w, 7 * w + 7)));
        }
        assert(fair_suffix(q));
    }
    g
}

/// Law: while the game is running, the active piece and the locked cells
/// are disjoint. It holds of every reachable state: [`new_game_sized`]
/// establishes [`view_wf`] and [`Game::step`] preserves it.
pub proof fn lemma_running_piece_disjoint(g: GameView)
    requires
        view_wf(g),
        !g.over,
    ensures
        !overlaps(g.piece.cells, frozen_cells(g.frozen)),
{
}

/// Law: in every reachable state, the active piece's cells and every
/// locked cell lie within `[0, width) x [0, height)` — again by induction
/// through [`view_wf`].
pub proof fn lemma_all_cells_in_bounds(g: GameView)
    requires
        view_wf(g),
    ensures
        cells_in_bounds(g.piece.cells, g.width, g.height),
        cells_in_bounds(frozen_cells(g.frozen), g.width, g.height),
{
}

/// Law: a rotation whose every kick candidate collides or leaves the board
/// is a no-op — the step leaves the active piece, and the whole game,
/// exactly as they were.
pub proof fn lemma_blocked_rotation_is_noop(
    pre: GameView,
    rotation: Rotation,
    post: GameView,
)
    requires
        step_rel(pre, StepKind::Rotate(rotation), post),
        first_legal_kick(
            rot_apply(pre.piece, rotation),
            kick_table(pre.piece.shape),
            pre.frozen,
            pre.width,
            pre.height,
        ) is None,
    ensures
        post.piece == pre.piece,
        post == pre,
{
    assert(rotation_result(pre, rotation) == pre.piece);
    assert(set_piece(pre, pre.piece) =~= pre);
}

/// A fresh standard game: a ten-by-twentytwo board.
pub fn new_game() -> (g: Game)
    ensures
        g.wf(),
        !g@.over,
        g@.width == DEFAULT_BOARD_WIDTH,
        g@.height == DEFAULT_BOARD_HEIGHT,
        g@.score == 0,
        g@.frozen.len() == 0,
        g@.queue.len() == 21,
        exists|sh: PieceShape| g@.piece == spawn_view(sh, DEFAULT_BOARD_WIDTH as int),
{
    new_game_sized(DEFAULT_BOARD_WIDTH, DEFAULT_BOARD_HEIGHT)
}

} // verus!
