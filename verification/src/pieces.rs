//! Piece geometry: the seven tetromino shapes, their spawn layout, their
//! colors, their rotation-kick offset tables, and the pure operations of a
//! single falling piece (translate, rotate, boundary and overlap tests).
//!
//! All coordinates are in whole board cells, origin top-left, `y` growing
//! downward. Every operation returns new geometry and leaves the receiver
//! untouched; legality of a candidate position is the board's business, not
//! the piece's.

use vstd::prelude::*;

use crate::constants::{Movement, COORD_LIMIT, MAX_BOARD_DIM};

verus! {

/// One cell coordinate on the grid.
#[derive(Copy, Clone, PartialEq, Eq, Structural, Debug)]
pub struct Point {
    pub x: i32,
    pub y: i32,
}

/// An opaque display tag: the color a piece's squares are drawn with.
#[derive(Copy, Clone, PartialEq, Eq, Structural, Debug)]
pub struct Color {
    pub r: u8,
    pub g: u8,
    pub b: u8,
}

/// The seven tetromino shapes.
#[derive(Copy, Clone, PartialEq, Eq, Structural, Debug)]
pub enum PieceShape {
    L,
    I,
    Z,
    InvertedZ,
    InvertedL,
    Square,
    T,
}

/// A falling tetromino: four occupied cells, a rotation pivot, a color and
/// its shape tag.
#[derive(Clone, Debug)]
pub struct Piece {
    pub coords: Vec<Point>,
    pub center: Point,
    pub color: Color,
    pub piece_shape: PieceShape,
}

/// The mathematical model of a [`Piece`]: the same data with the cells as a
/// sequence.
#[verifier::ext_equal]
pub ghost struct PieceView {
    pub cells: Seq<Point>,
    pub center: Point,
    pub color: Color,
    pub shape: PieceShape,
}

impl View for Piece {
    type V = PieceView;

    open spec fn view(&self) -> PieceView {
        PieceView {
            cells: self.coords@,
            center: self.center,
            color: self.color,
            shape: self.piece_shape,
        }
    }
}

/// A point built from unbounded integers; the caller keeps them in `i32`
/// range.
pub open spec fn pt(x: int, y: int) -> Point {
    Point { x: x as i32, y: y as i32 }
}

pub open spec fn point_bounded(p: Point, b: int) -> bool {
    -b <= p.x <= b && -b <= p.y <= b
}

pub open spec fn cells_bounded(cells: Seq<Point>, b: int) -> bool {
    forall|i: int| 0 <= i < cells.len() ==> point_bounded(#[trigger] cells[i], b)
}

pub open spec fn piece_bounded(pv: PieceView, b: int) -> bool {
    point_bounded(pv.center, b) && cells_bounded(pv.cells, b)
}

/// Horizontal and vertical displacement, in cells, of a movement command.
/// `UP` and "no movement" displace nothing: pieces never travel upward.
pub open spec fn delta_x(movement: Option<Movement>) -> int {
    match movement {
        Some(Movement::RIGHT) => 1,
        Some(Movement::LEFT) => -1,
        _ => 0,
    }
}

pub open spec fn delta_y(movement: Option<Movement>) -> int {
    match movement {
        Some(Movement::DOWN) => 1,
        _ => 0,
    }
}

pub open spec fn shifted_point(p: Point, dx: int, dy: int) -> Point {
    pt(p.x + dx, p.y + dy)
}

pub open spec fn shifted_cells(cells: Seq<Point>, dx: int, dy: int) -> Seq<Point> {
    cells.map_values(|c: Point| shifted_point(c, dx, dy))
}

/// The whole piece displaced by `(dx, dy)` cells.
pub open spec fn shifted_piece(pv: PieceView, dx: int, dy: int) -> PieceView {
    PieceView {
        cells: shifted_cells(pv.cells, dx, dy),
        center: shifted_point(pv.center, dx, dy),
        color: pv.color,
        shape: pv.shape,
    }
}

/// One cell rotated a quarter turn clockwise about the pivot:
/// `(x, y)` goes to `(pivot.x + (y - pivot.y), pivot.y - (x - pivot.x))`.
pub open spec fn rotated_point_cw(c: Point, piv: Point) -> Point {
    pt(piv.x + (c.y - piv.y), piv.y - (c.x - piv.x))
}

/// The inverse mapping: a quarter turn counter-clockwise about the pivot.
pub open spec fn rotated_point_ccw(c: Point, piv: Point) -> Point {
    pt(piv.x - (c.y - piv.y), piv.y + (c.x - piv.x))
}

/// The piece after a raw clockwise quarter turn about its pivot. The square
/// is rotationally symmetric about its own middle, so rotating it permutes
/// its cells; as a set of cells that is the identity, and the operation
/// leaves it unchanged.
pub open spec fn rotated_piece_cw(pv: PieceView) -> PieceView {
    if pv.shape == PieceShape::Square {
        pv
    } else {
        PieceView {
            cells: pv.cells.map_values(|c: Point| rotated_point_cw(c, pv.center)),
            center: pv.center,
            color: pv.color,
            shape: pv.shape,
        }
    }
}

/// The piece after a raw counter-clockwise quarter turn about its pivot.
pub open spec fn rotated_piece_ccw(pv: PieceView) -> PieceView {
    if pv.shape == PieceShape::Square {
        pv
    } else {
        PieceView {
            cells: pv.cells.map_values(|c: Point| rotated_point_ccw(c, pv.center)),
            center: pv.center,
            color: pv.color,
            shape: pv.shape,
        }
    }
}

/// The piece displaced by a kick offset.
pub open spec fn kicked_piece(pv: PieceView, v: Point) -> PieceView {
    shifted_piece(pv, v.x as int, v.y as int)
}

/// Some cell of `a` coincides with some cell of `b`.
pub open spec fn overlaps(a: Seq<Point>, b: Seq<Point>) -> bool {
    exists|i: int, j: int| 0 <= i < a.len() && 0 <= j < b.len() && a[i] == b[j]
}

/// Some cell lies below the board's last row.
pub open spec fn out_bottom(cells: Seq<Point>, height: int) -> bool {
    exists|i: int| 0 <= i < cells.len() && (#[trigger] cells[i]).y >= height
}

/// Some cell lies beyond the left or right wall.
pub open spec fn out_sides(cells: Seq<Point>, width: int) -> bool {
    exists|i: int|
        0 <= i < cells.len() && ((#[trigger] cells[i]).x < 0 || cells[i].x >= width)
}

/// Some cell lies above the board's first row.
pub open spec fn out_top(cells: Seq<Point>) -> bool {
    exists|i: int| 0 <= i < cells.len() && (#[trigger] cells[i]).y < 0
}

/// All cells lie inside `[0, width) x [0, height)`.
pub open spec fn cells_in_bounds(cells: Seq<Point>, width: int, height: int) -> bool {
    forall|i: int|
        0 <= i < cells.len() ==> {
            let c = #[trigger] cells[i];
            0 <= c.x < width && 0 <= c.y < height
        }
}

/// No two cells coincide.
pub open spec fn distinct_cells(cells: Seq<Point>) -> bool {
    forall|i: int, j: int| 0 <= i < j < cells.len() ==> cells[i] != cells[j]
}

/// A well-formed piece on a `width x height` board: exactly four distinct
/// cells, all in bounds, and the pivot is one of them.
pub open spec fn piece_wf(pv: PieceView, width: int, height: int) -> bool {
    &&& pv.cells.len() == 4
    &&& distinct_cells(pv.cells)
    &&& cells_in_bounds(pv.cells, width, height)
    &&& pv.cells.contains(pv.center)
}

/// The color each shape is drawn with.
pub open spec fn shape_color(shape: PieceShape) -> Color {
    match shape {
        PieceShape::L => Color { r: 255, g: 165, b: 0 },
        PieceShape::InvertedL => Color { r: 255, g: 255, b: 255 },
        PieceShape::I => Color { r: 173, g: 216, b: 230 },
        PieceShape::Z => Color { r: 0, g: 255, b: 0 },
        PieceShape::Square => Color { r: 255, g: 255, b: 102 },
        PieceShape::T => Color { r: 255, g: 20, b: 147 },
        PieceShape::InvertedZ => Color { r: 255, g: 0, b: 0 },
    }
}

/// The spawn cells of a shape on a board `w` cells wide: horizontally
/// centered, hanging from the top row.
pub open spec fn spawn_cells(shape: PieceShape, w: int) -> Seq<Point> {
    let b = w / 2 - 1;
    match shape {
        PieceShape::L => seq![pt(b, 0), pt(b, 1), pt(b, 2), pt(b + 1, 2)],
        PieceShape::InvertedL => seq![pt(b, 0), pt(b, 1), pt(b, 2), pt(b - 1, 2)],
        PieceShape::I => seq![pt(b, 0), pt(b, 1), pt(b, 2), pt(b, 3)],
        PieceShape::Z => seq![pt(b, 0), pt(b, 1), pt(b + 1, 1), pt(b + 1, 2)],
        PieceShape::Square => seq![pt(b, 0), pt(b, 1), pt(b + 1, 1), pt(b + 1, 0)],
        PieceShape::T => seq![pt(b - 1, 0), pt(b, 0), pt(b + 1, 0), pt(b, 1)],
        PieceShape::InvertedZ => seq![pt(b + 1, 0), pt(b + 1, 1), pt(b, 1), pt(b, 2)],
    }
}

/// The spawn pivot of a shape on a board `w` cells wide. It is always one
/// of the spawn cells.
pub open spec fn spawn_center(shape: PieceShape, w: int) -> Point {
    let b = w / 2 - 1;
    match shape {
        PieceShape::I => pt(b, 2),
        PieceShape::Square => pt(b, 0),
        PieceShape::T => pt(b, 0),
        _ => pt(b, 1),
    }
}

/// A freshly spawned piece of the given shape on a board `w` cells wide.
pub open spec fn spawn_view(shape: PieceShape, w: int) -> PieceView {
    PieceView {
        cells: spawn_cells(shape, w),
        center: spawn_center(shape, w),
        color: shape_color(shape),
        shape: shape,
    }
}

/// The ordered kick offsets tried after a raw rotation, most preferred
/// first. The first entry is always the identity offset; the square never
/// needs kicking and has only that one.
pub open spec fn kick_table(shape: PieceShape) -> Seq<Point> {
    match shape {
        PieceShape::Square => seq![pt(0, 0)],
        PieceShape::I => seq![
            pt(0, 0),
            pt(1, 0),
            pt(-1, 0),
            pt(2, 0),
            pt(-2, 0),
            pt(0, -1),
            pt(-1, -1),
            pt(1, -1),
            pt(0, -1),
            pt(-1, -2),
            pt(1, -2),
        ],
        _ => seq![pt(0, 0), pt(1, 0), pt(-1, 0), pt(0, -1), pt(-1, -1), pt(1, -1)],
    }
}

/// Every kick offset displaces by at most two cells.
pub proof fn lemma_kick_table_bounded(shape: PieceShape)
    ensures
        forall|i: int|
            0 <= i < kick_table(shape).len() ==> point_bounded(#[trigger] kick_table(shape)[i], 2),
{
}

/// A freshly spawned piece is well formed on any board at least four cells
/// wide and four cells tall, and its coordinates are small.
pub proof fn lemma_spawn_wf(shape: PieceShape, w: int, h: int)
    requires
        4 <= w <= MAX_BOARD_DIM,
        4 <= h,
    ensures
        piece_wf(spawn_view(shape, w), w, h),
        piece_bounded(spawn_view(shape, w), COORD_LIMIT as int),
        spawn_view(shape, w).shape == shape,
        spawn_view(shape, w).color == shape_color(shape),
{
    let b = w / 2 - 1;
    assert(1 <= b && b + 1 <= w - 1);
    let pv = spawn_view(shape, w);
    match shape {
        PieceShape::L => {
            assert(pv.cells[1] == pv.center);
        },
        PieceShape::InvertedL => {
            assert(pv.cells[1] == pv.center);
        },
        PieceShape::I => {
            assert(pv.cells[2] == pv.center);
        },
        PieceShape::Z => {
            assert(pv.cells[1] == pv.center);
        },
        PieceShape::Square => {
            assert(pv.cells[0] == pv.center);
        },
        PieceShape::T => {
            assert(pv.cells[1] == pv.center);
        },
        PieceShape::InvertedZ => {
            assert(pv.cells[2] == pv.center);
        },
    }
}

/// The preview layout of a shape beside a board `w` cells wide: the same
/// cell pattern as at spawn, anchored two cells to the right of the board.
/// The preview is only drawn, never rotated, so its pivot is just the
/// anchor.
pub open spec fn display_view(shape: PieceShape, w: int) -> PieceView {
    let bx = w + 2;
    let by = 2;
    PieceView {
        cells: match shape {
            PieceShape::L => seq![pt(bx, by), pt(bx, by + 1), pt(bx, by + 2), pt(bx + 1, by + 2)],
            PieceShape::InvertedL => seq![
                pt(bx + 1, by),
                pt(bx + 1, by + 1),
                pt(bx + 1, by + 2),
                pt(bx, by + 2),
            ],
            PieceShape::I => seq![pt(bx, by), pt(bx, by + 1), pt(bx, by + 2), pt(bx, by + 3)],
            PieceShape::Z => seq![pt(bx, by), pt(bx, by + 1), pt(bx + 1, by + 1), pt(bx + 1, by + 2)],
            PieceShape::Square => seq![pt(bx, by), pt(bx, by + 1), pt(bx + 1, by + 1), pt(bx + 1, by)],
            PieceShape::T => seq![
                pt(bx + 1, by),
                pt(bx + 1, by + 1),
                pt(bx + 1, by + 2),
                pt(bx, by + 1),
            ],
            PieceShape::InvertedZ => seq![
                pt(bx + 1, by),
                pt(bx + 1, by + 1),
                pt(bx, by + 1),
                pt(bx, by + 2),
            ],
        },
        center: pt(bx, by),
        color: shape_color(shape),
        shape: shape,
    }
}

impl PieceShape {
    /// The shape at a position of the canonical ordering, if any.
    pub open spec fn shape_of_index(i: int) -> Option<PieceShape> {
        if i == 0 {
            Some(PieceShape::L)
        } else if i == 1 {
            Some(PieceShape::I)
        } else if i == 2 {
            Some(PieceShape::Z)
        } else if i == 3 {
            Some(PieceShape::Square)
        } else if i == 4 {
            Some(PieceShape::T)
        } else if i == 5 {
            Some(PieceShape::InvertedZ)
        } else if i == 6 {
            Some(PieceShape::InvertedL)
        } else {
            None
        }
    }

    /// The shape at a position of the canonical ordering; the first seven
    /// indices name the seven shapes, anything beyond names none.
    pub fn from(i: usize) -> (r: Option<PieceShape>)
        ensures
            r == Self::shape_of_index(i as int),
    {
        match i {
            0 => Some(PieceShape::L),
            1 => Some(PieceShape::I),
            2 => Some(PieceShape::Z),
            3 => Some(PieceShape::Square),
            4 => Some(PieceShape::T),
            5 => Some(PieceShape::InvertedZ),
            6 => Some(PieceShape::InvertedL),
            _ => None,
        }
    }

    /// The ordered kick offsets of this shape, most preferred first.
    pub fn get_kicks(&self) -> (r: Vec<Point>)
        ensures
            r@ == kick_table(*self),
    {
        let mut v: Vec<Point> = Vec::new();
        match self {
            PieceShape::Square => {
                v.push(Point { x: 0, y: 0 });
            },
            PieceShape::I => {
                v.push(Point { x: 0, y: 0 });
                v.push(Point { x: 1, y: 0 });
                v.push(Point { x: -1, y: 0 });
                v.push(Point { x: 2, y: 0 });
                v.push(Point { x: -2, y: 0 });
                v.push(Point { x: 0, y: -1 });
                v.push(Point { x: -1, y: -1 });
                v.push(Point { x: 1, y: -1 });
                v.push(Point { x: 0, y: -1 });
                v.push(Point { x: -1, y: -2 });
                v.push(Point { x: 1, y: -2 });
            },
            _ => {
                v.push(Point { x: 0, y: 0 });
                v.push(Point { x: 1, y: 0 });
                v.push(Point { x: -1, y: 0 });
                v.push(Point { x: 0, y: -1 });
                v.push(Point { x: -1, y: -1 });
                v.push(Point { x: 1, y: -1 });
            },
        }
        proof {
            assert(v@ =~= kick_table(*self));
        }
        v
    }
}

/// A freshly spawned piece of the given shape, horizontally centered and
/// hanging from the top row of a board `width` cells wide.
pub fn spawn_piece_above(piece_shape: PieceShape, width: i32) -> (r: Piece)
    requires
        4 <= width <= MAX_BOARD_DIM,
    ensures
        r@ == spawn_view(piece_shape, width as int),
{
    let b = width / 2 - 1;
    let mut cells: Vec<Point> = Vec::new();
    let center: Point;
    match piece_shape {
        PieceShape::L => {
            cells.push(Point { x: b, y: 0 });
            cells.push(Point { x: b, y: 1 });
            cells.push(Point { x: b, y: 2 });
            cells.push(Point { x: b + 1, y: 2 });
            center = Point { x: b, y: 1 };
        },
        PieceShape::InvertedL => {
            cells.push(Point { x: b, y: 0 });
            cells.push(Point { x: b, y: 1 });
            cells.push(Point { x: b, y: 2 });
            cells.push(Point { x: b - 1, y: 2 });
            center = Point { x: b, y: 1 };
        },
        PieceShape::I => {
            cells.push(Point { x: b, y: 0 });
            cells.push(Point { x: b, y: 1 });
            cells.push(Point { x: b, y: 2 });
            cells.push(Point { x: b, y: 3 });
            center = Point { x: b, y: 2 };
        },
        PieceShape::Z => {
            cells.push(Point { x: b, y: 0 });
            cells.push(Point { x: b, y: 1 });
            cells.push(Point { x: b + 1, y: 1 });
            cells.push(Point { x: b + 1, y: 2 });
            center = Point { x: b, y: 1 };
        },
        PieceShape::Square => {
            cells.push(Point { x: b, y: 0 });
            cells.push(Point { x: b, y: 1 });
            cells.push(Point { x: b + 1, y: 1 });
            cells.push(Point { x: b + 1, y: 0 });
            center = Point { x: b, y: 0 };
        },
        PieceShape::T => {
            cells.push(Point { x: b - 1, y: 0 });
            cells.push(Point { x: b, y: 0 });
            cells.push(Point { x: b + 1, y: 0 });
            cells.push(Point { x: b, y: 1 });
            center = Point { x: b, y: 0 };
        },
        PieceShape::InvertedZ => {
            cells.push(Point { x: b + 1, y: 0 });
            cells.push(Point { x: b + 1, y: 1 });
            cells.push(Point { x: b, y: 1 });
            cells.push(Point { x: b, y: 2 });
            center = Point { x: b, y: 1 };
        },
    }
    let color = piece_color(piece_shape);
    let r = Piece { coords: cells, center: center, color: color, piece_shape: piece_shape };
    proof {
        assert(r@.cells =~= spawn_cells(piece_shape, width as int));
        assert(r@ =~= spawn_view(piece_shape, width as int));
    }
    r
}

/// The color each shape is drawn with.
pub fn piece_color(shape: PieceShape) -> (r: Color)
    ensures
        r == shape_color(shape),
{
    match shape {
        PieceShape::L => Color { r: 255, g: 165, b: 0 },
        PieceShape::InvertedL => Color { r: 255, g: 255, b: 255 },
        PieceShape::I => Color { r: 173, g: 216, b: 230 },
        PieceShape::Z => Color { r: 0, g: 255, b: 0 },
        PieceShape::Square => Color { r: 255, g: 255, b: 102 },
        PieceShape::T => Color { r: 255, g: 20, b: 147 },
        PieceShape::InvertedZ => Color { r: 255, g: 0, b: 0 },
    }
}

/// The piece drawn in the "next piece" preview pane beside a board `width`
/// cells wide.
pub fn get_next_piece_display(piece_shape: PieceShape, width: i32) -> (r: Piece)
    requires
        0 <= width <= MAX_BOARD_DIM,
    ensures
        r@ == display_view(piece_shape, width as int),
{
    let bx = width + 2;
    let by: i32 = 2;
    let mut cells: Vec<Point> = Vec::new();
    match piece_shape {
        PieceShape::L => {
            cells.push(Point { x: bx, y: by });
            cells.push(Point { x: bx, y: by + 1 });
            cells.push(Point { x: bx, y: by + 2 });
            cells.push(Point { x: bx + 1, y: by + 2 });
        },
        PieceShape::InvertedL => {
            cells.push(Point { x: bx + 1, y: by });
            cells.push(Point { x: bx + 1, y: by + 1 });
            cells.push(Point { x: bx + 1, y: by + 2 });
            cells.push(Point { x: bx, y: by + 2 });
        },
        PieceShape::I => {
            cells.push(Point { x: bx, y: by });
            cells.push(Point { x: bx, y: by + 1 });
            cells.push(Point { x: bx, y: by + 2 });
            cells.push(Point { x: bx, y: by + 3 });
        },
        PieceShape::Z => {
            cells.push(Point { x: bx, y: by });
            cells.push(Point { x: bx, y: by + 1 });
            cells.push(Point { x: bx + 1, y: by + 1 });
            cells.push(Point { x: bx + 1, y: by + 2 });
        },
        PieceShape::Square => {
            cells.push(Point { x: bx, y: by });
            cells.push(Point { x: bx, y: by + 1 });
            cells.push(Point { x: bx + 1, y: by + 1 });
            cells.push(Point { x: bx + 1, y: by });
        },
        PieceShape::T => {
            cells.push(Point { x: bx + 1, y: by });
            cells.push(Point { x: bx + 1, y: by + 1 });
            cells.push(Point { x: bx + 1, y: by + 2 });
            cells.push(Point { x: bx, y: by + 1 });
        },
        PieceShape::InvertedZ => {
            cells.push(Point { x: bx + 1, y: by });
            cells.push(Point { x: bx + 1, y: by + 1 });
            cells.push(Point { x: bx, y: by + 1 });
            cells.push(Point { x: bx, y: by + 2 });
        },
    }
    let color = piece_color(piece_shape);
    let r = Piece {
        coords: cells,
        center: Point { x: bx, y: by },
        color: color,
        piece_shape: piece_shape,
    };
    proof {
        assert(r@.cells =~= display_view(piece_shape, width as int).cells);
        assert(r@ =~= display_view(piece_shape, width as int));
    }
    r
}

impl Piece {
    /// A fresh piece with the same geometry, color and shape.
    pub fn copied(&self) -> (r: Piece)
        ensures
            r@ == self@,
    {
        let mut cells: Vec<Point> = Vec::new();
        let mut i: usize = 0;
        while i < self.coords.len()
            invariant
                i <= self.coords@.len(),
                cells@ == self.coords@.take(i as int),
            decreases self.coords@.len() - i,
        {
            cells.push(self.coords[i]);
            proof {
                assert(cells@ =~= self.coords@.take(i + 1));
            }
            i += 1;
        }
        proof {
            assert(cells@ =~= self.coords@);
        }
        Piece { coords: cells, center: self.center, color: self.color, piece_shape: self.piece_shape }
    }

    /// The piece displaced by `(dx, dy)` cells.
    fn translated(&self, dx: i32, dy: i32) -> (r: Piece)
        requires
            piece_bounded(self@, COORD_LIMIT as int),
            -COORD_LIMIT <= dx <= COORD_LIMIT,
            -COORD_LIMIT <= dy <= COORD_LIMIT,
        ensures
            r@ == shifted_piece(self@, dx as int, dy as int),
    {
        let mut cells: Vec<Point> = Vec::new();
        let mut i: usize = 0;
        while i < self.coords.len()
            invariant
                i <= self.coords@.len(),
                cells_bounded(self.coords@, COORD_LIMIT as int),
                -COORD_LIMIT <= dx <= COORD_LIMIT,
                -COORD_LIMIT <= dy <= COORD_LIMIT,
                cells@.len() == i,
                forall|j: int|
                    0 <= j < i ==> cells@[j] == shifted_point(self.coords@[j], dx as int, dy as int),
            decreases self.coords@.len() - i,
        {
            let c = self.coords[i];
            cells.push(Point { x: c.x + dx, y: c.y + dy });
            i += 1;
        }
        let r = Piece {
            coords: cells,
            center: Point { x: self.center.x + dx, y: self.center.y + dy },
            color: self.color,
            piece_shape: self.piece_shape,
        };
        proof {
            assert(r@.cells =~= shifted_cells(self@.cells, dx as int, dy as int));
            assert(r@ =~= shifted_piece(self@, dx as int, dy as int));
        }
        r
    }

    /// The piece moved one cell in the commanded direction (or not at all
    /// for `UP` or no movement). Pure geometry: legality is the caller's
    /// business.
    pub fn make_move(&self, movement: Option<Movement>) -> (r: Piece)
        requires
            piece_bounded(self@, COORD_LIMIT as int),
        ensures
            r@ == shifted_piece(self@, delta_x(movement), delta_y(movement)),
    {
        let (dx, dy): (i32, i32) = match movement {
            Some(Movement::UP) => (0, 0),
            Some(Movement::DOWN) => (0, 1),
            Some(Movement::RIGHT) => (1, 0),
            Some(Movement::LEFT) => (-1, 0),
            None => (0, 0),
        };
        self.translated(dx, dy)
    }

    /// The piece one cell further down; gravity's step.
    pub fn step_down(&self) -> (r: Piece)
        requires
            piece_bounded(self@, COORD_LIMIT as int),
        ensures
            r@ == shifted_piece(self@, 0, 1),
    {
        self.translated(0, 1)
    }

    /// The piece displaced by a kick offset.
    pub fn kick(&self, vector: Point) -> (r: Piece)
        requires
            piece_bounded(self@, COORD_LIMIT as int),
            point_bounded(vector, COORD_LIMIT as int),
        ensures
            r@ == kicked_piece(self@, vector),
    {
        self.translated(vector.x, vector.y)
    }

    /// The piece rotated a quarter turn clockwise about its pivot (the
    /// square, symmetric about its middle, is left unchanged).
    pub fn rotate_cw(&self) -> (r: Piece)
        requires
            piece_bounded(self@, COORD_LIMIT as int),
        ensures
            r@ == rotated_piece_cw(self@),
    {
        match self.piece_shape {
            PieceShape::Square => self.copied(),
            _ => {
                let mut cells: Vec<Point> = Vec::new();
                let mut i: usize = 0;
                while i < self.coords.len()
                    invariant
                        i <= self.coords@.len(),
                        piece_bounded(self@, COORD_LIMIT as int),
                        cells@.len() == i,
                        forall|j: int|
                            0 <= j < i ==> cells@[j] == rotated_point_cw(self.coords@[j], self.center),
                    decreases self.coords@.len() - i,
                {
                    let c = self.coords[i];
                    cells.push(Point {
                        x: self.center.x + (c.y - self.center.y),
                        y: self.center.y - (c.x - self.center.x),
                    });
                    i += 1;
                }
                let r = Piece {
                    coords: cells,
                    center: self.center,
                    color: self.color,
                    piece_shape: self.piece_shape,
                };
                proof {
                    assert(r@.cells =~= rotated_piece_cw(self@).cells);
                    assert(r@ =~= rotated_piece_cw(self@));
                }
                r
            },
        }
    }

    /// The piece rotated a quarter turn counter-clockwise about its pivot.
    pub fn rotate_ccw(&self) -> (r: Piece)
        requires
            piece_bounded(self@, COORD_LIMIT as int),
        ensures
            r@ == rotated_piece_ccw(self@),
    {
        match self.piece_shape {
            PieceShape::Square => self.copied(),
            _ => {
                let mut cells: Vec<Point> = Vec::new();
                let mut i: usize = 0;
                while i < self.coords.len()
                    invariant
                        i <= self.coords@.len(),
                        piece_bounded(self@, COORD_LIMIT as int),
                        cells@.len() == i,
                        forall|j: int|
                            0 <= j < i ==> cells@[j] == rotated_point_ccw(self.coords@[j], self.center),
                    decreases self.coords@.len() - i,
                {
                    let c = self.coords[i];
                    cells.push(Point {
                        x: self.center.x - (c.y - self.center.y),
                        y: self.center.y + (c.x - self.center.x),
                    });
                    i += 1;
                }
                let r = Piece {
                    coords: cells,
                    center: self.center,
                    color: self.color,
                    piece_shape: self.piece_shape,
                };
                proof {
                    assert(r@.cells =~= rotated_piece_ccw(self@).cells);
                    assert(r@ =~= rotated_piece_ccw(self@));
                }
                r
            },
        }
    }

    /// True iff this piece occupies one of the given cells.
    pub fn intersect(&self, points: &Vec<Point>) -> (r: bool)
        ensures
            r == overlaps(self.coords@, points@),
    {
        let mut i: usize = 0;
        while i < self.coords.len()
            invariant
                i <= self.coords@.len(),
                forall|a: int, b: int|
                    0 <= a < i && 0 <= b < points@.len() ==> self.coords@[a] != points@[b],
            decreases self.coords@.len() - i,
        {
            let c = self.coords[i];
            let mut j: usize = 0;
            while j < points.len()
                invariant
                    i < self.coords@.len(),
                    j <= points@.len(),
                    c == self.coords@[i as int],
                    forall|b: int| 0 <= b < j ==> c != points@[b],
                decreases points@.len() - j,
            {
                if c == points[j] {
                    return true;
                }
                j += 1;
            }
            i += 1;
        }
        false
    }

    /// True iff some cell lies at or below the board's last row.
    pub fn hits_bottom(&self, height: i32) -> (r: bool)
        ensures
            r == out_bottom(self.coords@, height as int),
    {
        let mut i: usize = 0;
        while i < self.coords.len()
            invariant
                i <= self.coords@.len(),
                forall|j: int| 0 <= j < i ==> (#[trigger] self.coords@[j]).y < height,
            decreases self.coords@.len() - i,
        {
            if self.coords[i].y >= height {
                return true;
            }
            i += 1;
        }
        false
    }

    /// True iff some cell lies beyond the left or right wall.
    pub fn hits_sides(&self, width: i32) -> (r: bool)
        ensures
            r == out_sides(self.coords@, width as int),
    {
        let mut i: usize = 0;
        while i < self.coords.len()
            invariant
                i <= self.coords@.len(),
                forall|j: int|
                    0 <= j < i ==> 0 <= (#[trigger] self.coords@[j]).x < width,
            decreases self.coords@.len() - i,
        {
            if self.coords[i].x < 0 || self.coords[i].x >= width {
                return true;
            }
            i += 1;
        }
        false
    }

    /// True iff some cell lies above the board's first row.
    pub fn hits_top(&self) -> (r: bool)
        ensures
            r == out_top(self.coords@),
    {
        let mut i: usize = 0;
        while i < self.coords.len()
            invariant
                i <= self.coords@.len(),
                forall|j: int| 0 <= j < i ==> (#[trigger] self.coords@[j]).y >= 0,
            decreases self.coords@.len() - i,
        {
            if self.coords[i].y < 0 {
                return true;
            }
            i += 1;
        }
        false
    }
}

} // verus!
