//! Drawing a closed loop on a small grid, one step at a time, and the
//! recipe that the finished loop yields.
use crate::rotate::{RotateClockwise, RotateCounterClockwise};
use ndarray::Array2;
use vstd::array::*;
use vstd::prelude::*;

verus! {

pub const WIDTH: usize = 5;

pub const HEIGHT: usize = 5;

/// A step between neighbouring grid cells.
#[derive(Clone, Copy, Debug, PartialEq, Eq, Structural)]
pub enum Direction {
    Right,
    Up,
    Left,
    Down,
}

/// The cell one step in `d` from `index`, when it lies on the grid.
pub open spec fn spec_apply_offset(d: Direction, index: [usize; 2]) -> Option<[usize; 2]> {
    match d {
        Direction::Right => if index[0] < WIDTH - 1 {
            Some([(index[0] + 1) as usize, index[1]])
        } else {
            None
        },
        Direction::Up => if index[1] < HEIGHT - 1 {
            Some([index[0], (index[1] + 1) as usize])
        } else {
            None
        },
        Direction::Left => if index[0] > 0 {
            Some([(index[0] - 1) as usize, index[1]])
        } else {
            None
        },
        Direction::Down => if index[1] > 0 {
            Some([index[0], (index[1] - 1) as usize])
        } else {
            None
        },
    }
}

pub open spec fn spec_neg(d: Direction) -> Direction {
    match d {
        Direction::Right => Direction::Left,
        Direction::Up => Direction::Down,
        Direction::Left => Direction::Right,
        Direction::Down => Direction::Up,
    }
}

pub open spec fn spec_ccw(d: Direction) -> Direction {
    match d {
        Direction::Right => Direction::Up,
        Direction::Up => Direction::Left,
        Direction::Left => Direction::Down,
        Direction::Down => Direction::Right,
    }
}

impl Direction {
    /// The step as a change of the two grid coordinates.
    pub fn offset(self) -> (r: [isize; 2])
        ensures
            r == match self {
                Direction::Right => [1isize, 0isize],
                Direction::Up => [0isize, 1isize],
                Direction::Left => [-1isize, 0isize],
                Direction::Down => [0isize, -1isize],
            },
    {
        match self {
            Direction::Right => [1, 0],
            Direction::Up => [0, 1],
            Direction::Left => [-1, 0],
            Direction::Down => [0, -1],
        }
    }

    /// The cell one step away from `index`, or `None` off the grid.
    pub fn apply_offset(self, index: [usize; 2]) -> (r: Option<[usize; 2]>)
        ensures
            r == spec_apply_offset(self, index),
    {
        match self {
            Direction::Right => if index[0] < WIDTH - 1 {
                Some([index[0] + 1, index[1]])
            } else {
                None
            },
            Direction::Up => if index[1] < HEIGHT - 1 {
                Some([index[0], index[1] + 1])
            } else {
                None
            },
            Direction::Left => if index[0] > 0 {
                Some([index[0] - 1, index[1]])
            } else {
                None
            },
            Direction::Down => if index[1] > 0 {
                Some([index[0], index[1] - 1])
            } else {
                None
            },
        }
    }

    /// The opposite step.
    pub fn neg(self) -> (r: Direction)
        ensures
            r == spec_neg(self),
    {
        match self {
            Direction::Right => Direction::Left,
            Direction::Up => Direction::Down,
            Direction::Left => Direction::Right,
            Direction::Down => Direction::Up,
        }
    }
}

impl RotateCounterClockwise for Direction {
    open spec fn spec_rotate_counter_clockwise(&self) -> Direction {
        spec_ccw(*self)
    }

    fn rotate_counter_clockwise(&self) -> (r: Direction) {
        match self {
            Direction::Right => Direction::Up,
            Direction::Up => Direction::Left,
            Direction::Left => Direction::Down,
            Direction::Down => Direction::Right,
        }
    }
}

impl RotateClockwise for Direction {
    open spec fn spec_rotate_clockwise(&self) -> Direction {
        spec_neg(spec_ccw(*self))
    }

    fn rotate_clockwise(&self) -> (r: Direction) {
        self.rotate_counter_clockwise().neg()
    }
}

impl<T: RotateCounterClockwise> RotateCounterClockwise for Option<T> {
    open spec fn spec_rotate_counter_clockwise(&self) -> Option<T> {
        match self {
            Some(inner) => Some(inner.spec_rotate_counter_clockwise()),
            None => None,
        }
    }

    fn rotate_counter_clockwise(&self) -> (r: Option<T>) {
        match self {
            Some(inner) => Some(inner.rotate_counter_clockwise()),
            None => None,
        }
    }
}

impl<T: RotateClockwise> RotateClockwise for Option<T> {
    open spec fn spec_rotate_clockwise(&self) -> Option<T> {
        match self {
            Some(inner) => Some(inner.spec_rotate_clockwise()),
            None => None,
        }
    }

    fn rotate_clockwise(&self) -> (r: Option<T>) {
        match self {
            Some(inner) => Some(inner.rotate_clockwise()),
            None => None,
        }
    }
}

/// A rectangle of cells: `cells[x][y]`, `rows` by `columns`.
pub struct Cells {
    pub cells: Seq<Seq<Option<Direction>>>,
    pub rows: nat,
    pub columns: nat,
}

/// The cells are a `rows` by `columns` rectangle.
pub open spec fn is_rectangle(c: Cells) -> bool {
    &&& c.cells.len() == c.rows
    &&& forall|x: int| 0 <= x < c.rows ==> (#[trigger] c.cells[x]).len() == c.columns
}

/// The cells form a rectangle of the given numbers of rows and columns.
pub open spec fn has_shape(c: Cells, shape: (usize, usize)) -> bool {
    &&& c.rows == shape.0
    &&& c.columns == shape.1
    &&& c.rows <= isize::MAX
    &&& c.columns <= isize::MAX
    &&& c.rows * c.columns <= isize::MAX
    &&& is_rectangle(c)
}

/// The two rectangles have the same shape and the same cells.
pub open spec fn same_cells(a: Cells, b: Cells) -> bool {
    &&& a.rows == b.rows
    &&& a.columns == b.columns
    &&& forall|x: int, y: int|
        0 <= x < a.rows && 0 <= y < a.columns ==> #[trigger] a.cells[x][y] == b.cells[x][y]
}

/// The rectangle turned a quarter clockwise: `columns` by `rows`, cell
/// `[x][y]` taken from `[y][columns - 1 - x]` and turned itself.
pub open spec fn turned_back(c: Cells) -> Cells {
    Cells {
        cells: Seq::new(
            c.columns,
            |x: int| Seq::new(c.rows, |y: int| c.cells[y][c.columns - 1 - x].spec_rotate_clockwise()),
        ),
        rows: c.columns,
        columns: c.rows,
    }
}

/// The rectangle turned a quarter counter-clockwise: `columns` by `rows`,
/// cell `[x][y]` taken from `[rows - 1 - y][x]` and turned itself.
pub open spec fn turned(c: Cells) -> Cells {
    Cells {
        cells: Seq::new(
            c.columns,
            |x: int|
                Seq::new(
                    c.rows,
                    |y: int| c.cells[c.rows - 1 - y][x].spec_rotate_counter_clockwise(),
                ),
        ),
        rows: c.columns,
        columns: c.rows,
    }
}

/// The loop that a recipe was made from, cut to the cells it covers.
#[verifier::external_body]
pub struct Recipe {
    contents: Array2<Option<Direction>>,
}

/// The cells of a recipe, with its shape.
pub uninterp spec fn recipe_cells(r: Recipe) -> Cells;

/// Relies on ArrayBase's Clone: an array with the same shape and cells.
#[verifier::external_body]
fn recipe_clone(r: &Recipe) -> (c: Recipe)
    ensures
        recipe_cells(c) == recipe_cells(*r),
{
    Recipe { contents: r.contents.clone() }
}

/// Relies on Array2::from_elem: a `rows` by `columns` array of empty
/// cells; it panics when an axis length or the product of the non-zero axis
/// lengths overflows `isize`.
#[verifier::external_body]
fn recipe_empty(rows: usize, columns: usize) -> (r: Recipe)
    requires
        rows <= isize::MAX,
        columns <= isize::MAX,
        rows * columns <= isize::MAX,
    ensures
        recipe_cells(r) == (Cells {
            cells: Seq::new(rows as nat, |x: int| Seq::new(columns as nat, |y: int| None::<Direction>)),
            rows: rows as nat,
            columns: columns as nat,
        }),
{
    Recipe { contents: Array2::from_elem([rows, columns], None) }
}

/// Relies on ArrayBase::dim: the numbers of rows and columns, which every
/// row has; no array exists whose axis lengths or non-zero axis product
/// overflow `isize`.
#[verifier::external_body]
fn recipe_shape(r: &Recipe) -> (shape: (usize, usize))
    ensures
        has_shape(recipe_cells(*r), shape),
{
    r.contents.dim()
}

/// Relies on Array2's Index: the cell at `[x, y]`, which must lie in the
/// array.
#[verifier::external_body]
fn recipe_get(r: &Recipe, x: usize, y: usize) -> (c: Option<Direction>)
    requires
        x < recipe_cells(*r).rows,
        y < recipe_cells(*r).columns,
    ensures
        c == recipe_cells(*r).cells[x as int][y as int],
{
    r.contents[[x, y]]
}

/// Relies on Array2's IndexMut: sets the cell at `[x, y]`, which must lie in
/// the array.
#[verifier::external_body]
fn recipe_set(r: &mut Recipe, x: usize, y: usize, c: Option<Direction>)
    requires
        x < recipe_cells(*old(r)).rows,
        y < recipe_cells(*old(r)).columns,
    ensures
        recipe_cells(*final(r)) == (Cells {
            cells: recipe_cells(*old(r)).cells.update(
                x as int,
                recipe_cells(*old(r)).cells[x as int].update(y as int, c),
            ),
            ..recipe_cells(*old(r))
        }),
{
    r.contents[[x, y]] = c;
}

impl Recipe {
    /// Whether the two recipes have the same shape and cells.
    fn same_contents(&self, other: &Recipe) -> (r: bool)
        ensures
            r == same_cells(recipe_cells(*self), recipe_cells(*other)),
    {
        let (rows, columns) = recipe_shape(self);
        let (other_rows, other_columns) = recipe_shape(other);
        if rows != other_rows || columns != other_columns {
            return false;
        }
        let mut x: usize = 0;
        while x < rows
            invariant
                has_shape(recipe_cells(*self), (rows, columns)),
                has_shape(recipe_cells(*other), (rows, columns)),
                x <= rows,
                forall|i: int, j: int|
                    0 <= i < x && 0 <= j < columns ==> #[trigger] recipe_cells(*self).cells[i][j]
                        == recipe_cells(*other).cells[i][j],
            decreases rows - x,
        {
            let mut y: usize = 0;
            while y < columns
                invariant
                    has_shape(recipe_cells(*self), (rows, columns)),
                    has_shape(recipe_cells(*other), (rows, columns)),
                    x < rows,
                    y <= columns,
                    forall|i: int, j: int|
                        0 <= i < x && 0 <= j < columns ==> #[trigger] recipe_cells(*self).cells[i][j]
                            == recipe_cells(*other).cells[i][j],
                    forall|j: int|
                        0 <= j < y ==> #[trigger] recipe_cells(*self).cells[x as int][j] == recipe_cells(
                            *other,
                        ).cells[x as int][j],
                decreases columns - y,
            {
                if recipe_get(self, x, y) != recipe_get(other, x, y) {
                    return false;
                }
                y = y + 1;
            }
            x = x + 1;
        }
        true
    }

    /// Whether the two recipes have the same numbers of rows and columns.
    pub fn same_shape_as(&self, other: &Recipe) -> (r: bool)
        ensures
            r == (recipe_cells(*self).rows == recipe_cells(*other).rows && recipe_cells(*self).columns
                == recipe_cells(*other).columns),
    {
        let (rows, columns) = recipe_shape(self);
        let (other_rows, other_columns) = recipe_shape(other);
        rows == other_rows && columns == other_columns
    }

    /// Equal as drawn, or after turning `other` by one, two or three
    /// quarters counter-clockwise.
    pub fn eq(&self, other: &Recipe) -> (r: bool)
        ensures
            r == (same_cells(recipe_cells(*self), recipe_cells(*other)) || same_cells(
                recipe_cells(*self),
                turned(recipe_cells(*other)),
            ) || same_cells(recipe_cells(*self), turned(turned(recipe_cells(*other))))
                || same_cells(recipe_cells(*self), turned(turned(turned(recipe_cells(*other)))))),
    {
        if self.same_contents(other) {
            return true;
        }
        let once = other.rotate_counter_clockwise();
        proof {
            lemma_same_cells_right(recipe_cells(*self), recipe_cells(once), turned(recipe_cells(*other)));
        }
        if self.same_contents(&once) {
            return true;
        }
        let twice = once.rotate_counter_clockwise();
        proof {
            lemma_turned_same(recipe_cells(once), turned(recipe_cells(*other)));
            lemma_same_cells_trans(recipe_cells(twice), turned(recipe_cells(once)), turned(turned(recipe_cells(*other))));
            lemma_same_cells_right(recipe_cells(*self), recipe_cells(twice), turned(turned(recipe_cells(*other))));
        }
        if self.same_contents(&twice) {
            return true;
        }
        let thrice = twice.rotate_counter_clockwise();
        proof {
            lemma_turned_same(recipe_cells(twice), turned(turned(recipe_cells(*other))));
            lemma_same_cells_trans(
                recipe_cells(thrice),
                turned(recipe_cells(twice)),
                turned(turned(turned(recipe_cells(*other)))),
            );
            lemma_same_cells_right(recipe_cells(*self), recipe_cells(thrice), turned(turned(turned(recipe_cells(*other)))));
        }
        self.same_contents(&thrice)
    }

    pub fn rotate_counter_clockwise(&self) -> (r: Recipe)
        ensures
            same_cells(recipe_cells(r), turned(recipe_cells(*self))),
            is_rectangle(recipe_cells(r)),
            recipe_cells(r).rows * recipe_cells(r).columns <= isize::MAX,
    {
        let (rows, columns) = recipe_shape(self);
        proof {
            vstd::arithmetic::mul::lemma_mul_is_commutative(rows as int, columns as int);
        }
        let mut turned_recipe = recipe_empty(columns, rows);
        let mut x: usize = 0;
        while x < columns
            invariant
                has_shape(recipe_cells(*self), (rows, columns)),
                has_shape(recipe_cells(turned_recipe), (columns, rows)),
                x <= columns,
                forall|i: int, j: int|
                    0 <= i < x && 0 <= j < rows ==> #[trigger] recipe_cells(turned_recipe).cells[i][j]
                        == turned(recipe_cells(*self)).cells[i][j],
            decreases columns - x,
        {
            let mut y: usize = 0;
            while y < rows
                invariant
                    has_shape(recipe_cells(*self), (rows, columns)),
                    has_shape(recipe_cells(turned_recipe), (columns, rows)),
                    x < columns,
                    y <= rows,
                    forall|i: int, j: int|
                        0 <= i < x && 0 <= j < rows ==> #[trigger] recipe_cells(turned_recipe).cells[i][j]
                            == turned(recipe_cells(*self)).cells[i][j],
                    forall|j: int|
                        0 <= j < y ==> #[trigger] recipe_cells(turned_recipe).cells[x as int][j] == turned(
                            recipe_cells(*self),
                        ).cells[x as int][j],
                decreases rows - y,
            {
                let cell = recipe_get(self, rows - 1 - y, x);
                let ghost before = recipe_cells(turned_recipe);
                recipe_set(&mut turned_recipe, x, y, cell.rotate_counter_clockwise());
                proof {
                    assert forall|i: int| 0 <= i < columns implies (#[trigger] recipe_cells(turned_recipe).cells[i]).len() == rows by {
                        assert(before.cells[i].len() == rows);
                    }
                    assert forall|i: int, j: int|
                        0 <= i < x && 0 <= j < rows implies #[trigger] recipe_cells(turned_recipe).cells[i][j]
                            == turned(recipe_cells(*self)).cells[i][j] by {
                        assert(before.cells[i][j] == turned(recipe_cells(*self)).cells[i][j]);
                    }
                    assert forall|j: int|
                        0 <= j < y + 1 implies #[trigger] recipe_cells(turned_recipe).cells[x as int][j] == turned(
                            recipe_cells(*self),
                        ).cells[x as int][j] by {
                        if j < y {
                            assert(before.cells[x as int][j] == turned(recipe_cells(*self)).cells[x as int][j]);
                        }
                    }
                }
                y = y + 1;
            }
            x = x + 1;
        }
        turned_recipe
    }

    pub fn rotate_clockwise(&self) -> (r: Recipe)
        ensures
            same_cells(recipe_cells(r), turned_back(recipe_cells(*self))),
    {
        let (rows, columns) = recipe_shape(self);
        proof {
            vstd::arithmetic::mul::lemma_mul_is_commutative(rows as int, columns as int);
        }
        let mut turned_recipe = recipe_empty(columns, rows);
        let mut x: usize = 0;
        while x < columns
            invariant
                has_shape(recipe_cells(*self), (rows, columns)),
                has_shape(recipe_cells(turned_recipe), (columns, rows)),
                x <= columns,
                forall|i: int, j: int|
                    0 <= i < x && 0 <= j < rows ==> #[trigger] recipe_cells(turned_recipe).cells[i][j]
                        == turned_back(recipe_cells(*self)).cells[i][j],
            decreases columns - x,
        {
            let mut y: usize = 0;
            while y < rows
                invariant
                    has_shape(recipe_cells(*self), (rows, columns)),
                    has_shape(recipe_cells(turned_recipe), (columns, rows)),
                    x < columns,
                    y <= rows,
                    forall|i: int, j: int|
                        0 <= i < x && 0 <= j < rows ==> #[trigger] recipe_cells(turned_recipe).cells[i][j]
                            == turned_back(recipe_cells(*self)).cells[i][j],
                    forall|j: int|
                        0 <= j < y ==> #[trigger] recipe_cells(turned_recipe).cells[x as int][j]
                            == turned_back(recipe_cells(*self)).cells[x as int][j],
                decreases rows - y,
            {
                let cell = recipe_get(self, y, columns - 1 - x);
                let ghost before = recipe_cells(turned_recipe);
                recipe_set(&mut turned_recipe, x, y, cell.rotate_clockwise());
                proof {
                    assert forall|i: int| 0 <= i < columns implies (#[trigger] recipe_cells(turned_recipe).cells[i]).len() == rows by {
                        assert(before.cells[i].len() == rows);
                    }
                    assert forall|i: int, j: int|
                        0 <= i < x && 0 <= j < rows implies #[trigger] recipe_cells(turned_recipe).cells[i][j]
                            == turned_back(recipe_cells(*self)).cells[i][j] by {
                        assert(before.cells[i][j] == turned_back(recipe_cells(*self)).cells[i][j]);
                    }
                    assert forall|j: int|
                        0 <= j < y + 1 implies #[trigger] recipe_cells(turned_recipe).cells[x as int][j]
                            == turned_back(recipe_cells(*self)).cells[x as int][j] by {
                        if j < y {
                            assert(before.cells[x as int][j] == turned_back(recipe_cells(*self)).cells[x as int][j]);
                        }
                    }
                }
                y = y + 1;
            }
            x = x + 1;
        }
        turned_recipe
    }
}

pub proof fn lemma_same_cells_trans(a: Cells, b: Cells, c: Cells)
    requires
        same_cells(a, b),
        same_cells(b, c),
    ensures
        same_cells(a, c),
{
    assert forall|x: int, y: int| 0 <= x < a.rows && 0 <= y < a.columns implies #[trigger] a.cells[x][y] == c.cells[x][y] by {
        assert(a.cells[x][y] == b.cells[x][y]);
    }
}

pub proof fn lemma_same_cells_right(a: Cells, b: Cells, c: Cells)
    requires
        same_cells(b, c),
    ensures
        same_cells(a, b) == same_cells(a, c),
{
    if same_cells(a, b) {
        lemma_same_cells_trans(a, b, c);
    }
    if same_cells(a, c) {
        assert forall|x: int, y: int| 0 <= x < a.rows && 0 <= y < a.columns implies #[trigger] a.cells[x][y] == b.cells[x][y] by {
            assert(b.cells[x][y] == c.cells[x][y]);
        }
    }
}

pub proof fn lemma_turned_same(a: Cells, b: Cells)
    requires
        same_cells(a, b),
    ensures
        same_cells(turned(a), turned(b)),
{
    assert forall|x: int, y: int|
        0 <= x < turned(a).rows && 0 <= y < turned(a).columns implies #[trigger] turned(a).cells[x][y]
            == turned(b).cells[x][y] by {
        assert(a.cells[a.rows - 1 - y][x] == b.cells[b.rows - 1 - y][x]);
    }
}

/// The grid: `WIDTH` columns of `HEIGHT` cells, each holding the step that
/// leaves it, if the loop passes through it.
pub type Grid = [[Option<Direction>; HEIGHT]; WIDTH];

pub open spec fn grid_cell(g: Grid, x: int, y: int) -> Option<Direction> {
    g@[x]@[y]
}

pub open spec fn on_grid(index: [usize; 2]) -> bool {
    index[0] < WIDTH && index[1] < HEIGHT
}

/// `c` is the part of grid `g` from `[x0, y0]` on: every filled cell of the
/// grid lies in it, each of its four borders holds a filled cell, and its
/// cells are the grid's.
pub open spec fn cut_at(g: Grid, c: Cells, x0: int, y0: int) -> bool {
    &&& c.rows >= 1 && c.columns >= 1
    &&& 0 <= x0 && x0 + c.rows <= WIDTH
    &&& 0 <= y0 && y0 + c.columns <= HEIGHT
    &&& forall|x: int, y: int|
        0 <= x < WIDTH && 0 <= y < HEIGHT && (#[trigger] grid_cell(g, x, y)).is_some() ==> x0 <= x < x0
            + c.rows && y0 <= y < y0 + c.columns
    &&& exists|y: int| 0 <= y < HEIGHT && (#[trigger] grid_cell(g, x0, y)).is_some()
    &&& exists|y: int| 0 <= y < HEIGHT && (#[trigger] grid_cell(g, x0 + c.rows - 1, y)).is_some()
    &&& exists|x: int| 0 <= x < WIDTH && (#[trigger] grid_cell(g, x, y0)).is_some()
    &&& exists|x: int| 0 <= x < WIDTH && (#[trigger] grid_cell(g, x, y0 + c.columns - 1)).is_some()
    &&& forall|i: int, j: int|
        0 <= i < c.rows && 0 <= j < c.columns ==> #[trigger] c.cells[i][j] == grid_cell(g, x0 + i, y0 + j)
}

pub open spec fn is_cut_of(g: Grid, c: Cells) -> bool {
    exists|x0: int, y0: int| cut_at(g, c, x0, y0)
}

pub open spec fn has_filled_cell(g: Grid) -> bool {
    exists|x: int, y: int| 0 <= x < WIDTH && 0 <= y < HEIGHT && (#[trigger] grid_cell(g, x, y)).is_some()
}

/// A loop being drawn: the grid, where it started, where it is now, and
/// the recipe once it is closed.
pub struct LoopCrafting {
    pub points: Grid,
    pub start: Option<[usize; 2]>,
    pub end: Option<[usize; 2]>,
    pub recipe: Option<Recipe>,
}

/// The direction, tried in the order right, up, left, down, whose step
/// from `end` reaches `index`.
pub open spec fn spec_step_direction(end: [usize; 2], index: [usize; 2]) -> Option<Direction> {
    if spec_apply_offset(Direction::Right, end) == Some(index) {
        Some(Direction::Right)
    } else if spec_apply_offset(Direction::Up, end) == Some(index) {
        Some(Direction::Up)
    } else if spec_apply_offset(Direction::Left, end) == Some(index) {
        Some(Direction::Left)
    } else if spec_apply_offset(Direction::Down, end) == Some(index) {
        Some(Direction::Down)
    } else {
        None
    }
}

/// `g1` is `g0` with cell `p` set to `v`.
pub open spec fn grid_written(g0: Grid, g1: Grid, p: [usize; 2], v: Option<Direction>) -> bool {
    forall|x: int, y: int|
        0 <= x < WIDTH && 0 <= y < HEIGHT ==> #[trigger] grid_cell(g1, x, y) == if x == p[0] && y
            == p[1] {
            v
        } else {
            grid_cell(g0, x, y)
        }
}

pub open spec fn same_grid(g0: Grid, g1: Grid) -> bool {
    forall|x: int, y: int|
        0 <= x < WIDTH && 0 <= y < HEIGHT ==> #[trigger] grid_cell(g1, x, y) == grid_cell(g0, x, y)
}

/// Whether `a` is the cell `b`.
fn is_cell(a: Option<[usize; 2]>, b: [usize; 2]) -> (r: bool)
    ensures
        r == (a == Some(b)),
{
    match a {
        Some(a) => {
            let r = a[0] == b[0] && a[1] == b[1];
            proof {
                if r {
                    assert(a =~= b);
                }
            }
            r
        },
        None => false,
    }
}

fn step_direction(end: [usize; 2], index: [usize; 2]) -> (r: Option<Direction>)
    ensures
        r == spec_step_direction(end, index),
{
    if is_cell(Direction::Right.apply_offset(end), index) {
        Some(Direction::Right)
    } else if is_cell(Direction::Up.apply_offset(end), index) {
        Some(Direction::Up)
    } else if is_cell(Direction::Left.apply_offset(end), index) {
        Some(Direction::Left)
    } else if is_cell(Direction::Down.apply_offset(end), index) {
        Some(Direction::Down)
    } else {
        None
    }
}

fn column_with(column: [Option<Direction>; HEIGHT], y: usize, value: Option<Direction>) -> (r: [Option<Direction>; HEIGHT])
    requires
        y < HEIGHT,
    ensures
        r@ == column@.update(y as int, value),
{
    let mut column = column;
    column.set(y, value);
    column
}

impl Recipe {
    /// The recipe of a closed loop: the stored one when there is one,
    /// else the smallest part of the grid that holds every filled cell.
    pub fn from(crafting: &LoopCrafting) -> (r: Recipe)
        requires
            crafting.recipe.is_some() || has_filled_cell(crafting.points),
        ensures
            crafting.recipe.is_some() ==> recipe_cells(r) == recipe_cells(crafting.recipe.unwrap()),
            crafting.recipe.is_none() ==> is_cut_of(crafting.points, recipe_cells(r)),
    {
        match &crafting.recipe {
            Some(recipe) => {
                return recipe_clone(recipe);
            },
            None => {},
        }
        let g = &crafting.points;
        let mut min_x: usize = WIDTH;
        let mut min_y: usize = HEIGHT;
        let mut max_x: usize = 0;
        let mut max_y: usize = 0;
        let mut found = false;
        let ghost mut wmin_x: int = 0;
        let ghost mut wmax_x: int = 0;
        let ghost mut wmin_y: int = 0;
        let ghost mut wmax_y: int = 0;
        let mut x: usize = 0;
        while x < WIDTH
            invariant
                x <= WIDTH,
                found ==> min_x <= max_x < WIDTH && min_y <= max_y < HEIGHT,
                found ==> 0 <= wmin_y < HEIGHT && grid_cell(*g, min_x as int, wmin_y).is_some(),
                found ==> 0 <= wmax_y < HEIGHT && grid_cell(*g, max_x as int, wmax_y).is_some(),
                found ==> 0 <= wmin_x < WIDTH && grid_cell(*g, wmin_x, min_y as int).is_some(),
                found ==> 0 <= wmax_x < WIDTH && grid_cell(*g, wmax_x, max_y as int).is_some(),
                found <==> exists|i: int, j: int| 0 <= i < x && 0 <= j < HEIGHT && (#[trigger] grid_cell(*g, i, j)).is_some(),
                forall|i: int, j: int|
                    0 <= i < x && 0 <= j < HEIGHT && (#[trigger] grid_cell(*g, i, j)).is_some() ==> min_x <= i <= max_x
                        && min_y <= j <= max_y,
            decreases WIDTH - x,
        {
            let mut y: usize = 0;
            while y < HEIGHT
                invariant
                    x < WIDTH,
                    y <= HEIGHT,
                    found ==> min_x <= max_x < WIDTH && min_y <= max_y < HEIGHT,
                    found ==> 0 <= wmin_y < HEIGHT && grid_cell(*g, min_x as int, wmin_y).is_some(),
                    found ==> 0 <= wmax_y < HEIGHT && grid_cell(*g, max_x as int, wmax_y).is_some(),
                    found ==> 0 <= wmin_x < WIDTH && grid_cell(*g, wmin_x, min_y as int).is_some(),
                    found ==> 0 <= wmax_x < WIDTH && grid_cell(*g, wmax_x, max_y as int).is_some(),
                    found <==> exists|i: int, j: int|
                        ((0 <= i < x && 0 <= j < HEIGHT) || (i == x && 0 <= j < y)) && (#[trigger] grid_cell(
                            *g,
                            i,
                            j,
                        )).is_some(),
                    forall|i: int, j: int|
                        ((0 <= i < x && 0 <= j < HEIGHT) || (i == x && 0 <= j < y)) && (#[trigger] grid_cell(
                            *g,
                            i,
                            j,
                        )).is_some() ==> min_x <= i <= max_x && min_y <= j <= max_y,
                decreases HEIGHT - y,
            {
                if g[x][y].is_some() {
                    proof {
                        assert(grid_cell(*g, x as int, y as int).is_some());
                    }
                    if !found || x < min_x {
                        min_x = x;
                        proof { wmin_y = y as int; }
                    }
                    if !found || y < min_y {
                        min_y = y;
                        proof { wmin_x = x as int; }
                    }
                    if !found || x > max_x {
                        max_x = x;
                        proof { wmax_y = y as int; }
                    }
                    if !found || y > max_y {
                        max_y = y;
                        proof { wmax_x = x as int; }
                    }
                    found = true;
                }
                y = y + 1;
            }
            proof {
                assert forall|i: int, j: int|
                    ((0 <= i < x + 1 && 0 <= j < HEIGHT)) && (#[trigger] grid_cell(*g, i, j)).is_some() implies ((0 <= i < x && 0 <= j < HEIGHT) || (i == x && 0 <= j < HEIGHT)) by {}
            }
            x = x + 1;
        }
        proof {
            let (wx, wy) = choose|i: int, j: int|
                0 <= i < WIDTH && 0 <= j < HEIGHT && (#[trigger] grid_cell(*g, i, j)).is_some();
            assert(grid_cell(*g, wx, wy).is_some());
        }
        let rows = max_x - min_x + 1;
        let columns = max_y - min_y + 1;
        proof {
            assert(rows * columns <= 25) by (nonlinear_arith)
                requires
                    rows <= 5,
                    columns <= 5,
            ;
        }
        let mut contents = recipe_empty(rows, columns);
        let mut i: usize = 0;
        while i < rows
            invariant
                found,
                min_x <= max_x < WIDTH,
                min_y <= max_y < HEIGHT,
                rows == max_x - min_x + 1,
                columns == max_y - min_y + 1,
                i <= rows,
                recipe_cells(contents).rows == rows,
                recipe_cells(contents).columns == columns,
                is_rectangle(recipe_cells(contents)),
                forall|a: int, b: int|
                    0 <= a < i && 0 <= b < columns ==> #[trigger] recipe_cells(contents).cells[a][b]
                        == grid_cell(*g, min_x + a, min_y + b),
            decreases rows - i,
        {
            let mut j: usize = 0;
            while j < columns
                invariant
                    found,
                    min_x <= max_x < WIDTH,
                    min_y <= max_y < HEIGHT,
                    rows == max_x - min_x + 1,
                    columns == max_y - min_y + 1,
                    i < rows,
                    j <= columns,
                    recipe_cells(contents).rows == rows,
                    recipe_cells(contents).columns == columns,
                    is_rectangle(recipe_cells(contents)),
                    forall|a: int, b: int|
                        0 <= a < i && 0 <= b < columns ==> #[trigger] recipe_cells(contents).cells[a][b]
                            == grid_cell(*g, min_x + a, min_y + b),
                    forall|b: int|
                        0 <= b < j ==> #[trigger] recipe_cells(contents).cells[i as int][b] == grid_cell(
                            *g,
                            min_x + i,
                            min_y + b,
                        ),
                decreases columns - j,
            {
                let ghost before = recipe_cells(contents);
                recipe_set(&mut contents, i, j, g[min_x + i][min_y + j]);
                proof {
                    assert forall|a: int| 0 <= a < rows implies (#[trigger] recipe_cells(contents).cells[a]).len() == columns by {
                        assert(before.cells[a].len() == columns);
                    }
                    assert forall|a: int, b: int|
                        0 <= a < i && 0 <= b < columns implies #[trigger] recipe_cells(contents).cells[a][b]
                            == grid_cell(*g, min_x + a, min_y + b) by {
                        assert(before.cells[a][b] == grid_cell(*g, min_x + a, min_y + b));
                    }
                    assert forall|b: int| 0 <= b < j + 1 implies #[trigger] recipe_cells(contents).cells[i as int][b]
                        == grid_cell(*g, min_x + i, min_y + b) by {
                        if b < j {
                            assert(before.cells[i as int][b] == grid_cell(*g, min_x + i, min_y + b));
                        }
                    }
                }
                j = j + 1;
            }
            i = i + 1;
        }
        proof {
            let c = recipe_cells(contents);
            assert(cut_at(*g, c, min_x as int, min_y as int));
        }
        contents
    }
}

impl LoopCrafting {
    /// The start and the end, when set, lie on the grid.
    pub open spec fn wf(&self) -> bool {
        &&& self.start.is_some() ==> on_grid(self.start.unwrap())
        &&& self.end.is_some() ==> on_grid(self.end.unwrap())
    }

    /// An empty grid with no loop started.
    pub fn new() -> (r: LoopCrafting)
        ensures
            r.wf(),
            forall|x: int, y: int| 0 <= x < WIDTH && 0 <= y < HEIGHT ==> #[trigger] grid_cell(r.points, x, y).is_none(),
            r.start.is_none(),
            r.end.is_none(),
            r.recipe.is_none(),
    {
        let column: [Option<Direction>; HEIGHT] = [None, None, None, None, None];
        LoopCrafting {
            points: [column, column, column, column, column],
            start: None,
            end: None,
            recipe: None,
        }
    }

    /// Empties the grid and forgets the loop and its recipe.
    pub fn clear(&mut self)
        ensures
            final(self).wf(),
            forall|x: int, y: int| 0 <= x < WIDTH && 0 <= y < HEIGHT ==> #[trigger] grid_cell(final(self).points, x, y).is_none(),
            final(self).start.is_none(),
            final(self).end.is_none(),
            final(self).recipe.is_none(),
    {
        *self = LoopCrafting::new();
    }

    /// The cell at `index`.
    pub fn cell(&self, index: [usize; 2]) -> (r: Option<Direction>)
        requires
            on_grid(index),
        ensures
            r == grid_cell(self.points, index[0] as int, index[1] as int),
    {
        self.points[index[0]][index[1]]
    }

    /// Sets the cell at `index`.
    pub fn set_cell(&mut self, index: [usize; 2], value: Option<Direction>)
        requires
            on_grid(index),
        ensures
            grid_written(old(self).points, final(self).points, index, value),
            final(self).start == old(self).start,
            final(self).end == old(self).end,
            final(self).recipe == old(self).recipe,
    {
        let column = column_with(self.points[index[0]], index[1], value);
        self.points.set(index[0], column);
    }

    /// Moves the end of the loop to cell `index` when that cell neighbours
    /// it: onto a free cell the loop grows, and back onto the cell it came
    /// from it shrinks. The first cell tracked starts the loop. Once the
    /// end is back at the start, the loop is closed and its recipe is made.
    /// Nothing changes once a recipe exists or for a cell off the grid.
    pub fn track_index(&mut self, index: [usize; 2])
        requires
            old(self).wf(),
        ensures
            final(self).wf(),
            old(self).recipe.is_some() || !on_grid(index) ==> *final(self) == *old(self),
            old(self).recipe.is_none() && on_grid(index) && (old(self).start.is_none()
                || old(self).end.is_none()) ==> {
                &&& final(self).start == Some(index)
                &&& final(self).end == Some(index)
                &&& final(self).points == old(self).points
                &&& final(self).recipe.is_none()
            },
            old(self).recipe.is_none() && on_grid(index) && old(self).start.is_some()
                && old(self).end.is_some() ==> {
                &&& final(self).start == old(self).start
                &&& match spec_step_direction(old(self).end.unwrap(), index) {
                    None => same_grid(old(self).points, final(self).points) && final(self).end
                        == old(self).end,
                    Some(d) => match grid_cell(old(self).points, index[0] as int, index[1] as int) {
                        Some(r) => if r == spec_neg(d) {
                            grid_written(old(self).points, final(self).points, index, None)
                                && final(self).end == Some(index)
                        } else {
                            same_grid(old(self).points, final(self).points) && final(self).end
                                == old(self).end
                        },
                        None => grid_written(
                            old(self).points,
                            final(self).points,
                            old(self).end.unwrap(),
                            Some(d),
                        ) && final(self).end == Some(index),
                    },
                }
                &&& final(self).recipe.is_some() == (final(self).start == final(self).end && grid_cell(
                    final(self).points,
                    final(self).start.unwrap()[0] as int,
                    final(self).start.unwrap()[1] as int,
                ).is_some())
                &&& final(self).recipe.is_some() ==> is_cut_of(
                    final(self).points,
                    recipe_cells(final(self).recipe.unwrap()),
                )
            },
    {
        if self.recipe.is_some() || index[0] >= WIDTH || index[1] >= HEIGHT {
            return;
        }
        match (self.start, self.end) {
            (Some(start), Some(end)) => {
                match step_direction(end, index) {
                    Some(direction) => {
                        match self.cell(index) {
                            Some(replaced) => {
                                if replaced == direction.neg() {
                                    self.set_cell(index, None);
                                    self.end = Some(index);
                                }
                            },
                            None => {
                                self.set_cell(end, Some(direction));
                                self.end = Some(index);
                            },
                        }
                    },
                    None => {},
                }
                let closed = match self.end {
                    Some(now) => is_cell(Some(start), now),
                    None => false,
                };
                if closed && self.cell(start).is_some() {
                    proof {
                        assert(grid_cell(self.points, start[0] as int, start[1] as int).is_some());
                        assert(has_filled_cell(self.points));
                    }
                    let recipe = Recipe::from(self);
                    self.recipe = Some(recipe);
                }
            },
            _ => {
                self.start = Some(index);
                self.end = Some(index);
            },
        }
    }
}

} // verus!
