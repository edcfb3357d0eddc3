//! Cells of a `width` by `height` grid, addressed by their row-major index,
//! and the four steps between them on a torus or a bounded board.

use vstd::prelude::*;

verus! {

/// Row-major index of the cell in column `x` and row `y`.
pub open spec fn cell_at(width: int, x: int, y: int) -> int {
    y * width + x
}

/// Column of a cell index.
pub open spec fn col(width: int, c: int) -> int {
    c % width
}

/// Row of a cell index.
pub open spec fn row(width: int, c: int) -> int {
    c / width
}

/// The cell one step from `c` in direction `d` (0 left, 1 right, 2 up,
/// 3 down), or `None` where a bounded board ends.
pub open spec fn step(width: int, height: int, wrap: bool, c: int, d: int) -> Option<int> {
    let x = col(width, c);
    let y = row(width, c);
    if d == 0 {
        if x > 0 {
            Some(cell_at(width, x - 1, y))
        } else if wrap {
            Some(cell_at(width, width - 1, y))
        } else {
            None
        }
    } else if d == 1 {
        if x + 1 < width {
            Some(cell_at(width, x + 1, y))
        } else if wrap {
            Some(cell_at(width, 0, y))
        } else {
            None
        }
    } else if d == 2 {
        if y > 0 {
            Some(cell_at(width, x, y - 1))
        } else if wrap {
            Some(cell_at(width, x, height - 1))
        } else {
            None
        }
    } else {
        if y + 1 < height {
            Some(cell_at(width, x, y + 1))
        } else if wrap {
            Some(cell_at(width, x, 0))
        } else {
            None
        }
    }
}

/// Two cells share an edge under the board's wrap rule.
pub open spec fn adjacent(width: int, height: int, wrap: bool, a: int, b: int) -> bool {
    exists|d: int| 0 <= d < 4 && #[trigger] step(width, height, wrap, a, d) == Some(b)
}

/// The wall grids have the shape that the wrap mode asks for: `height` rows
/// of `width` (torus) or `width - 1` (bounded) vertical walls, and `height`
/// (torus) or `height - 1` (bounded) rows of `width` horizontal walls.
pub open spec fn walls_shaped(
    width: int,
    height: int,
    wrap: bool,
    vertical: Seq<Seq<bool>>,
    horizontal: Seq<Seq<bool>>,
) -> bool {
    &&& vertical.len() == height
    &&& forall|y: int| 0 <= y < height ==> #[trigger] vertical[y].len() == if wrap { width } else { width - 1 }
    &&& horizontal.len() == if wrap { height } else { height - 1 }
    &&& forall|y: int| 0 <= y < horizontal.len() ==> #[trigger] horizontal[y].len() == width
}

/// The edge that a step from `c` in direction `d` crosses has no wall. A
/// vertical wall at `(x, y)` closes the edge between `(x, y)` and the cell to
/// its right; a horizontal one the edge between `(x, y)` and the cell below.
pub open spec fn open_edge(
    width: int,
    height: int,
    vertical: Seq<Seq<bool>>,
    horizontal: Seq<Seq<bool>>,
    c: int,
    d: int,
) -> bool {
    let x = col(width, c);
    let y = row(width, c);
    if d == 0 {
        !vertical[y][if x > 0 { x - 1 } else { width - 1 }]
    } else if d == 1 {
        !vertical[y][x]
    } else if d == 2 {
        !horizontal[if y > 0 { y - 1 } else { height - 1 }][x]
    } else {
        !horizontal[y][x]
    }
}

/// The view of a nested grid of walls.
pub open spec fn walls_view(w: &Vec<Vec<bool>>) -> Seq<Seq<bool>> {
    w@.map_values(|r: Vec<bool>| r@)
}

/// Column, row and index of a cell agree.
pub proof fn lemma_cell(width: int, height: int, x: int, y: int)
    requires
        0 <= x < width,
        0 <= y < height,
    ensures
        0 <= cell_at(width, x, y) < width * height,
        col(width, cell_at(width, x, y)) == x,
        row(width, cell_at(width, x, y)) == y,
{
    assert(0 <= y * width + x < width * height) by (nonlinear_arith)
        requires
            0 <= x < width,
            0 <= y < height,
    ;
    vstd::arithmetic::div_mod::lemma_fundamental_div_mod_converse(y * width + x, width, y, x);
}

/// A cell index splits into a column and a row in range.
pub proof fn lemma_split(width: int, height: int, c: int)
    requires
        0 < width,
        0 <= c < width * height,
    ensures
        0 <= col(width, c) < width,
        0 <= row(width, c) < height,
        cell_at(width, col(width, c), row(width, c)) == c,
{
    vstd::arithmetic::div_mod::lemma_fundamental_div_mod(c, width);
    let x = c % width;
    let y = c / width;
    assert(c == y * width + x) by (nonlinear_arith)
        requires
            c == width * (c / width) + (c % width),
            x == c % width,
            y == c / width,
    ;
    assert(0 <= y < height) by (nonlinear_arith)
        requires
            c == y * width + x,
            0 <= x < width,
            0 <= c < width * height,
    ;
}

/// A step stays on the board.
pub proof fn lemma_step_in_range(width: int, height: int, wrap: bool, c: int, d: int)
    requires
        0 < width,
        0 < height,
        0 <= c < width * height,
    ensures
        step(width, height, wrap, c, d) matches Some(n) ==> 0 <= n < width * height,
{
    lemma_split(width, height, c);
    let x = col(width, c);
    let y = row(width, c);
    if x > 0 {
        lemma_cell(width, height, x - 1, y);
    }
    if x + 1 < width {
        lemma_cell(width, height, x + 1, y);
    }
    if y > 0 {
        lemma_cell(width, height, x, y - 1);
    }
    if y + 1 < height {
        lemma_cell(width, height, x, y + 1);
    }
    lemma_cell(width, height, width - 1, y);
    lemma_cell(width, height, 0, y);
    lemma_cell(width, height, x, height - 1);
    lemma_cell(width, height, x, 0);
}

/// The direction opposite to `d`.
pub open spec fn opposite(d: int) -> int {
    if d == 0 {
        1
    } else if d == 1 {
        0
    } else if d == 2 {
        3
    } else {
        2
    }
}

/// A step is undone by a step in the opposite direction.
pub proof fn lemma_step_back(width: int, height: int, wrap: bool, a: int, d: int)
    requires
        0 < width,
        0 < height,
        0 <= a < width * height,
        0 <= d < 4,
        step(width, height, wrap, a, d) is Some,
    ensures
        step(width, height, wrap, step(width, height, wrap, a, d)->0, opposite(d)) == Some(a),
{
    lemma_split(width, height, a);
    let x = col(width, a);
    let y = row(width, a);
    if x > 0 {
        lemma_cell(width, height, x - 1, y);
    }
    if x + 1 < width {
        lemma_cell(width, height, x + 1, y);
    }
    if y > 0 {
        lemma_cell(width, height, x, y - 1);
    }
    if y + 1 < height {
        lemma_cell(width, height, x, y + 1);
    }
    lemma_cell(width, height, width - 1, y);
    lemma_cell(width, height, 0, y);
    lemma_cell(width, height, x, height - 1);
    lemma_cell(width, height, x, 0);
}

/// An edge is open or walled alike from both of its sides.
pub proof fn lemma_open_edge_back(
    width: int,
    height: int,
    wrap: bool,
    vertical: Seq<Seq<bool>>,
    horizontal: Seq<Seq<bool>>,
    a: int,
    d: int,
)
    requires
        0 < width,
        0 < height,
        0 <= a < width * height,
        0 <= d < 4,
        step(width, height, wrap, a, d) is Some,
    ensures
        open_edge(width, height, vertical, horizontal, step(width, height, wrap, a, d)->0, opposite(d))
            == open_edge(width, height, vertical, horizontal, a, d),
{
    lemma_split(width, height, a);
    let x = col(width, a);
    let y = row(width, a);
    if d == 0 {
        if x > 0 {
            lemma_cell(width, height, x - 1, y);
        } else {
            lemma_cell(width, height, width - 1, y);
        }
    } else if d == 1 {
        if x + 1 < width {
            lemma_cell(width, height, x + 1, y);
        } else {
            lemma_cell(width, height, 0, y);
        }
    } else if d == 2 {
        if y > 0 {
            lemma_cell(width, height, x, y - 1);
        } else {
            lemma_cell(width, height, x, height - 1);
        }
    } else {
        if y + 1 < height {
            lemma_cell(width, height, x, y + 1);
        } else {
            lemma_cell(width, height, x, 0);
        }
    }
}

/// Adjacency is symmetric.
pub proof fn lemma_adjacent_symmetric(width: int, height: int, wrap: bool, a: int, b: int)
    requires
        0 < width,
        0 < height,
        0 <= a < width * height,
        adjacent(width, height, wrap, a, b),
    ensures
        adjacent(width, height, wrap, b, a),
{
    let d = choose|d: int| 0 <= d < 4 && #[trigger] step(width, height, wrap, a, d) == Some(b);
    lemma_step_back(width, height, wrap, a, d);
    assert(step(width, height, wrap, b, opposite(d)) == Some(a));
}

/// The cell one step from `c` in direction `d`, as `step` gives it.
#[verifier::spinoff_prover]
pub fn next_cell(width: usize, height: usize, wrap: bool, c: usize, d: usize) -> (r: Option<usize>)
    requires
        0 < width,
        0 < height,
        width * height <= usize::MAX,
        c < width * height,
    ensures
        r matches Some(n) ==> step(width as int, height as int, wrap, c as int, d as int) == Some(n as int),
        r is None ==> step(width as int, height as int, wrap, c as int, d as int) is None,
        r matches Some(n) ==> n < width * height,
{
    let x = c % width;
    let y = c / width;
    let ghost w = width as int;
    let ghost h = height as int;
    proof {
        lemma_split(w, h, c as int);
        assert(c == y * w + x);
        lemma_step_in_range(w, h, wrap, c as int, d as int);
    }
    if d == 0 {
        if x > 0 {
            proof {
                lemma_cell(w, h, x - 1, y as int);
            }
            Some(c - 1)
        } else if wrap {
            proof {
                lemma_cell(w, h, w - 1, y as int);
            }
            Some(c + (width - 1))
        } else {
            None
        }
    } else if d == 1 {
        if x + 1 < width {
            proof {
                lemma_cell(w, h, x + 1, y as int);
            }
            Some(c + 1)
        } else if wrap {
            proof {
                lemma_cell(w, h, 0, y as int);
            }
            Some(c - x)
        } else {
            None
        }
    } else if d == 2 {
        if y > 0 {
            proof {
                lemma_cell(w, h, x as int, y - 1);
                assert((y - 1) * w == y * w - w) by (nonlinear_arith);
            }
            Some(c - width)
        } else if wrap {
            proof {
                lemma_cell(w, h, x as int, h - 1);
                assert((h - 1) * w == w * h - w) by (nonlinear_arith);
                assert(w * h >= w) by (nonlinear_arith)
                    requires
                        h >= 1,
                        w > 0,
                ;
                assert(c == x) by (nonlinear_arith)
                    requires
                        y == 0,
                        c == y * w + x,
                ;
            }
            Some(c + (width * height - width))
        } else {
            None
        }
    } else {
        if y + 1 < height {
            proof {
                lemma_cell(w, h, x as int, y + 1);
                assert((y + 1) * w == y * w + w) by (nonlinear_arith);
            }
            Some(c + width)
        } else if wrap {
            proof {
                lemma_cell(w, h, x as int, 0);
            }
            Some(x)
        } else {
            None
        }
    }
}

/// Whether the edge that a step from `c` in direction `d` crosses is open.
pub fn edge_is_open(
    width: usize,
    height: usize,
    wrap: bool,
    vertical: &Vec<Vec<bool>>,
    horizontal: &Vec<Vec<bool>>,
    c: usize,
    d: usize,
) -> (r: bool)
    requires
        0 < width,
        0 < height,
        c < width * height,
        walls_shaped(width as int, height as int, wrap, walls_view(vertical), walls_view(horizontal)),
        step(width as int, height as int, wrap, c as int, d as int) is Some,
    ensures
        r == open_edge(
            width as int,
            height as int,
            walls_view(vertical),
            walls_view(horizontal),
            c as int,
            d as int,
        ),
{
    proof {
        lemma_split(width as int, height as int, c as int);
    }
    let x = c % width;
    let y = c / width;
    proof {
        let hr = if d == 2 && y == 0 { height - 1 } else if d == 2 { y - 1 } else { y as int };
        assert(walls_view(vertical)[y as int] == vertical@[y as int]@);
        if 0 <= hr < horizontal.len() {
            assert(walls_view(horizontal)[hr] == horizontal@[hr]@);
        }
    }
    if d == 0 {
        let left = if x > 0 { x - 1 } else { width - 1 };
        !vertical[y][left]
    } else if d == 1 {
        !vertical[y][x]
    } else if d == 2 {
        let up = if y > 0 { y - 1 } else { height - 1 };
        !horizontal[up][x]
    } else {
        !horizontal[y][x]
    }
}

} // verus!
