use vstd::prelude::*;

verus! {

/// Largest grid dimension of an item shape.
pub const GRID_LIMIT: u32 = 536870912;

/// A cell of an inventory grid.
#[derive(Clone, Copy, Debug, PartialEq, Eq, Structural)]
pub struct Cell {
    pub x: i32,
    pub y: i32,
}

/// A quarter-turn orientation of an item.
#[derive(Clone, Copy, Debug, PartialEq, Eq, Structural)]
pub enum Rotation {
    Zero,
    Ninety,
    OneEighty,
    TwoSeventy,
}

impl Rotation {
    /// The orientation a quarter turn further on.
    pub open spec fn spec_next(self) -> Rotation {
        match self {
            Rotation::Zero => Rotation::Ninety,
            Rotation::Ninety => Rotation::OneEighty,
            Rotation::OneEighty => Rotation::TwoSeventy,
            Rotation::TwoSeventy => Rotation::Zero,
        }
    }

    /// The orientation a quarter turn further on; four turns come back.
    pub fn next(&self) -> (r: Rotation)
        ensures
            r == self.spec_next(),
    {
        match self {
            Rotation::Zero => Rotation::Ninety,
            Rotation::Ninety => Rotation::OneEighty,
            Rotation::OneEighty => Rotation::TwoSeventy,
            Rotation::TwoSeventy => Rotation::Zero,
        }
    }
}

/// Four quarter turns are the identity.
pub proof fn lemma_four_turns(r: Rotation)
    ensures
        r.spec_next().spec_next().spec_next().spec_next() == r,
{
}

/// `c` turned by `rot` about the origin.
pub open spec fn rotate_cell(c: Cell, rot: Rotation) -> Cell {
    match rot {
        Rotation::Zero => c,
        Rotation::Ninety => Cell { x: (-c.y) as i32, y: c.x },
        Rotation::OneEighty => Cell { x: (-c.x) as i32, y: (-c.y) as i32 },
        Rotation::TwoSeventy => Cell { x: c.y, y: (-c.x) as i32 },
    }
}

/// Both coordinates lie within `GRID_LIMIT` of zero.
pub open spec fn cell_small(c: Cell) -> bool {
    -GRID_LIMIT <= c.x <= GRID_LIMIT && -GRID_LIMIT <= c.y <= GRID_LIMIT
}

/// Smallest x among `cells` (0 when there are none).
pub open spec fn min_x(cells: Seq<Cell>) -> int
    decreases cells.len(),
{
    if cells.len() == 0 {
        0
    } else if cells.len() == 1 {
        cells[0].x as int
    } else {
        let m = min_x(cells.drop_last());
        let v = cells.last().x as int;
        if v < m { v } else { m }
    }
}

/// Smallest y among `cells` (0 when there are none).
pub open spec fn min_y(cells: Seq<Cell>) -> int
    decreases cells.len(),
{
    if cells.len() == 0 {
        0
    } else if cells.len() == 1 {
        cells[0].y as int
    } else {
        let m = min_y(cells.drop_last());
        let v = cells.last().y as int;
        if v < m { v } else { m }
    }
}

/// `cells` turned by `rot`, then moved so that the smallest x and the
/// smallest y are both 0.
pub open spec fn turned_cells(cells: Seq<Cell>, rot: Rotation) -> Seq<Cell> {
    let t = cells.map_values(|c: Cell| rotate_cell(c, rot));
    t.map_values(|c: Cell| Cell { x: (c.x - min_x(t)) as i32, y: (c.y - min_y(t)) as i32 })
}

proof fn lemma_min_bounds(cells: Seq<Cell>)
    requires
        forall|i: int| 0 <= i < cells.len() ==> cell_small(#[trigger] cells[i]),
    ensures
        forall|i: int| 0 <= i < cells.len() ==> min_x(cells) <= (#[trigger] cells[i]).x && min_y(cells) <= cells[i].y,
        cells.len() > 0 ==> -GRID_LIMIT <= min_x(cells) <= GRID_LIMIT && -GRID_LIMIT <= min_y(cells) <= GRID_LIMIT,
    decreases cells.len(),
{
    if cells.len() > 1 {
        lemma_min_bounds(cells.drop_last());
        assert forall|i: int| 0 <= i < cells.len() implies min_x(cells) <= (#[trigger] cells[i]).x && min_y(cells) <= cells[i].y by {
            if i < cells.len() - 1 {
                assert(cells[i] == cells.drop_last()[i]);
            }
        }
    }
}

fn rotate_cells_of(cells: &Vec<Cell>, rotation: &Rotation) -> (r: Vec<Cell>)
    requires
        forall|i: int| 0 <= i < cells@.len() ==> cell_small(#[trigger] cells@[i]),
    ensures
        r@ == turned_cells(cells@, *rotation),
{
    let ghost t = cells@.map_values(|c: Cell| rotate_cell(c, *rotation));
    let mut rotated: Vec<Cell> = Vec::new();
    let mut i: usize = 0;
    while i < cells.len()
        invariant
            0 <= i <= cells@.len(),
            forall|k: int| 0 <= k < cells@.len() ==> cell_small(#[trigger] cells@[k]),
            t == cells@.map_values(|c: Cell| rotate_cell(c, *rotation)),
            rotated@ == t.subrange(0, i as int),
        decreases cells@.len() - i,
    {
        let c = cells[i];
        let turned = match rotation {
            Rotation::Zero => c,
            Rotation::Ninety => Cell { x: -c.y, y: c.x },
            Rotation::OneEighty => Cell { x: -c.x, y: -c.y },
            Rotation::TwoSeventy => Cell { x: c.y, y: -c.x },
        };
        rotated.push(turned);
        assert(rotated@ =~= t.subrange(0, i + 1));
        i = i + 1;
    }
    assert(rotated@ =~= t);
    assert forall|k: int| 0 <= k < t.len() implies cell_small(#[trigger] t[k]) by {
        assert(cell_small(cells@[k]));
    }
    proof {
        lemma_min_bounds(t);
    }
    let mut mx: i32 = 0;
    let mut my: i32 = 0;
    let mut j: usize = 0;
    while j < rotated.len()
        invariant
            0 <= j <= rotated@.len(),
            rotated@ == t,
            forall|k: int| 0 <= k < t.len() ==> cell_small(#[trigger] t[k]),
            j > 0 ==> mx == min_x(t.subrange(0, j as int)) && my == min_y(t.subrange(0, j as int)),
        decreases rotated@.len() - j,
    {
        let c = rotated[j];
        proof {
            let s = t.subrange(0, j + 1);
            assert(s.drop_last() =~= t.subrange(0, j as int));
            assert(s.last() == c);
        }
        if j == 0 || c.x < mx {
            mx = c.x;
        }
        if j == 0 || c.y < my {
            my = c.y;
        }
        proof {
            if j == 0 {
                assert(t.subrange(0, 1).len() == 1);
                assert(t.subrange(0, 1)[0] == c);
            }
        }
        j = j + 1;
    }
    if rotated.len() > 0 {
        assert(t.subrange(0, t.len() as int) =~= t);
    }
    let ghost target = turned_cells(cells@, *rotation);
    let mut out: Vec<Cell> = Vec::new();
    let mut k: usize = 0;
    while k < rotated.len()
        invariant
            0 <= k <= rotated@.len(),
            rotated@ == t,
            forall|q: int| 0 <= q < t.len() ==> cell_small(#[trigger] t[q]),
            forall|q: int| 0 <= q < t.len() ==> min_x(t) <= (#[trigger] t[q]).x && min_y(t) <= t[q].y,
            t.len() > 0 ==> mx == min_x(t) && my == min_y(t),
            t.len() > 0 ==> -GRID_LIMIT <= min_x(t) <= GRID_LIMIT && -GRID_LIMIT <= min_y(t) <= GRID_LIMIT,
            target == t.map_values(|c: Cell| Cell { x: (c.x - min_x(t)) as i32, y: (c.y - min_y(t)) as i32 }),
            out@ == target.subrange(0, k as int),
        decreases rotated@.len() - k,
    {
        let c = rotated[k];
        assert(cell_small(t[k as int]));
        out.push(Cell { x: c.x - mx, y: c.y - my });
        assert(out@ =~= target.subrange(0, k + 1));
        k = k + 1;
    }
    assert(out@ =~= target);
    out
}

/// The cells of the first `k` entries of `row` (row `y`) that hold 1, left
/// to right.
pub open spec fn row_cells(row: Seq<u8>, y: int, k: int) -> Seq<Cell>
    decreases k,
{
    if k <= 0 {
        seq![]
    } else {
        let rest = row_cells(row, y, k - 1);
        if row[k - 1] == 1 {
            rest.push(Cell { x: (k - 1) as i32, y: y as i32 })
        } else {
            rest
        }
    }
}

/// The cells of the first `k` rows of `rows` that hold 1, row by row.
pub open spec fn grid_cells(rows: Seq<Vec<u8>>, k: int) -> Seq<Cell>
    decreases k,
{
    if k <= 0 {
        seq![]
    } else {
        grid_cells(rows, k - 1) + row_cells(rows[k - 1]@, k - 1, rows[k - 1]@.len() as int)
    }
}

/// Kind of an item.
#[derive(Clone, Copy, Debug, PartialEq, Eq, Structural)]
pub enum ItemType {
    Ammo,
    Consumable,
    Equipment,
    Salvage,
    Quest,
}

/// The footprint of an item on the inventory grid: a `width` by `height`
/// pattern, row by row, where 1 marks a filled cell.
#[derive(Debug)]
pub enum Shape {
    Grid { width: u32, height: u32, pattern: Vec<Vec<u8>> },
}

impl Shape {
    /// The pattern has `height` rows of `width` entries each, and both fit the grid.
    pub open spec fn wf(&self) -> bool {
        match self {
            Shape::Grid { width, height, pattern } => {
                &&& pattern@.len() == *height as int
                &&& forall|i: int| 0 <= i < pattern@.len() ==> (#[trigger] pattern@[i])@.len() == *width as int
                &&& *width <= GRID_LIMIT
                &&& *height <= GRID_LIMIT
            },
        }
    }

    /// The filled cells, row by row.
    pub open spec fn filled(&self) -> Seq<Cell> {
        match self {
            Shape::Grid { pattern, .. } => grid_cells(pattern@, pattern@.len() as int),
        }
    }

    /// The filled cells turned by `rotation` and moved so that the smallest
    /// x and y are 0.
    pub fn to_cells(&self, rotation: &Rotation) -> (r: Vec<Cell>)
        requires
            self.wf(),
        ensures
            r@ == turned_cells(self.filled(), *rotation),
    {
        let Shape::Grid { width, height, pattern } = self;
        let mut cells: Vec<Cell> = Vec::new();
        let mut y: usize = 0;
        while y < pattern.len()
            invariant
                self.wf(),
                *self == (Shape::Grid { width: *width, height: *height, pattern: *pattern }),
                0 <= y <= pattern@.len(),
                cells@ == grid_cells(pattern@, y as int),
                forall|i: int| 0 <= i < cells@.len() ==> cell_small(#[trigger] cells@[i]),
            decreases pattern@.len() - y,
        {
            let row = &pattern[y];
            let mut x: usize = 0;
            while x < row.len()
                invariant
                    self.wf(),
                    *self == (Shape::Grid { width: *width, height: *height, pattern: *pattern }),
                    0 <= y < pattern@.len(),
                    *row == pattern@[y as int],
                    0 <= x <= row@.len(),
                    cells@ == grid_cells(pattern@, y as int) + row_cells(row@, y as int, x as int),
                    forall|i: int| 0 <= i < cells@.len() ==> cell_small(#[trigger] cells@[i]),
                decreases row@.len() - x,
            {
                assert(pattern@[y as int]@.len() == *width as int);
                if row[x] == 1 {
                    cells.push(Cell { x: x as i32, y: y as i32 });
                    assert(cells@ =~= grid_cells(pattern@, y as int) + row_cells(row@, y as int, x + 1));
                } else {
                    assert(cells@ =~= grid_cells(pattern@, y as int) + row_cells(row@, y as int, x + 1));
                }
                x = x + 1;
            }
            assert(cells@ =~= grid_cells(pattern@, y + 1));
            y = y + 1;
        }
        self.rotate_cells(&cells, rotation)
    }

    fn rotate_cells(&self, cells: &Vec<Cell>, rotation: &Rotation) -> (r: Vec<Cell>)
        requires
            forall|i: int| 0 <= i < cells@.len() ==> cell_small(#[trigger] cells@[i]),
        ensures
            r@ == turned_cells(cells@, *rotation),
    {
        rotate_cells_of(cells, rotation)
    }
}

/// An item kind as the item data describes it.
#[derive(Debug)]
pub struct ItemDefinition {
    pub name: String,
    pub item_type: ItemType,
    pub description: String,
    pub max_stack: u32,
    pub shape: Shape,
    pub rotate: bool,
    pub icon: String,
}

impl ItemDefinition {
    /// The cells the item fills in orientation `rotation`: its shape turned,
    /// or nothing for a turned orientation of an item that cannot turn.
    pub fn get_cells(&self, rotation: Rotation) -> (r: Vec<Cell>)
        requires
            self.shape.wf(),
        ensures
            r@ == (if rotation == Rotation::Zero || self.rotate {
                turned_cells(self.shape.filled(), rotation)
            } else {
                seq![]
            }),
    {
        if rotation == Rotation::Zero || self.rotate {
            self.shape.to_cells(&rotation)
        } else {
            Vec::new()
        }
    }
}

/// A rectangular 0/1 occupancy pattern, `height` rows of `width` entries;
/// any non-zero entry is a filled cell.
#[derive(Debug)]
pub struct ItemShape {
    pub height: i32,
    pub width: i32,
    pub pattern: Vec<Vec<u8>>,
}

impl ItemShape {
    /// The pattern has `height` rows of `width` entries each.
    pub open spec fn wf(&self) -> bool {
        &&& 0 <= self.height
        &&& 0 <= self.width
        &&& self.pattern@.len() == self.height as int
        &&& forall|i: int| 0 <= i < self.pattern@.len() ==> (#[trigger] self.pattern@[i])@.len() == self.width as int
    }

    /// Cell `(x, y)` lies in the pattern and is filled.
    pub open spec fn filled_at(&self, x: int, y: int) -> bool {
        0 <= x < self.width && 0 <= y < self.height && self.pattern@[y]@[x] != 0
    }

    /// A shape over `pattern`: its height is the number of rows and its
    /// width the length of the first row (0 without rows).
    pub fn new(pattern: Vec<Vec<u8>>) -> (r: ItemShape)
        ensures
            r.pattern@ == pattern@,
            r.height == pattern@.len() as i32,
            r.width == (if pattern@.len() > 0 { pattern@[0]@.len() as i32 } else { 0 }),
    {
        let height = pattern.len() as i32;
        let width: i32 = if pattern.len() > 0 { pattern[0].len() as i32 } else { 0 };
        ItemShape { width, height, pattern }
    }

    /// Whether cell `(x, y)` is filled; cells outside the pattern are not.
    pub fn occupied(&self, x: i32, y: i32) -> (r: bool)
        requires
            self.wf(),
        ensures
            r == self.filled_at(x as int, y as int),
    {
        if x < 0 || y < 0 || x >= self.width || y >= self.height {
            return false;
        }
        assert(self.pattern@[y as int]@.len() == self.width);
        self.pattern[y as usize][x as usize] != 0
    }

    /// The shape a quarter turn on: cell `(x, y)` moves to
    /// `(height - 1 - y, x)`, and width and height trade places.
    pub fn rotate(&self) -> (r: ItemShape)
        requires
            self.wf(),
        ensures
            r.wf(),
            r.height == self.width,
            r.width == (if self.width > 0 { self.height } else { 0 }),
            forall|x: int, y: int| 0 <= x < r.width && 0 <= y < r.height ==>
                (#[trigger] r.pattern@[y]@[x]) == (if self.filled_at(y, self.height - 1 - x) { 1u8 } else { 0u8 }),
    {
        let h = self.height;
        let w = self.width;
        let mut rows: Vec<Vec<u8>> = Vec::new();
        let mut ny: i32 = 0;
        while ny < w
            invariant
                self.wf(),
                h == self.height,
                w == self.width,
                0 <= ny <= w,
                rows@.len() == ny as int,
                forall|i: int| 0 <= i < rows@.len() ==> (#[trigger] rows@[i])@.len() == h as int,
                forall|x: int, y: int| 0 <= x < h && 0 <= y < ny ==>
                    (#[trigger] rows@[y]@[x]) == (if self.filled_at(y, h - 1 - x) { 1u8 } else { 0u8 }),
            decreases w - ny,
        {
            let mut row: Vec<u8> = Vec::new();
            let mut nx: i32 = 0;
            while nx < h
                invariant
                    self.wf(),
                    h == self.height,
                    w == self.width,
                    0 <= ny < w,
                    0 <= nx <= h,
                    row@.len() == nx as int,
                    forall|x: int| 0 <= x < nx ==>
                        (#[trigger] row@[x]) == (if self.filled_at(ny as int, h - 1 - x) { 1u8 } else { 0u8 }),
                decreases h - nx,
            {
                let sy = h - 1 - nx;
                assert(self.pattern@[sy as int]@.len() == w);
                let v: u8 = if self.pattern[sy as usize][ny as usize] != 0 { 1 } else { 0 };
                row.push(v);
                nx = nx + 1;
            }
            let ghost before = rows@;
            rows.push(row);
            assert forall|x: int, y: int| 0 <= x < h && 0 <= y < ny + 1 implies
                (#[trigger] rows@[y]@[x]) == (if self.filled_at(y, h - 1 - x) { 1u8 } else { 0u8 }) by {
                if y < ny {
                    assert(rows@[y] == before[y]);
                }
            }
            ny = ny + 1;
        }
        let r = ItemShape::new(rows);
        assert(r.wf());
        r
    }
}

} // verus!
