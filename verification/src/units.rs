use vstd::prelude::*;
use crate::board::Board;
use crate::coords::{sees, Coords};

verus! {

/// The squares of row `y`, left to right.
pub open spec fn row_cells(y: u8) -> Seq<Coords> {
    Seq::new(9, |i: int| Coords { x: i as u8, y: y })
}

/// The squares of column `x`, top to bottom.
pub open spec fn column_cells(x: u8) -> Seq<Coords> {
    Seq::new(9, |i: int| Coords { x: x, y: i as u8 })
}

/// The squares of the three-by-three box that holds `pos`, column by column.
pub open spec fn box_cells(pos: Coords) -> Seq<Coords> {
    Seq::new(
        9,
        |k: int| Coords { x: (pos.x / 3 * 3 + k / 3) as u8, y: (pos.y / 3 * 3 + k % 3) as u8 },
    )
}

/// The 27 groups that must each hold every digit once: the nine boxes
/// (`u` below 9, left to right and top to bottom), then the nine rows, then the nine columns.
pub open spec fn unit(u: int) -> Seq<Coords> {
    if u < 9 {
        box_cells(Coords { x: (u % 3 * 3) as u8, y: (u / 3 * 3) as u8 })
    } else if u < 18 {
        row_cells((u - 9) as u8)
    } else {
        column_cells((u - 18) as u8)
    }
}

/// The squares of the column and of the row of `pos`, other than `pos` itself, for the
/// indices below `n`: for each index, the square of the column, then that of the row.
pub open spec fn line_neighbours(pos: Coords, n: int) -> Seq<Coords>
    decreases n,
{
    if n <= 0 {
        Seq::empty()
    } else {
        let i = (n - 1) as u8;
        let column_part = if i != pos.y {
            seq![Coords { x: pos.x, y: i }]
        } else {
            Seq::empty()
        };
        let row_part = if i != pos.x {
            seq![Coords { x: i, y: pos.y }]
        } else {
            Seq::empty()
        };
        line_neighbours(pos, n - 1) + column_part + row_part
    }
}

/// Whether a square of the box of `pos` comes after the column and the row:
/// it is neither `pos` nor one of them.
pub open spec fn new_in_box(pos: Coords) -> spec_fn(Coords) -> bool {
    |c: Coords| c != pos && !line_neighbours(pos, 9).contains(c)
}

/// The squares that `pos` sees, in the order they are listed: the column and row
/// squares, then the remaining squares of the box.
pub open spec fn neighbours_of(pos: Coords) -> Seq<Coords> {
    line_neighbours(pos, 9) + box_cells(pos).filter(new_in_box(pos))
}

/// Whether `v` holds `c`.
pub fn contains_coords(v: &Vec<Coords>, c: &Coords) -> (r: bool)
    ensures
        r == v@.contains(*c),
{
    let mut i: usize = 0;
    while i < v.len()
        invariant
            i <= v.len(),
            forall|k: int| 0 <= k < i ==> v@[k] != *c,
        decreases v.len() - i,
    {
        if v[i] == *c {
            return true;
        }
        i = i + 1;
    }
    false
}

proof fn lemma_push_keeps(s: Seq<Coords>, x: Coords, c: Coords)
    requires
        s.contains(c),
    ensures
        s.push(x).contains(c),
{
    let k = choose|k: int| 0 <= k < s.len() && s[k] == c;
    assert(s.push(x)[k] == c);
}

impl Board {
    /// The squares of the row of `pos`.
    pub fn get_row(pos: Coords) -> (r: Vec<Coords>)
        ensures
            r@ == row_cells(pos.y),
    {
        let mut neighbours: Vec<Coords> = Vec::new();
        let mut i: u8 = 0;
        while i < 9
            invariant
                i <= 9,
                neighbours@ == row_cells(pos.y).take(i as int),
            decreases 9 - i,
        {
            neighbours.push(Coords::new(i, pos.y));
            assert(row_cells(pos.y).take(i + 1) =~= row_cells(pos.y).take(i as int).push(Coords { x: i, y: pos.y }));
            i = i + 1;
        }
        assert(row_cells(pos.y).take(9) =~= row_cells(pos.y));
        neighbours
    }

    /// The squares of the column of `pos`.
    pub fn get_column(pos: Coords) -> (r: Vec<Coords>)
        ensures
            r@ == column_cells(pos.x),
    {
        let mut neighbours: Vec<Coords> = Vec::new();
        let mut i: u8 = 0;
        while i < 9
            invariant
                i <= 9,
                neighbours@ == column_cells(pos.x).take(i as int),
            decreases 9 - i,
        {
            neighbours.push(Coords::new(pos.x, i));
            assert(column_cells(pos.x).take(i + 1) =~= column_cells(pos.x).take(i as int).push(Coords { x: pos.x, y: i }));
            i = i + 1;
        }
        assert(column_cells(pos.x).take(9) =~= column_cells(pos.x));
        neighbours
    }

    /// The squares of the box of `pos`.
    pub fn get_box(pos: Coords) -> (r: Vec<Coords>)
        requires
            pos.x < 255,
            pos.y < 255,
        ensures
            r@ == box_cells(pos),
    {
        let mut neighbours: Vec<Coords> = Vec::new();
        let box_origin_x = pos.x / 3 * 3;
        let box_origin_y = pos.y / 3 * 3;
        let mut i: u8 = 0;
        while i < 3
            invariant
                i <= 3,
                pos.x < 255,
                pos.y < 255,
                box_origin_x == pos.x / 3 * 3,
                box_origin_y == pos.y / 3 * 3,
                neighbours@ == box_cells(pos).take(3 * i),
            decreases 3 - i,
        {
            let mut j: u8 = 0;
            while j < 3
                invariant
                    i < 3,
                    j <= 3,
                    pos.x < 255,
                    pos.y < 255,
                    box_origin_x == pos.x / 3 * 3,
                    box_origin_y == pos.y / 3 * 3,
                    neighbours@ == box_cells(pos).take(3 * i + j),
                decreases 3 - j,
            {
                let x = i + box_origin_x;
                let y = j + box_origin_y;
                neighbours.push(Coords::new(x, y));
                assert(box_cells(pos).take(3 * i + j + 1) =~= box_cells(pos).take(3 * i + j).push(Coords { x: x, y: y }));
                j = j + 1;
            }
            i = i + 1;
        }
        assert(box_cells(pos).take(9) =~= box_cells(pos));
        neighbours
    }

    /// The squares that `pos` sees, each once.
    pub fn get_neighbours(pos: Coords) -> (r: Vec<Coords>)
        requires
            pos.x < 255,
            pos.y < 255,
        ensures
            forall|k: int| 0 <= k < r.len() ==> sees(pos, #[trigger] r@[k]),
            forall|c: Coords| sees(pos, c) ==> r@.contains(c),
            r@.no_duplicates(),
            r@ == neighbours_of(pos),
            pos.on_board() ==> r.len() == 20,
    {
        let mut neighbours: Vec<Coords> = Vec::new();
        let mut i: u8 = 0;
        while i < 9
            invariant
                i <= 9,
                neighbours@ == line_neighbours(pos, i as int),
                forall|k: int| 0 <= k < neighbours.len() ==> {
                    let c = #[trigger] neighbours@[k];
                    ||| (c.x == pos.x && c.y < i && c.y != pos.y)
                    ||| (c.y == pos.y && c.x < i && c.x != pos.x)
                },
                forall|t: u8| t < i && t != pos.y ==> neighbours@.contains(Coords { x: pos.x, y: t }),
                forall|t: u8| t < i && t != pos.x ==> neighbours@.contains(Coords { x: t, y: pos.y }),
                neighbours@.no_duplicates(),
                pos.on_board() ==> neighbours.len() == 2 * i - (if pos.y < i { 1int } else { 0int }) - (
                if pos.x < i { 1int } else { 0int }),
            decreases 9 - i,
        {
            let ghost at_start = neighbours@;
            if i != pos.y {
                let ghost before = neighbours@;
                neighbours.push(Coords::new(pos.x, i));
                assert(before.push(Coords { x: pos.x, y: i }) == neighbours@);
                assert forall|t: u8| t < i && t != pos.y implies neighbours@.contains(Coords { x: pos.x, y: t }) by {
                    lemma_push_keeps(before, Coords { x: pos.x, y: i }, Coords { x: pos.x, y: t });
                }
                assert forall|t: u8| t < i && t != pos.x implies neighbours@.contains(Coords { x: t, y: pos.y }) by {
                    lemma_push_keeps(before, Coords { x: pos.x, y: i }, Coords { x: t, y: pos.y });
                }
                assert(neighbours@[neighbours.len() - 1] == Coords { x: pos.x, y: i });
            }
            if i != pos.x {
                let ghost before = neighbours@;
                neighbours.push(Coords::new(i, pos.y));
                assert forall|t: u8| t <= i && t != pos.y implies neighbours@.contains(Coords { x: pos.x, y: t }) by {
                    lemma_push_keeps(before, Coords { x: i, y: pos.y }, Coords { x: pos.x, y: t });
                }
                assert forall|t: u8| t < i && t != pos.x implies neighbours@.contains(Coords { x: t, y: pos.y }) by {
                    lemma_push_keeps(before, Coords { x: i, y: pos.y }, Coords { x: t, y: pos.y });
                }
                assert(neighbours@[neighbours.len() - 1] == Coords { x: i, y: pos.y });
            }
            assert(neighbours@ =~= line_neighbours(pos, i + 1));
            i = i + 1;
        }
        let ghost line = neighbours@;
        assert(line == line_neighbours(pos, 9));
        assert(pos.on_board() ==> line.len() == 16);

        let box_origin_x = pos.x / 3 * 3;
        let box_origin_y = pos.y / 3 * 3;
        assert forall|c: Coords| sees(pos, c) && !(c.x / 3 == pos.x / 3 && c.y / 3 == pos.y / 3)
            implies neighbours@.contains(c) by {
            if c.x == pos.x && c.y < 9 {
                assert(c == Coords { x: pos.x, y: c.y });
            } else {
                assert(c == Coords { x: c.x, y: pos.y });
            }
        }
        assert forall|k: int| 0 <= k < neighbours.len() implies sees(pos, #[trigger] neighbours@[k]) by {}
        let mut i: u8 = 0;
        while i < 3
            invariant
                i <= 3,
                pos.x < 255,
                pos.y < 255,
                box_origin_x == pos.x / 3 * 3,
                box_origin_y == pos.y / 3 * 3,
                forall|k: int| 0 <= k < neighbours.len() ==> sees(pos, #[trigger] neighbours@[k]),
                forall|c: Coords| sees(pos, c) && c.x < box_origin_x + i ==> neighbours@.contains(c),
                forall|c: Coords| sees(pos, c) && !(c.x / 3 == pos.x / 3 && c.y / 3 == pos.y / 3) ==> neighbours@.contains(c),
                neighbours@.no_duplicates(),
                line == line_neighbours(pos, 9),
                neighbours@ == line + box_cells(pos).take(3 * i).filter(new_in_box(pos)),
                forall|m: int| 0 <= m < line.len() ==> {
                    let c = #[trigger] line[m];
                    ||| (c.x == pos.x && c.y < 9 && c.y != pos.y)
                    ||| (c.y == pos.y && c.x < 9 && c.x != pos.x)
                },
                forall|t: u8| t < 9 && t != pos.y ==> line.contains(Coords { x: pos.x, y: t }),
                forall|t: u8| t < 9 && t != pos.x ==> line.contains(Coords { x: t, y: pos.y }),
                pos.on_board() ==> neighbours.len() == 16 + 2 * (i - (if pos.x < box_origin_x + i { 1int } else { 0int })),
            decreases 3 - i,
        {
            let mut j: u8 = 0;
            while j < 3
                invariant
                    i < 3,
                    j <= 3,
                    pos.x < 255,
                    pos.y < 255,
                    box_origin_x == pos.x / 3 * 3,
                    box_origin_y == pos.y / 3 * 3,
                    forall|k: int| 0 <= k < neighbours.len() ==> sees(pos, #[trigger] neighbours@[k]),
                    forall|c: Coords| sees(pos, c) && c.x < box_origin_x + i ==> neighbours@.contains(c),
                    forall|c: Coords| sees(pos, c) && c.x == box_origin_x + i && c.y < box_origin_y + j ==> neighbours@.contains(c),
                    forall|c: Coords| sees(pos, c) && !(c.x / 3 == pos.x / 3 && c.y / 3 == pos.y / 3) ==> neighbours@.contains(c),
                    neighbours@.no_duplicates(),
                    line == line_neighbours(pos, 9),
                    neighbours@ == line + box_cells(pos).take(3 * i + j).filter(new_in_box(pos)),
                    forall|m: int| 0 <= m < line.len() ==> {
                        let c = #[trigger] line[m];
                        ||| (c.x == pos.x && c.y < 9 && c.y != pos.y)
                        ||| (c.y == pos.y && c.x < 9 && c.x != pos.x)
                    },
                    forall|t: u8| t < 9 && t != pos.y ==> line.contains(Coords { x: pos.x, y: t }),
                    forall|t: u8| t < 9 && t != pos.x ==> line.contains(Coords { x: t, y: pos.y }),
                    pos.on_board() ==> neighbours.len() == 16 + 2 * (i - (if pos.x < box_origin_x + i { 1int } else { 0int }))
                        + (if box_origin_x + i == pos.x { 0int } else { j - (if pos.y < box_origin_y + j { 1int } else { 0int }) }),
                decreases 3 - j,
            {
                let x = i + box_origin_x;
                let y = j + box_origin_y;
                let coords = Coords::new(x, y);
                let ghost k = 3 * i + j;
                let ghost done = box_cells(pos).take(k);
                proof {
                    assert(box_cells(pos)[k] == coords);
                    assert(box_cells(pos).take(k + 1) =~= done.push(coords));
                    assert(box_cells(pos).take(k + 1).drop_last() =~= done);
                    assert(box_cells(pos).take(k + 1).last() == coords);
                    reveal(Seq::filter);
                    assert(box_cells(pos).take(k + 1).filter(new_in_box(pos)) == if new_in_box(pos)(coords) {
                        done.filter(new_in_box(pos)).push(coords)
                    } else {
                        done.filter(new_in_box(pos))
                    });
                    assert(!done.filter(new_in_box(pos)).contains(coords)) by {
                        if done.filter(new_in_box(pos)).contains(coords) {
                            let m = choose|m: int| 0 <= m < done.filter(new_in_box(pos)).len()
                                && done.filter(new_in_box(pos))[m] == coords;
                            done.lemma_filter_contains_rev(new_in_box(pos), coords);
                            assert(done.contains(coords));
                            let t = choose|t: int| 0 <= t < done.len() && done[t] == coords;
                            assert(box_cells(pos)[t] == box_cells(pos)[k]);
                        }
                    }
                    if pos.on_board() && coords != pos {
                        assert(line.contains(coords) <==> (x == pos.x || y == pos.y)) by {
                            if line.contains(coords) {
                                let m = choose|m: int| 0 <= m < line.len() && line[m] == coords;
                                assert(line[m] == coords);
                            }
                            if x == pos.x {
                                assert(coords == Coords { x: pos.x, y: y });
                            } else if y == pos.y {
                                assert(coords == Coords { x: x, y: pos.y });
                            }
                        }
                    }
                    assert(neighbours@.contains(coords) <==> line.contains(coords)) by {
                        if neighbours@.contains(coords) && !line.contains(coords) {
                            let m = choose|m: int| 0 <= m < neighbours@.len() && neighbours@[m] == coords;
                            assert(done.filter(new_in_box(pos))[m - line.len()] == coords);
                        }
                        if line.contains(coords) {
                            let m = choose|m: int| 0 <= m < line.len() && line[m] == coords;
                            assert(neighbours@[m] == coords);
                        }
                    }
                }
                if !(x == pos.x && y == pos.y) && !contains_coords(&neighbours, &coords) {
                    let ghost before = neighbours@;
                    neighbours.push(Coords::new(x, y));
                    assert(neighbours@[neighbours.len() - 1] == coords);
                    assert forall|c: Coords| before.contains(c) implies neighbours@.contains(c) by {
                        lemma_push_keeps(before, coords, c);
                    }
                }
                assert(neighbours@ =~= line + box_cells(pos).take(k + 1).filter(new_in_box(pos)));
                j = j + 1;
            }
            i = i + 1;
        }
        assert(box_cells(pos).take(9) =~= box_cells(pos));
        neighbours
    }
}

/// Walks the nine boxes, left to right and top to bottom.
pub struct BoardBoxIterator {
    pub index: u8,
}

impl BoardBoxIterator {
    /// The next box, or `None` once the nine have been given.
    pub fn next(&mut self) -> (r: Option<Vec<Coords>>)
        requires
            old(self).index < u8::MAX,
        ensures
            final(self).index == old(self).index + 1,
            old(self).index < 9 ==> (r matches Some(v) && v@ == unit(old(self).index as int)),
            old(self).index >= 9 ==> r is None,
    {
        let member_x = self.index % 3 * 3;
        let member_y = self.index / 3 * 3;
        self.index = self.index + 1;
        if self.index > 9 {
            return None;
        }
        let r = Board::get_box(Coords::new(member_x, member_y));
        assert(r@ =~= unit(old(self).index as int));
        Some(r)
    }
}

/// Walks the nine rows, top to bottom.
pub struct BoardRowIterator {
    pub index: u8,
}

impl BoardRowIterator {
    /// The next row, or `None` once the nine have been given.
    pub fn next(&mut self) -> (r: Option<Vec<Coords>>)
        ensures
            old(self).index <= 8 ==> (final(self).index == old(self).index + 1 && (r matches Some(v)
                && v@ == row_cells(old(self).index))),
            old(self).index > 8 ==> (final(self).index == old(self).index && r is None),
    {
        if self.index <= 8 {
            let result = Some(Board::get_row(Coords::new(0, self.index)));
            self.index = self.index + 1;
            return result;
        }
        None
    }
}

/// Walks the nine columns, left to right.
pub struct BoardColumnIterator {
    pub index: u8,
}

impl BoardColumnIterator {
    /// The next column, or `None` once the nine have been given.
    pub fn next(&mut self) -> (r: Option<Vec<Coords>>)
        ensures
            old(self).index <= 8 ==> (final(self).index == old(self).index + 1 && (r matches Some(v)
                && v@ == column_cells(old(self).index))),
            old(self).index > 8 ==> (final(self).index == old(self).index && r is None),
    {
        if self.index <= 8 {
            let result = Some(Board::get_column(Coords::new(self.index, 0)));
            self.index = self.index + 1;
            return result;
        }
        None
    }
}

/// Walks all 27 groups: the boxes, then the rows, then the columns.
/// Each part is dropped once it has run out, as a chain of iterators does.
pub struct BoardFullIterator {
    pub boxes: Option<BoardBoxIterator>,
    pub rows: Option<BoardRowIterator>,
    pub columns: BoardColumnIterator,
}

impl BoardFullIterator {
    /// How many groups have been given so far.
    pub open spec fn position(&self) -> int {
        match self.boxes {
            Some(b) => b.index as int,
            None => match self.rows {
                Some(r) => 9 + r.index,
                None => 18 + self.columns.index,
            },
        }
    }

    /// The parts that are still to run have not started before the current one ends.
    pub open spec fn wf(&self) -> bool {
        &&& self.boxes matches Some(b) ==> {
            &&& b.index <= 9
            &&& self.rows matches Some(r) && r.index == 0
            &&& self.columns.index == 0
        }
        &&& self.rows matches Some(r) ==> r.index <= 9 && self.columns.index == 0
        &&& self.columns.index <= 9
    }

    /// A walk from the first box.
    pub fn new(board: Board) -> (it: Self)
        ensures
            it.wf(),
            it.position() == 0,
    {
        Self {
            boxes: Some(board.clone().into_iter_box()),
            rows: Some(board.clone().into_iter_row()),
            columns: board.clone().into_iter_column(),
        }
    }

    /// The next group, or `None` once all 27 have been given.
    pub fn next(&mut self) -> (r: Option<Vec<Coords>>)
        requires
            old(self).wf(),
        ensures
            final(self).wf(),
            old(self).position() < 27 ==> (final(self).position() == old(self).position() + 1
                && (r matches Some(v) && v@ == unit(old(self).position()))),
            old(self).position() >= 27 ==> (final(self).position() == old(self).position() && r is None),
    {
        if let Some(mut it) = self.boxes.take() {
            let r = it.next();
            if r.is_some() {
                self.boxes = Some(it);
                return r;
            }
        }
        if let Some(mut it) = self.rows.take() {
            let r = it.next();
            if r.is_some() {
                self.rows = Some(it);
                proof {
                    assert(r->0@ =~= unit(old(self).position()));
                }
                return r;
            }
        }
        let r = self.columns.next();
        proof {
            if old(self).position() < 27 {
                assert(r->0@ =~= unit(old(self).position()));
            }
        }
        r
    }
}

impl Board {
    /// A walk over the boxes, from the first.
    pub fn into_iter_box(self) -> (it: BoardBoxIterator)
        ensures
            it.index == 0,
    {
        BoardBoxIterator { index: 0 }
    }

    /// A walk over the rows, from the first.
    pub fn into_iter_row(self) -> (it: BoardRowIterator)
        ensures
            it.index == 0,
    {
        BoardRowIterator { index: 0 }
    }

    /// A walk over the columns, from the first.
    pub fn into_iter_column(self) -> (it: BoardColumnIterator)
        ensures
            it.index == 0,
    {
        BoardColumnIterator { index: 0 }
    }

    /// A walk over all 27 groups, from the first box.
    pub fn into_iter_full(self) -> (it: BoardFullIterator)
        ensures
            it.wf(),
            it.position() == 0,
    {
        BoardFullIterator::new(self)
    }
}

} // verus!
