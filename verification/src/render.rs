use vstd::prelude::*;
use crate::board::Board;
use crate::coords::Coords;
use crate::square::{square_line, SquareView};
use crate::text::push_char;
use crate::units::contains_coords;

verus! {

/// Line `k` of the first `n` squares of row `row`, each followed by a blank.
pub open spec fn row_line(b: Seq<SquareView>, row: int, k: int, n: int) -> Seq<char>
    decreases n,
{
    if n <= 0 {
        Seq::empty()
    } else {
        row_line(b, row, k, n - 1) + square_line(b[row * 9 + n - 1], k) + seq![' ']
    }
}

/// The picture of the first `rows` rows: for each, its three lines, each ended by a
/// newline, then an empty line.
pub open spec fn board_text_upto(b: Seq<SquareView>, rows: int) -> Seq<char>
    decreases rows,
{
    if rows <= 0 {
        Seq::empty()
    } else {
        board_text_upto(b, rows - 1) + row_line(b, rows - 1, 0, 9) + seq!['\n'] + row_line(
            b,
            rows - 1,
            1,
            9,
        ) + seq!['\n'] + row_line(b, rows - 1, 2, 9) + seq!['\n'] + seq!['\n']
    }
}

/// The picture of the board, as `Display` shows it.
pub open spec fn board_text(b: Seq<SquareView>) -> Seq<char> {
    board_text_upto(b, 9)
}

/// A map of the board with `*` on the squares of `cs`: nine lines of nine characters.
pub open spec fn coords_picture(cs: Seq<Coords>) -> Seq<char> {
    Seq::new(
        90,
        |k: int|
            if k % 10 == 9 {
                '\n'
            } else if cs.contains(Coords { x: (k % 10) as u8, y: (k / 10) as u8 }) {
                '*'
            } else {
                ' '
            },
    )
}

impl Board {
    /// The picture of the board, as `Display` shows it.
    pub fn render(&self) -> (s: String)
        requires
            self.wf(),
        ensures
            s@ == board_text(self@),
    {
        let mut s = String::new();
        let mut row: usize = 0;
        while row < 9
            invariant
                row <= 9,
                self.wf(),
                s@ == board_text_upto(self@, row as int),
            decreases 9 - row,
        {
            let ghost start = s@;
            let mut k: u8 = 0;
            while k < 3
                invariant
                    row < 9,
                    k <= 3,
                    self.wf(),
                    s@ == start + if k == 0 {
                        Seq::<char>::empty()
                    } else if k == 1 {
                        row_line(self@, row as int, 0, 9) + seq!['\n']
                    } else if k == 2 {
                        row_line(self@, row as int, 0, 9) + seq!['\n'] + row_line(self@, row as int, 1, 9) + seq!['\n']
                    } else {
                        row_line(self@, row as int, 0, 9) + seq!['\n'] + row_line(self@, row as int, 1, 9) + seq!['\n']
                            + row_line(self@, row as int, 2, 9) + seq!['\n']
                    },
                decreases 3 - k,
            {
                let ghost line_start = s@;
                let mut col: usize = 0;
                while col < 9
                    invariant
                        row < 9,
                        k < 3,
                        col <= 9,
                        self.wf(),
                        s@ == line_start + row_line(self@, row as int, k as int, col as int),
                    decreases 9 - col,
                {
                    self.0[row * 9 + col].push_line(&mut s, k);
                    push_char(&mut s, ' ');
                    assert(s@ =~= line_start + row_line(self@, row as int, k as int, col + 1));
                    col = col + 1;
                }
                push_char(&mut s, '\n');
                assert(s@ =~= line_start + row_line(self@, row as int, k as int, 9) + seq!['\n']);
                k = k + 1;
            }
            push_char(&mut s, '\n');
            assert(s@ =~= board_text_upto(self@, row + 1));
            row = row + 1;
        }
        s
    }

    /// A map of the board with `*` on the squares of `coords_list`.
    pub fn show_coords_on_board(coords_list: Vec<Coords>) -> (out: String)
        ensures
            out@ == coords_picture(coords_list@),
    {
        let mut out = String::new();
        let mut row: u8 = 0;
        while row < 9
            invariant
                row <= 9,
                out@ == coords_picture(coords_list@).take(10 * row),
            decreases 9 - row,
        {
            let mut col: u8 = 0;
            while col < 9
                invariant
                    row < 9,
                    col <= 9,
                    out@ == coords_picture(coords_list@).take(10 * row + col),
                decreases 9 - col,
            {
                if contains_coords(&coords_list, &Coords::new(col, row)) {
                    push_char(&mut out, '*');
                } else {
                    push_char(&mut out, ' ');
                }
                assert(out@ =~= coords_picture(coords_list@).take(10 * row + col + 1));
                col = col + 1;
            }
            push_char(&mut out, '\n');
            assert(out@ =~= coords_picture(coords_list@).take(10 * row + 10));
            row = row + 1;
        }
        assert(coords_picture(coords_list@).take(90) =~= coords_picture(coords_list@));
        out
    }
}

} // verus!
