//! A pure textual rendering of a board state: one line per row, rows shifted
//! by half a cell according to their parity, filled cells as `X`, the active
//! unit's members as `O`, its pivot as `*` (or `#` on a member), empty cells
//! as `.`.
use vstd::prelude::*;

use crate::model::{self, odd, CellV, StateV};
use crate::Cell;

verus! {

/// The character drawn for one board cell.
pub open spec fn render_cell_char(s: StateV, x: int, y: int) -> char {
    let here = CellV { x, y };
    if model::sv_filled(s, here) {
        'X'
    } else if s.units.len() > 0 && s.units[0].pivot == here {
        if s.units[0].members.contains(here) {
            '#'
        } else {
            '*'
        }
    } else if s.units.len() > 0 && s.units[0].members.contains(here) {
        'O'
    } else {
        '.'
    }
}

/// The body of one rendered row: a space then the cell character, for each of
/// the first `w` columns.
pub open spec fn render_row_cells(s: StateV, y: int, w: int) -> Seq<char>
    decreases w,
{
    if w <= 0 {
        Seq::empty()
    } else {
        render_row_cells(s, y, w - 1) + seq![' ', render_cell_char(s, w - 1, y)]
    }
}

/// One rendered row: walls on both sides, the half-cell parity shift, and a
/// trailing newline.
pub open spec fn render_row(s: StateV, y: int) -> Seq<char> {
    seq!['|'] + (if odd(y) {
        seq![' ']
    } else {
        Seq::empty()
    }) + render_row_cells(s, y, s.width) + (if odd(y) {
        Seq::empty()
    } else {
        seq![' ']
    }) + seq!['|', '\n']
}

/// The first `h` rendered rows, concatenated.
pub open spec fn render_rows(s: StateV, h: int) -> Seq<char>
    decreases h,
{
    if h <= 0 {
        Seq::empty()
    } else {
        render_rows(s, h - 1) + render_row(s, h - 1)
    }
}

/// The full rendering of a state.
pub open spec fn render(s: StateV) -> Seq<char> {
    render_rows(s, s.height)
}

impl crate::State {
    /// Render this state as text, exactly as `render` describes.
    pub fn visualize(&self) -> (r: String)
        requires
            model::dims_ok(self@),
        ensures
            r@ == render(self@),
    {
        proof {
            reveal_strlit("|");
            reveal_strlit(" ");
            reveal_strlit("X");
            reveal_strlit("#");
            reveal_strlit("*");
            reveal_strlit("O");
            reveal_strlit(".");
            reveal_strlit("\n");
        }
        let ghost sv = self@;
        let mut out = String::new();
        let mut y: i32 = 0;
        while y < self.height
            invariant
                0 <= y <= self.height,
                out@ == render_rows(sv, y as int),
            decreases self.height - y,
        {
            out.append("|");
            if y % 2 == 1 {
                out.append(" ");
            }
            let ghost row_head = seq!['|'] + (if odd(y as int) {
                seq![' ']
            } else {
                Seq::<char>::empty()
            });
            proof {
                assert(out@ =~= render_rows(sv, y as int) + row_head);
            }
            let mut x: i32 = 0;
            while x < self.width
                invariant
                    0 <= x <= self.width,
                    0 <= y < self.height,
                    out@ == render_rows(sv, y as int) + row_head + render_row_cells(
                        sv,
                        y as int,
                        x as int,
                    ),
                decreases self.width - x,
            {
                out.append(" ");
                let here = Cell::new(x, y);
                let filled = self.is_filled(here);
                let lit: &str = if filled {
                    "X"
                } else if self.unit_sequence.len() > 0 && self.unit_sequence[0].pivot.x == here.x
                    && self.unit_sequence[0].pivot.y == here.y {
                    if crate::simulate::contains_cell(&self.unit_sequence[0].members, here) {
                        "#"
                    } else {
                        "*"
                    }
                } else if self.unit_sequence.len() > 0 && crate::simulate::contains_cell(
                    &self.unit_sequence[0].members,
                    here,
                ) {
                    "O"
                } else {
                    "."
                };
                proof {
                    if self.unit_sequence.len() > 0 {
                        assert(sv.units[0] == self.unit_sequence@[0]@);
                    }
                    assert(lit@ =~= seq![render_cell_char(sv, x as int, y as int)]);
                }
                out.append(lit);
                proof {
                    assert(out@ =~= render_rows(sv, y as int) + row_head + render_row_cells(
                        sv,
                        y as int,
                        x + 1,
                    ));
                }
                x = x + 1;
            }
            if y % 2 == 0 {
                out.append(" ");
            }
            out.append("|");
            out.append("\n");
            proof {
                assert(out@ =~= render_rows(sv, y as int) + render_row(sv, y as int));
                assert(out@ =~= render_rows(sv, y + 1));
            }
            y = y + 1;
        }
        out
    }
}

} // verus!
