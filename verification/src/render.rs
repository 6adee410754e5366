//! Fixed-layout textual rendering of a grid.

use vstd::prelude::*;
use vstd::string::StringExecFns;
use crate::grid::Board;

verus! {

/// The one character shown for a cell value: its digit, or a space when the
/// cell is empty.
pub open spec fn digit_char(v: u8) -> char {
    if v == 0 {
        ' '
    } else if v == 1 {
        '1'
    } else if v == 2 {
        '2'
    } else if v == 3 {
        '3'
    } else if v == 4 {
        '4'
    } else if v == 5 {
        '5'
    } else if v == 6 {
        '6'
    } else if v == 7 {
        '7'
    } else if v == 8 {
        '8'
    } else {
        '9'
    }
}

/// One row of the rendered grid: the nine cell characters separated by
/// spaces, with a '|' after the third and the sixth cell, ended by a newline.
pub open spec fn row_text(g: Seq<u8>, r: int) -> Seq<char> {
    seq![
        digit_char(g[r * 9 + 0]),
        ' ',
        digit_char(g[r * 9 + 1]),
        ' ',
        digit_char(g[r * 9 + 2]),
        ' ',
        '|',
        ' ',
        digit_char(g[r * 9 + 3]),
        ' ',
        digit_char(g[r * 9 + 4]),
        ' ',
        digit_char(g[r * 9 + 5]),
        ' ',
        '|',
        ' ',
        digit_char(g[r * 9 + 6]),
        ' ',
        digit_char(g[r * 9 + 7]),
        ' ',
        digit_char(g[r * 9 + 8]),
        '\n',
    ]
}

/// The divider line drawn after the third and the sixth row.
pub open spec fn divider_text() -> Seq<char> {
    "------+-------+------\n"@
}

/// The rendered text of the first n rows, after the leading newline.
pub open spec fn render_upto(g: Seq<u8>, n: int) -> Seq<char>
    decreases n,
{
    if n <= 0 {
        seq!['\n']
    } else {
        render_upto(g, n - 1) + row_text(g, n - 1) + (if n == 3 || n == 6 {
            divider_text()
        } else {
            Seq::<char>::empty()
        })
    }
}

/// The full rendered text of a grid.
pub open spec fn render_text(g: Seq<u8>) -> Seq<char> {
    render_upto(g, 9)
}

/// The one-character text of a cell value.
fn digit_str(v: u8) -> (s: &'static str)
    requires
        v <= 9,
    ensures
        s@.len() == 1,
        s@[0] == digit_char(v),
{
    proof {
        reveal_strlit(" ");
        reveal_strlit("1");
        reveal_strlit("2");
        reveal_strlit("3");
        reveal_strlit("4");
        reveal_strlit("5");
        reveal_strlit("6");
        reveal_strlit("7");
        reveal_strlit("8");
        reveal_strlit("9");
    }
    match v {
        0 => " ",
        1 => "1",
        2 => "2",
        3 => "3",
        4 => "4",
        5 => "5",
        6 => "6",
        7 => "7",
        8 => "8",
        _ => "9",
    }
}

impl Board {
    /// Appends the rendered text of row r to out.
    fn push_row(&self, out: &mut String, r: usize)
        requires
            self.wf(),
            r < 9,
        ensures
            final(out)@ == old(out)@ + row_text(self@, r as int),
    {
        out.append(digit_str(self.get(r, 0)));
        out.append(" ");
        out.append(digit_str(self.get(r, 1)));
        out.append(" ");
        out.append(digit_str(self.get(r, 2)));
        out.append(" | ");
        out.append(digit_str(self.get(r, 3)));
        out.append(" ");
        out.append(digit_str(self.get(r, 4)));
        out.append(" ");
        out.append(digit_str(self.get(r, 5)));
        out.append(" | ");
        out.append(digit_str(self.get(r, 6)));
        out.append(" ");
        out.append(digit_str(self.get(r, 7)));
        out.append(" ");
        out.append(digit_str(self.get(r, 8)));
        out.append("\n");
        proof {
            reveal_strlit(" ");
            reveal_strlit(" | ");
            reveal_strlit("\n");
            assert(out@ =~= old(out)@ + row_text(self@, r as int));
        }
    }

    /// The fixed-layout text of the grid: a leading newline, then nine rows
    /// of cells separated by '|' after columns 3 and 6, with a divider line
    /// after rows 3 and 6.
    pub fn render(&self) -> (text: String)
        requires
            self.wf(),
        ensures
            text@ == render_text(self@),
    {
        let mut out = String::new();
        out.append("\n");
        proof {
            reveal_strlit("\n");
            assert(out@ =~= render_upto(self@, 0));
        }
        let mut r: usize = 0;
        while r < 9
            invariant
                self.wf(),
                r <= 9,
                out@ == render_upto(self@, r as int),
            decreases 9 - r,
        {
            self.push_row(&mut out, r);
            if r == 2 || r == 5 {
                out.append("------+-------+------\n");
            }
            proof {
                assert(out@ =~= render_upto(self@, r as int + 1));
            }
            r += 1;
        }
        out
    }
}

} // verus!
