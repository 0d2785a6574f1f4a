//! The grid as text: nine rows of digits, a dot for each square that is not
//! known, and rules between the boxes.

use crate::board::{index_of, lemma_known_value, Board};
use crate::cell::digit_char;
use crate::grid::Grid;
use vstd::prelude::*;
use vstd::string::StringExecFns;

verus! {

/// What is written for a square: its digit if it is known, a dot if not.
pub open spec fn cell_text(s: Set<int>) -> Seq<char> {
    if s.len() == 1 {
        seq![digit_char(s.choose())]
    } else {
        seq!['.']
    }
}

/// The first `n` squares of row `y`, with a bar before the fourth and the
/// seventh.
pub open spec fn row_text(b: Board, y: int, n: int) -> Seq<char>
    decreases n,
{
    if n <= 0 {
        Seq::empty()
    } else {
        let bar = if n - 1 > 0 && (n - 1) % 3 == 0 {
            seq!['|']
        } else {
            Seq::empty()
        };
        row_text(b, y, n - 1) + bar + cell_text(b[index_of(n - 1, y)])
    }
}

/// The rule between two rows of boxes: eleven dashes.
pub open spec fn rule_text() -> Seq<char> {
    Seq::new(11, |i: int| '-')
}

/// The first `m` rows, one per line, with a rule before the fourth and the
/// seventh.
pub open spec fn grid_text(b: Board, m: int) -> Seq<char>
    decreases m,
{
    if m <= 0 {
        Seq::empty()
    } else {
        let line_end = if m - 1 > 0 {
            seq!['\n']
        } else {
            Seq::empty()
        };
        let rule = if m - 1 > 0 && (m - 1) % 3 == 0 {
            rule_text() + seq!['\n']
        } else {
            Seq::empty()
        };
        grid_text(b, m - 1) + line_end + rule + row_text(b, m - 1, 9)
    }
}

impl Grid {
    /// The grid as text: each row on a line of its own, a digit for a known
    /// square and a dot for any other, a bar between the boxes of a row, and
    /// a rule of dashes between the rows of boxes.
    pub fn to_string(&self) -> (s: String)
        requires
            self.wf(),
        ensures
            s@ == grid_text(self@, 9),
    {
        let mut out = String::new();
        let mut y: i32 = 0;
        proof {
            reveal_strlit("\n");
            reveal_strlit("-----------");
            reveal_strlit("|");
            reveal_strlit(".");
            assert("-----------"@ =~= rule_text());
        }
        while y < 9
            invariant
                0 <= y <= 9,
                self.wf(),
                out@ == grid_text(self@, y as int),
                "\n"@ == seq!['\n'],
                "-----------"@ == rule_text(),
                "|"@ == seq!['|'],
                "."@ == seq!['.'],
            decreases 9 - y,
        {
            let ghost before = out@;
            if y > 0 {
                out.append("\n");
            }
            if y > 0 && y % 3 == 0 {
                out.append("-----------");
                out.append("\n");
            }
            let ghost start = out@;
            proof {
                let line_end = if y > 0 {
                    seq!['\n']
                } else {
                    Seq::<char>::empty()
                };
                let rule = if y > 0 && y % 3 == 0 {
                    rule_text() + seq!['\n']
                } else {
                    Seq::<char>::empty()
                };
                assert(start =~= before + line_end + rule);
                assert(start + row_text(self@, y as int, 0) =~= start);
            }
            let mut x: i32 = 0;
            while x < 9
                invariant
                    0 <= x <= 9,
                    0 <= y < 9,
                    self.wf(),
                    out@ == start + row_text(self@, y as int, x as int),
                    "|"@ == seq!['|'],
                    "."@ == seq!['.'],
                decreases 9 - x,
            {
                let ghost row = out@;
                if x > 0 && x % 3 == 0 {
                    out.append("|");
                }
                let cell = self.get(x, y);
                if cell.is_known() {
                    proof {
                        cell.lemma_wf();
                        cell.lemma_known();
                        assert(cell@.contains(cell.spec_value().digit()));
                        lemma_known_value(
                            cell@,
                            cell.spec_value().digit(),
                            cell@.choose(),
                        );
                    }
                    let text = cell.value().to_string();
                    out.append(text.as_str());
                } else {
                    proof {
                        cell.lemma_wf();
                    }
                    out.append(".");
                }
                proof {
                    let bar = if x > 0 && x % 3 == 0 {
                        seq!['|']
                    } else {
                        Seq::<char>::empty()
                    };
                    let c = self@[index_of(x as int, y as int)];
                    assert(out@ =~= row + bar + cell_text(c));
                    assert(out@ =~= start + (row_text(self@, y as int, x as int) + bar + cell_text(
                        c,
                    )));
                }
                x = x + 1;
            }
            proof {
                assert(out@ =~= grid_text(self@, y + 1));
            }
            y = y + 1;
        }
        out
    }
}

} // verus!
