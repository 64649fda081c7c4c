//! Tabular rendering: a bordered grid whose column widths follow the
//! widest rendered cell of each column, the header included. This is a
//! presentation concern, derived from the store's columns and the cells'
//! display texts.
use crate::dataframe::DataFrame;
use crate::val::{val_text, Val};
use vstd::prelude::*;
use vstd::string::*;

verus! {

/// `k` repetitions of one character.
pub open spec fn repeat_ch(c: char, k: nat) -> Seq<char>
    decreases k,
{
    if k == 0 {
        Seq::<char>::empty()
    } else {
        repeat_ch(c, (k - 1) as nat).push(c)
    }
}

/// Renders `k` repetitions of one character.
fn repeat_char(c: char, k: usize) -> (r: String)
    ensures
        r@ == repeat_ch(c, k as nat),
{
    let mut out = String::new();
    let mut i: usize = 0;
    proof {
        assert(out@ =~= repeat_ch(c, 0));
    }
    while i < k
        invariant
            0 <= i <= k,
            out@ == repeat_ch(c, i as nat),
        decreases k - i,
    {
        crate::numtext::push_char(&mut out, c);
        i += 1;
    }
    out
}

/// The border segments from column `i` on: a joint and each column's
/// dashes, four wider than the column.
pub open spec fn border_segs(lens: Seq<usize>, i: int) -> Seq<char>
    decreases lens.len() - i,
{
    if i < 0 || i >= lens.len() {
        Seq::<char>::empty()
    } else {
        seq!['+'] + repeat_ch('-', (lens[i] + 4) as nat) + border_segs(lens, i + 1)
    }
}

/// The horizontal border over the column widths; empty for no columns.
pub open spec fn border_text(lens: Seq<usize>) -> Seq<char> {
    if lens.len() == 0 {
        Seq::<char>::empty()
    } else {
        border_segs(lens, 0) + seq!['+']
    }
}

/// Renders the horizontal border of a grid with the given column widths.
pub fn printh_borders(lens: &Vec<usize>) -> (r: String)
    requires
        forall|i: int| 0 <= i < lens@.len() ==> #[trigger] lens@[i] <= usize::MAX - 4,
    ensures
        r@ == border_text(lens@),
{
    let n = lens.len();
    if n == 0 {
        return String::new();
    }
    let mut out = String::new();
    let mut i: usize = 0;
    proof {
        assert(out@ + border_segs(lens@, 0) =~= border_segs(lens@, 0));
    }
    while i < n
        invariant
            0 <= i <= n,
            n == lens@.len(),
            forall|k: int| 0 <= k < n ==> #[trigger] lens@[k] <= usize::MAX - 4,
            border_segs(lens@, 0) == out@ + border_segs(lens@, i as int),
        decreases n - i,
    {
        let ghost pre = out@;
        proof {
            reveal_strlit("+");
        }
        out.append("+");
        let dashes = repeat_char('-', lens[i] + 4);
        out.append(dashes.as_str());
        proof {
            assert(border_segs(lens@, i as int) == seq!['+'] + repeat_ch(
                '-',
                (lens@[i as int] + 4) as nat,
            ) + border_segs(lens@, i + 1));
            assert(out@ =~= pre + (seq!['+'] + repeat_ch('-', (lens@[i as int] + 4) as nat)));
            assert(pre + (seq!['+'] + repeat_ch('-', (lens@[i as int] + 4) as nat)) + border_segs(
                lens@,
                i + 1,
            ) =~= pre + border_segs(lens@, i as int));
        }
        i += 1;
    }
    proof {
        assert(border_segs(lens@, n as int) =~= Seq::<char>::empty());
        assert(out@ =~= border_segs(lens@, 0));
        reveal_strlit("+");
    }
    out.append("+");
    proof {
        assert(out@ =~= border_text(lens@));
    }
    out
}

/// The widest rendered cell of column `j`, rows `r` on, in quoted display.
pub open spec fn max_cell_from(data: Seq<Val>, w: int, h: int, j: int, r: int) -> int
    decreases h - r,
{
    if r < 0 || r >= h {
        0
    } else {
        let l = val_text(data[r * w + j], true).len() as int;
        let rest = max_cell_from(data, w, h, j, r + 1);
        if l > rest {
            l
        } else {
            rest
        }
    }
}

/// The display width of column `j`: the widest of its header and its
/// rendered cells, clipped so that the border's padding still fits.
pub open spec fn col_width(df: DataFrame, j: int) -> int {
    let hl = df.spec_headers()[j]@.len() as int;
    let cl = max_cell_from(df.spec_data(), df.spec_width(), df.spec_height(), j, 0);
    let m = if hl > cl {
        hl
    } else {
        cl
    };
    if m > usize::MAX - 8 {
        usize::MAX - 8
    } else {
        m
    }
}

/// The column widths of a whole table.
pub open spec fn widths_of(df: DataFrame) -> Seq<usize> {
    Seq::new(df.spec_width() as nat, |j: int| col_width(df, j) as usize)
}

/// One padded cell: a joint, a space, the text, and spaces out to the
/// column width plus one.
pub open spec fn cell_field(text: Seq<char>, wcol: int) -> Seq<char> {
    seq!['|', ' '] + text + repeat_ch(
        ' ',
        (if wcol + 1 >= text.len() {
            wcol + 1 - text.len()
        } else {
            0
        }) as nat,
    )
}

/// The header line's cells from column `j` on, closed by a joint.
pub open spec fn hdr_fields(df: DataFrame, j: int) -> Seq<char>
    decreases df.spec_width() - j,
{
    if j < 0 || j >= df.spec_width() {
        seq!['|']
    } else {
        cell_field(df.spec_headers()[j]@, col_width(df, j)) + hdr_fields(df, j + 1)
    }
}

/// One data row's cells from column `j` on, closed by a joint.
pub open spec fn row_fields(df: DataFrame, r: int, j: int) -> Seq<char>
    decreases df.spec_width() - j,
{
    if j < 0 || j >= df.spec_width() {
        seq!['|']
    } else {
        cell_field(val_text(df.spec_data()[r * df.spec_width() + j], true), col_width(df, j))
            + row_fields(df, r, j + 1)
    }
}

/// The data rows from row `r` on, one line each.
pub open spec fn rows_text(df: DataFrame, r: int) -> Seq<char>
    decreases df.spec_height() - r,
{
    if r < 0 || r >= df.spec_height() {
        Seq::<char>::empty()
    } else {
        row_fields(df, r, 0) + seq!['\n'] + rows_text(df, r + 1)
    }
}

/// The whole grid: a border, the header line, a border, the data rows,
/// and a closing border, each on its own line.
pub open spec fn render_text(df: DataFrame) -> Seq<char> {
    border_text(widths_of(df)) + seq!['\n'] + hdr_fields(df, 0) + seq!['\n'] + border_text(
        widths_of(df),
    ) + seq!['\n'] + rows_text(df, 0) + border_text(widths_of(df)) + seq!['\n']
}

/// Renders one padded cell.
fn render_cell(text: &String, wcol: usize) -> (r: String)
    requires
        wcol <= usize::MAX - 8,
    ensures
        r@ == cell_field(text@, wcol as int),
{
    let mut out = String::new();
    proof {
        reveal_strlit("| ");
    }
    out.append("| ");
    out.append(text.as_str());
    let tl = text.as_str().unicode_len();
    let pad: usize = if tl <= wcol + 1 {
        wcol + 1 - tl
    } else {
        0
    };
    let spaces = repeat_char(' ', pad);
    out.append(spaces.as_str());
    proof {
        assert("| "@ =~= seq!['|', ' ']);
        assert(out@ =~= cell_field(text@, wcol as int));
    }
    out
}

impl DataFrame {
    /// The column widths the grid uses, one per column.
    pub fn display_widths(&self) -> (r: Vec<usize>)
        requires
            self.well_formed(),
        ensures
            r@ == widths_of(*self),
    {
        let w = self.width_count();
        let h = self.height_count();
        let total = self.data_len();
        let headers = self.headers();
        let mut lens: Vec<usize> = Vec::new();
        let mut j: usize = 0;
        while j < w
            invariant
                self.well_formed(),
                0 <= j <= w,
                w == self.spec_width(),
                h == self.spec_height(),
                total == self.spec_data().len(),
                headers@ == self.spec_headers(),
                lens@.len() == j,
                forall|k: int| 0 <= k < j ==> #[trigger] lens@[k] == col_width(*self, k) as usize,
            decreases w - j,
        {
            let hl = headers[j].as_str().unicode_len();
            let mut acc: usize = 0;
            let mut r: usize = 0;
            while r < h
                invariant
                    self.well_formed(),
                    0 <= r <= h,
                    0 <= j < w,
                    w == self.spec_width(),
                    h == self.spec_height(),
                    total == self.spec_data().len(),
                    ({
                        let rest = max_cell_from(
                            self.spec_data(),
                            w as int,
                            h as int,
                            j as int,
                            r as int,
                        );
                        max_cell_from(self.spec_data(), w as int, h as int, j as int, 0) == (
                        if acc as int > rest {
                            acc as int
                        } else {
                            rest
                        })
                    }),
                decreases h - r,
            {
                proof {
                    assert(0 <= (r as int) * (w as int) && (r as int) * (w as int) + j < (w as int)
                        * (h as int)) by (nonlinear_arith)
                        requires
                            0 <= r < h,
                            0 <= j < w,
                    ;
                }
                let idx = r * w + j;
                let cell = self.cell_at(idx);
                let t = cell.to_text(true);
                let l = t.as_str().unicode_len();
                if l > acc {
                    acc = l;
                }
                r += 1;
            }
            let m: usize = if hl > acc {
                hl
            } else {
                acc
            };
            let clipped: usize = if m > usize::MAX - 8 {
                usize::MAX - 8
            } else {
                m
            };
            lens.push(clipped);
            j += 1;
        }
        proof {
            assert(lens@ =~= widths_of(*self));
        }
        lens
    }

    /// Renders the table as a bordered grid: a border, the header line, a
    /// border, one line per row, and a closing border.
    pub fn render(&self) -> (r: String)
        requires
            self.well_formed(),
        ensures
            r@ == render_text(*self),
    {
        let w = self.width_count();
        let h = self.height_count();
        let total = self.data_len();
        let headers = self.headers();
        let lens = self.display_widths();
        let border = printh_borders(&lens);
        let mut out = String::new();
        proof {
            reveal_strlit("\n");
            assert("\n"@ =~= seq!['\n']);
        }
        out.append(border.as_str());
        out.append("\n");

        // the header line
        let ghost hdr_goal = hdr_fields(*self, 0);
        let mut line = String::new();
        let mut j: usize = 0;
        proof {
            assert(line@ + hdr_fields(*self, 0) =~= hdr_fields(*self, 0));
        }
        while j < w
            invariant
                self.well_formed(),
                0 <= j <= w,
                w == self.spec_width(),
                headers@ == self.spec_headers(),
                lens@ == widths_of(*self),
                hdr_goal == hdr_fields(*self, 0),
                hdr_goal == line@ + hdr_fields(*self, j as int),
            decreases w - j,
        {
            let ghost pre = line@;
            let piece = render_cell(&headers[j], lens[j]);
            line.append(piece.as_str());
            proof {
                assert(hdr_fields(*self, j as int) == cell_field(
                    self.spec_headers()[j as int]@,
                    col_width(*self, j as int),
                ) + hdr_fields(*self, j + 1));
                assert(line@ =~= pre + cell_field(
                    self.spec_headers()[j as int]@,
                    col_width(*self, j as int),
                ));
                assert(line@ + hdr_fields(*self, j + 1) =~= pre + hdr_fields(*self, j as int));
            }
            j += 1;
        }
        proof {
            reveal_strlit("|");
            assert("|"@ =~= seq!['|']);
        }
        line.append("|");
        proof {
            assert(hdr_fields(*self, w as int) =~= seq!['|']);
            assert(line@ =~= hdr_goal);
        }
        out.append(line.as_str());
        out.append("\n");
        out.append(border.as_str());
        out.append("\n");

        // the data rows
        let ghost rows_goal = rows_text(*self, 0);
        let ghost out_before_rows = out@;
        let mut r: usize = 0;
        proof {
            assert(out@ + rows_text(*self, 0) =~= out_before_rows + rows_text(*self, 0));
        }
        while r < h
            invariant
                self.well_formed(),
                0 <= r <= h,
                w == self.spec_width(),
                h == self.spec_height(),
                total == self.spec_data().len(),
                lens@ == widths_of(*self),
                rows_goal == rows_text(*self, 0),
                out_before_rows + rows_goal == out@ + rows_text(*self, r as int),
            decreases h - r,
        {
            let ghost row_goal = row_fields(*self, r as int, 0);
            let mut rline = String::new();
            let mut j2: usize = 0;
            proof {
                assert(rline@ + row_fields(*self, r as int, 0) =~= row_fields(*self, r as int, 0));
            }
            while j2 < w
                invariant
                    self.well_formed(),
                    0 <= j2 <= w,
                    0 <= r < h,
                    w == self.spec_width(),
                    h == self.spec_height(),
                    total == self.spec_data().len(),
                    lens@ == widths_of(*self),
                    row_goal == row_fields(*self, r as int, 0),
                    row_goal == rline@ + row_fields(*self, r as int, j2 as int),
                decreases w - j2,
            {
                proof {
                    assert(0 <= (r as int) * (w as int) && (r as int) * (w as int) + j2 < (
                    w as int) * (h as int)) by (nonlinear_arith)
                        requires
                            0 <= r < h,
                            0 <= j2 < w,
                    ;
                }
                let idx = r * w + j2;
                let cell = self.cell_at(idx);
                let t = cell.to_text(true);
                let ghost pre = rline@;
                let piece = render_cell(&t, lens[j2]);
                rline.append(piece.as_str());
                proof {
                    assert(row_fields(*self, r as int, j2 as int) == cell_field(
                        val_text(self.spec_data()[(r as int) * (w as int) + j2], true),
                        col_width(*self, j2 as int),
                    ) + row_fields(*self, r as int, j2 + 1));
                    assert(rline@ =~= pre + cell_field(
                        val_text(self.spec_data()[(r as int) * (w as int) + j2], true),
                        col_width(*self, j2 as int),
                    ));
                    assert(rline@ + row_fields(*self, r as int, j2 + 1) =~= pre + row_fields(
                        *self,
                        r as int,
                        j2 as int,
                    ));
                }
                j2 += 1;
            }
            proof {
                reveal_strlit("|");
                assert("|"@ =~= seq!['|']);
            }
            rline.append("|");
            proof {
                assert(row_fields(*self, r as int, w as int) =~= seq!['|']);
                assert(rline@ =~= row_goal);
            }
            let ghost pre_out = out@;
            out.append(rline.as_str());
            proof {
                reveal_strlit("\n");
                assert("\n"@ =~= seq!['\n']);
            }
            out.append("\n");
            proof {
                assert(rows_text(*self, r as int) == row_fields(*self, r as int, 0) + seq!['\n']
                    + rows_text(*self, r + 1));
                assert(out@ =~= pre_out + (row_goal + seq!['\n']));
                assert(out@ + rows_text(*self, r + 1) =~= pre_out + rows_text(*self, r as int));
            }
            r += 1;
        }
        proof {
            assert(rows_text(*self, h as int) =~= Seq::<char>::empty());
            assert(out@ =~= out_before_rows + rows_goal);
        }
        out.append(border.as_str());
        out.append("\n");
        proof {
            assert(out@ =~= render_text(*self));
        }
        out
    }
}

} // verus!
