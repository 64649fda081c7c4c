//! The column-major table store: header names, a flat cell sequence, and
//! the two dimensions, with row and column accessors, in-place column
//! mutation, and the inference-based decoder.
use crate::decode::{cells_of, lines_of, seg_views, split_cells, split_lines};
use crate::error::Error;
use crate::numtext::str_eq;
use crate::val::{infer_rel, Val};
use vstd::prelude::*;
use vstd::string::*;

verus! {

/// A fixed-dimension table of cells. The cell for column `j` of row `r`
/// sits at flat index `r * width + j`.
pub struct DataFrame {
    headers: Vec<String>,
    data: Vec<Val>,
    width: usize,
    height: usize,
}

/// The index of the first header equal to `name`, if any.
pub open spec fn header_pos(hs: Seq<String>, name: Seq<char>) -> Option<int>
    decreases hs.len(),
{
    if hs.len() == 0 {
        None
    } else if hs[0]@ == name {
        Some(0int)
    } else {
        match header_pos(hs.subrange(1, hs.len() as int), name) {
            Some(i) => Some(i + 1),
            None => None,
        }
    }
}

/// `header_pos` returns the first match, and `None` exactly when no header
/// matches.
pub proof fn lemma_header_pos(hs: Seq<String>, name: Seq<char>)
    ensures
        match header_pos(hs, name) {
            Some(j) => 0 <= j < hs.len() && hs[j]@ == name && forall|k: int|
                0 <= k < j ==> #[trigger] hs[k]@ != name,
            None => forall|k: int| 0 <= k < hs.len() ==> #[trigger] hs[k]@ != name,
        },
    decreases hs.len(),
{
    if hs.len() > 0 && hs[0]@ != name {
        let tl = hs.subrange(1, hs.len() as int);
        lemma_header_pos(tl, name);
        match header_pos(tl, name) {
            Some(i) => {
                assert(tl[i] == hs[i + 1]);
                assert forall|k: int| 0 <= k < i + 1 implies #[trigger] hs[k]@ != name by {
                    if k > 0 {
                        assert(tl[k - 1] == hs[k]);
                    }
                }
            },
            None => {
                assert forall|k: int| 0 <= k < hs.len() implies #[trigger] hs[k]@ != name by {
                    if k > 0 {
                        assert(tl[k - 1] == hs[k]);
                    }
                }
            },
        }
    }
}

/// Finds the first header equal to `name`.
fn find_header(hs: &Vec<String>, name: &str) -> (r: Option<usize>)
    ensures
        match r {
            Some(j) => header_pos(hs@, name@) == Some(j as int),
            None => header_pos(hs@, name@) is None,
        },
{
    let n = hs.len();
    let mut i: usize = 0;
    while i < n
        invariant
            0 <= i <= n,
            n == hs@.len(),
            forall|k: int| 0 <= k < i ==> #[trigger] hs@[k]@ != name@,
        decreases n - i,
    {
        if str_eq(hs[i].as_str(), name) {
            proof {
                lemma_header_pos(hs@, name@);
            }
            return Some(i);
        }
        i += 1;
    }
    proof {
        lemma_header_pos(hs@, name@);
    }
    None
}

impl DataFrame {
    /// The header names.
    pub closed spec fn spec_headers(&self) -> Seq<String> {
        self.headers@
    }

    /// The flat cell sequence, row-major.
    pub closed spec fn spec_data(&self) -> Seq<Val> {
        self.data@
    }

    /// The declared column count.
    pub closed spec fn spec_width(&self) -> int {
        self.width as int
    }

    /// The declared row count.
    pub closed spec fn spec_height(&self) -> int {
        self.height as int
    }

    /// The documented construction contract: one header per column and one
    /// cell per column of every row. The dimensions, coming from machine
    /// words, are never negative.
    pub open spec fn well_formed(&self) -> bool {
        &&& 0 <= self.spec_width()
        &&& 0 <= self.spec_height()
        &&& self.spec_headers().len() == self.spec_width()
        &&& self.spec_data().len() == self.spec_width() * self.spec_height()
    }

    /// The cells of column `j`, in row order.
    pub open spec fn spec_col_at(&self, j: int) -> Seq<Val> {
        Seq::new(
            self.spec_height() as nat,
            |r: int| self.spec_data()[r * self.spec_width() + j],
        )
    }

    /// Stores the parts as given. The dimension agreement is the caller's
    /// obligation, discharged here once and for all instead of surfacing as
    /// an out-of-bounds access in a later accessor.
    pub fn new(headers: Vec<String>, data: Vec<Val>, width: usize, height: usize) -> (r: Self)
        requires
            headers@.len() == width,
            data@.len() == width * height,
        ensures
            r.spec_headers() == headers@,
            r.spec_data() == data@,
            r.spec_width() == width,
            r.spec_height() == height,
            r.well_formed(),
    {
        DataFrame { headers, data, width, height }
    }

    /// The declared column count.
    pub fn width_count(&self) -> (r: usize)
        ensures
            r == self.spec_width(),
    {
        self.width
    }

    /// The declared row count.
    pub fn height_count(&self) -> (r: usize)
        ensures
            r == self.spec_height(),
    {
        self.height
    }

    /// The number of stored cells.
    pub fn data_len(&self) -> (r: usize)
        ensures
            r == self.spec_data().len(),
    {
        self.data.len()
    }

    /// The cell at a flat index, column-major within each row.
    pub fn cell_at(&self, i: usize) -> (r: &Val)
        requires
            i < self.spec_data().len(),
        ensures
            *r == self.spec_data()[i as int],
    {
        &self.data[i]
    }

    /// The header names, in column order.
    pub fn headers(&self) -> (r: &Vec<String>)
        ensures
            r@ == self.spec_headers(),
    {
        &self.headers
    }

    /// The cells of the named column in row order, or nothing when no
    /// header matches: an absent column is a normal empty outcome for a
    /// read.
    pub fn col(&self, header: &str) -> (r: Option<Vec<Val>>)
        requires
            self.well_formed(),
        ensures
            match header_pos(self.spec_headers(), header@) {
                Some(j) => r matches Some(c) && c@ == self.spec_col_at(j),
                None => r is None,
            },
    {
        let pos = find_header(&self.headers, header);
        match pos {
            None => None,
            Some(j) => {
                proof {
                    lemma_header_pos(self.spec_headers(), header@);
                }
                let mut c: Vec<Val> = Vec::new();
                let total = self.data.len();
                let mut rr: usize = 0;
                while rr < self.height
                    invariant
                        self.well_formed(),
                        total == self.spec_data().len(),
                        0 <= j < self.spec_width(),
                        0 <= rr <= self.spec_height(),
                        c@.len() == rr,
                        forall|k: int|
                            0 <= k < rr ==> #[trigger] c@[k] == self.spec_data()[k
                                * self.spec_width() + j],
                    decreases self.spec_height() - rr,
                {
                    proof {
                        assert(0 <= (rr as int) * self.spec_width() && (rr as int)
                            * self.spec_width() + j < self.spec_width() * self.spec_height())
                            by (nonlinear_arith)
                            requires
                                0 <= rr < self.spec_height(),
                                0 <= j < self.spec_width(),
                        ;
                    }
                    let idx = rr * self.width + j;
                    c.push(self.data[idx].clone());
                    rr += 1;
                }
                proof {
                    assert(c@ =~= self.spec_col_at(j as int));
                }
                Some(c)
            },
        }
    }

    /// The named cells of one row, header by header, or nothing for an
    /// index at or past the row count.
    pub fn row(&self, idx: usize) -> (r: Option<Vec<(String, Val)>>)
        requires
            self.well_formed(),
        ensures
            idx >= self.spec_height() ==> r is None,
            idx < self.spec_height() ==> (r matches Some(m) && m@.len() == self.spec_width()
                && forall|j: int|
                0 <= j < self.spec_width() ==> (#[trigger] m@[j]).0 == self.spec_headers()[j]
                    && m@[j].1 == self.spec_data()[idx * self.spec_width() + j]),
    {
        if idx >= self.height {
            return None;
        }
        let mut m: Vec<(String, Val)> = Vec::new();
        let total = self.data.len();
        let mut j: usize = 0;
        while j < self.width
            invariant
                self.well_formed(),
                total == self.spec_data().len(),
                0 <= idx < self.spec_height(),
                0 <= j <= self.spec_width(),
                m@.len() == j,
                forall|k: int|
                    0 <= k < j ==> (#[trigger] m@[k]).0 == self.spec_headers()[k] && m@[k].1
                        == self.spec_data()[idx * self.spec_width() + k],
            decreases self.spec_width() - j,
        {
            proof {
                assert(0 <= (idx as int) * self.spec_width() && (idx as int) * self.spec_width()
                    + j < self.spec_width() * self.spec_height()) by (nonlinear_arith)
                    requires
                        0 <= idx < self.spec_height(),
                        0 <= j < self.spec_width(),
                ;
            }
            let p = idx * self.width + j;
            m.push((self.headers[j].clone(), self.data[p].clone()));
            j += 1;
        }
        Some(m)
    }

    /// Applies `f` to every cell of the named column, in row order and in
    /// place. A missing header is a contract violation for a write, so it
    /// is an error, and the table is left unchanged.
    pub fn loc<F: Fn(Val) -> Val>(&mut self, header: &str, f: F) -> (r: Result<(), Error>)
        requires
            old(self).well_formed(),
            match header_pos(old(self).spec_headers(), header@) {
                Some(j) => forall|i: int|
                    0 <= i < old(self).spec_data().len() && i % old(self).spec_width() == j
                        ==> call_requires(f, (#[trigger] old(self).spec_data()[i],)),
                None => true,
            },
        ensures
            match header_pos(old(self).spec_headers(), header@) {
                Some(j) => {
                    &&& r is Ok
                    &&& final(self).spec_headers() == old(self).spec_headers()
                    &&& final(self).spec_width() == old(self).spec_width()
                    &&& final(self).spec_height() == old(self).spec_height()
                    &&& final(self).spec_data().len() == old(self).spec_data().len()
                    &&& forall|i: int|
                        0 <= i < old(self).spec_data().len() && i % old(self).spec_width() == j
                            ==> call_ensures(
                            f,
                            (old(self).spec_data()[i],),
                            #[trigger] final(self).spec_data()[i],
                        )
                    &&& forall|i: int|
                        0 <= i < old(self).spec_data().len() && i % old(self).spec_width() != j
                            ==> #[trigger] final(self).spec_data()[i] == old(self).spec_data()[i]
                },
                None => {
                    &&& r matches Err(e) && e matches Error::HeaderNotFound(h) && h@ == header@
                    &&& *final(self) == *old(self)
                },
            },
    {
        let pos = find_header(&self.headers, header);
        match pos {
            None => Err(Error::HeaderNotFound(String::from_str(header))),
            Some(j) => {
                proof {
                    lemma_header_pos(self.spec_headers(), header@);
                }
                let w = self.width;
                let h = self.height;
                let total = self.data.len();
                let mut rr: usize = 0;
                while rr < h
                    invariant
                        0 <= rr <= h,
                        total == self.spec_data().len(),
                        w == old(self).spec_width(),
                        h == old(self).spec_height(),
                        0 <= j < w,
                        self.spec_headers() == old(self).spec_headers(),
                        self.spec_width() == old(self).spec_width(),
                        self.spec_height() == old(self).spec_height(),
                        self.spec_data().len() == old(self).spec_data().len(),
                        old(self).spec_data().len() == w * h,
                        forall|i: int|
                            0 <= i < old(self).spec_data().len() && i % (w as int) == j
                                ==> call_requires(f, (#[trigger] old(self).spec_data()[i],)),
                        forall|i: int|
                            0 <= i < old(self).spec_data().len() && i % (w as int) == j && i / (
                            w as int) < rr ==> call_ensures(
                                f,
                                (old(self).spec_data()[i],),
                                #[trigger] self.spec_data()[i],
                            ),
                        forall|i: int|
                            0 <= i < old(self).spec_data().len() && !(i % (w as int) == j && i / (
                            w as int) < rr) ==> #[trigger] self.spec_data()[i] == old(
                                self,
                            ).spec_data()[i],
                    decreases h - rr,
                {
                    proof {
                        assert((rr as int) * (w as int) + j < (w as int) * (h as int)
                            && ((rr as int) * (w as int) + j) % (w as int) == j && ((rr as int) * (
                        w as int) + j) / (w as int) == rr && 0 <= (rr as int) * (w as int))
                            by (nonlinear_arith)
                            requires
                                0 <= rr < h,
                                0 <= j < w,
                        ;
                    }
                    let idx = rr * w + j;
                    let cell = self.data[idx].clone();
                    let nv = f(cell);
                    self.data.set(idx, nv);
                    proof {
                        assert forall|i: int|
                            0 <= i < old(self).spec_data().len() && #[trigger] (i % (w as int))
                                == j && i / (w as int) == rr implies i == (rr as int) * (w as int)
                            + j by {
                            assert(i == (w as int) * (i / (w as int)) + (i % (w as int)))
                                by (nonlinear_arith)
                                requires
                                    (w as int) > 0,
                            ;
                            assert((w as int) * (rr as int) == (rr as int) * (w as int))
                                by (nonlinear_arith);
                        }
                    }
                    rr += 1;
                }
                proof {
                    assert forall|i: int|
                        0 <= i < old(self).spec_data().len() && #[trigger] (i % (w as int)) == j
                        implies i / (w as int) < h by {
                        assert(i / (w as int) < h) by (nonlinear_arith)
                            requires
                                0 <= i < (w as int) * (h as int),
                                0 < w,
                        ;
                    }
                }
                Ok(())
            },
        }
    }

    /// True when every line of the text splits into as many cells as the
    /// first line, and there is a first line at all.
    pub open spec fn shape_ok(s: Seq<char>) -> bool {
        &&& lines_of(s).len() >= 1
        &&& forall|i: int|
            0 <= i < lines_of(s).len() ==> cells_of(#[trigger] lines_of(s)[i]).len() == cells_of(
                lines_of(s)[0],
            ).len()
    }

    /// Decodes comma-separated text by inference: the first line names the
    /// columns, every later line is one row, and each cell takes the first
    /// reading that fits among integer, float numeral, and text. Text whose
    /// lines disagree in cell count is refused whole.
    pub fn read_str(input: String) -> (r: Result<DataFrame, Error>)
        ensures
            r is Ok <==> Self::shape_ok(input@),
            r matches Ok(df) ==> {
                let ls = lines_of(input@);
                let w = cells_of(ls[0]).len() as int;
                &&& df.well_formed()
                &&& df.spec_width() == w
                &&& df.spec_height() == ls.len() - 1
                &&& forall|j: int| 0 <= j < w ==> (#[trigger] df.spec_headers()[j])@ == cells_of(
                    ls[0],
                )[j]
                &&& forall|t: int|
                    0 <= t < df.spec_data().len() ==> infer_rel(
                        cells_of(ls[1 + t / w])[t % w],
                        #[trigger] df.spec_data()[t],
                    )
            },
            r matches Err(e) ==> e matches Error::Other(m) && (if lines_of(input@).len() == 0 {
                m@ == "input text holds no lines"@
            } else {
                m@ == "lines differ in cell count"@
            }),
    {
        let ghost ls = lines_of(input@);
        let lns = split_lines(input.as_str());
        if lns.len() == 0 {
            return Err(Error::Other(String::from_str("input text holds no lines")));
        }
        let headers = split_cells(lns[0].as_str());
        let w = headers.len();
        proof {
            assert(seg_views(lns@)[0] == lns@[0]@);
            assert(w == cells_of(ls[0]).len());
        }
        let mut data: Vec<Val> = Vec::new();
        let n = lns.len();
        let mut li: usize = 1;
        while li < n
            invariant
                1 <= li <= n,
                n == lns@.len(),
                ls == lines_of(input@),
                seg_views(lns@) == ls,
                w == cells_of(ls[0]).len(),
                forall|i: int| 1 <= i < li ==> cells_of(#[trigger] ls[i]).len() == w,
                data@.len() == (li - 1) * w,
                forall|t: int|
                    0 <= t < data@.len() ==> infer_rel(
                        cells_of(ls[1 + t / (w as int)])[t % (w as int)],
                        #[trigger] data@[t],
                    ),
            decreases n - li,
        {
            let cs = split_cells(lns[li].as_str());
            proof {
                assert(seg_views(lns@)[li as int] == lns@[li as int]@);
            }
            if cs.len() != w {
                proof {
                    assert(cells_of(ls[li as int]).len() != w);
                }
                return Err(Error::Other(String::from_str("lines differ in cell count")));
            }
            let ghost row0 = li - 1;
            let mut j: usize = 0;
            while j < w
                invariant
                    0 <= j <= w,
                    1 <= li < n,
                    n == lns@.len(),
                    ls == lines_of(input@),
                    seg_views(lns@) == ls,
                    w == cells_of(ls[0]).len(),
                    cs@.len() == w,
                    seg_views(cs@) == cells_of(ls[li as int]),
                    row0 == li - 1,
                    data@.len() == row0 * w + j,
                    forall|t: int|
                        0 <= t < data@.len() ==> infer_rel(
                            cells_of(ls[1 + t / (w as int)])[t % (w as int)],
                            #[trigger] data@[t],
                        ),
                decreases w - j,
            {
                let v = Val::infer(cs[j].as_str());
                proof {
                    let t = row0 * (w as int) + j;
                    assert(t / (w as int) == row0 && t % (w as int) == j) by (nonlinear_arith)
                        requires
                            0 <= row0,
                            0 <= j < w,
                            t == row0 * (w as int) + j,
                    ;
                    assert(seg_views(cs@)[j as int] == cs@[j as int]@);
                }
                data.push(v);
                j += 1;
            }
            proof {
                assert(row0 * w + w == (li - 1 + 1) * w) by (nonlinear_arith)
                    requires
                        row0 == li - 1,
                ;
            }
            li += 1;
        }
        let height = n - 1;
        proof {
            assert(data@.len() == (n - 1) * w);
            assert forall|i: int|
                0 <= i < ls.len() implies cells_of(#[trigger] ls[i]).len() == cells_of(
                ls[0],
            ).len() by {}
            assert(Self::shape_ok(input@));
        }
        let ghost gdata = data@;
        let df = DataFrame { headers, data, width: w, height };
        proof {
            assert forall|j: int| 0 <= j < w implies (#[trigger] df.spec_headers()[j])@ == cells_of(
                ls[0],
            )[j] by {
                assert(seg_views(df.spec_headers())[j] == df.spec_headers()[j]@);
            }
            assert(df.spec_data() == gdata);
            assert(((n - 1) as int) * (w as int) == (w as int) * ((n - 1) as int))
                by (nonlinear_arith);
            assert forall|t: int| 0 <= t < df.spec_data().len() implies infer_rel(
                cells_of(ls[1 + t / (w as int)])[t % (w as int)],
                #[trigger] df.spec_data()[t],
            ) by {
                assert(df.spec_data()[t] == gdata[t]);
            }
        }
        Ok(df)
    }
}

impl Clone for DataFrame {
    /// A table clones to one with the same headers, cells, and dimensions.
    fn clone(&self) -> (r: Self)
        ensures
            r.spec_headers() == self.spec_headers(),
            r.spec_data() == self.spec_data(),
            r.spec_width() == self.spec_width(),
            r.spec_height() == self.spec_height(),
    {
        let headers = self.headers.clone();
        let data = self.data.clone();
        proof {
            assert forall|i: int| 0 <= i < self.headers@.len() implies headers@[i]
                == self.headers@[i] by {
                assert(vstd::pervasive::cloned::<String>(self.headers@[i], headers@[i]));
            }
            assert(headers@ =~= self.headers@);
            assert forall|i: int| 0 <= i < self.data@.len() implies data@[i] == self.data@[i] by {
                assert(vstd::pervasive::cloned::<Val>(self.data@[i], data@[i]));
            }
            assert(data@ =~= self.data@);
        }
        DataFrame { headers, data, width: self.width, height: self.height }
    }
}

impl Default for DataFrame {
    /// The default table is empty: no headers, no cells, no columns, no
    /// rows.
    fn default() -> (r: Self)
        ensures
            r.spec_headers().len() == 0,
            r.spec_data().len() == 0,
            r.spec_width() == 0,
            r.spec_height() == 0,
            r.well_formed(),
    {
        DataFrame { headers: Vec::new(), data: Vec::new(), width: 0, height: 0 }
    }
}

/// Round-trip header identity: decoding well-formed text gives a table in
/// which every header name of the first line finds a column, and that
/// column holds exactly one cell per data line. The premises are what
/// `read_str` ensures of its result; the conclusion is what `col` then
/// returns for each header name.
pub proof fn lemma_round_trip_headers(input: Seq<char>, df: DataFrame)
    requires
        DataFrame::shape_ok(input),
        df.well_formed(),
        df.spec_width() == cells_of(lines_of(input)[0]).len(),
        df.spec_height() == lines_of(input).len() - 1,
        forall|j: int|
            0 <= j < df.spec_width() ==> (#[trigger] df.spec_headers()[j])@ == cells_of(
                lines_of(input)[0],
            )[j],
    ensures
        forall|j: int|
            0 <= j < df.spec_width() ==> ((#[trigger] header_pos(
                df.spec_headers(),
                df.spec_headers()[j]@,
            )) matches Some(p) && 0 <= p < df.spec_width() && df.spec_col_at(p).len()
                == df.spec_height()),
{
    assert forall|j: int| 0 <= j < df.spec_width() implies ((#[trigger] header_pos(
        df.spec_headers(),
        df.spec_headers()[j]@,
    )) matches Some(p) && 0 <= p < df.spec_width() && df.spec_col_at(p).len()
        == df.spec_height()) by {
        let name = df.spec_headers()[j]@;
        lemma_header_pos(df.spec_headers(), name);
        match header_pos(df.spec_headers(), name) {
            Some(p) => {
                assert(df.spec_col_at(p).len() == df.spec_height());
            },
            None => {
                assert(df.spec_headers()[j]@ != name);
            },
        }
    }
}

} // verus!
