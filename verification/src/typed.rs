//! The schema-driven decoder: given the extracted field names and declared
//! field types, it selects and reorders the columns of comma-separated
//! text to match the schema's field order, decodes every selected cell as
//! its declared type directs, and materializes a table whose headers are
//! the schema's field names.
use crate::dataframe::DataFrame;
use crate::decode::{cells_of, lines_of, seg_views, split_cells, split_lines};
use crate::error::Error;
use crate::numtext::{float_text_valid, str_eq, usize_text_valid};
use crate::schema::{field_type_text, token_text, tokens_view, ParsedTokenStream, Token};
use crate::val::{typed_rel, usize_family, Val};
use vstd::prelude::*;
use vstd::string::*;

verus! {

/// The index of the first header cell equal to `name`, if any.
pub open spec fn pos_of(hs: Seq<Seq<char>>, name: Seq<char>) -> Option<int>
    decreases hs.len(),
{
    if hs.len() == 0 {
        None
    } else if hs[0] == name {
        Some(0int)
    } else {
        match pos_of(hs.subrange(1, hs.len() as int), name) {
            Some(i) => Some(i + 1),
            None => None,
        }
    }
}

/// `pos_of` returns the first match, and `None` exactly when no header
/// cell matches.
pub proof fn lemma_pos_of(hs: Seq<Seq<char>>, name: Seq<char>)
    ensures
        match pos_of(hs, name) {
            Some(j) => 0 <= j < hs.len() && hs[j] == name && forall|k: int|
                0 <= k < j ==> #[trigger] hs[k] != name,
            None => forall|k: int| 0 <= k < hs.len() ==> #[trigger] hs[k] != name,
        },
    decreases hs.len(),
{
    if hs.len() > 0 && hs[0] != name {
        let tl = hs.subrange(1, hs.len() as int);
        lemma_pos_of(tl, name);
        match pos_of(tl, name) {
            Some(i) => {
                assert(tl[i] == hs[i + 1]);
                assert forall|k: int| 0 <= k < i + 1 implies #[trigger] hs[k] != name by {
                    if k > 0 {
                        assert(tl[k - 1] == hs[k]);
                    }
                }
            },
            None => {
                assert forall|k: int| 0 <= k < hs.len() implies #[trigger] hs[k] != name by {
                    if k > 0 {
                        assert(tl[k - 1] == hs[k]);
                    }
                }
            },
        }
    }
}

/// Finds the first header cell equal to `name`.
fn find_pos(hs: &Vec<String>, name: &str) -> (r: Option<usize>)
    ensures
        match r {
            Some(j) => pos_of(seg_views(hs@), name@) == Some(j as int) && j < hs@.len(),
            None => pos_of(seg_views(hs@), name@) is None,
        },
{
    let n = hs.len();
    let mut i: usize = 0;
    while i < n
        invariant
            0 <= i <= n,
            n == hs@.len(),
            forall|k: int| 0 <= k < i ==> #[trigger] seg_views(hs@)[k] != name@,
        decreases n - i,
    {
        if str_eq(hs[i].as_str(), name) {
            proof {
                lemma_pos_of(seg_views(hs@), name@);
                assert(seg_views(hs@)[i as int] == hs@[i as int]@);
            }
            return Some(i);
        }
        proof {
            assert(seg_views(hs@)[i as int] == hs@[i as int]@);
        }
        i += 1;
    }
    proof {
        lemma_pos_of(seg_views(hs@), name@);
    }
    None
}

/// The schema fields found among the header cells, in schema order: each
/// with its name, its declared type, and its column position. Fields the
/// headers do not hold are dropped, not an error.
pub open spec fn found_from(
    fnames: Seq<Seq<char>>,
    ftypes: Seq<Seq<char>>,
    hs: Seq<Seq<char>>,
    k: int,
) -> Seq<(Seq<char>, Seq<char>, int)>
    decreases fnames.len() - k,
{
    if k < 0 || k >= fnames.len() {
        Seq::<(Seq<char>, Seq<char>, int)>::empty()
    } else {
        match pos_of(hs, fnames[k]) {
            Some(p) => seq![
                (
                    fnames[k],
                    if k < ftypes.len() {
                        ftypes[k]
                    } else {
                        Seq::<char>::empty()
                    },
                    p,
                ),
            ] + found_from(fnames, ftypes, hs, k + 1),
            None => found_from(fnames, ftypes, hs, k + 1),
        }
    }
}

/// The projection of a schema onto the header cells.
pub open spec fn found_fields(
    fnames: Seq<Seq<char>>,
    ftypes: Seq<Seq<char>>,
    hs: Seq<Seq<char>>,
) -> Seq<(Seq<char>, Seq<char>, int)> {
    found_from(fnames, ftypes, hs, 0)
}

/// The views of the found-field entries a decode works from.
pub open spec fn found_view(v: Seq<(String, String, usize)>) -> Seq<(Seq<char>, Seq<char>, int)> {
    v.map_values(|e: (String, String, usize)| (e.0@, e.1@, e.2 as int))
}

/// The cell text the projection selects for flat index `t`.
pub open spec fn proj_cell(
    s: Seq<char>,
    fseq: Seq<(Seq<char>, Seq<char>, int)>,
    t: int,
) -> Seq<char> {
    cells_of(lines_of(s)[1 + t / fseq.len() as int])[fseq[t % fseq.len() as int].2]
}

/// The declared type the projection assigns to flat index `t`.
pub open spec fn proj_ty(fseq: Seq<(Seq<char>, Seq<char>, int)>, t: int) -> Seq<char> {
    fseq[t % fseq.len() as int].1
}

/// True when one cell text reads as the declared type.
pub open spec fn typed_ok(cell: Seq<char>, ty: Seq<char>) -> bool {
    if ty == "String"@ {
        true
    } else if ty == "f64"@ {
        float_text_valid(cell)
    } else if usize_family(ty) {
        usize_text_valid(cell)
    } else {
        false
    }
}

/// True when data line `r` splits into as many cells as the header line.
pub open spec fn row_shape_ok(s: Seq<char>, r: int) -> bool {
    cells_of(lines_of(s)[1 + r]).len() == cells_of(lines_of(s)[0]).len()
}

/// Everything a schema-driven decode promises of its result: success
/// exactly when the text is rectangular and every selected cell reads as
/// its declared type; on success a table with the matched schema fields as
/// headers and the projected, typed cells as data; on failure the exact
/// error of the first cell or line refused.
pub open spec fn schema_decode_post(
    fnv: Seq<Seq<char>>,
    ftv: Seq<Seq<char>>,
    input: Seq<char>,
    r: Result<DataFrame, Error>,
) -> bool {
    let ls = lines_of(input);
    let hs = cells_of(ls[0]);
    let fseq = found_fields(fnv, ftv, hs);
    let fw = fseq.len() as int;
    let h = ls.len() - 1;
    &&& (r is Ok <==> ls.len() >= 1 && (forall|rr: int| 0 <= rr < h ==> row_shape_ok(input, rr))
        && (forall|t: int|
        0 <= t < h * fw ==> typed_ok(proj_cell(input, fseq, t), proj_ty(fseq, t))))
    &&& (r matches Ok(df) ==> {
        &&& df.well_formed()
        &&& df.spec_width() == fw
        &&& df.spec_height() == h
        &&& forall|j: int| 0 <= j < fw ==> (#[trigger] df.spec_headers()[j])@ == fseq[j].0
        &&& forall|t: int|
            0 <= t < h * fw ==> typed_rel(
                proj_cell(input, fseq, t),
                proj_ty(fseq, t),
                Ok(#[trigger] df.spec_data()[t]),
            )
    })
    &&& (r matches Err(e) ==> {
        ||| ls.len() == 0 && (e matches Error::Other(m) && m@ == "input text holds no lines"@)
        ||| (exists|r0: int|
            0 <= r0 < h && !(#[trigger] row_shape_ok(input, r0)) && (forall|rr: int|
                0 <= rr < r0 ==> row_shape_ok(input, rr)) && (forall|t: int|
                0 <= t < r0 * fw ==> typed_ok(proj_cell(input, fseq, t), proj_ty(fseq, t)))) && (
        e matches Error::Other(m) && m@ == "lines differ in cell count"@)
        ||| (exists|t0: int|
            0 <= t0 < h * fw && !typed_ok(
                #[trigger] proj_cell(input, fseq, t0),
                proj_ty(fseq, t0),
            ) && (forall|t: int|
                0 <= t < t0 ==> typed_ok(proj_cell(input, fseq, t), proj_ty(fseq, t))) && (
            forall|rr: int| 0 <= rr <= t0 / fw ==> row_shape_ok(input, rr)) && typed_rel(
                proj_cell(input, fseq, t0),
                proj_ty(fseq, t0),
                Err::<Val, Error>(e),
            ))
    })
}

/// Decodes comma-separated text against a schema: the first line names
/// the columns; each schema field found among them selects its column, in
/// schema order; every selected cell is decoded as the field's declared
/// type directs. The whole decode is refused for ragged lines, for an
/// unrecognized declared type, and for a cell that does not read as its
/// declared type.
pub fn read_str_schema(fnames: &Vec<String>, ftypes: &Vec<String>, input: String) -> (r: Result<
    DataFrame,
    Error,
>)
    requires
        fnames@.len() == ftypes@.len(),
    ensures
        schema_decode_post(seg_views(fnames@), seg_views(ftypes@), input@, r),
{
    let ghost ls = lines_of(input@);
    let lns = split_lines(input.as_str());
    if lns.len() == 0 {
        return Err(Error::Other(String::from_str("input text holds no lines")));
    }
    let headers = split_cells(lns[0].as_str());
    proof {
        assert(seg_views(lns@)[0] == lns@[0]@);
    }
    let ghost hs = cells_of(ls[0]);
    let ghost fnv = seg_views(fnames@);
    let ghost ftv = seg_views(ftypes@);
    let ghost fseq = found_fields(fnv, ftv, hs);

    // project the schema onto the header cells
    let fcount = fnames.len();
    let mut fsx: Vec<(String, String, usize)> = Vec::new();
    let mut k: usize = 0;
    proof {
        assert(found_view(fsx@) =~= Seq::<(Seq<char>, Seq<char>, int)>::empty());
        assert(found_view(fsx@) + found_from(fnv, ftv, hs, 0) =~= found_from(fnv, ftv, hs, 0));
    }
    while k < fcount
        invariant
            0 <= k <= fcount,
            fcount == fnames@.len(),
            fnames@.len() == ftypes@.len(),
            fnv == seg_views(fnames@),
            ftv == seg_views(ftypes@),
            hs == cells_of(ls[0]),
            seg_views(headers@) == hs,
            fseq == found_fields(fnv, ftv, hs),
            fseq == found_view(fsx@) + found_from(fnv, ftv, hs, k as int),
            forall|q: int| 0 <= q < fsx@.len() ==> 0 <= (#[trigger] fsx@[q]).2 < headers@.len(),
        decreases fcount - k,
    {
        let ghost pre = found_view(fsx@);
        match find_pos(&headers, fnames[k].as_str()) {
            Some(p) => {
                fsx.push((fnames[k].clone(), ftypes[k].clone(), p));
                proof {
                    assert(seg_views(fnames@)[k as int] == fnames@[k as int]@);
                    assert(seg_views(ftypes@)[k as int] == ftypes@[k as int]@);
                    assert(found_view(fsx@) =~= pre.push((fnv[k as int], ftv[k as int], p as int)));
                    assert(found_from(fnv, ftv, hs, k as int) == seq![
                        (fnv[k as int], ftv[k as int], p as int),
                    ] + found_from(fnv, ftv, hs, k + 1));
                    assert(found_view(fsx@) + found_from(fnv, ftv, hs, k + 1) =~= pre + found_from(
                        fnv,
                        ftv,
                        hs,
                        k as int,
                    ));
                }
            },
            None => {
                proof {
                    assert(seg_views(fnames@)[k as int] == fnames@[k as int]@);
                }
            },
        }
        k += 1;
    }
    proof {
        assert(found_from(fnv, ftv, hs, fcount as int) =~= Seq::<(Seq<char>, Seq<char>, int)>::empty());
        assert(fseq =~= found_view(fsx@));
    }
    let fw = fsx.len();
    let n = lns.len();

    // decode the selected cells row by row, in schema order
    let mut data: Vec<Val> = Vec::new();
    let mut li: usize = 1;
    while li < n
        invariant
            1 <= li <= n,
            n == lns@.len(),
            ls == lines_of(input@),
            seg_views(lns@) == ls,
            hs == cells_of(ls[0]),
            seg_views(headers@) == hs,
            fseq == found_view(fsx@),
            fseq == found_fields(seg_views(fnames@), seg_views(ftypes@), hs),
            fw == fsx@.len(),
            forall|q: int| 0 <= q < fsx@.len() ==> 0 <= (#[trigger] fsx@[q]).2 < headers@.len(),
            forall|rr: int| 0 <= rr < li - 1 ==> row_shape_ok(input@, rr),
            data@.len() == (li - 1) * fw,
            forall|t: int|
                0 <= t < data@.len() ==> typed_rel(
                    proj_cell(input@, fseq, t),
                    proj_ty(fseq, t),
                    Ok(#[trigger] data@[t]),
                ),
        decreases n - li,
    {
        let cs = split_cells(lns[li].as_str());
        proof {
            assert(seg_views(lns@)[li as int] == lns@[li as int]@);
        }
        if cs.len() != headers.len() {
            proof {
                assert(!row_shape_ok(input@, li - 1));
                assert forall|t: int| 0 <= t < (li - 1) * fw implies typed_ok(
                    proj_cell(input@, fseq, t),
                    proj_ty(fseq, t),
                ) by {
                    assert(typed_rel(proj_cell(input@, fseq, t), proj_ty(fseq, t), Ok(data@[t])));
                }
            }
            return Err(Error::Other(String::from_str("lines differ in cell count")));
        }
        let ghost row0 = li - 1;
        let mut j: usize = 0;
        while j < fw
            invariant
                0 <= j <= fw,
                1 <= li < n,
                n == lns@.len(),
                ls == lines_of(input@),
                seg_views(lns@) == ls,
                hs == cells_of(ls[0]),
                seg_views(headers@) == hs,
                seg_views(cs@) == cells_of(ls[li as int]),
                cs@.len() == headers@.len(),
                fseq == found_view(fsx@),
                fseq == found_fields(seg_views(fnames@), seg_views(ftypes@), hs),
                fw == fsx@.len(),
                forall|q: int| 0 <= q < fsx@.len() ==> 0 <= (#[trigger] fsx@[q]).2 < headers@.len(),
                forall|rr: int| 0 <= rr < li ==> row_shape_ok(input@, rr),
                row0 == li - 1,
                data@.len() == row0 * fw + j,
                forall|t: int|
                    0 <= t < data@.len() ==> typed_rel(
                        proj_cell(input@, fseq, t),
                        proj_ty(fseq, t),
                        Ok(#[trigger] data@[t]),
                    ),
            decreases fw - j,
        {
            proof {
                let t = row0 * (fw as int) + j;
                assert(t / (fw as int) == row0 && t % (fw as int) == j) by (nonlinear_arith)
                    requires
                        0 <= row0,
                        0 <= j < fw,
                        t == row0 * (fw as int) + j,
                ;
                assert(found_view(fsx@)[j as int] == (fsx@[j as int].0@, fsx@[j as int].1@, fsx@[
                    j as int].2 as int));
                assert(seg_views(cs@)[fsx@[j as int].2 as int] == cs@[fsx@[j as int].2 as int]@);
            }
            let entry_ty = &fsx[j].1;
            let p = fsx[j].2;
            let cell = &cs[p];
            match Val::from_str_typed(cell.as_str(), entry_ty.as_str()) {
                Ok(v) => {
                    data.push(v);
                },
                Err(e) => {
                    proof {
                        let t0 = row0 * (fw as int) + j;
                        assert(0 <= t0 && t0 < ((n - 1) as int) * (fw as int) && t0 / (fw as int)
                            == row0 && t0 % (fw as int) == j) by (nonlinear_arith)
                            requires
                                0 <= row0 < (n - 1) as int,
                                0 <= j < fw,
                                t0 == row0 * (fw as int) + j,
                        ;
                        assert(!typed_ok(proj_cell(input@, fseq, t0), proj_ty(fseq, t0)));
                        assert forall|t: int| 0 <= t < t0 implies typed_ok(
                            proj_cell(input@, fseq, t),
                            proj_ty(fseq, t),
                        ) by {
                            assert(typed_rel(
                                proj_cell(input@, fseq, t),
                                proj_ty(fseq, t),
                                Ok(data@[t]),
                            ));
                        }
                        assert forall|rr: int| 0 <= rr <= t0 / (fw as int) implies row_shape_ok(
                            input@,
                            rr,
                        ) by {}
                    }
                    return Err(e);
                },
            }
            j += 1;
        }
        proof {
            assert(row0 * fw + fw == (li - 1 + 1) * fw) by (nonlinear_arith)
                requires
                    row0 == li - 1,
            ;
        }
        li += 1;
    }
    let h = n - 1;

    // the output headers are the schema field names that matched
    let mut out_headers: Vec<String> = Vec::new();
    let mut q: usize = 0;
    while q < fw
        invariant
            0 <= q <= fw,
            fw == fsx@.len(),
            out_headers@.len() == q,
            forall|j: int| 0 <= j < q ==> (#[trigger] out_headers@[j])@ == fsx@[j].0@,
        decreases fw - q,
    {
        let nm = fsx[q].0.clone();
        out_headers.push(nm);
        q += 1;
    }
    proof {
        assert(data@.len() == (n - 1) * fw);
        assert(((n - 1) as int) * (fw as int) == (fw as int) * ((n - 1) as int)) by (nonlinear_arith);
    }
    let df = DataFrame::new(out_headers, data, fw, h);
    proof {
        assert forall|j: int| 0 <= j < fw implies (#[trigger] df.spec_headers()[j])@
            == fseq[j].0 by {
            assert(found_view(fsx@)[j] == (fsx@[j].0@, fsx@[j].1@, fsx@[j].2 as int));
        }
        assert forall|t: int| 0 <= t < (h as int) * (fw as int) implies typed_rel(
            proj_cell(input@, fseq, t),
            proj_ty(fseq, t),
            Ok(#[trigger] df.spec_data()[t]),
        ) by {}
        assert forall|t: int| 0 <= t < (h as int) * (fw as int) implies typed_ok(
            proj_cell(input@, fseq, t),
            proj_ty(fseq, t),
        ) by {
            assert(typed_rel(proj_cell(input@, fseq, t), proj_ty(fseq, t), Ok(df.spec_data()[t])));
        }
    }
    Ok(df)
}

/// The names of a declaration's field spans: each span's first token.
pub open spec fn span_names(d: Seq<Vec<Token>>) -> Seq<Seq<char>> {
    Seq::new(d.len(), |i: int| token_text(tokens_view(d[i]@)[0]))
}

/// The declared types of a declaration's field spans.
pub open spec fn span_types(d: Seq<Vec<Token>>) -> Seq<Seq<char>> {
    Seq::new(d.len(), |i: int| field_type_text(tokens_view(d[i]@)))
}

impl ParsedTokenStream {
    /// The loader this declaration's schema binds: decodes text with the
    /// declaration's field names and declared field types. A declaration
    /// without a field list loads nothing.
    pub fn read_str(&self, input: String) -> (r: Result<DataFrame, Error>)
        requires
            self.data matches Some(d) ==> forall|k: int|
                0 <= k < d@.len() ==> (#[trigger] d@[k])@.len() >= 1,
        ensures
            match self.data {
                None => r matches Err(e) && (e matches Error::Other(m) && m@
                    == "declaration holds no field list"@),
                Some(d) => schema_decode_post(span_names(d@), span_types(d@), input@, r),
            },
    {
        match self.fnames() {
            None => Err(Error::Other(String::from_str("declaration holds no field list"))),
            Some(ns) => {
                match self.ftypes() {
                    Some(ts) => {
                        proof {
                            let d = self.data->0;
                            assert(seg_views(ns@) =~= span_names(d@));
                            assert(seg_views(ts@) =~= span_types(d@));
                        }
                        read_str_schema(&ns, &ts, input)
                    },
                    None => {
                        proof {
                            assert(false);
                        }
                        Err(Error::Other(String::new()))
                    },
                }
            },
        }
    }
}

} // verus!
