//! What is read of a workbook's own parts, and where rows and their dimension end up.
use vstd::prelude::*;
use vstd::utf8::encode_utf8;
use crate::columns::value_in;
use crate::model::{col_name, law_column_read_back, letter_place, number_text};
use crate::text::{
    decimal, find_from, is_digit, lemma_decimal, lemma_encode_ascii, lemma_encode_concat,
    lemma_find_from, lemma_lossy_encode,
};
use crate::xlsx::again::new_acts;
use crate::xlsx::laws::{lemma_no_byte, lemma_unescape_plain};
use crate::xlsx::moved::{are_letters, lemma_first_place};
use crate::xlsx::surgery::{
    act_bytes, by_row, cell_after, cell_text, cells_between, cells_of, changed_sheet, clear_cells,
    fill_formulas, fresh_acts, keeps_formula, kept_cells, largest_row, missing_rows, new_above,
    new_left, patched, put_cells, put_formulas, request_for, row_acts, row_body, rows_above,
    rows_left, sheet_rows, CellAct, CellPut, CellValue, RowPut,
};
use crate::xlsx::xmlscan::{
    attr_of, bytes, cell_ref, cell_templates, colon_from, escaped, inside, is_at,
    law_reference_read_back, lemma_tag_from, part_path, rel_targets, row_number, sheet_data_from,
    sheet_table, stretched, tag_from, template_of, without_front_slashes, Tag,
};
use crate::xlsx::zipio::{tag_called, with_full_calc};

verus! {

// -------------------------------------------------------------------- dimension
proof fn lemma_colon_is(s: Seq<char>, i: int, k: int)
    requires
        0 <= i <= k < s.len(),
        s[k] == ':',
        forall|j: int| i <= j < k ==> #[trigger] s[j] != ':',
    ensures
        colon_from(s, i) == Some(k),
    decreases k - i,
{
    if i < k {
        assert(s[i] != ':');
        lemma_colon_is(s, i + 1, k);
    }
}

proof fn lemma_no_colon(s: Seq<char>, i: int)
    requires
        0 <= i <= s.len(),
        forall|j: int| i <= j < s.len() ==> #[trigger] s[j] != ':',
    ensures
        colon_from(s, i) is None,
    decreases s.len() - i,
{
    if i < s.len() {
        assert(s[i] != ':');
        lemma_no_colon(s, i + 1);
    }
}

/// The dimension is moved down to a row that lies below it, and keeps its first corner and its last
/// column; one that reaches the row stays.
pub proof fn law_dimension_reaches_row(first: Seq<char>, col: nat, row: nat, max_row: nat)
    requires
        forall|i: int| 0 <= i < first.len() ==> #[trigger] first[i] != ':',
        1 <= col <= 18278,
        row <= u32::MAX,
    ensures
        stretched(first + ":"@ + (col_name(col) + decimal(row)), max_row) == (if row < max_row {
            Some(first + ":"@ + (col_name(col) + decimal(max_row)))
        } else {
            None
        }),
{
    let last = col_name(col) + decimal(row);
    let s = first + ":"@ + last;
    let k = first.len() as int;
    reveal_strlit(":");
    law_reference_read_back(col, row);
    law_column_read_back(col);
    lemma_decimal(row);
    assert(s[k] == ':');
    assert forall|j: int| 0 <= j < k implies #[trigger] s[j] != ':' by {
        assert(s[j] == first[j]);
    }
    assert forall|j: int| k + 1 <= j < s.len() implies #[trigger] s[j] != ':' by {
        let m = j - k - 1;
        assert(s[j] == last[m]);
        if m < col_name(col).len() {
            assert(letter_place(col_name(col)[m]) is Some);
        } else {
            assert(is_digit(decimal(row)[m - col_name(col).len()]));
        }
    }
    lemma_colon_is(s, 0, k);
    lemma_no_colon(s, k + 1);
    assert(s.take(k) =~= first);
    assert(s.skip(k + 1) =~= last);
}

/// The dimension is moved to the largest of the rows that requests are for.
pub proof fn law_largest_row(ws: Seq<RowPut>)
    requires
        ws.len() > 0,
    ensures
        forall|i: int| 0 <= i < ws.len() ==> (#[trigger] ws[i]).row <= largest_row(ws),
        exists|i: int| 0 <= i < ws.len() && (#[trigger] ws[i]).row == largest_row(ws),
    decreases ws.len(),
{
    if ws.len() > 1 {
        let front = ws.drop_last();
        law_largest_row(front);
        assert forall|i: int| 0 <= i < ws.len() implies (#[trigger] ws[i]).row <= largest_row(
            ws,
        ) by {
            if i < front.len() {
                assert(front[i] == ws[i]);
            }
        }
        if largest_row(ws) == largest_row(front) {
            let i = choose|i: int|
                0 <= i < front.len() && (#[trigger] front[i]).row == largest_row(front);
            assert(ws[i].row == largest_row(ws));
        } else {
            assert(ws[ws.len() - 1].row == largest_row(ws));
        }
    } else {
        assert(ws[0].row == largest_row(ws));
    }
}

// ------------------------------------------------------------------------- rows
/// New rows stand in front of the first row with a larger number: all that are put in front of a row
/// have smaller numbers than it, none of those left has, and none is lost.
pub proof fn law_new_rows_stand_in_order(b: Seq<u8>, e: (Tag, (int, int)), new: Seq<RowPut>)
    requires
        forall|i: int, j: int| 0 <= i < j < new.len() ==> new[i].row <= new[j].row,
    ensures
        new_above(b, e, new) + new_left(b, e, new) == new,
        row_number(b, e.0) matches Some(n) ==> {
            &&& forall|i: int|
                0 <= i < new_above(b, e, new).len() ==> (#[trigger] new_above(b, e, new)[i]).row < n
            &&& forall|i: int|
                0 <= i < new_left(b, e, new).len() ==> (#[trigger] new_left(b, e, new)[i]).row >= n
        },
        row_number(b, e.0) is None ==> new_above(b, e, new).len() == 0,
{
    match row_number(b, e.0) {
        Some(n) => {
            lemma_rows_part(new, n);
        },
        None => {
            assert(new_above(b, e, new) + new =~= new);
        },
    }
}

proof fn lemma_rows_part(ws: Seq<RowPut>, n: nat)
    requires
        forall|i: int, j: int| 0 <= i < j < ws.len() ==> ws[i].row <= ws[j].row,
    ensures
        rows_above(ws, n) + rows_left(ws, n) == ws,
        forall|i: int|
            0 <= i < rows_above(ws, n).len() ==> (#[trigger] rows_above(ws, n)[i]).row < n,
        forall|i: int| 0 <= i < rows_left(ws, n).len() ==> (#[trigger] rows_left(ws, n)[i]).row >= n,
    decreases ws.len(),
{
    if ws.len() > 0 && ws[0].row < n {
        let r = ws.drop_first();
        assert forall|i: int, j: int| 0 <= i < j < r.len() implies r[i].row <= r[j].row by {
            assert(r[i] == ws[i + 1] && r[j] == ws[j + 1]);
        }
        lemma_rows_part(r, n);
        let above = rows_above(ws, n);
        assert(above =~= seq![ws[0]] + rows_above(r, n));
        assert(above + rows_left(ws, n) =~= seq![ws[0]] + r);
        assert(seq![ws[0]] + r =~= ws);
        assert forall|i: int| 0 <= i < above.len() implies (#[trigger] above[i]).row < n by {
            if i > 0 {
                assert(above[i] == rows_above(r, n)[i - 1]);
            }
        }
    } else {
        assert(rows_above(ws, n) + rows_left(ws, n) =~= ws);
        assert forall|i: int| 0 <= i < ws.len() implies (#[trigger] ws[i]).row >= n by {
            assert(ws[0].row <= ws[i].row);
        }
    }
}

/// Of several requests for a row the last one counts.
pub proof fn law_last_request_counts(ws: Seq<RowPut>, n: nat)
    ensures
        match request_for(ws, n) {
            Some(w) => exists|i: int|
                {
                    &&& 0 <= i < ws.len() && #[trigger] ws[i] == w && w.row == n
                    &&& forall|j: int| i < j < ws.len() ==> (#[trigger] ws[j]).row != n
                },
            None => forall|i: int| 0 <= i < ws.len() ==> (#[trigger] ws[i]).row != n,
        },
    decreases ws.len(),
{
    if ws.len() > 0 {
        let front = ws.drop_last();
        let k = ws.len() - 1;
        if ws.last().row == n {
            assert(ws[k] == ws.last());
        } else {
            law_last_request_counts(front, n);
            assert forall|j: int| 0 <= j < k implies #[trigger] ws[j] == front[j] by {}
            if let Some(w) = request_for(front, n) {
                let i = choose|i: int|
                    {
                        &&& 0 <= i < front.len() && #[trigger] front[i] == w && w.row == n
                        &&& forall|j: int| i < j < front.len() ==> (#[trigger] front[j]).row != n
                    };
                assert(ws[i] == w);
                assert forall|j: int| i < j < ws.len() implies (#[trigger] ws[j]).row != n by {
                    if j < k {
                        assert(front[j].row != n);
                    }
                }
            }
        }
    }
}

// -------------------------------------------------------------------- templates
/// The template of a column is the one that the last cell of this column gives.
pub proof fn law_template_of_column(b: Seq<u8>, cells: Seq<(Tag, (int, int))>, col: u32)
    ensures
        cell_templates(b, cells).contains_key(col) ==> exists|i: int|
            {
                &&& 0 <= i < cells.len()
                &&& cell_ref(b, (#[trigger] cells[i]).0) matches Some((c, _)) && c as u32 == col
                &&& cell_templates(b, cells)[col] == template_of(b, cells[i])
                &&& forall|j: int|
                    i < j < cells.len() ==> !(cell_ref(b, (#[trigger] cells[j]).0) matches Some((c, _))
                        && c as u32 == col)
            },
        !cell_templates(b, cells).contains_key(col) ==> forall|j: int|
            0 <= j < cells.len() ==> !(cell_ref(b, (#[trigger] cells[j]).0) matches Some((c, _))
                && c as u32 == col),
    decreases cells.len(),
{
    if cells.len() > 0 {
        let front = cells.drop_last();
        let k = cells.len() - 1;
        law_template_of_column(b, front, col);
        assert forall|j: int| 0 <= j < k implies #[trigger] cells[j] == front[j] by {}
        assert(cells[k] == cells.last());
        if cell_templates(b, cells).contains_key(col) && !(cell_ref(
            b,
            cells.last().0,
        ) matches Some((c, _)) && c as u32 == col) {
            let i = choose|i: int|
                {
                    &&& 0 <= i < front.len()
                    &&& cell_ref(b, (#[trigger] front[i]).0) matches Some((c, _)) && c as u32 == col
                    &&& cell_templates(b, front)[col] == template_of(b, front[i])
                    &&& forall|j: int|
                        i < j < front.len() ==> !(cell_ref(
                            b,
                            (#[trigger] front[j]).0,
                        ) matches Some((c, _)) && c as u32 == col)
                };
            assert(cells[i] == front[i]);
            assert forall|j: int| i < j < cells.len() implies !(cell_ref(
                b,
                (#[trigger] cells[j]).0,
            ) matches Some((c, _)) && c as u32 == col) by {
                if j < k {
                    assert(cells[j] == front[j]);
                }
            }
        }
    }
}

// ---------------------------------------------------------------------- package
/// A worksheet stands in the part that the relationship with its identifier points at.
pub proof fn law_worksheet_is_where_its_relationship_points(
    b: Seq<u8>,
    els: Seq<(Tag, (int, int))>,
    targets: Map<Seq<char>, Seq<char>>,
    sheet: Seq<char>,
)
    requires
        sheet_table(b, els, targets).contains_key(sheet),
    ensures
        exists|i: int|
            {
                &&& 0 <= i < els.len()
                &&& attr_of(inside(b, (#[trigger] els[i]).0), "name"@) == Some(sheet)
                &&& attr_of(inside(b, els[i].0), "r:id"@) matches Some(id) && targets.contains_key(
                    id,
                ) && sheet_table(b, els, targets)[sheet] == part_path(targets[id])
            },
    decreases els.len(),
{
    let front = els.drop_last();
    let k = els.len() - 1;
    let tag = inside(b, els.last().0);
    let set_here = attr_of(tag, "name"@) == Some(sheet) && (attr_of(tag, "r:id"@) matches Some(id)
        && targets.contains_key(id));
    if set_here {
        assert(els[k] == els.last());
    } else {
        law_worksheet_is_where_its_relationship_points(b, front, targets, sheet);
        let i = choose|i: int|
            {
                &&& 0 <= i < front.len()
                &&& attr_of(inside(b, (#[trigger] front[i]).0), "name"@) == Some(sheet)
                &&& attr_of(inside(b, front[i].0), "r:id"@) matches Some(id)
                    && targets.contains_key(id) && sheet_table(b, front, targets)[sheet]
                    == part_path(targets[id])
            };
        assert(els[i] == front[i]);
    }
}

/// A relationship points at the target that stands beside its identifier.
pub proof fn law_relationship_points_at_target(
    b: Seq<u8>,
    els: Seq<(Tag, (int, int))>,
    id: Seq<char>,
)
    requires
        rel_targets(b, els).contains_key(id),
    ensures
        exists|i: int|
            {
                &&& 0 <= i < els.len()
                &&& attr_of(inside(b, (#[trigger] els[i]).0), "Id"@) == Some(id)
                &&& attr_of(inside(b, els[i].0), "Target"@) == Some(rel_targets(b, els)[id])
            },
    decreases els.len(),
{
    let front = els.drop_last();
    let k = els.len() - 1;
    let tag = inside(b, els.last().0);
    if attr_of(tag, "Id"@) == Some(id) && attr_of(tag, "Target"@) is Some {
        assert(els[k] == els.last());
    } else {
        law_relationship_points_at_target(b, front, id);
        let i = choose|i: int|
            {
                &&& 0 <= i < front.len()
                &&& attr_of(inside(b, (#[trigger] front[i]).0), "Id"@) == Some(id)
                &&& attr_of(inside(b, front[i].0), "Target"@) == Some(rel_targets(b, front)[id])
            };
        assert(els[i] == front[i]);
    }
}

/// A target is found below `xl/`, whether it is written so or not, and slashes in front of it do not
/// count.
pub proof fn law_part_path(t: Seq<char>)
    ensures
        "xl/"@.is_prefix_of(part_path(t)),
        part_path("/"@ + t) == part_path(t),
        t.len() > 0 && t[0] != '/' && !"xl/"@.is_prefix_of(t) ==> part_path(t) == "xl/"@ + t,
        part_path("xl/"@ + t) == "xl/"@ + t,
{
    let w = "xl/"@ + t;
    let u = "/"@ + t;
    reveal_strlit("xl/");
    reveal_strlit("/");
    assert(w.subrange(0, 3) =~= "xl/"@);
    assert(w[0] == 'x');
    assert(u[0] == '/');
    assert(u.drop_first() =~= t);
    let v = "xl/"@ + without_front_slashes(t);
    assert(v.subrange(0, 3) =~= "xl/"@);
}

/// Bytes with others put in at `k`.
pub open spec fn put_at(b: Seq<u8>, k: int, ins: Seq<u8>) -> Seq<u8> {
    b.take(k) + ins + b.skip(k)
}

/// The request to calculate everything is put into the workbook whole, and nothing else changes; it is
/// not put there only where it is there already, or where there is neither a place for an attribute
/// nor for an element.
pub proof fn law_calculation_is_requested(b: Seq<u8>)
    ensures
        match with_full_calc(b) {
            Some(y) => exists|k: int, ins: Seq<char>|
                {
                    &&& 0 <= k <= b.len() && y == #[trigger] put_at(b, k, encode_utf8(ins))
                    &&& find_from(ins, 0, "fullCalcOnLoad=\"1\""@) is Some
                },
            None => find_from(b, 0, encode_utf8("fullCalcOnLoad"@)) is Some || (tag_called(
                b,
                0,
                "calcPr"@,
                false,
            ) is None && tag_called(b, 0, "workbook"@, true) is None),
        },
{
    let a = " fullCalcOnLoad=\"1\""@;
    let e = "<calcPr calcId=\"140000\" fullCalcOnLoad=\"1\"/>"@;
    let p = "fullCalcOnLoad=\"1\""@;
    reveal_strlit(" fullCalcOnLoad=\"1\"");
    reveal_strlit("<calcPr calcId=\"140000\" fullCalcOnLoad=\"1\"/>");
    reveal_strlit("fullCalcOnLoad=\"1\"");
    assert(a.subrange(1, 1int + p.len()) =~= p);
    assert(e.subrange(24, 24int + p.len()) =~= p);
    lemma_find_from(a, 0, p);
    lemma_find_from(e, 0, p);
    if let Some(t) = tag_called(b, 0, "calcPr"@, false) {
        lemma_called_bounds(b, 0, "calcPr"@, false);
        if let Some(y) = with_full_calc(b) {
            assert(y == put_at(b, t.inner.1, encode_utf8(a)));
        }
    } else if let Some(t) = tag_called(b, 0, "workbook"@, true) {
        lemma_called_bounds(b, 0, "workbook"@, true);
        assert(with_full_calc(b) == Some(put_at(b, t.at, encode_utf8(e))));
    }
}

proof fn lemma_called_bounds(b: Seq<u8>, pos: int, name: Seq<char>, closing: bool)
    ensures
        tag_called(b, pos, name, closing) matches Some(t) ==> 0 <= t.at <= b.len() && 0 <= t.inner.1
            <= b.len(),
    decreases b.len() - pos,
{
    lemma_tag_from(b, pos);
    if let Some(t) = tag_from(b, pos) {
        if !(t.name == name && t.closing == closing) {
            lemma_called_bounds(b, t.at + 1, name, closing);
        }
    }
}

// ------------------------------------------------------------------------ cells
/// Whether a request neither writes nor clears a column.
pub open spec fn is_left_alone(rw: RowPut, col: u32) -> bool {
    !rw.clear.contains(col) && forall|i: int|
        0 <= i < rw.cells.len() ==> (#[trigger] rw.cells[i]).col != col
}

proof fn lemma_put_cells_other(acts: Map<u32, CellAct>, cells: Seq<CellPut>, col: u32)
    requires
        forall|i: int| 0 <= i < cells.len() ==> (#[trigger] cells[i]).col != col,
    ensures
        put_cells(acts, cells).contains_key(col) == acts.contains_key(col),
        acts.contains_key(col) ==> put_cells(acts, cells)[col] == acts[col],
    decreases cells.len(),
{
    if cells.len() > 0 {
        let front = cells.drop_last();
        assert forall|i: int| 0 <= i < front.len() implies (#[trigger] front[i]).col != col by {
            assert(front[i] == cells[i]);
        }
        assert(cells[cells.len() - 1].col != col);
        lemma_put_cells_other(acts, front, col);
    }
}

proof fn lemma_clear_other(acts: Map<u32, CellAct>, cols: Seq<u32>, col: u32)
    requires
        !cols.contains(col),
    ensures
        clear_cells(acts, cols).contains_key(col) == acts.contains_key(col),
        acts.contains_key(col) ==> clear_cells(acts, cols)[col] == acts[col],
    decreases cols.len(),
{
    if cols.len() > 0 {
        let front = cols.drop_last();
        assert(cols[cols.len() - 1] != col);
        if front.contains(col) {
            let i = choose|i: int| 0 <= i < front.len() && front[i] == col;
            assert(cols[i] == col);
        }
        lemma_clear_other(acts, front, col);
    }
}

proof fn lemma_put_formulas(b: Seq<u8>, acts: Map<u32, CellAct>, formulas: Seq<CellPut>, k: int)
    requires
        0 <= k < formulas.len(),
        forall|i: int|
            0 <= i < formulas.len() && i != k ==> (#[trigger] formulas[i]).col != formulas[k].col,
    ensures
        ({
            let col = formulas[k].col;
            let after = put_formulas(b, acts, formulas);
            &&& keeps_formula(b, acts, col) ==> after.contains_key(col) && after[col] == acts[col]
            &&& !keeps_formula(b, acts, col) ==> after.contains_key(col) && after[col]
                == CellAct::Put(formulas[k].val, formulas[k].style)
        }),
    decreases formulas.len(),
{
    let col = formulas[k].col;
    let front = formulas.drop_last();
    let before = put_formulas(b, acts, front);
    if k == formulas.len() - 1 {
        assert forall|i: int| 0 <= i < front.len() implies (#[trigger] front[i]).col != col by {
            assert(front[i] == formulas[i]);
        }
        lemma_other_formulas(b, acts, front, col);
    } else {
        assert(front[k] == formulas[k]);
        assert forall|i: int| 0 <= i < front.len() && i != k implies (#[trigger] front[i]).col
            != front[k].col by {
            assert(front[i] == formulas[i]);
        }
        lemma_put_formulas(b, acts, front, k);
        assert(formulas[formulas.len() - 1].col != col);
    }
}

proof fn lemma_other_formulas(
    b: Seq<u8>,
    acts: Map<u32, CellAct>,
    formulas: Seq<CellPut>,
    col: u32,
)
    requires
        forall|i: int| 0 <= i < formulas.len() ==> (#[trigger] formulas[i]).col != col,
    ensures
        put_formulas(b, acts, formulas).contains_key(col) == acts.contains_key(col),
        acts.contains_key(col) ==> put_formulas(b, acts, formulas)[col] == acts[col],
    decreases formulas.len(),
{
    if formulas.len() > 0 {
        let front = formulas.drop_last();
        assert forall|i: int| 0 <= i < front.len() implies (#[trigger] front[i]).col != col by {
            assert(front[i] == formulas[i]);
        }
        assert(formulas[formulas.len() - 1].col != col);
        lemma_other_formulas(b, acts, front, col);
    }
}

/// A column that is to have a formula keeps its cell where that holds one, byte for byte, and gets the
/// formula where it holds none.
pub proof fn law_formula_is_kept_or_written(
    b: Seq<u8>,
    e: (Tag, (int, int)),
    rw: RowPut,
    k: int,
)
    requires
        0 <= k < rw.formulas.len(),
        forall|i: int|
            0 <= i < rw.formulas.len() && i != k ==> (#[trigger] rw.formulas[i]).col
                != rw.formulas[k].col,
        is_left_alone(rw, rw.formulas[k].col),
    ensures
        ({
            let col = rw.formulas[k].col;
            let kept = kept_cells(b, e);
            let after = row_acts(b, e, rw);
            &&& after.contains_key(col)
            &&& if kept.contains_key(col) && (kept[col] matches CellAct::Keep(from, to)
                && find_from(b.subrange(from, to), 0, encode_utf8("<f"@)) is Some) {
                after[col] == kept[col]
            } else {
                after[col] == CellAct::Put(rw.formulas[k].val, rw.formulas[k].style)
            }
        }),
{
    let col = rw.formulas[k].col;
    let kept = kept_cells(b, e);
    let cleared = clear_cells(kept, rw.clear);
    lemma_clear_other(kept, rw.clear, col);
    lemma_put_cells_other(cleared, rw.cells, col);
    lemma_put_formulas(b, put_cells(cleared, rw.cells), rw.formulas, k);
}

/// What stands in front of the rows of a worksheet and what stands behind them stays, byte for byte.
pub proof fn law_rest_of_worksheet_stays(b: Seq<u8>, ws: Seq<RowPut>)
    requires
        sheet_data_from(b, 0) matches Some((_, _, false)),
    ensures
        ({
            let (start, end, _) = sheet_data_from(b, 0)->0;
            exists|rows: Seq<u8>|
                changed_sheet(b, ws) == #[trigger] (b.take(start) + rows + b.skip(end))
        }),
{
    let (start, end, _) = sheet_data_from(b, 0)->0;
    let new = by_row(missing_rows(b, sheet_rows(b, start, end), ws));
    let rows = patched(b, start, end, ws, new);
    assert(changed_sheet(b, ws) == b.take(start) + rows + b.skip(end));
}

proof fn lemma_put_cells_value(acts: Map<u32, CellAct>, cells: Seq<CellPut>, col: u32)
    ensures
        match value_in(cells, col as int) {
            Some(v) => put_cells(acts, cells).contains_key(col) && (put_cells(
                acts,
                cells,
            )[col] matches CellAct::Put(x, _) && x == v),
            None => put_cells(acts, cells).contains_key(col) == acts.contains_key(col) && (
            acts.contains_key(col) ==> put_cells(acts, cells)[col] == acts[col]),
        },
    decreases cells.len(),
{
    if cells.len() > 0 {
        lemma_put_cells_value(acts, cells.drop_last(), col);
    }
}

proof fn lemma_fill_formulas(acts: Map<u32, CellAct>, formulas: Seq<CellPut>, col: u32)
    ensures
        acts.contains_key(col) ==> fill_formulas(acts, formulas).contains_key(col)
            && fill_formulas(acts, formulas)[col] == acts[col],
        !acts.contains_key(col) ==> {
            &&& fill_formulas(acts, formulas).contains_key(col) == (value_in(
                formulas,
                col as int,
            ) is Some)
            &&& fill_formulas(acts, formulas).contains_key(col) ==> exists|i: int|
                0 <= i < formulas.len() && (#[trigger] formulas[i]).col == col && fill_formulas(
                    acts,
                    formulas,
                )[col] == CellAct::Put(formulas[i].val, formulas[i].style)
        },
    decreases formulas.len(),
{
    if formulas.len() > 0 {
        let front = formulas.drop_last();
        let before = fill_formulas(acts, front);
        lemma_fill_formulas(acts, front, col);
        if !acts.contains_key(col) && before.contains_key(col) {
            let i = choose|i: int|
                0 <= i < front.len() && (#[trigger] front[i]).col == col && before[col]
                    == CellAct::Put(front[i].val, front[i].style);
            assert(formulas[i] == front[i]);
        } else if !acts.contains_key(col) && formulas.last().col == col {
            assert(formulas[formulas.len() - 1].col == col);
        }
    }
}

/// A row that is made anew has what the request writes into each column, a formula in the columns that
/// are to have one and are not written, and nothing else.
pub proof fn law_columns_of_new_row(rw: RowPut, col: u32)
    ensures
        match value_in(rw.cells, col as int) {
            Some(v) => new_acts(rw).contains_key(col) && (new_acts(rw)[col] matches CellAct::Put(x, _)
                && x == v),
            None => {
                &&& new_acts(rw).contains_key(col) == (value_in(rw.formulas, col as int) is Some)
                &&& new_acts(rw).contains_key(col) ==> exists|i: int|
                    0 <= i < rw.formulas.len() && (#[trigger] rw.formulas[i]).col == col
                        && new_acts(rw)[col] == CellAct::Put(
                        rw.formulas[i].val,
                        rw.formulas[i].style,
                    )
            },
        },
{
    lemma_put_cells_value(Map::empty(), rw.cells, col);
    lemma_fill_formulas(put_cells(Map::empty(), rw.cells), rw.formulas, col);
}

/// A cell names its column and its row, has the style that it is given, and holds its value: a number
/// as it is written, and a text or a formula in XML.
pub proof fn law_cell_holds_value(
    col: nat,
    row: nat,
    val: CellValue,
    style: Option<Seq<char>>,
)
    ensures
        exists|head: Seq<char>, styled: Seq<char>|
            #![trigger head + styled]
            {
                &&& head == "<c r=\""@ + (col_name(col) + decimal(row)) + "\""@
                &&& styled == (match style {
                    Some(s) => " s=\""@ + s + "\""@,
                    None => Seq::empty(),
                })
                &&& match val {
                    CellValue::Num(n) => cell_text(col, row, val, style) == head + styled
                        + "><v>"@ + number_text(n) + "</v></c>"@,
                    CellValue::Text(t) => cell_text(col, row, val, style) == head + styled
                        + " t=\"inlineStr\"><is><t xml:space=\"preserve\">"@ + escaped(t)
                        + "</t></is></c>"@,
                    CellValue::Formula(f) => cell_text(col, row, val, style) == head + styled
                        + "><f>"@ + escaped(f) + "</f></c>"@,
                }
            },
{
    let head = "<c r=\""@ + (col_name(col) + decimal(row)) + "\""@;
    let styled = match style {
        Some(s) => " s=\""@ + s + "\""@,
        None => Seq::empty(),
    };
    let all = cell_text(col, row, val, style);
    if style is None {
        assert(head + styled =~= head);
    }
    match val {
        CellValue::Num(n) => {
            assert(all =~= head + styled + "><v>"@ + number_text(n) + "</v></c>"@);
        },
        CellValue::Text(t) => {
            assert(all =~= head + styled + " t=\"inlineStr\"><is><t xml:space=\"preserve\">"@
                + escaped(t) + "</t></is></c>"@);
        },
        CellValue::Formula(f) => {
            assert(all =~= head + styled + "><f>"@ + escaped(f) + "</f></c>"@);
        },
    }
}

proof fn lemma_cells_split(
    b: Seq<u8>,
    row: nat,
    acts: Map<u32, CellAct>,
    from: nat,
    mid: nat,
    n: nat,
)
    requires
        from <= mid <= n,
    ensures
        cells_between(b, row, acts, from, n) == cells_between(b, row, acts, from, mid)
            + cells_between(b, row, acts, mid, n),
    decreases n,
{
    if n == mid {
        assert(cells_between(b, row, acts, from, mid) + cells_between(b, row, acts, mid, n)
            =~= cells_between(b, row, acts, from, n));
    } else {
        lemma_cells_split(b, row, acts, from, mid, (n - 1) as nat);
        assert(cells_between(b, row, acts, from, mid) + cells_between(b, row, acts, mid, n)
            =~= cells_between(b, row, acts, from, n));
    }
}

/// The cells of a new row stand in the order of their columns.
pub proof fn law_cells_stand_in_order(
    b: Seq<u8>,
    row: nat,
    acts: Map<u32, CellAct>,
    left: u32,
    right: u32,
)
    requires
        left < right,
        acts.contains_key(left),
        acts.contains_key(right),
    ensures
        exists|x: Seq<u8>, y: Seq<u8>, z: Seq<u8>|
            cells_of(b, row, acts) == #[trigger] (x + act_bytes(b, left as nat, row, acts[left]) + y
                + act_bytes(b, right as nat, row, acts[right]) + z),
{
    let l = left as nat;
    let r = right as nat;
    let n: nat = 0x1_0000_0000;
    let a = act_bytes(b, l, row, acts[left]);
    let c = act_bytes(b, r, row, acts[right]);
    let x = cells_between(b, row, acts, 0, l);
    let y = cells_between(b, row, acts, (l + 1) as nat, r);
    let z = cells_between(b, row, acts, (r + 1) as nat, n);
    lemma_cells_split(b, row, acts, 0, r, n);
    lemma_cells_split(b, row, acts, r, (r + 1) as nat, n);
    lemma_cells_split(b, row, acts, 0, l, r);
    lemma_cells_split(b, row, acts, l, (l + 1) as nat, r);
    lemma_one_cell(b, row, acts, left);
    lemma_one_cell(b, row, acts, right);
    assert(cells_of(b, row, acts) =~= x + a + y + c + z);
}

proof fn lemma_one_cell(b: Seq<u8>, row: nat, acts: Map<u32, CellAct>, col: u32)
    requires
        acts.contains_key(col),
    ensures
        cells_between(b, row, acts, col as nat, (col + 1) as nat) == act_bytes(
            b,
            col as nat,
            row,
            acts[col],
        ),
{
    assert(cells_between(b, row, acts, col as nat, col as nat) =~= Seq::<u8>::empty());
    assert(Seq::<u8>::empty() + act_bytes(b, col as nat, row, acts[col]) =~= act_bytes(
        b,
        col as nat,
        row,
        acts[col],
    ));
}

/// A column that had no cell and is not done yet gets its cell somewhere in the rest of the row.
proof fn lemma_fresh_comes(
    b: Seq<u8>,
    cells: Seq<(Tag, (int, int))>,
    pos: int,
    end: int,
    row: nat,
    kept: Map<u32, CellAct>,
    acts: Map<u32, CellAct>,
    next: nat,
    c: u32,
)
    requires
        acts.contains_key(c),
        !kept.contains_key(c),
        next <= c,
        forall|j: int|
            0 <= j < cells.len() ==> (cell_ref(b, (#[trigger] cells[j]).0) matches Some((col, _))
                ==> col != c),
    ensures
        exists|x: Seq<u8>, z: Seq<u8>|
            row_body(b, cells, pos, end, row, kept, acts, next) == #[trigger] (x + act_bytes(
                b,
                c as nat,
                row,
                acts[c],
            ) + z),
    decreases cells.len(),
{
    let fresh = fresh_acts(kept, acts);
    let a = act_bytes(b, c as nat, row, acts[c]);
    let n: nat = 0x1_0000_0000;
    let all = row_body(b, cells, pos, end, row, kept, acts, next);
    assert(fresh.contains_key(c) && fresh[c] == acts[c]);
    if cells.len() == 0 {
        lemma_fresh_between(b, row, fresh, next, c, n);
        let x = b.subrange(pos, end) + cells_between(b, row, fresh, next, c as nat);
        let z = cells_between(b, row, fresh, (c + 1) as nat, n);
        assert(all =~= x + a + z);
    } else {
        let (t, s) = cells[0];
        let rest = cells.drop_first();
        assert forall|j: int| 0 <= j < rest.len() implies (cell_ref(
            b,
            (#[trigger] rest[j]).0,
        ) matches Some((col, _)) ==> col != c) by {
            assert(rest[j] == cells[j + 1]);
        }
        match cell_ref(b, t) {
            None => {
                lemma_fresh_comes(b, rest, pos, end, row, kept, acts, next, c);
            },
            Some((col, _)) => {
                let then = if next < col {
                    col
                } else {
                    next
                };
                let gap = b.subrange(pos, s.0);
                let cell = cell_after(b, row, kept, acts, col as u32, s);
                let tail = row_body(b, rest, s.1, end, row, kept, acts, then);
                assert(cells[0].0 == t);
                if c < col {
                    lemma_fresh_between(b, row, fresh, next, c, col);
                    let x = gap + cells_between(b, row, fresh, next, c as nat);
                    let z = cells_between(b, row, fresh, (c + 1) as nat, col) + cell + tail;
                    assert(all =~= x + a + z);
                } else {
                    lemma_fresh_comes(b, rest, s.1, end, row, kept, acts, then, c);
                    let (y, w) = choose|y: Seq<u8>, w: Seq<u8>| tail == #[trigger] (y + a + w);
                    let x = gap + cells_between(b, row, fresh, next, col) + cell + y;
                    assert(all =~= x + a + w);
                }
            },
        }
    }
}

proof fn lemma_fresh_between(
    b: Seq<u8>,
    row: nat,
    fresh: Map<u32, CellAct>,
    from: nat,
    c: u32,
    n: nat,
)
    requires
        from <= c < n,
        fresh.contains_key(c),
    ensures
        cells_between(b, row, fresh, from, n) == cells_between(b, row, fresh, from, c as nat)
            + act_bytes(b, c as nat, row, fresh[c]) + cells_between(
            b,
            row,
            fresh,
            (c + 1) as nat,
            n,
        ),
{
    lemma_cells_split(b, row, fresh, from, c as nat, n);
    lemma_cells_split(b, row, fresh, c as nat, (c + 1) as nat, n);
    lemma_one_cell(b, row, fresh, c);
    assert(cells_between(b, row, fresh, from, n) =~= cells_between(
        b,
        row,
        fresh,
        from,
        c as nat,
    ) + act_bytes(b, c as nat, row, fresh[c]) + cells_between(
        b,
        row,
        fresh,
        (c + 1) as nat,
        n,
    ));
}

/// What becomes of a cell is in the rest of the row.
proof fn lemma_cell_comes(
    b: Seq<u8>,
    cells: Seq<(Tag, (int, int))>,
    pos: int,
    end: int,
    row: nat,
    kept: Map<u32, CellAct>,
    acts: Map<u32, CellAct>,
    next: nat,
    i: int,
)
    requires
        0 <= i < cells.len(),
        cell_ref(b, cells[i].0) is Some,
    ensures
        ({
            let at = cell_after(
                b,
                row,
                kept,
                acts,
                (cell_ref(b, cells[i].0)->0).0 as u32,
                cells[i].1,
            );
            exists|x: Seq<u8>, z: Seq<u8>|
                row_body(b, cells, pos, end, row, kept, acts, next) == #[trigger] (x + at + z)
        }),
    decreases cells.len(),
{
    let fresh = fresh_acts(kept, acts);
    let at = cell_after(b, row, kept, acts, (cell_ref(b, cells[i].0)->0).0 as u32, cells[i].1);
    let all = row_body(b, cells, pos, end, row, kept, acts, next);
    let (t, s) = cells[0];
    let rest = cells.drop_first();
    match cell_ref(b, t) {
        None => {
            assert(rest[i - 1] == cells[i]);
            lemma_cell_comes(b, rest, pos, end, row, kept, acts, next, i - 1);
        },
        Some((col, _)) => {
            let then = if next < col {
                col
            } else {
                next
            };
            let gap = b.subrange(pos, s.0);
            let cell = cell_after(b, row, kept, acts, col as u32, s);
            let mid = cells_between(b, row, fresh, next, col);
            let tail = row_body(b, rest, s.1, end, row, kept, acts, then);
            if i == 0 {
                assert(all =~= (gap + mid) + at + tail);
            } else {
                assert(rest[i - 1] == cells[i]);
                lemma_cell_comes(b, rest, s.1, end, row, kept, acts, then, i - 1);
                let (y, w) = choose|y: Seq<u8>, w: Seq<u8>| tail == #[trigger] (y + at + w);
                assert(all =~= (gap + mid + cell + y) + at + w);
            }
        },
    }
}

/// A column that had no cell gets its cell in front of every cell of a later column.
#[verifier::spinoff_prover]
#[verifier::rlimit(60)]
pub proof fn law_new_cell_stands_in_front(
    b: Seq<u8>,
    cells: Seq<(Tag, (int, int))>,
    pos: int,
    end: int,
    row: nat,
    kept: Map<u32, CellAct>,
    acts: Map<u32, CellAct>,
    next: nat,
    i: int,
    c: u32,
)
    requires
        0 <= i < cells.len(),
        cell_ref(b, cells[i].0) is Some,
        acts.contains_key(c),
        !kept.contains_key(c),
        next <= c,
        forall|j: int|
            0 <= j < cells.len() ==> (cell_ref(b, (#[trigger] cells[j]).0) matches Some((col, _))
                ==> col != c),
        c < (cell_ref(b, cells[i].0)->0).0,
    ensures
        ({
            let at = (cell_ref(b, cells[i].0)->0).0;
            let cell = cell_after(b, row, kept, acts, at as u32, cells[i].1);
            let a = act_bytes(b, c as nat, row, acts[c]);
            exists|x: Seq<u8>, y: Seq<u8>, z: Seq<u8>|
                row_body(b, cells, pos, end, row, kept, acts, next) == #[trigger] (x + a + y + cell + z)
        }),
    decreases cells.len(),
{
    let fresh = fresh_acts(kept, acts);
    let at = (cell_ref(b, cells[i].0)->0).0;
    let cell = cell_after(b, row, kept, acts, at as u32, cells[i].1);
    let a = act_bytes(b, c as nat, row, acts[c]);
    let all = row_body(b, cells, pos, end, row, kept, acts, next);
    let (t, s) = cells[0];
    let rest = cells.drop_first();
    assert(fresh.contains_key(c) && fresh[c] == acts[c]);
    assert forall|j: int| 0 <= j < rest.len() implies (cell_ref(
        b,
        (#[trigger] rest[j]).0,
    ) matches Some((col, _)) ==> col != c) by {
        assert(rest[j] == cells[j + 1]);
    }
    match cell_ref(b, t) {
        None => {
            assert(rest[i - 1] == cells[i]);
            law_new_cell_stands_in_front(b, rest, pos, end, row, kept, acts, next, i - 1, c);
        },
        Some((col, _)) => {
            let then = if next < col {
                col
            } else {
                next
            };
            let gap = b.subrange(pos, s.0);
            let first = cell_after(b, row, kept, acts, col as u32, s);
            let mid = cells_between(b, row, fresh, next, col);
            let tail = row_body(b, rest, s.1, end, row, kept, acts, then);
            assert(cells[0].0 == t);
            assert(all =~= gap + mid + first + tail);
            if c < col {
                lemma_fresh_between(b, row, fresh, next, c, col);
                let before = cells_between(b, row, fresh, next, c as nat);
                let after = cells_between(b, row, fresh, (c + 1) as nat, col);
                if i == 0 {
                    assert(all =~= (gap + before) + a + after + cell + tail);
                } else {
                    assert(rest[i - 1] == cells[i]);
                    lemma_cell_comes(b, rest, s.1, end, row, kept, acts, then, i - 1);
                    let (y, w) = choose|y: Seq<u8>, w: Seq<u8>| tail == #[trigger] (y + cell + w);
                    assert(all =~= (gap + before) + a + (after + first + y) + cell + w);
                }
            } else {
                assert(rest[i - 1] == cells[i]);
                law_new_cell_stands_in_front(b, rest, s.1, end, row, kept, acts, then, i - 1, c);
                let (x, y, z) = choose|x: Seq<u8>, y: Seq<u8>, z: Seq<u8>|
                    tail == #[trigger] (x + a + y + cell + z);
                assert(all =~= (gap + mid + first + x) + a + y + cell + z);
            }
        },
    }
}

/// A column that had no cell gets its cell behind a cell up to which only cells of earlier columns
/// stand.
#[verifier::spinoff_prover]
#[verifier::rlimit(60)]
pub proof fn law_new_cell_stands_behind(
    b: Seq<u8>,
    cells: Seq<(Tag, (int, int))>,
    pos: int,
    end: int,
    row: nat,
    kept: Map<u32, CellAct>,
    acts: Map<u32, CellAct>,
    next: nat,
    i: int,
    c: u32,
)
    requires
        0 <= i < cells.len(),
        cell_ref(b, cells[i].0) is Some,
        acts.contains_key(c),
        !kept.contains_key(c),
        next <= c,
        forall|j: int|
            0 <= j < cells.len() ==> (cell_ref(b, (#[trigger] cells[j]).0) matches Some((col, _))
                ==> col != c),
        forall|j: int|
            0 <= j <= i ==> (cell_ref(b, (#[trigger] cells[j]).0) matches Some((col, _)) ==> col < c),
    ensures
        ({
            let at = (cell_ref(b, cells[i].0)->0).0;
            let cell = cell_after(b, row, kept, acts, at as u32, cells[i].1);
            let a = act_bytes(b, c as nat, row, acts[c]);
            exists|x: Seq<u8>, y: Seq<u8>, z: Seq<u8>|
                row_body(b, cells, pos, end, row, kept, acts, next) == #[trigger] (x + cell + y + a + z)
        }),
    decreases cells.len(),
{
    let fresh = fresh_acts(kept, acts);
    let at = (cell_ref(b, cells[i].0)->0).0;
    let cell = cell_after(b, row, kept, acts, at as u32, cells[i].1);
    let a = act_bytes(b, c as nat, row, acts[c]);
    let all = row_body(b, cells, pos, end, row, kept, acts, next);
    let (t, s) = cells[0];
    let rest = cells.drop_first();
    assert(fresh.contains_key(c) && fresh[c] == acts[c]);
    assert forall|j: int| 0 <= j < rest.len() implies (cell_ref(
        b,
        (#[trigger] rest[j]).0,
    ) matches Some((col, _)) ==> col != c) by {
        assert(rest[j] == cells[j + 1]);
    }
    assert forall|j: int| 0 <= j <= i - 1 implies (cell_ref(
        b,
        (#[trigger] rest[j]).0,
    ) matches Some((col, _)) ==> col < c) by {
        assert(rest[j] == cells[j + 1]);
    }
    match cell_ref(b, t) {
        None => {
            assert(rest[i - 1] == cells[i]);
            law_new_cell_stands_behind(b, rest, pos, end, row, kept, acts, next, i - 1, c);
        },
        Some((col, _)) => {
            let then = if next < col {
                col
            } else {
                next
            };
            let gap = b.subrange(pos, s.0);
            let first = cell_after(b, row, kept, acts, col as u32, s);
            let mid = cells_between(b, row, fresh, next, col);
            let tail = row_body(b, rest, s.1, end, row, kept, acts, then);
            assert(cells[0].0 == t);
            assert(all =~= gap + mid + first + tail);
            if i == 0 {
                lemma_fresh_comes(b, rest, s.1, end, row, kept, acts, then, c);
                let (y, w) = choose|y: Seq<u8>, w: Seq<u8>| tail == #[trigger] (y + a + w);
                assert(all =~= (gap + mid) + cell + y + a + w);
            } else {
                assert(rest[i - 1] == cells[i]);
                law_new_cell_stands_behind(b, rest, s.1, end, row, kept, acts, then, i - 1, c);
                let (x, y, z) = choose|x: Seq<u8>, y: Seq<u8>, z: Seq<u8>|
                    tail == #[trigger] (x + cell + y + a + z);
                assert(all =~= (gap + mid + first + x) + cell + y + a + z);
            }
        },
    }
}

// ------------------------------------------------------------------- attributes
/// An attribute behind the name of a tag is read as it stands between its quotation marks, whichever
/// of the two kinds they are, whatever blank stands in front of it and whatever follows.
pub proof fn law_attribute_is_read(
    name: Seq<u8>,
    gap: u8,
    key: Seq<char>,
    mark: u8,
    value: Seq<char>,
    tail: Seq<u8>,
)
    requires
        are_letters(name),
        gap == 32 || gap == 9 || gap == 10 || gap == 13,
        are_letters(bytes(key)),
        mark == 34 || mark == 39,
        forall|j: int|
            0 <= j < value.len() ==> #[trigger] value[j] as int != mark as int && value[j] != '&',
    ensures
        attr_of(
            name + seq![gap] + bytes(key) + seq![61u8, mark] + bytes(value) + seq![mark] + tail,
            key,
        ) == Some(value),
{
    let k = bytes(key);
    let v = bytes(value);
    let x = name + seq![gap] + k + seq![61u8, mark] + v + seq![mark] + tail;
    let needle = bytes(key + "="@);
    reveal_strlit("=");
    lemma_encode_concat(key, "="@);
    lemma_encode_ascii("="@);
    assert(bytes("="@) =~= seq![61u8]);
    let at = name.len() as int + 1;
    let n = needle.len() as int;
    assert(needle == k + seq![61u8]);
    assert(x.subrange(at, at + n) =~= needle);
    assert forall|q: int| 0 <= q < at implies !#[trigger] is_at(x, q, needle) by {
        if is_at(x, q, needle) {
            let w = x.subrange(q, q + n);
            assert(w[n - 1] == needle[n - 1]);
            let j = q + n - 1;
            assert(x[j] == 61);
            if j < name.len() {
                assert(x[j] == name[j]);
            } else if j > name.len() {
                assert(x[j] == k[j - name.len() - 1]);
            }
        }
    }
    lemma_first_place(x, 0, at, needle);
    let q = at + n;
    assert(x[at - 1] == gap);
    assert(x[q] == mark);
    lemma_no_byte(value, mark);
    let quote = seq![mark];
    let stop = q + 1 + v.len();
    assert(x.subrange(stop, stop + 1) =~= quote);
    assert forall|j: int| q + 1 <= j < stop implies !#[trigger] is_at(x, j, quote) by {
        if is_at(x, j, quote) {
            assert(x.subrange(j, j + 1)[0] == x[j]);
            assert(x[j] == v[j - q - 1]);
        }
    }
    lemma_first_place(x, q + 1, stop, quote);
    assert(x.subrange(q + 1, stop) =~= v);
    lemma_lossy_encode(value);
    lemma_unescape_plain(value);
}

} // verus!
