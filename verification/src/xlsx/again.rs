//! Changing a worksheet a second time in the same way, and the cells of rows that were changed.
use vstd::prelude::*;
use crate::model::{col_name, lemma_col_name, lemma_col_small, letter_place};
use crate::text::{
    decimal, find_from, is_digit, lemma_decimal, lemma_encode_ascii, lemma_encode_concat,
    lemma_find_from,
};
use crate::xlsx::laws::{
    law_written_cell_is_found, law_written_formula_is_read, lemma_written_cell_marks, plain_style,
    plain_value,
};
use crate::xlsx::surgery::{
    act_bytes, by_row, cell_after, cell_text, cells_between, cells_from, cells_of, changed_sheet,
    clear_cells, fill_formulas, fresh_acts, is_chain, is_row_at, keep_cells, keeps_formula,
    kept_cells, largest_row, lemma_all_kept, lemma_cell_ref_small, lemma_cells_from,
    lemma_chain_from, lemma_row_elem, missing_rows, new_above, new_left, new_row, new_rows,
    patch_of, patched, put_cells, put_formulas, rebuilt_row, request_for, request_of, row_acts,
    row_after, row_body, row_elem, sheet_rows, CellAct, CellPut, CellValue, RowPut,
};
use crate::xlsx::xmlscan::{
    attr_of, bytes, cell_ref, close_mark, colon_from, content_of, digit_from, dimension_from,
    element_bounds, gt_from, inside, is_at, law_reference_read_back, lemma_gt_from,
    lemma_sheet_data_from, lemma_span_of, lemma_tag_from, range_ends, ref_attr, ref_value,
    row_number, sheet_data_from, span_of, stretched, tag_bounds, tag_from, with_max_row, word_end,
    Tag,
};
use crate::xlsx::moved::{
    are_blanks, are_letters, is_value, lemma_element_moved, lemma_find_moved, lemma_first_place,
    lemma_gt_cut, lemma_middle, lemma_simple_attr, lemma_simple_tag, lemma_sub_moved,
    lemma_tag_behind, lemma_tag_here_again, lemma_tag_moved, lemma_tag_reached, lemma_tag_same,
    lemma_word_moved, moved, moved_tag, no_lt, simple_inside, simple_tag,
};

verus! {

// ---------------------------------------------------------------- closing marks
/// A closing tag that does not close a cell or anything in one.
pub open spec fn is_mark(pat: Seq<u8>) -> bool {
    &&& pat.len() >= 4
    &&& pat[0] == 60 && pat[1] == 47
    &&& pat[2] == 114 || pat[2] == 115
    &&& pat.last() == 62
    &&& forall|k: int| 0 < k < pat.len() - 1 ==> #[trigger] pat[k] != 60 && pat[k] != 62
}

/// Bytes in which a closing tag does not stand.
pub open spec fn is_clean(x: Seq<u8>, pat: Seq<u8>) -> bool {
    forall|q: int| 0 <= q ==> !#[trigger] is_at(x, q, pat)
}

/// Bytes that end with a tag, or none.
pub open spec fn ends_tag(x: Seq<u8>) -> bool {
    x.len() == 0 || x.last() == 62
}

/// A closing tag does not come up where bytes meet of which the first end with a tag or hold none,
/// or of which the second start with one.
proof fn lemma_clean_both(x: Seq<u8>, y: Seq<u8>, pat: Seq<u8>)
    requires
        is_mark(pat),
        is_clean(x, pat),
        is_clean(y, pat),
        ends_tag(x) || no_lt(x) || y.len() == 0 || y[0] == 60,
    ensures
        is_clean(x + y, pat),
{
    let n = pat.len() as int;
    assert forall|q: int| 0 <= q implies !#[trigger] is_at(x + y, q, pat) by {
        if is_at(x + y, q, pat) {
            let w = (x + y).subrange(q, q + n);
            if q + n <= x.len() {
                assert(x.subrange(q, q + n) =~= w);
                assert(is_at(x, q, pat));
            } else if q >= x.len() {
                assert(y.subrange(q - x.len(), q - x.len() + n) =~= w);
                assert(is_at(y, q - x.len(), pat));
            } else {
                assert(w[0] == x[q]);
                let k = x.len() - 1 - q;
                assert(w[k] == x[x.len() - 1]);
                assert(w[k + 1] == y[0]);
                if k > 0 {
                    assert(pat[k] != 62);
                }
                if k + 1 < n - 1 {
                    assert(pat[k + 1] != 60);
                }
            }
        }
    }
}

/// Bytes without a tag hold no closing tag.
proof fn lemma_no_lt_clean(x: Seq<u8>, pat: Seq<u8>)
    requires
        is_mark(pat),
        no_lt(x),
    ensures
        is_clean(x, pat),
{
    assert forall|q: int| 0 <= q implies !#[trigger] is_at(x, q, pat) by {
        if is_at(x, q, pat) {
            assert(x.subrange(q, q + pat.len())[0] == x[q]);
        }
    }
}

/// What stands in front of the first closing tag is clean.
proof fn lemma_front_clean(b: Seq<u8>, from: int, p: int, i: int, j: int, pat: Seq<u8>)
    requires
        is_mark(pat),
        0 <= from <= i <= j <= p,
        find_from(b, from, pat) == Some(p),
    ensures
        is_clean(b.subrange(i, j), pat),
{
    lemma_find_from(b, from, pat);
    let x = b.subrange(i, j);
    assert forall|q: int| 0 <= q implies !#[trigger] is_at(x, q, pat) by {
        if is_at(x, q, pat) {
            assert(x.subrange(q, q + pat.len()) =~= b.subrange(i + q, i + q + pat.len()));
        }
    }
}

// ------------------------------------------------------------------------ cells
/// Bytes that are one cell of column `col`, wherever they stand.
pub open spec fn is_cell(c: Seq<u8>, col: nat) -> bool {
    &&& c.len() > 1 && c[0] == 60 && c[1] == 99 && c.last() == 62
    &&& tag_from(c, 0) matches Some(t) && {
        &&& t.at == 0 && t.name == "c"@ && !t.closing
        &&& span_of(c, t) == Some((0int, c.len() as int))
        &&& cell_ref(c, t) matches Some((k, _)) && k == col
    }
}

/// A written cell is a cell of its column.
proof fn lemma_written_is_cell(col: nat, row: nat, val: CellValue, style: Option<Seq<char>>)
    requires
        1 <= col <= 18278,
        row <= u32::MAX,
        plain_style(style),
        plain_value(val),
    ensures
        is_cell(bytes(cell_text(col, row, val, style)), col),
{
    let none = Seq::<u8>::empty();
    let c = bytes(cell_text(col, row, val, style));
    law_written_cell_is_found(col, row, val, style, none);
    lemma_written_cell_marks(col, row, val, style);
    assert(c + none =~= c);
}

/// A written cell holds no closing tag of a row or a worksheet.
proof fn lemma_written_is_clean(
    col: nat,
    row: nat,
    val: CellValue,
    style: Option<Seq<char>>,
    pat: Seq<u8>,
)
    requires
        is_mark(pat),
        plain_style(style),
        plain_value(val),
    ensures
        is_clean(bytes(cell_text(col, row, val, style)), pat),
{
    let c = bytes(cell_text(col, row, val, style));
    lemma_written_cell_marks(col, row, val, style);
    assert forall|q: int| 0 <= q implies !#[trigger] is_at(c, q, pat) by {
        if is_at(c, q, pat) {
            let w = c.subrange(q, q + pat.len());
            assert(w[0] == c[q] && w[1] == c[q + 1] && w[2] == c[q + 2]);
        }
    }
}

/// A cell of a row is a cell by itself.
proof fn lemma_found_is_cell(b: Seq<u8>, t: Tag, s: (int, int), col: nat)
    requires
        tag_bounds(b, 0, t),
        span_of(b, t) == Some(s),
        t.name == "c"@,
        !t.closing,
        b[s.0 + 1] == 99,
        cell_ref(b, t) matches Some((k, _)) && k == col,
    ensures
        is_cell(b.subrange(s.0, s.1), col),
{
    lemma_span_of(b, t);
    let c = b.subrange(s.0, s.1);
    let d = -s.0;
    assert forall|k: int| s.0 <= k < s.1 implies #[trigger] b[k] == c[k + d] by {}
    lemma_element_moved(b, t, s, c, d);
    assert(c[0] == b[s.0]);
    assert(c[1] == b[s.0 + 1]);
    if t.self_closing {
        assert(c.last() == b[t.after - 1]);
    } else {
        let m = close_mark(t.name);
        let p = s.1 - m.len();
        lemma_find_from(b, t.after, m);
        lemma_mark_end(t.name);
        assert(b.subrange(p, s.1)[m.len() - 1] == b[s.1 - 1]);
    }
}

/// A closing mark ends with an angle bracket.
proof fn lemma_mark_end(name: Seq<char>)
    ensures
        close_mark(name).len() > 0,
        close_mark(name).last() == 62,
{
    reveal_strlit(">");
    lemma_encode_concat("</"@ + name, ">"@);
    lemma_encode_ascii(">"@);
    assert(bytes(">"@)[0] == 62);
}

/// Where a cell stands, it is the next of the cells.
proof fn lemma_scan_cell(r: Seq<u8>, p: int, end: int, c: Seq<u8>, col: nat)
    requires
        is_cell(c, col),
        0 <= p,
        p + c.len() <= end <= r.len(),
        r.subrange(p, p + c.len()) == c,
    ensures
        ({
            let t = moved_tag(tag_from(c, 0)->0, p);
            let s = (p, p + c.len() as int);
            &&& cells_from(r, p, end) == seq![(t, s)] + cells_from(r, p + c.len(), end)
            &&& cell_ref(r, t) matches Some((k, _)) && k == col
        }),
{
    let t = tag_from(c, 0)->0;
    let w = r.subrange(p, p + c.len());
    lemma_tag_from(c, 0);
    assert forall|k: int| 0 <= k < c.len() implies #[trigger] c[k] == r[k + p] by {
        assert(w[k] == r[p + k]);
    }
    lemma_element_moved(c, t, (0int, c.len() as int), r, p);
    assert(r[p] == c[0]);
}

/// Bytes without a tag are passed over.
proof fn lemma_scan_gap(r: Seq<u8>, p: int, q: int, end: int)
    requires
        0 <= p <= q <= end <= r.len(),
        forall|k: int| p <= k < q ==> #[trigger] r[k] != 60,
    ensures
        cells_from(r, p, end) == cells_from(r, q, end),
    decreases q - p,
{
    if p < q {
        assert(r[p] != 60);
        lemma_scan_gap(r, p + 1, q, end);
    }
}

// --------------------------------------------------------------------- requests
/// A cell that is written so that it is found again.
pub open spec fn is_good_put(p: CellPut) -> bool {
    1 <= p.col <= 18278 && plain_style(p.style) && plain_value(p.val)
}

/// A request whose cells are found again, and whose formulas are formulas.
pub open spec fn is_good_request(rw: RowPut) -> bool {
    &&& forall|i: int| 0 <= i < rw.cells.len() ==> is_good_put(#[trigger] rw.cells[i])
    &&& forall|i: int|
        0 <= i < rw.formulas.len() ==> is_good_put(#[trigger] rw.formulas[i])
            && rw.formulas[i].val is Formula
}

/// What becomes of a column, if anything.
spec fn get(m: Map<u32, CellAct>, col: u32) -> Option<CellAct> {
    if m.contains_key(col) {
        Some(m[col])
    } else {
        None
    }
}

/// What is written last into a column.
spec fn last_put(cells: Seq<CellPut>, col: u32) -> Option<CellPut>
    decreases cells.len(),
{
    if cells.len() == 0 {
        None
    } else if cells.last().col == col {
        Some(cells.last())
    } else {
        last_put(cells.drop_last(), col)
    }
}

proof fn lemma_last_put(cells: Seq<CellPut>, col: u32)
    ensures
        last_put(cells, col) matches Some(c) ==> c.col == col && cells.contains(c),
    decreases cells.len(),
{
    if cells.len() > 0 {
        if cells.last().col == col {
            assert(cells[cells.len() - 1] == cells.last());
        } else {
            lemma_last_put(cells.drop_last(), col);
            if let Some(c) = last_put(cells.drop_last(), col) {
                let i = choose|i: int| 0 <= i < cells.len() - 1 && cells.drop_last()[i] == c;
                assert(cells[i] == c);
            }
        }
    }
}

/// Whether a cell is kept that holds a formula.
spec fn has_formula(b: Seq<u8>, x: Option<CellAct>) -> bool {
    x matches Some(CellAct::Keep(s, e)) && find_from(b.subrange(s, e), 0, bytes("<f"@)) is Some
}

proof fn lemma_clear(acts: Map<u32, CellAct>, cols: Seq<u32>, col: u32)
    ensures
        get(clear_cells(acts, cols), col) == (if cols.contains(col) {
            Some(CellAct::Remove)
        } else {
            get(acts, col)
        }),
    decreases cols.len(),
{
    if cols.len() > 0 {
        let rest = cols.drop_last();
        lemma_clear(acts, rest, col);
        assert(cols[cols.len() - 1] == cols.last());
        if rest.contains(col) {
            let i = choose|i: int| 0 <= i < rest.len() && rest[i] == col;
            assert(cols[i] == col);
        }
        if cols.contains(col) && cols.last() != col {
            let i = choose|i: int| 0 <= i < cols.len() && cols[i] == col;
            assert(rest[i] == col);
        }
    }
}

proof fn lemma_put(acts: Map<u32, CellAct>, cells: Seq<CellPut>, col: u32)
    ensures
        get(put_cells(acts, cells), col) == (match last_put(cells, col) {
            Some(c) => Some(CellAct::Put(c.val, c.style)),
            None => get(acts, col),
        }),
    decreases cells.len(),
{
    if cells.len() > 0 {
        lemma_put(acts, cells.drop_last(), col);
    }
}

proof fn lemma_formulas(b: Seq<u8>, acts: Map<u32, CellAct>, formulas: Seq<CellPut>, col: u32)
    ensures
        get(put_formulas(b, acts, formulas), col) == (match last_put(formulas, col) {
            Some(f) => if has_formula(b, get(acts, col)) {
                get(acts, col)
            } else {
                Some(CellAct::Put(f.val, f.style))
            },
            None => get(acts, col),
        }),
    decreases formulas.len(),
{
    if formulas.len() > 0 {
        let rest = formulas.drop_last();
        lemma_formulas(b, acts, rest, col);
        let before = put_formulas(b, acts, rest);
        if formulas.last().col == col {
            assert(keeps_formula(b, before, col) == has_formula(b, get(before, col)));
        }
    }
}

/// What a request makes of the cells of a row.
spec fn acts_on(b: Seq<u8>, kept: Map<u32, CellAct>, rw: RowPut) -> Map<u32, CellAct> {
    put_formulas(b, put_cells(clear_cells(kept, rw.clear), rw.cells), rw.formulas)
}

/// What a column becomes before formulas are looked at.
spec fn base_act(kept: Map<u32, CellAct>, rw: RowPut, col: u32) -> Option<CellAct> {
    match last_put(rw.cells, col) {
        Some(c) => Some(CellAct::Put(c.val, c.style)),
        None => if rw.clear.contains(col) {
            Some(CellAct::Remove)
        } else {
            get(kept, col)
        },
    }
}

proof fn lemma_acts_on(b: Seq<u8>, kept: Map<u32, CellAct>, rw: RowPut, col: u32)
    ensures
        get(acts_on(b, kept, rw), col) == (match last_put(rw.formulas, col) {
            Some(f) => if has_formula(b, base_act(kept, rw, col)) {
                base_act(kept, rw, col)
            } else {
                Some(CellAct::Put(f.val, f.style))
            },
            None => base_act(kept, rw, col),
        }),
{
    lemma_clear(kept, rw.clear, col);
    lemma_put(clear_cells(kept, rw.clear), rw.cells, col);
    lemma_formulas(b, put_cells(clear_cells(kept, rw.clear), rw.cells), rw.formulas, col);
}

/// Acts that put nothing but cells that are found again.
spec fn are_good(acts: Map<u32, CellAct>) -> bool {
    forall|k: u32| #[trigger]
        acts.contains_key(k) ==> (acts[k] matches CellAct::Put(v, s) ==> 1 <= k <= 18278
            && plain_style(s) && plain_value(v))
}

proof fn lemma_good_acts(b: Seq<u8>, kept: Map<u32, CellAct>, rw: RowPut)
    requires
        is_good_request(rw),
        forall|k: u32| #[trigger] kept.contains_key(k) ==> kept[k] is Keep,
    ensures
        are_good(acts_on(b, kept, rw)),
{
    let acts = acts_on(b, kept, rw);
    assert forall|k: u32| #[trigger] acts.contains_key(k) implies (acts[k] matches CellAct::Put(
        v,
        s,
    ) ==> 1 <= k <= 18278 && plain_style(s) && plain_value(v)) by {
        lemma_acts_on(b, kept, rw, k);
        lemma_last_put(rw.cells, k);
        lemma_last_put(rw.formulas, k);
        assert(get(acts, k) == Some(acts[k]));
        if let Some(c) = last_put(rw.cells, k) {
            let i = choose|i: int| 0 <= i < rw.cells.len() && rw.cells[i] == c;
            assert(is_good_put(rw.cells[i]));
        }
        if let Some(c) = last_put(rw.formulas, k) {
            let i = choose|i: int| 0 <= i < rw.formulas.len() && rw.formulas[i] == c;
            assert(is_good_put(rw.formulas[i]));
        }
    }
}

// ------------------------------------------------------------------------- rows
/// A row as workbooks have it, from `pos` to `end`: nothing but cells with their places in it, in
/// the order of their columns, from `low` on, and no tags between them.
pub open spec fn is_plain_content(
    b: Seq<u8>,
    cells: Seq<(Tag, (int, int))>,
    pos: int,
    end: int,
    low: nat,
) -> bool
    decreases cells.len(),
{
    if cells.len() == 0 {
        forall|k: int| pos <= k < end ==> #[trigger] b[k] != 60
    } else {
        let (t, s) = cells[0];
        &&& forall|k: int| pos <= k < s.0 ==> #[trigger] b[k] != 60
        &&& b[s.0 + 1] == 99
        &&& cell_ref(b, t) matches Some((col, _)) && low <= col && is_plain_content(
            b,
            cells.drop_first(),
            s.1,
            end,
            col + 1,
        )
    }
}

/// What is known of the cells that were found.
spec fn are_found(b: Seq<u8>, cells: Seq<(Tag, (int, int))>) -> bool {
    forall|i: int|
        0 <= i < cells.len() ==> {
            let (t, s) = #[trigger] cells[i];
            tag_bounds(b, 0, t) && span_of(b, t) == Some(s) && t.name == "c"@ && !t.closing
        }
}

proof fn lemma_are_found(b: Seq<u8>, pos: int, end: int)
    requires
        0 <= pos,
    ensures
        are_found(b, cells_from(b, pos, end)),
    decreases b.len() - pos,
{
    if pos < end && pos < b.len() {
        if b[pos] != 60 {
            lemma_are_found(b, pos + 1, end);
        } else {
            lemma_tag_from(b, pos);
            if let Some(t) = tag_from(b, pos) {
                lemma_span_of(b, t);
                if t.name != "c"@ || t.closing {
                    lemma_are_found(b, t.at + 1, end);
                } else {
                    match span_of(b, t) {
                        Some(s) if s.1 <= end => {
                            lemma_are_found(b, s.1, end);
                            let rest = cells_from(b, s.1, end);
                            let all = cells_from(b, pos, end);
                            assert(all == seq![(t, s)] + rest);
                            assert forall|i: int| 0 <= i < all.len() implies ({
                                let (t, s) = #[trigger] all[i];
                                tag_bounds(b, 0, t) && span_of(b, t) == Some(s) && t.name == "c"@
                                    && !t.closing
                            }) by {
                                if i > 0 {
                                    assert(all[i] == rest[i - 1]);
                                }
                            }
                        },
                        _ => {},
                    }
                }
            }
        }
    }
}

/// The cells that come in, with their columns.
spec fn new_cells(b: Seq<u8>, row: nat, acts: Map<u32, CellAct>, from: nat, n: nat) -> Seq<
    (nat, Seq<u8>),
>
    decreases n,
{
    if n <= from {
        Seq::empty()
    } else {
        let col = (n - 1) as u32;
        let before = new_cells(b, row, acts, from, (n - 1) as nat);
        if n <= 0x1_0000_0000 && acts.contains_key(col) && acts[col] is Put {
            before.push((col as nat, act_bytes(b, col as nat, row, acts[col])))
        } else {
            before
        }
    }
}

/// The cell that stands in the place of a cell, if any.
spec fn own_cell(
    b: Seq<u8>,
    row: nat,
    kept: Map<u32, CellAct>,
    acts: Map<u32, CellAct>,
    col: u32,
    s: (int, int),
) -> Seq<(nat, Seq<u8>)> {
    if !acts.contains_key(col) || acts[col] is Keep {
        seq![(col as nat, b.subrange(s.0, s.1))]
    } else if acts[col] is Put && kept.contains_key(col) && kept[col] == CellAct::Keep(s.0, s.1) {
        seq![(col as nat, act_bytes(b, col as nat, row, acts[col]))]
    } else {
        Seq::empty()
    }
}

/// The cells of a row afterwards, with their columns.
spec fn cells_out(
    b: Seq<u8>,
    cells: Seq<(Tag, (int, int))>,
    row: nat,
    kept: Map<u32, CellAct>,
    acts: Map<u32, CellAct>,
    next: nat,
) -> Seq<(nat, Seq<u8>)>
    decreases cells.len(),
{
    let fresh = fresh_acts(kept, acts);
    if cells.len() == 0 {
        new_cells(b, row, fresh, next, 0x1_0000_0000)
    } else {
        let (t, s) = cells[0];
        let rest = cells.drop_first();
        match cell_ref(b, t) {
            None => cells_out(b, rest, row, kept, acts, next),
            Some((col, _)) => new_cells(b, row, fresh, next, col) + own_cell(
                b,
                row,
                kept,
                acts,
                col as u32,
                s,
            ) + cells_out(
                b,
                rest,
                row,
                kept,
                acts,
                if next < col {
                    col
                } else {
                    next
                },
            ),
        }
    }
}

/// A cell that was found is this one.
spec fn is_item(r: Seq<u8>, e: (Tag, (int, int)), it: (nat, Seq<u8>)) -> bool {
    (cell_ref(r, e.0) matches Some((c, _)) && c == it.0) && r.subrange(e.1.0, e.1.1) == it.1
}

/// The cells that were found are these.
spec fn are_items(r: Seq<u8>, c: Seq<(Tag, (int, int))>, items: Seq<(nat, Seq<u8>)>) -> bool {
    c.len() == items.len() && forall|k: int|
        0 <= k < c.len() ==> is_item(r, #[trigger] c[k], items[k])
}

proof fn lemma_items_join(
    r: Seq<u8>,
    c: Seq<(Tag, (int, int))>,
    items: Seq<(nat, Seq<u8>)>,
    d: Seq<(Tag, (int, int))>,
    more: Seq<(nat, Seq<u8>)>,
)
    requires
        are_items(r, c, items),
        are_items(r, d, more),
    ensures
        are_items(r, c + d, items + more),
{
    let x = c + d;
    assert forall|k: int| 0 <= k < x.len() implies is_item(
        r,
        #[trigger] x[k],
        (items + more)[k],
    ) by {
        if k < c.len() {
            assert(is_item(r, c[k], items[k]));
        } else {
            assert(is_item(r, d[k - c.len()], more[k - c.len()]));
        }
    }
}

/// Cells with their places from `p` to `q`, and no tags between them.
spec fn is_run(r: Seq<u8>, c: Seq<(Tag, (int, int))>, p: int, q: int) -> bool
    decreases c.len(),
{
    if c.len() == 0 {
        p <= q && forall|k: int| p <= k < q ==> #[trigger] r[k] != 60
    } else {
        let (t, s) = c[0];
        &&& p <= s.0
        &&& forall|k: int| p <= k < s.0 ==> #[trigger] r[k] != 60
        &&& r[s.0 + 1] == 99
        &&& cell_ref(r, t) is Some
        &&& is_run(r, c.drop_first(), s.1, q)
    }
}

/// A run goes on in front of itself where there are no tags.
proof fn lemma_run_earlier(r: Seq<u8>, c: Seq<(Tag, (int, int))>, o: int, p: int, q: int)
    requires
        is_run(r, c, p, q),
        o <= p,
        forall|k: int| o <= k < p ==> #[trigger] r[k] != 60,
    ensures
        is_run(r, c, o, q),
{
}

/// Runs one behind the other are a run.
proof fn lemma_run_join(
    r: Seq<u8>,
    c: Seq<(Tag, (int, int))>,
    p: int,
    q: int,
    d: Seq<(Tag, (int, int))>,
    z: int,
)
    requires
        is_run(r, c, p, q),
        is_run(r, d, q, z),
    ensures
        is_run(r, c + d, p, z),
    decreases c.len(),
{
    if c.len() == 0 {
        assert(c + d =~= d);
        lemma_run_earlier(r, d, p, q, z);
    } else {
        lemma_run_join(r, c.drop_first(), c[0].1.1, q, d, z);
        assert((c + d).drop_first() =~= c.drop_first() + d);
        assert((c + d)[0] == c[0]);
    }
}

/// A run whose columns ascend is the content of a plain row.
proof fn lemma_run_plain(
    r: Seq<u8>,
    c: Seq<(Tag, (int, int))>,
    p: int,
    q: int,
    items: Seq<(nat, Seq<u8>)>,
    low: nat,
)
    requires
        is_run(r, c, p, q),
        are_items(r, c, items),
        ascend(items),
        items.len() > 0 ==> low <= items[0].0,
    ensures
        is_plain_content(r, c, p, q, low),
    decreases c.len(),
{
    if c.len() > 0 {
        let rest = c.drop_first();
        let more = items.drop_first();
        assert(is_item(r, c[0], items[0]));
        assert forall|k: int| 0 <= k < rest.len() implies is_item(
            r,
            #[trigger] rest[k],
            more[k],
        ) by {
            assert(is_item(r, c[k + 1], items[k + 1]));
        }
        assert forall|i: int, j: int| 0 <= i < j < more.len() implies more[i].0 < more[j].0 by {
            assert(more[i] == items[i + 1] && more[j] == items[j + 1]);
        }
        if more.len() > 0 {
            assert(more[0] == items[1]);
            assert(items[0].0 < items[1].0);
        }
        lemma_run_plain(r, rest, c[0].1.1, q, more, items[0].0 + 1);
    }
}

/// The cells that come in are found one behind the other.
#[verifier::spinoff_prover]
#[verifier::rlimit(60)]
proof fn lemma_scan_new(
    b: Seq<u8>,
    row: nat,
    acts: Map<u32, CellAct>,
    from: nat,
    n: nat,
    r: Seq<u8>,
    p: int,
    stop: int,
) -> (pre: Seq<(Tag, (int, int))>)
    requires
        are_good(acts),
        row <= u32::MAX,
        forall|k: u32| #[trigger] acts.contains_key(k) ==> !(acts[k] is Keep),
        0 <= p,
        p + cells_between(b, row, acts, from, n).len() <= stop <= r.len(),
        r.subrange(p, p + cells_between(b, row, acts, from, n).len()) == cells_between(
            b,
            row,
            acts,
            from,
            n,
        ),
    ensures
        cells_from(r, p, stop) == pre + cells_from(
            r,
            p + cells_between(b, row, acts, from, n).len(),
            stop,
        ),
        are_items(r, pre, new_cells(b, row, acts, from, n)),
        is_run(r, pre, p, p + cells_between(b, row, acts, from, n).len()),
    decreases n,
{
    let none = Seq::<(Tag, (int, int))>::empty();
    let whole = cells_between(b, row, acts, from, n);
    if n <= from {
        assert(none + cells_from(r, p, stop) =~= cells_from(r, p, stop));
        none
    } else {
        let col = (n - 1) as u32;
        let before = cells_between(b, row, acts, from, (n - 1) as nat);
        let nothing = Seq::<u8>::empty();
        if n <= 0x1_0000_0000 && acts.contains_key(col) {
            let c = act_bytes(b, col as nat, row, acts[col]);
            assert(whole =~= nothing + before + c);
            assert(whole =~= before + c + nothing);
            lemma_middle(r, p, whole, nothing, before, c);
            lemma_middle(r, p, whole, before, c, nothing);
            let pre = lemma_scan_new(b, row, acts, from, (n - 1) as nat, r, p, stop);
            let q = p + before.len();
            if acts[col] is Put {
                if let CellAct::Put(v, s) = acts[col] {
                    lemma_written_is_cell(col as nat, row, v, s);
                }
                lemma_scan_cell(r, q, stop, c, col as nat);
                let e = (moved_tag(tag_from(c, 0)->0, q), (q, q + c.len() as int));
                let rest = cells_from(r, q + c.len(), stop);
                assert(pre + (seq![e] + rest) =~= pre.push(e) + rest);
                let items = new_cells(b, row, acts, from, (n - 1) as nat);
                let one = seq![(col as nat, c)];
                assert(is_item(r, e, (col as nat, c)));
                assert(are_items(r, seq![e], one));
                lemma_items_join(r, pre, items, seq![e], one);
                lemma_one_run(r, e, q, c);
                lemma_run_join(r, pre, p, q, seq![e], q + c.len());
                assert(pre + seq![e] =~= pre.push(e));
                assert(items + one =~= items.push((col as nat, c)));
                pre.push(e)
            } else {
                assert(c.len() == 0);
                pre
            }
        } else {
            lemma_scan_new(b, row, acts, from, (n - 1) as nat, r, p, stop)
        }
    }
}

/// A cell by itself is a run.
proof fn lemma_one_run(r: Seq<u8>, e: (Tag, (int, int)), p: int, c: Seq<u8>)
    requires
        0 <= p,
        1 < c.len(),
        c[1] == 99,
        p + c.len() <= r.len(),
        r.subrange(p, p + c.len()) == c,
        e.1 == (p, p + c.len() as int),
        cell_ref(r, e.0) is Some,
    ensures
        is_run(r, seq![e], p, p + c.len()),
{
    let d = seq![e];
    assert(r.subrange(p, p + c.len())[1] == r[p + 1]);
    assert(d.drop_first() =~= Seq::<(Tag, (int, int))>::empty());
    assert(is_run(r, d.drop_first(), p + c.len(), p + c.len()));
    assert(d[0] == e);
}

/// The cells of a row afterwards are found one behind the other.
#[verifier::spinoff_prover]
#[verifier::rlimit(60)]
proof fn lemma_scan_body(
    b: Seq<u8>,
    cells: Seq<(Tag, (int, int))>,
    pos: int,
    end: int,
    row: nat,
    kept: Map<u32, CellAct>,
    acts: Map<u32, CellAct>,
    next: nat,
    low: nat,
    r: Seq<u8>,
    p: int,
)
    requires
        0 <= pos,
        end <= b.len(),
        row <= u32::MAX,
        is_chain(cells, pos, end),
        are_found(b, cells),
        is_plain_content(b, cells, pos, end, low),
        are_good(acts),
        forall|k: u32| #[trigger] kept.contains_key(k) ==> kept[k] is Keep,
        forall|k: u32| #[trigger]
            acts.contains_key(k) && acts[k] is Keep ==> kept.contains_key(k),
        0 <= p,
        p + row_body(b, cells, pos, end, row, kept, acts, next).len() <= r.len(),
        r.subrange(p, p + row_body(b, cells, pos, end, row, kept, acts, next).len()) == row_body(
            b,
            cells,
            pos,
            end,
            row,
            kept,
            acts,
            next,
        ),
    ensures
        ({
            let stop = p + row_body(b, cells, pos, end, row, kept, acts, next).len();
            &&& are_items(r, cells_from(r, p, stop), cells_out(b, cells, row, kept, acts, next))
            &&& is_run(r, cells_from(r, p, stop), p, stop)
        }),
    decreases cells.len(),
{
    let whole = row_body(b, cells, pos, end, row, kept, acts, next);
    let stop = p + whole.len();
    let fresh = fresh_acts(kept, acts);
    let nothing = Seq::<u8>::empty();
    assert(are_good(fresh)) by {
        assert forall|k: u32| #[trigger] fresh.contains_key(k) implies (
        fresh[k] matches CellAct::Put(v, s) ==> 1 <= k <= 18278 && plain_style(s) && plain_value(
            v,
        )) by {
            assert(acts.contains_key(k));
        }
    }
    assert forall|k: u32| #[trigger] fresh.contains_key(k) implies !(fresh[k] is Keep) by {
        assert(acts.contains_key(k));
    }
    if cells.len() == 0 {
        let gap = b.subrange(pos, end);
        let new = cells_between(b, row, fresh, next, 0x1_0000_0000);
        assert(whole =~= nothing + gap + new);
        assert(whole =~= gap + new + nothing);
        lemma_middle(r, p, whole, nothing, gap, new);
        lemma_middle(r, p, whole, gap, new, nothing);
        let q = p + gap.len();
        lemma_gap_there(b, pos, end, r, p);
        lemma_scan_gap(r, p, q, stop);
        let pre = lemma_scan_new(b, row, fresh, next, 0x1_0000_0000, r, q, stop);
        assert(cells_from(r, stop, stop).len() == 0);
        assert(pre + cells_from(r, stop, stop) =~= pre);
        lemma_run_earlier(r, pre, p, q, stop);
    } else {
        let (t, s) = cells[0];
        let rest = cells.drop_first();
        let (col, _) = cell_ref(b, t)->0;
        lemma_cell_ref_small(b, t);
        let later = if next < col {
            col
        } else {
            next
        };
        let gap = b.subrange(pos, s.0);
        let new = cells_between(b, row, fresh, next, col);
        let mid = cell_after(b, row, kept, acts, col as u32, s);
        let back = row_body(b, rest, s.1, end, row, kept, acts, later);
        lemma_chain_from(rest, s.1, s.1, end);
        assert(whole == gap + new + mid + back);
        assert(whole =~= nothing + gap + (new + mid + back));
        assert(whole =~= gap + new + (mid + back));
        assert(whole =~= (gap + new) + mid + back);
        assert(whole =~= (gap + new + mid) + back + nothing);
        lemma_middle(r, p, whole, nothing, gap, new + mid + back);
        lemma_middle(r, p, whole, gap, new, mid + back);
        lemma_middle(r, p, whole, gap + new, mid, back);
        lemma_middle(r, p, whole, gap + new + mid, back, nothing);
        let q = p + gap.len();
        let u = q + new.len();
        let v = u + mid.len();
        lemma_gap_there(b, pos, s.0, r, p);
        lemma_scan_gap(r, p, q, stop);
        let pre = lemma_scan_new(b, row, fresh, next, col, r, q, stop);
        assert(are_found(b, rest)) by {
            assert forall|i: int| 0 <= i < rest.len() implies ({
                let (t, s) = #[trigger] rest[i];
                tag_bounds(b, 0, t) && span_of(b, t) == Some(s) && t.name == "c"@ && !t.closing
            }) by {
                assert(rest[i] == cells[i + 1]);
            }
        }
        lemma_scan_body(b, rest, s.1, end, row, kept, acts, later, col + 1, r, v);
        let tail = cells_from(r, v, stop);
        let own = own_cell(b, row, kept, acts, col as u32, s);
        let items = new_cells(b, row, fresh, next, col);
        let more = cells_out(b, rest, row, kept, acts, later);
        if own.len() > 0 {
            assert(cells[0] == (t, s));
            if !acts.contains_key(col as u32) || acts[col as u32] is Keep {
                lemma_found_is_cell(b, t, s, col);
            } else {
                if let CellAct::Put(x, y) = acts[col as u32] {
                    lemma_written_is_cell(col, row, x, y);
                }
            }
            lemma_scan_cell(r, u, stop, mid, col);
            let e = (moved_tag(tag_from(mid, 0)->0, u), (u, u + mid.len() as int));
            assert(is_item(r, e, own[0]));
            assert(are_items(r, seq![e], own));
            lemma_items_join(r, pre, items, seq![e], own);
            lemma_items_join(r, pre + seq![e], items + own, tail, more);
            lemma_one_run(r, e, u, mid);
            lemma_run_join(r, pre, q, u, seq![e], v);
            lemma_run_join(r, pre + seq![e], q, v, tail, stop);
            lemma_run_earlier(r, pre + seq![e] + tail, p, q, stop);
            assert(pre + (seq![e] + tail) =~= pre + seq![e] + tail);
        } else {
            assert(mid.len() == 0);
            assert(items + own =~= items);
            lemma_items_join(r, pre, items, tail, more);
            lemma_run_join(r, pre, q, u, tail, stop);
            lemma_run_earlier(r, pre + tail, p, q, stop);
        }
    }
}

proof fn lemma_gap_there(b: Seq<u8>, i: int, j: int, r: Seq<u8>, p: int)
    requires
        0 <= i <= j <= b.len(),
        0 <= p,
        p + (j - i) <= r.len(),
        r.subrange(p, p + (j - i)) == b.subrange(i, j),
        forall|k: int| i <= k < j ==> #[trigger] b[k] != 60,
    ensures
        forall|k: int| p <= k < p + (j - i) ==> #[trigger] r[k] != 60,
{
    assert forall|k: int| p <= k < p + (j - i) implies #[trigger] r[k] != 60 by {
        assert(r.subrange(p, p + (j - i))[k - p] == r[k]);
        assert(b.subrange(i, j)[k - p] == b[i + (k - p)]);
    }
}

// ------------------------------------------------------------------ second time
/// Whether a column is among the cells.
spec fn has_col(items: Seq<(nat, Seq<u8>)>, col: nat) -> bool {
    exists|k: int| 0 <= k < items.len() && (#[trigger] items[k]).0 == col
}

/// The columns of the cells ascend.
spec fn ascend(items: Seq<(nat, Seq<u8>)>) -> bool {
    forall|i: int, j: int| 0 <= i < j < items.len() ==> items[i].0 < items[j].0
}

/// A cell is what its column becomes.
spec fn is_outcome(
    b: Seq<u8>,
    row: nat,
    kept: Map<u32, CellAct>,
    acts: Map<u32, CellAct>,
    it: (nat, Seq<u8>),
) -> bool {
    it.0 < 0x1_0000_0000 && (match get(acts, it.0 as u32) {
        Some(CellAct::Put(v, s)) => it.1 == bytes(cell_text(it.0, row, v, s)),
        Some(CellAct::Remove) => false,
        _ => kept.contains_key(it.0 as u32) && (kept[it.0 as u32] matches CellAct::Keep(x, y)
            && it.1 == b.subrange(x, y)),
    })
}

spec fn are_outcomes(
    b: Seq<u8>,
    row: nat,
    kept: Map<u32, CellAct>,
    acts: Map<u32, CellAct>,
    items: Seq<(nat, Seq<u8>)>,
) -> bool {
    forall|k: int| 0 <= k < items.len() ==> is_outcome(b, row, kept, acts, #[trigger] items[k])
}

#[verifier::spinoff_prover]
#[verifier::rlimit(60)]
proof fn lemma_new_items(
    b: Seq<u8>,
    row: nat,
    kept: Map<u32, CellAct>,
    acts: Map<u32, CellAct>,
    from: nat,
    n: nat,
)
    requires
        n <= 0x1_0000_0000,
    ensures
        ({
            let items = new_cells(b, row, fresh_acts(kept, acts), from, n);
            &&& ascend(items)
            &&& are_outcomes(b, row, kept, acts, items)
            &&& forall|k: int|
                0 <= k < items.len() ==> from <= (#[trigger] items[k]).0 < n
                    && !kept.contains_key(items[k].0 as u32)
            &&& forall|c: u32| #[trigger]
                acts.contains_key(c) && acts[c] is Put && !kept.contains_key(c) && from <= c < n
                    ==> has_col(items, c as nat)
        }),
    decreases n,
{
    let fresh = fresh_acts(kept, acts);
    let items = new_cells(b, row, fresh, from, n);
    if n > from {
        lemma_new_items(b, row, kept, acts, from, (n - 1) as nat);
        let before = new_cells(b, row, fresh, from, (n - 1) as nat);
        let col = (n - 1) as u32;
        assert forall|k: int| 0 <= k < items.len() implies is_outcome(
            b,
            row,
            kept,
            acts,
            #[trigger] items[k],
        ) && from <= items[k].0 < n && !kept.contains_key(items[k].0 as u32) by {
            if k < before.len() {
                assert(items[k] == before[k]);
                assert(is_outcome(b, row, kept, acts, before[k]));
            } else {
                assert(items[k].0 == col);
                assert(fresh.contains_key(col));
                assert(acts.contains_key(col) && acts[col] == fresh[col]);
            }
        }
        assert forall|i: int, j: int| 0 <= i < j < items.len() implies items[i].0 < items[j].0 by {
            assert(items[i] == before[i]);
            if j < before.len() {
                assert(items[j] == before[j]);
            }
        }
        assert forall|c: u32| #[trigger]
            acts.contains_key(c) && acts[c] is Put && !kept.contains_key(c) && from <= c
                < n implies has_col(items, c as nat) by {
            if c == col {
                assert(fresh.contains_key(col) && fresh[col] == acts[col]);
                assert(items[before.len() as int].0 == c);
            } else {
                assert(has_col(before, c as nat));
                let k = choose|k: int| 0 <= k < before.len() && (#[trigger] before[k]).0 == c;
                assert(items[k] == before[k]);
            }
        }
    }
}

/// The cells of a row afterwards are what their columns become, in the order of their columns, and
/// none is left out.
#[verifier::spinoff_prover]
#[verifier::rlimit(60)]
proof fn lemma_out_items(
    b: Seq<u8>,
    cells: Seq<(Tag, (int, int))>,
    pos: int,
    end: int,
    row: nat,
    kept: Map<u32, CellAct>,
    acts: Map<u32, CellAct>,
    next: nat,
    low: nat,
)
    requires
        is_plain_content(b, cells, pos, end, low),
        next < low,
        next < 0x1_0000_0000,
        forall|i: int|
            0 <= i < cells.len() ==> (cell_ref(b, (#[trigger] cells[i]).0) matches Some((c, _))
                && kept.contains_key(c as u32) && kept[c as u32] == CellAct::Keep(
                cells[i].1.0,
                cells[i].1.1,
            )),
        forall|k: u32| #[trigger]
            acts.contains_key(k) && acts[k] is Keep ==> kept.contains_key(k) && acts[k] == kept[k],
    ensures
        ({
            let items = cells_out(b, cells, row, kept, acts, next);
            &&& ascend(items)
            &&& are_outcomes(b, row, kept, acts, items)
            &&& forall|k: int|
                0 <= k < items.len() ==> next <= (#[trigger] items[k]).0 && (items[k].0 == next
                    ==> !kept.contains_key(next as u32))
            &&& forall|c: u32| #[trigger]
                acts.contains_key(c) && acts[c] is Put && !kept.contains_key(c) && next <= c
                    ==> has_col(items, c as nat)
            &&& forall|i: int|
                0 <= i < cells.len() && !(get(
                    acts,
                    (cell_ref(b, (#[trigger] cells[i]).0)->0).0 as u32,
                ) matches Some(CellAct::Remove)) ==> has_col(
                    items,
                    (cell_ref(b, cells[i].0)->0).0,
                )
        }),
    decreases cells.len(),
{
    let fresh = fresh_acts(kept, acts);
    let items = cells_out(b, cells, row, kept, acts, next);
    if cells.len() == 0 {
        lemma_new_items(b, row, kept, acts, next, 0x1_0000_0000);
    } else {
        let (t, s) = cells[0];
        let rest = cells.drop_first();
        let (col, _) = cell_ref(b, t)->0;
        lemma_cell_ref_small(b, t);
        assert(cells[0] == (t, s));
        assert forall|i: int| 0 <= i < rest.len() implies (cell_ref(
            b,
            (#[trigger] rest[i]).0,
        ) matches Some((c, _)) && kept.contains_key(c as u32) && kept[c as u32] == CellAct::Keep(
            rest[i].1.0,
            rest[i].1.1,
        )) by {
            assert(rest[i] == cells[i + 1]);
        }
        let new = new_cells(b, row, fresh, next, col);
        let own = own_cell(b, row, kept, acts, col as u32, s);
        let more = cells_out(b, rest, row, kept, acts, col);
        lemma_new_items(b, row, kept, acts, next, col);
        lemma_out_items(b, rest, s.1, end, row, kept, acts, col, col + 1);
        let n = new.len() as int;
        let m = own.len() as int;
        assert(items == new + own + more);
        assert(kept.contains_key(col as u32) && kept[col as u32] == CellAct::Keep(s.0, s.1));
        assert forall|k: int| 0 <= k < items.len() implies is_outcome(
            b,
            row,
            kept,
            acts,
            #[trigger] items[k],
        ) && next <= items[k].0 && (items[k].0 == next ==> !kept.contains_key(next as u32)) && (k
            < n ==> items[k].0 < col) && (n <= k < n + m ==> items[k].0 == col) && (k >= n + m
            ==> items[k].0 > col) by {
            if k < n {
                assert(items[k] == new[k]);
                assert(is_outcome(b, row, kept, acts, new[k]));
            } else if k < n + m {
                assert(items[k] == own[k - n]);
            } else {
                assert(items[k] == more[k - n - m]);
                assert(is_outcome(b, row, kept, acts, more[k - n - m]));
            }
        }
        assert forall|i: int, j: int| 0 <= i < j < items.len() implies items[i].0 < items[j].0 by {
            if j < n {
                assert(items[i] == new[i] && items[j] == new[j]);
            } else if i >= n + m {
                assert(items[i] == more[i - n - m] && items[j] == more[j - n - m]);
            }
        }
        assert forall|c: u32| #[trigger]
            acts.contains_key(c) && acts[c] is Put && !kept.contains_key(c) && next
                <= c implies has_col(items, c as nat) by {
            if c < col {
                assert(has_col(new, c as nat));
                let k = choose|k: int| 0 <= k < new.len() && (#[trigger] new[k]).0 == c;
                assert(items[k] == new[k]);
            } else {
                assert(has_col(more, c as nat));
                let k = choose|k: int| 0 <= k < more.len() && (#[trigger] more[k]).0 == c;
                assert(items[n + m + k] == more[k]);
            }
        }
        assert forall|i: int|
            0 <= i < cells.len() && !(get(
                acts,
                (cell_ref(b, (#[trigger] cells[i]).0)->0).0 as u32,
            ) matches Some(CellAct::Remove)) implies has_col(
            items,
            (cell_ref(b, cells[i].0)->0).0,
        ) by {
            if i == 0 {
                assert(m == 1);
                assert(items[n] == own[0]);
            } else {
                assert(cells[i] == rest[i - 1]);
                let c = (cell_ref(b, rest[i - 1].0)->0).0;
                assert(has_col(more, c));
                let k = choose|k: int| 0 <= k < more.len() && (#[trigger] more[k]).0 == c;
                assert(items[n + m + k] == more[k]);
            }
        }
    }
}

/// Of cells whose columns ascend, each one counts for its column.
#[verifier::spinoff_prover]
#[verifier::rlimit(60)]
proof fn lemma_keep_items(
    r: Seq<u8>,
    acts: Map<u32, CellAct>,
    c: Seq<(Tag, (int, int))>,
    items: Seq<(nat, Seq<u8>)>,
)
    requires
        are_items(r, c, items),
        ascend(items),
    ensures
        forall|k: int|
            0 <= k < c.len() ==> get(
                keep_cells(r, acts, c),
                (#[trigger] items[k]).0 as u32,
            ) == Some(CellAct::Keep(c[k].1.0, c[k].1.1)),
        forall|col: u32|
            !has_col(items, col as nat) ==> #[trigger] get(keep_cells(r, acts, c), col) == get(
                acts,
                col,
            ),
    decreases c.len(),
{
    if c.len() > 0 {
        let (t, s) = c[0];
        let rest = c.drop_first();
        let more = items.drop_first();
        let first = items[0].0;
        assert(is_item(r, c[0], items[0]));
        lemma_cell_ref_small(r, t);
        let after = acts.insert(first as u32, CellAct::Keep(s.0, s.1));
        assert forall|k: int| 0 <= k < rest.len() implies is_item(
            r,
            #[trigger] rest[k],
            more[k],
        ) by {
            assert(is_item(r, c[k + 1], items[k + 1]));
        }
        assert forall|i: int, j: int| 0 <= i < j < more.len() implies more[i].0 < more[j].0 by {
            assert(more[i] == items[i + 1] && more[j] == items[j + 1]);
        }
        lemma_keep_items(r, after, rest, more);
        assert(keep_cells(r, acts, c) == keep_cells(r, after, rest));
        assert(!has_col(more, first)) by {
            if has_col(more, first) {
                let k = choose|k: int| 0 <= k < more.len() && (#[trigger] more[k]).0 == first;
                assert(more[k] == items[k + 1]);
                assert(items[0].0 < items[k + 1].0);
            }
        }
        assert forall|k: int| 0 <= k < c.len() implies get(
            keep_cells(r, acts, c),
            (#[trigger] items[k]).0 as u32,
        ) == Some(CellAct::Keep(c[k].1.0, c[k].1.1)) by {
            if k > 0 {
                assert(items[k] == more[k - 1]);
                assert(c[k] == rest[k - 1]);
            } else {
                assert(!has_col(more, (first as u32) as nat));
                assert(get(keep_cells(r, after, rest), first as u32) == get(after, first as u32));
            }
        }
        assert forall|col: u32| !has_col(items, col as nat) implies #[trigger] get(
            keep_cells(r, acts, c),
            col,
        ) == get(acts, col) by {
            if has_col(more, col as nat) {
                let k = choose|k: int| 0 <= k < more.len() && (#[trigger] more[k]).0 == col;
                assert(items[k + 1] == more[k]);
            }
            assert(items[0].0 != col);
            assert(get(keep_cells(r, after, rest), col) == get(after, col));
        }
    }
}

/// The cells of a plain row with their columns.
spec fn items_of(b: Seq<u8>, cells: Seq<(Tag, (int, int))>) -> Seq<(nat, Seq<u8>)> {
    cells.map_values(
        |e: (Tag, (int, int))| ((cell_ref(b, e.0)->0).0, b.subrange(e.1.0, e.1.1)),
    )
}

#[verifier::spinoff_prover]
#[verifier::rlimit(60)]
proof fn lemma_plain_items(
    b: Seq<u8>,
    cells: Seq<(Tag, (int, int))>,
    pos: int,
    end: int,
    low: nat,
)
    requires
        is_plain_content(b, cells, pos, end, low),
    ensures
        are_items(b, cells, items_of(b, cells)),
        ascend(items_of(b, cells)),
        forall|k: int| 0 <= k < cells.len() ==> low <= (#[trigger] items_of(b, cells)[k]).0,
    decreases cells.len(),
{
    let items = items_of(b, cells);
    if cells.len() > 0 {
        let (t, s) = cells[0];
        let rest = cells.drop_first();
        let (col, _) = cell_ref(b, t)->0;
        lemma_plain_items(b, rest, s.1, end, col + 1);
        let more = items_of(b, rest);
        assert forall|k: int| 0 < k < cells.len() implies #[trigger] items[k] == more[k - 1] by {
            assert(cells[k] == rest[k - 1]);
        }
        assert forall|k: int| 0 <= k < cells.len() implies is_item(
            b,
            #[trigger] cells[k],
            items[k],
        ) && low <= items[k].0 by {
            if k > 0 {
                assert(cells[k] == rest[k - 1]);
                assert(is_item(b, rest[k - 1], more[k - 1]));
                assert(items[k] == more[k - 1]);
            }
        }
        assert forall|i: int, j: int| 0 <= i < j < items.len() implies items[i].0 < items[j].0 by {
            assert(items[j] == more[j - 1]);
            if i > 0 {
                assert(items[i] == more[i - 1]);
            } else {
                assert(items[0].0 == col);
            }
        }
        assert forall|k: int| 0 <= k < cells.len() implies low <= (#[trigger] items[k]).0 by {
            assert(is_item(b, cells[k], items[k]));
        }
    }
}

/// A row in which every cell is what its column becomes, and no column comes in, stays as it is.
#[verifier::spinoff_prover]
#[verifier::rlimit(60)]
proof fn lemma_still(
    r: Seq<u8>,
    cells: Seq<(Tag, (int, int))>,
    pos: int,
    end: int,
    row: nat,
    kept: Map<u32, CellAct>,
    acts: Map<u32, CellAct>,
    next: nat,
)
    requires
        0 <= pos,
        end <= r.len(),
        is_chain(cells, pos, end),
        forall|k: int|
            0 <= k < cells.len() ==> (cell_ref(r, (#[trigger] cells[k]).0) matches Some((c, _))
                && cell_after(r, row, kept, acts, c as u32, cells[k].1) == r.subrange(
                cells[k].1.0,
                cells[k].1.1,
            )),
        forall|k: u32| #[trigger]
            fresh_acts(kept, acts).contains_key(k) ==> fresh_acts(kept, acts)[k] is Remove,
    ensures
        row_body(r, cells, pos, end, row, kept, acts, next) == r.subrange(pos, end),
    decreases cells.len(),
{
    let fresh = fresh_acts(kept, acts);
    if cells.len() == 0 {
        lemma_nothing_between(r, row, fresh, next, 0x1_0000_0000);
        assert(r.subrange(pos, end) + Seq::<u8>::empty() =~= r.subrange(pos, end));
    } else {
        let (t, s) = cells[0];
        let rest = cells.drop_first();
        assert(cells[0] == (t, s));
        let (col, _) = cell_ref(r, t)->0;
        let later = if next < col {
            col
        } else {
            next
        };
        lemma_chain_from(rest, s.1, s.1, end);
        lemma_nothing_between(r, row, fresh, next, col);
        assert forall|k: int| 0 <= k < rest.len() implies (cell_ref(
            r,
            (#[trigger] rest[k]).0,
        ) matches Some((c, _)) && cell_after(r, row, kept, acts, c as u32, rest[k].1)
            == r.subrange(rest[k].1.0, rest[k].1.1)) by {
            assert(rest[k] == cells[k + 1]);
        }
        lemma_still(r, rest, s.1, end, row, kept, acts, later);
        assert(r.subrange(pos, s.0) + Seq::<u8>::empty() + r.subrange(s.0, s.1) + r.subrange(
            s.1,
            end,
        ) =~= r.subrange(pos, end));
    }
}

proof fn lemma_nothing_between(
    b: Seq<u8>,
    row: nat,
    acts: Map<u32, CellAct>,
    from: nat,
    n: nat,
)
    requires
        forall|k: u32| #[trigger] acts.contains_key(k) ==> acts[k] is Remove,
    ensures
        cells_between(b, row, acts, from, n) == Seq::<u8>::empty(),
    decreases n,
{
    if n > from {
        lemma_nothing_between(b, row, acts, from, (n - 1) as nat);
        assert(Seq::<u8>::empty() + Seq::<u8>::empty() =~= Seq::<u8>::empty());
    }
}

/// A written formula looks like one.
proof fn lemma_formula_seen(col: nat, row: nat, val: CellValue, style: Option<Seq<char>>)
    requires
        1 <= col <= 18278,
        row <= u32::MAX,
        plain_style(style),
        val is Formula,
    ensures
        find_from(bytes(cell_text(col, row, val, style)), 0, bytes("<f"@)) is Some,
{
    if let CellValue::Formula(f) = val {
        law_written_formula_is_read(col, row, f, style);
    }
}

/// The bytes of the cell that counts for a column.
pub open spec fn cell_of(b: Seq<u8>, kept: Map<u32, CellAct>, col: u32) -> Option<Seq<u8>> {
    if kept.contains_key(col) {
        match kept[col] {
            CellAct::Keep(s, e) => Some(b.subrange(s, e)),
            _ => None,
        }
    } else {
        None
    }
}

/// The bytes of the cell that a row has in a column.
pub open spec fn cell_in(b: Seq<u8>, e: (Tag, (int, int)), col: u32) -> Option<Seq<u8>> {
    cell_of(b, kept_cells(b, e), col)
}

/// The bytes of the cell that a column becomes.
pub open spec fn act_cell(b: Seq<u8>, row: nat, acts: Map<u32, CellAct>, col: u32) -> Option<
    Seq<u8>,
> {
    if acts.contains_key(col) && !(acts[col] is Remove) {
        Some(act_bytes(b, col as nat, row, acts[col]))
    } else {
        None
    }
}

/// No cell has column zero.
proof fn lemma_cell_ref_one(b: Seq<u8>, t: Tag)
    ensures
        cell_ref(b, t) matches Some((col, _)) ==> 1 <= col,
{
    if let Some(v) = attr_of(inside(b, t), "r"@) {
        if let Some(k) = digit_from(v, 0) {
            lemma_col_small(v.take(k));
        }
    }
}

/// The content of a plain row afterwards is plain, wherever it stands, and the cells in it are those
/// that its columns keep or get.
#[verifier::spinoff_prover]
#[verifier::rlimit(60)]
proof fn lemma_body_columns(
    b: Seq<u8>,
    pos: int,
    end: int,
    rw: RowPut,
    r: Seq<u8>,
    p: int,
    col: u32,
)
    requires
        0 <= pos <= end <= b.len(),
        is_good_request(rw),
        is_plain_content(b, cells_from(b, pos, end), pos, end, 1),
        0 <= p,
        ({
            let cells = cells_from(b, pos, end);
            let kept = keep_cells(b, Map::empty(), cells);
            let body = row_body(
                b,
                cells,
                pos,
                end,
                rw.row as nat,
                kept,
                acts_on(b, kept, rw),
                0,
            );
            p + body.len() <= r.len() && r.subrange(p, p + body.len()) == body
        }),
    ensures
        ({
            let cells = cells_from(b, pos, end);
            let kept = keep_cells(b, Map::empty(), cells);
            let acts = acts_on(b, kept, rw);
            let body = row_body(b, cells, pos, end, rw.row as nat, kept, acts, 0);
            let again = cells_from(r, p, p + body.len());
            &&& is_plain_content(r, again, p, p + body.len(), 1)
            &&& cell_of(r, keep_cells(r, Map::empty(), again), col) == act_cell(
                b,
                rw.row as nat,
                acts,
                col,
            )
        }),
{
    let row = rw.row as nat;
    let none = Map::<u32, CellAct>::empty();
    let cells = cells_from(b, pos, end);
    let kept = keep_cells(b, none, cells);
    let acts = acts_on(b, kept, rw);
    let body = row_body(b, cells, pos, end, row, kept, acts, 0);
    let stop = p + body.len();
    let again = cells_from(r, p, stop);
    let held = keep_cells(r, none, again);
    let items = cells_out(b, cells, row, kept, acts, 0);
    lemma_cells_from(b, pos, end);
    lemma_are_found(b, pos, end);
    lemma_all_kept(b, none, cells);
    lemma_good_acts(b, kept, rw);
    lemma_plain_items(b, cells, pos, end, 1);
    lemma_keep_items(b, none, cells, items_of(b, cells));
    assert forall|k: u32| #[trigger] acts.contains_key(k) && acts[k] is Keep implies
        kept.contains_key(k) && acts[k] == kept[k] by {
        lemma_acts_on(b, kept, rw, k);
        assert(get(acts, k) == Some(acts[k]));
    }
    assert forall|i: int| 0 <= i < cells.len() implies (cell_ref(
        b,
        (#[trigger] cells[i]).0,
    ) matches Some((c, _)) && kept.contains_key(c as u32) && kept[c as u32] == CellAct::Keep(
        cells[i].1.0,
        cells[i].1.1,
    )) by {
        let it = items_of(b, cells)[i];
        assert(is_item(b, cells[i], it));
        assert(get(kept, it.0 as u32) == Some(CellAct::Keep(cells[i].1.0, cells[i].1.1)));
    }
    lemma_scan_body(b, cells, pos, end, row, kept, acts, 0, 1, r, p);
    lemma_out_items(b, cells, pos, end, row, kept, acts, 0, 1);
    lemma_keep_items(r, none, again, items);
    lemma_acts_on(b, kept, rw, col);
    if items.len() > 0 {
        assert(is_item(r, again[0], items[0]));
        lemma_cell_ref_small(r, again[0].0);
        lemma_cell_ref_one(r, again[0].0);
    }
    lemma_run_plain(r, again, p, stop, items, 1);
    if has_col(items, col as nat) {
        let k = choose|k: int| 0 <= k < items.len() && (#[trigger] items[k]).0 == col;
        assert(is_item(r, again[k], items[k]));
        assert(get(held, items[k].0 as u32) is Some);
        assert(is_outcome(b, row, kept, acts, items[k]));
        assert(get(held, col) == Some(CellAct::Keep(again[k].1.0, again[k].1.1)));
        assert(get(kept, col) == get(kept, items[k].0 as u32));
    } else {
        assert(get(held, col) == get(none, col));
        if acts.contains_key(col) && !(acts[col] is Remove) {
            assert(get(acts, col) == Some(acts[col]));
            if kept.contains_key(col) {
                lemma_kept_has_cell(b, cells, col);
                let i = choose|i: int|
                    0 <= i < cells.len() && (cell_ref(b, (#[trigger] cells[i]).0)->0).0 == col;
                assert(get(acts, (cell_ref(b, cells[i].0)->0).0 as u32) == get(acts, col));
            }
        }
    }
}

/// The content of a plain row that a request has changed stays as it is when the same request comes
/// again, wherever it stands.
#[verifier::spinoff_prover]
#[verifier::rlimit(60)]
proof fn lemma_body_again(
    b: Seq<u8>,
    pos: int,
    end: int,
    rw: RowPut,
    r: Seq<u8>,
    p: int,
)
    requires
        0 <= pos <= end <= b.len(),
        is_good_request(rw),
        is_plain_content(b, cells_from(b, pos, end), pos, end, 1),
        0 <= p,
        ({
            let cells = cells_from(b, pos, end);
            let kept = keep_cells(b, Map::empty(), cells);
            let body = row_body(
                b,
                cells,
                pos,
                end,
                rw.row as nat,
                kept,
                acts_on(b, kept, rw),
                0,
            );
            p + body.len() <= r.len() && r.subrange(p, p + body.len()) == body
        }),
    ensures
        ({
            let cells = cells_from(b, pos, end);
            let kept = keep_cells(b, Map::empty(), cells);
            let body = row_body(
                b,
                cells,
                pos,
                end,
                rw.row as nat,
                kept,
                acts_on(b, kept, rw),
                0,
            );
            let stop = p + body.len();
            let again = cells_from(r, p, stop);
            let held = keep_cells(r, Map::empty(), again);
            row_body(r, again, p, stop, rw.row as nat, held, acts_on(r, held, rw), 0) == body
        }),
{
    let row = rw.row as nat;
    let none = Map::<u32, CellAct>::empty();
    let cells = cells_from(b, pos, end);
    let kept = keep_cells(b, none, cells);
    let acts = acts_on(b, kept, rw);
    let body = row_body(b, cells, pos, end, row, kept, acts, 0);
    let stop = p + body.len();
    let again = cells_from(r, p, stop);
    let held = keep_cells(r, none, again);
    let acts2 = acts_on(r, held, rw);
    let items = cells_out(b, cells, row, kept, acts, 0);
    lemma_cells_from(b, pos, end);
    lemma_are_found(b, pos, end);
    lemma_all_kept(b, none, cells);
    lemma_good_acts(b, kept, rw);
    lemma_plain_items(b, cells, pos, end, 1);
    lemma_keep_items(b, none, cells, items_of(b, cells));
    assert forall|k: u32| #[trigger] acts.contains_key(k) && acts[k] is Keep implies
        kept.contains_key(k) && acts[k] == kept[k] by {
        lemma_acts_on(b, kept, rw, k);
        assert(get(acts, k) == Some(acts[k]));
    }
    assert forall|i: int| 0 <= i < cells.len() implies (cell_ref(
        b,
        (#[trigger] cells[i]).0,
    ) matches Some((c, _)) && kept.contains_key(c as u32) && kept[c as u32] == CellAct::Keep(
        cells[i].1.0,
        cells[i].1.1,
    )) by {
        let it = items_of(b, cells)[i];
        assert(is_item(b, cells[i], it));
        assert(get(kept, it.0 as u32) == Some(CellAct::Keep(cells[i].1.0, cells[i].1.1)));
    }
    lemma_scan_body(b, cells, pos, end, row, kept, acts, 0, 1, r, p);
    lemma_out_items(b, cells, pos, end, row, kept, acts, 0, 1);
    lemma_keep_items(r, none, again, items);
    lemma_cells_from(r, p, stop);
    assert forall|k: int| 0 <= k < again.len() implies (cell_ref(
        r,
        (#[trigger] again[k]).0,
    ) matches Some((c, _)) && cell_after(r, row, held, acts2, c as u32, again[k].1)
        == r.subrange(again[k].1.0, again[k].1.1)) by {
        let it = items[k];
        assert(is_item(r, again[k], it));
        let col = it.0 as u32;
        lemma_cell_ref_small(r, again[k].0);
        assert(is_outcome(b, row, kept, acts, items[k]));
        assert(get(held, items[k].0 as u32) == Some(
            CellAct::Keep(again[k].1.0, again[k].1.1),
        ));
        lemma_acts_on(b, kept, rw, col);
        lemma_acts_on(r, held, rw, col);
        lemma_last_put(rw.formulas, col);
        if let Some(f) = last_put(rw.formulas, col) {
            let i = choose|i: int| 0 <= i < rw.formulas.len() && rw.formulas[i] == f;
            assert(is_good_put(rw.formulas[i]) && rw.formulas[i].val is Formula);
            lemma_formula_seen(col as nat, row, f.val, f.style);
        }
    }
    let fresh = fresh_acts(held, acts2);
    assert forall|col: u32| #[trigger] fresh.contains_key(col) implies fresh[col] is Remove by {
        assert(acts2.contains_key(col) && !held.contains_key(col));
        assert(get(acts2, col) == Some(acts2[col]));
        assert(get(held, col) is None);
        lemma_acts_on(b, kept, rw, col);
        lemma_acts_on(r, held, rw, col);
        if has_col(items, col as nat) {
            let k = choose|k: int| 0 <= k < items.len() && (#[trigger] items[k]).0 == col;
            assert(get(held, items[k].0 as u32) is Some);
        }
        if kept.contains_key(col) {
            lemma_kept_has_cell(b, cells, col);
            let i = choose|i: int|
                0 <= i < cells.len() && (cell_ref(b, (#[trigger] cells[i]).0)->0).0 == col;
            assert(get(acts, (cell_ref(b, cells[i].0)->0).0 as u32) == get(acts, col));
        }
        if !(fresh[col] is Remove) {
            if acts.contains_key(col) && acts[col] is Put && !kept.contains_key(col) {
                assert(has_col(items, col as nat));
            }
        }
    }
    lemma_still(r, again, p, stop, row, held, acts2, 0);
}

/// A column that has a cell has it among the cells of the row.
proof fn lemma_kept_has_cell(b: Seq<u8>, cells: Seq<(Tag, (int, int))>, col: u32)
    requires
        are_items(b, cells, items_of(b, cells)),
        ascend(items_of(b, cells)),
        keep_cells(b, Map::empty(), cells).contains_key(col),
    ensures
        exists|i: int| 0 <= i < cells.len() && (cell_ref(b, (#[trigger] cells[i]).0)->0).0 == col,
{
    let items = items_of(b, cells);
    let none = Map::<u32, CellAct>::empty();
    lemma_keep_items(b, none, cells, items);
    if !has_col(items, col as nat) {
        assert(get(keep_cells(b, none, cells), col) == get(none, col));
    }
    let k = choose|k: int| 0 <= k < items.len() && (#[trigger] items[k]).0 == col;
    assert(is_item(b, cells[k], items[k]));
}

// ------------------------------------------------------------------- whole rows
/// A row as workbooks have it: its tag holds no other, and its content is plain.
pub open spec fn is_plain_row(b: Seq<u8>, e: (Tag, (int, int))) -> bool {
    let c = content_of(e);
    &&& e.0.name == "row"@ && !e.0.closing
    &&& no_lt(inside(b, e.0))
    &&& inside(b, e.0).len() > 0 && inside(b, e.0).last() != 47
    &&& is_plain_content(b, cells_from(b, c.0, c.1), c.0, c.1, 1)
}

/// The closing tags of rows and of the worksheet's data.
proof fn lemma_close_marks()
    ensures
        close_mark("row"@) == bytes("</row>"@),
        close_mark("row"@) == seq![60u8, 47, 114, 111, 119, 62],
        close_mark("sheetData"@) == seq![
            60u8,
            47,
            115,
            104,
            101,
            101,
            116,
            68,
            97,
            116,
            97,
            62,
        ],
        bytes("<row"@) == seq![60u8, 114, 111, 119],
        bytes("<"@) == seq![60u8],
        bytes(">"@) == seq![62u8],
        is_mark(close_mark("row"@)),
        is_mark(close_mark("sheetData"@)),
{
    reveal_strlit("</");
    reveal_strlit(">");
    reveal_strlit("<");
    reveal_strlit("row");
    reveal_strlit("<row");
    reveal_strlit("</row>");
    reveal_strlit("sheetData");
    assert("</"@ + "row"@ + ">"@ =~= "</row>"@);
    let x = "</"@ + "sheetData"@ + ">"@;
    lemma_encode_ascii("</row>"@);
    lemma_encode_ascii("<row"@);
    lemma_encode_ascii("<"@);
    lemma_encode_ascii(">"@);
    lemma_encode_ascii(x);
    assert(bytes("</row>"@) =~= seq![60u8, 47, 114, 111, 119, 62]);
    assert(bytes("<row"@) =~= seq![60u8, 114, 111, 119]);
    assert(bytes("<"@) =~= seq![60u8]);
    assert(bytes(">"@) =~= seq![62u8]);
    assert(bytes(x) =~= seq![60u8, 47, 115, 104, 101, 101, 116, 68, 97, 116, 97, 62]);
}

/// The cells that come in hold no closing tag of a row or a worksheet.
proof fn lemma_new_clean(
    b: Seq<u8>,
    row: nat,
    acts: Map<u32, CellAct>,
    from: nat,
    n: nat,
    pat: Seq<u8>,
)
    requires
        is_mark(pat),
        are_good(acts),
        forall|k: u32| #[trigger] acts.contains_key(k) ==> !(acts[k] is Keep),
    ensures
        is_clean(cells_between(b, row, acts, from, n), pat),
        ends_tag(cells_between(b, row, acts, from, n)),
    decreases n,
{
    if n <= from {
        lemma_no_lt_clean(Seq::empty(), pat);
    } else {
        lemma_new_clean(b, row, acts, from, (n - 1) as nat, pat);
        let col = (n - 1) as u32;
        let before = cells_between(b, row, acts, from, (n - 1) as nat);
        if n <= 0x1_0000_0000 && acts.contains_key(col) {
            let c = act_bytes(b, col as nat, row, acts[col]);
            match acts[col] {
                CellAct::Put(v, s) => {
                    lemma_written_is_clean(col as nat, row, v, s, pat);
                    lemma_written_cell_marks(col as nat, row, v, s);
                    lemma_clean_both(before, c, pat);
                    assert((before + c).last() == c.last());
                },
                _ => {
                    assert(before + c =~= before);
                },
            }
        }
    }
}

/// The content of a plain row afterwards holds no closing tag of a row or a worksheet, where its
/// cells hold none.
#[verifier::spinoff_prover]
#[verifier::rlimit(60)]
proof fn lemma_body_clean(
    b: Seq<u8>,
    cells: Seq<(Tag, (int, int))>,
    pos: int,
    end: int,
    row: nat,
    kept: Map<u32, CellAct>,
    acts: Map<u32, CellAct>,
    next: nat,
    low: nat,
    pat: Seq<u8>,
)
    requires
        is_mark(pat),
        0 <= pos,
        end <= b.len(),
        is_chain(cells, pos, end),
        are_found(b, cells),
        is_plain_content(b, cells, pos, end, low),
        are_good(acts),
        forall|k: u32| #[trigger]
            acts.contains_key(k) && acts[k] is Keep ==> kept.contains_key(k),
        forall|i: int|
            0 <= i < cells.len() ==> is_clean(
                b.subrange((#[trigger] cells[i]).1.0, cells[i].1.1),
                pat,
            ),
    ensures
        is_clean(row_body(b, cells, pos, end, row, kept, acts, next), pat),
    decreases cells.len(),
{
    let fresh = fresh_acts(kept, acts);
    assert(are_good(fresh)) by {
        assert forall|k: u32| #[trigger] fresh.contains_key(k) implies (
        fresh[k] matches CellAct::Put(v, s) ==> 1 <= k <= 18278 && plain_style(s) && plain_value(
            v,
        )) by {
            assert(acts.contains_key(k));
        }
    }
    assert forall|k: u32| #[trigger] fresh.contains_key(k) implies !(fresh[k] is Keep) by {
        assert(acts.contains_key(k));
    }
    if cells.len() == 0 {
        let gap = b.subrange(pos, end);
        lemma_new_clean(b, row, fresh, next, 0x1_0000_0000, pat);
        lemma_no_lt_clean(gap, pat);
        lemma_clean_both(gap, cells_between(b, row, fresh, next, 0x1_0000_0000), pat);
    } else {
        let (t, s) = cells[0];
        assert(cells[0] == (t, s));
        let rest = cells.drop_first();
        let (col, _) = cell_ref(b, t)->0;
        let later = if next < col {
            col
        } else {
            next
        };
        lemma_chain_from(rest, s.1, s.1, end);
        let gap = b.subrange(pos, s.0);
        let new = cells_between(b, row, fresh, next, col);
        let mid = cell_after(b, row, kept, acts, col as u32, s);
        let back = row_body(b, rest, s.1, end, row, kept, acts, later);
        assert forall|i: int| 0 <= i < rest.len() implies ({
            let (t, s) = #[trigger] rest[i];
            tag_bounds(b, 0, t) && span_of(b, t) == Some(s) && t.name == "c"@ && !t.closing
        }) && is_clean(b.subrange(rest[i].1.0, rest[i].1.1), pat) by {
            assert(rest[i] == cells[i + 1]);
        }
        lemma_body_clean(b, rest, s.1, end, row, kept, acts, later, col + 1, pat);
        lemma_new_clean(b, row, fresh, next, col, pat);
        lemma_no_lt_clean(gap, pat);
        if !acts.contains_key(col as u32) || acts[col as u32] is Keep {
            lemma_found_is_cell(b, t, s, col);
            assert(is_clean(b.subrange(cells[0].1.0, cells[0].1.1), pat));
        } else {
            match acts[col as u32] {
                CellAct::Put(v, y) => {
                    lemma_written_is_clean(col as u32 as nat, row, v, y, pat);
                    lemma_written_cell_marks(col as u32 as nat, row, v, y);
                    lemma_no_lt_clean(Seq::empty(), pat);
                },
                _ => {
                    lemma_no_lt_clean(Seq::empty(), pat);
                },
            }
        }
        lemma_clean_both(mid, back, pat);
        lemma_clean_both(new, mid + back, pat);
        lemma_clean_both(gap, new + (mid + back), pat);
        assert(gap + new + mid + back =~= gap + (new + (mid + back)));
    }
}

/// A closing tag behind clean bytes is the first one.
proof fn lemma_close_behind(r: Seq<u8>, from: int, x: Seq<u8>, pat: Seq<u8>)
    requires
        is_mark(pat),
        is_clean(x, pat),
        0 <= from,
        from + x.len() + pat.len() <= r.len(),
        r.subrange(from, from + x.len()) == x,
        is_at(r, from + x.len(), pat),
    ensures
        find_from(r, from, pat) == Some(from + x.len()),
{
    let y = pat.drop_last();
    assert forall|q: int| 0 <= q implies !#[trigger] is_at(y, q, pat) by {}
    lemma_clean_both(x, y, pat);
    let p = from + x.len();
    assert forall|q: int| from <= q < p implies !#[trigger] is_at(r, q, pat) by {
        if is_at(r, q, pat) {
            let w = x + y;
            let k = q - from;
            assert forall|j: int| 0 <= j < pat.len() implies w.subrange(k, k + pat.len())[j]
                == #[trigger] r.subrange(q, q + pat.len())[j] by {
                if k + j < x.len() {
                    assert(r.subrange(from, from + x.len())[k + j] == r[q + j]);
                } else {
                    assert(r.subrange(p, p + pat.len())[k + j - x.len()] == r[q + j]);
                }
            }
            assert(w.subrange(k, k + pat.len()) =~= r.subrange(q, q + pat.len()));
            assert(is_at(w, k, pat));
        }
    }
    lemma_first_place(r, from, p, pat);
}

/// The cells of a row, what they become, and what is known of both.
proof fn lemma_row_facts(b: Seq<u8>, e: (Tag, (int, int)), rw: RowPut)
    requires
        element_bounds(b, e),
        is_good_request(rw),
    ensures
        ({
            let c = content_of(e);
            let cells = cells_from(b, c.0, c.1);
            let acts = row_acts(b, e, rw);
            let kept = kept_cells(b, e);
            &&& 0 <= c.0 <= c.1 <= b.len()
            &&& c.1 <= e.1.1
            &&& is_chain(cells, c.0, c.1)
            &&& are_found(b, cells)
            &&& are_good(acts)
            &&& acts == acts_on(b, kept, rw)
            &&& forall|k: u32| #[trigger] kept.contains_key(k) ==> kept[k] is Keep
            &&& forall|k: u32| #[trigger]
                acts.contains_key(k) && acts[k] is Keep ==> kept.contains_key(k)
        }),
{
    let c = content_of(e);
    lemma_span_of(b, e.0);
    lemma_mark_end(e.0.name);
    let cells = cells_from(b, c.0, c.1);
    let kept = kept_cells(b, e);
    let acts = row_acts(b, e, rw);
    lemma_cells_from(b, c.0, c.1);
    lemma_are_found(b, c.0, c.1);
    lemma_all_kept(b, Map::empty(), cells);
    lemma_good_acts(b, kept, rw);
    assert forall|k: u32| #[trigger] acts.contains_key(k) && acts[k] is Keep implies
        kept.contains_key(k) by {
        lemma_acts_on(b, kept, rw, k);
        assert(get(acts, k) == Some(acts[k]));
    }
}

/// A cell lies inside the row.
proof fn lemma_cell_inside(cells: Seq<(Tag, (int, int))>, pos: int, end: int, i: int)
    requires
        is_chain(cells, pos, end),
        0 <= i < cells.len(),
    ensures
        pos <= cells[i].1.0 < cells[i].1.1 <= end,
    decreases cells.len(),
{
    let rest = cells.drop_first();
    lemma_chain_from(rest, cells[0].1.1, cells[0].1.1, end);
    if i > 0 {
        assert(rest[i - 1] == cells[i]);
        lemma_cell_inside(rest, cells[0].1.1, end, i - 1);
    }
}

/// The content of a row afterwards holds no closing tag that its content does not hold.
#[verifier::spinoff_prover]
#[verifier::rlimit(60)]
proof fn lemma_content_clean(b: Seq<u8>, e: (Tag, (int, int)), rw: RowPut, pat: Seq<u8>)
    requires
        element_bounds(b, e),
        is_good_request(rw),
        is_plain_row(b, e),
        is_mark(pat),
        is_clean(b.subrange(content_of(e).0, content_of(e).1), pat),
    ensures
        ({
            let c = content_of(e);
            is_clean(
                row_body(
                    b,
                    cells_from(b, c.0, c.1),
                    c.0,
                    c.1,
                    rw.row as nat,
                    kept_cells(b, e),
                    row_acts(b, e, rw),
                    0,
                ),
                pat,
            )
        }),
{
    let c = content_of(e);
    let cells = cells_from(b, c.0, c.1);
    lemma_row_facts(b, e, rw);
    let x = b.subrange(c.0, c.1);
    assert forall|i: int| 0 <= i < cells.len() implies is_clean(
        b.subrange((#[trigger] cells[i]).1.0, cells[i].1.1),
        pat,
    ) by {
        lemma_cell_inside(cells, c.0, c.1, i);
        let s = cells[i].1;
        let y = b.subrange(s.0, s.1);
        assert forall|q: int| 0 <= q implies !#[trigger] is_at(y, q, pat) by {
            if is_at(y, q, pat) {
                let k = s.0 - c.0 + q;
                assert(x.subrange(k, k + pat.len()) =~= y.subrange(q, q + pat.len()));
                assert(is_at(x, k, pat));
            }
        }
    }
    lemma_body_clean(
        b,
        cells,
        c.0,
        c.1,
        rw.row as nat,
        kept_cells(b, e),
        row_acts(b, e, rw),
        0,
        1,
        pat,
    );
}

/// Where the pieces of a row stand that was made anew.
proof fn lemma_row_pieces(tag: Seq<u8>, body: Seq<u8>, r: Seq<u8>, p: int)
    requires
        0 <= p,
        ({
            let whole = bytes("<"@) + tag + bytes(">"@) + body + bytes("</row>"@);
            p + whole.len() <= r.len() && r.subrange(p, p + whole.len()) == whole
        }),
    ensures
        ({
            let whole = bytes("<"@) + tag + bytes(">"@) + body + bytes("</row>"@);
            let gt = p + 1 + tag.len();
            &&& whole.len() == tag.len() + body.len() + 8
            &&& r[p] == 60
            &&& r.subrange(p + 1, gt) == tag
            &&& r[gt] == 62
            &&& r.subrange(gt + 1, gt + 1 + body.len()) == body
            &&& is_at(r, gt + 1 + body.len(), close_mark("row"@))
        }),
{
    lemma_close_marks();
    let none = Seq::<u8>::empty();
    let a = bytes("<"@);
    let z = bytes(">"@);
    let mark = bytes("</row>"@);
    let whole = a + tag + z + body + mark;
    assert(whole =~= none + a + (tag + z + body + mark));
    assert(whole =~= a + tag + (z + body + mark));
    assert(whole =~= (a + tag) + z + (body + mark));
    assert(whole =~= (a + tag + z) + body + mark);
    assert(whole =~= (a + tag + z + body) + mark + none);
    lemma_middle(r, p, whole, none, a, tag + z + body + mark);
    lemma_middle(r, p, whole, a, tag, z + body + mark);
    lemma_middle(r, p, whole, a + tag, z, body + mark);
    lemma_middle(r, p, whole, a + tag + z, body, mark);
    lemma_middle(r, p, whole, a + tag + z + body, mark, none);
    let gt = p + 1 + tag.len();
    assert(r.subrange(p, p + 1)[0] == r[p]);
    assert(r.subrange(gt, gt + 1)[0] == r[gt]);
}

/// The tag of a row, with its slash left out, is the tag of a row wherever it stands.
#[verifier::spinoff_prover]
#[verifier::rlimit(60)]
proof fn lemma_row_tag(b: Seq<u8>, t: Tag, r: Seq<u8>, p: int)
    requires
        tag_bounds(b, 0, t),
        is_row_at(b, t.at),
        t.name == "row"@,
        !t.closing,
        inside(b, t).len() > 0,
        inside(b, t).last() != 47,
        0 <= p,
        p + 1 + inside(b, t).len() < r.len(),
        r[p] == 60,
        r.subrange(p + 1, p + 1 + inside(b, t).len()) == inside(b, t),
        r[p + 1 + inside(b, t).len()] == 62,
    ensures
        is_row_at(r, p),
        tag_from(r, p) matches Some(u) && {
            &&& u.at == p && u.name == "row"@ && !u.closing && !u.self_closing
            &&& u.inner == (p + 1, p + 1 + inside(b, t).len() as int)
            &&& u.after == p + 2 + inside(b, t).len()
        },
{
    let tag = inside(b, t);
    let lt = t.at;
    let m = t.inner.1;
    let g = t.after - 1;
    let d = p - lt;
    let gt = p + 1 + tag.len();
    let v = r.subrange(p + 1, p + 1 + tag.len());
    lemma_close_marks();
    assert forall|k: int| lt <= k < m implies #[trigger] b[k] == r[k + d] by {
        if k > lt {
            assert(tag[k - lt - 1] == b[k]);
            assert(v[k - lt - 1] == r[k + d]);
        }
    }
    let w = b.subrange(lt, lt + 4);
    assert(w[1] == b[lt + 1] && w[2] == b[lt + 2] && w[3] == b[lt + 3]);
    lemma_row_tag_long(b, t);
    lemma_gt_cut(b, lt, None, g, m, r, d);
    assert(r[p + 1] == b[lt + 1]);
    lemma_tag_here_again(r, p, gt);
    assert(v[tag.len() - 1] == r[gt - 1]);
    lemma_word_moved(b, lt + 1, m, r, d);
    lemma_sub_moved(b, lt + 1, word_end(b, lt + 1, m), r, d);
    assert(r[p + 2] == b[lt + 2]);
    assert(r[p + 3] == b[lt + 3]);
    assert(r.subrange(p, p + 4) =~= w);
    if lt + 4 < m {
        assert(b[lt + 4] == r[p + 4]);
    }
}

/// A plain row that a request has changed is a row wherever it stands, has the same number, and stays
/// as it is when the same request comes again.
#[verifier::spinoff_prover]
#[verifier::rlimit(60)]
proof fn lemma_row_again(
    b: Seq<u8>,
    e: (Tag, (int, int)),
    rw: RowPut,
    r: Seq<u8>,
    p: int,
    stop: int,
)
    requires
        element_bounds(b, e),
        is_good_request(rw),
        is_plain_row(b, e),
        is_row_at(b, e.0.at),
        0 <= p,
        p + rebuilt_row(b, e, rw).len() <= stop <= r.len(),
        r.subrange(p, p + rebuilt_row(b, e, rw).len()) == rebuilt_row(b, e, rw),
    ensures
        is_row_at(r, p),
        row_elem(r, p, stop) matches Some(x) && {
            &&& x.1 == (p, p + rebuilt_row(b, e, rw).len() as int)
            &&& row_number(r, x.0) == row_number(b, e.0)
            &&& rebuilt_row(r, x, rw) == rebuilt_row(b, e, rw)
        },
{
    let whole = rebuilt_row(b, e, rw);
    let c = content_of(e);
    let cells = cells_from(b, c.0, c.1);
    let kept = kept_cells(b, e);
    let acts = row_acts(b, e, rw);
    let body = row_body(b, cells, c.0, c.1, rw.row as nat, kept, acts, 0);
    let tag = inside(b, e.0);
    let mark = close_mark("row"@);
    lemma_close_marks();
    lemma_row_facts(b, e, rw);
    lemma_span_of(b, e.0);
    lemma_row_pieces(tag, body, r, p);
    lemma_row_tag(b, e.0, r, p);
    let t = tag_from(r, p)->0;
    let after = t.after;
    assert(inside(r, t) == tag);
    if e.0.self_closing {
        assert(b.subrange(c.0, c.1) =~= Seq::<u8>::empty());
        lemma_no_lt_clean(b.subrange(c.0, c.1), mark);
    } else {
        lemma_find_from(b, e.0.after, mark);
        lemma_front_clean(b, e.0.after, c.1, c.0, c.1, mark);
    }
    lemma_content_clean(b, e, rw, mark);
    lemma_close_behind(r, after, body, mark);
    let x = (t, (p, p + whole.len() as int));
    assert(span_of(r, t) == Some(x.1));
    assert(content_of(x) == (after, after + body.len() as int));
    lemma_body_again(b, c.0, c.1, rw, r, after);
    assert(row_acts(r, x, rw) == acts_on(r, kept_cells(r, x), rw));
}

/// A plain row stays a plain row when a request changes it, and the cells that are found in it
/// afterwards are those that its columns keep or get: one that is kept stays byte for byte, one that is
/// written is there as it is written, and a column that is removed has none.
#[verifier::rlimit(40)]
pub proof fn law_cells_of_changed_row(b: Seq<u8>, e: (Tag, (int, int)), rw: RowPut, col: u32)
    requires
        element_bounds(b, e),
        is_good_request(rw),
        is_plain_row(b, e),
        is_row_at(b, e.0.at),
    ensures
        ({
            let row = rebuilt_row(b, e, rw);
            row_elem(row, 0, row.len() as int) matches Some(x) && {
                &&& element_bounds(row, x) && x.0.at == 0
                &&& is_plain_row(row, x) && is_row_at(row, 0)
                &&& row_number(row, x.0) == row_number(b, e.0)
                &&& cell_in(row, x, col) == act_cell(b, rw.row as nat, row_acts(b, e, rw), col)
            }
        }),
{
    let whole = rebuilt_row(b, e, rw);
    let c = content_of(e);
    let cells = cells_from(b, c.0, c.1);
    let body = row_body(
        b,
        cells,
        c.0,
        c.1,
        rw.row as nat,
        kept_cells(b, e),
        row_acts(b, e, rw),
        0,
    );
    let tag = inside(b, e.0);
    lemma_close_marks();
    lemma_row_facts(b, e, rw);
    assert(whole.subrange(0, whole.len() as int) =~= whole);
    lemma_row_pieces(tag, body, whole, 0);
    lemma_row_tag(b, e.0, whole, 0);
    lemma_row_again(b, e, rw, whole, 0, whole.len() as int);
    lemma_row_elem(whole, 0, whole.len() as int);
    let x = row_elem(whole, 0, whole.len() as int)->0;
    assert(inside(whole, x.0) == tag);
    assert(content_of(x) == (2 + tag.len() as int, 2 + tag.len() + body.len() as int));
    lemma_body_columns(b, c.0, c.1, rw, whole, 2 + tag.len() as int, col);
}

/// What a request makes of a column in a row that is made anew.
pub open spec fn new_acts(rw: RowPut) -> Map<u32, CellAct> {
    fill_formulas(put_cells(Map::empty(), rw.cells), rw.formulas)
}

/// Nothing but cells that are put, and that are found again.
spec fn are_puts(acts: Map<u32, CellAct>) -> bool {
    are_good(acts) && forall|k: u32| #[trigger] acts.contains_key(k) ==> acts[k] is Put
}

proof fn lemma_put_puts(cells: Seq<CellPut>)
    requires
        forall|i: int| 0 <= i < cells.len() ==> is_good_put(#[trigger] cells[i]),
    ensures
        are_puts(put_cells(Map::empty(), cells)),
    decreases cells.len(),
{
    if cells.len() > 0 {
        assert forall|i: int| 0 <= i < cells.drop_last().len() implies is_good_put(
            #[trigger] cells.drop_last()[i],
        ) by {
            assert(cells.drop_last()[i] == cells[i]);
        }
        lemma_put_puts(cells.drop_last());
        assert(is_good_put(cells[cells.len() - 1]));
    }
}

proof fn lemma_fill_puts(acts: Map<u32, CellAct>, formulas: Seq<CellPut>)
    requires
        are_puts(acts),
        forall|i: int| 0 <= i < formulas.len() ==> is_good_put(#[trigger] formulas[i]),
    ensures
        are_puts(fill_formulas(acts, formulas)),
    decreases formulas.len(),
{
    if formulas.len() > 0 {
        assert forall|i: int| 0 <= i < formulas.drop_last().len() implies is_good_put(
            #[trigger] formulas.drop_last()[i],
        ) by {
            assert(formulas.drop_last()[i] == formulas[i]);
        }
        lemma_fill_puts(acts, formulas.drop_last());
        assert(is_good_put(formulas[formulas.len() - 1]));
    }
}

/// A column of a new row into which nothing is written gets a formula or stays without a cell.
proof fn lemma_fill_other(acts: Map<u32, CellAct>, formulas: Seq<CellPut>, col: u32)
    requires
        !acts.contains_key(col),
    ensures
        fill_formulas(acts, formulas).contains_key(col) ==> exists|i: int|
            0 <= i < formulas.len() && (#[trigger] formulas[i]).col == col && fill_formulas(
                acts,
                formulas,
            )[col] == CellAct::Put(formulas[i].val, formulas[i].style),
    decreases formulas.len(),
{
    if formulas.len() > 0 {
        let rest = formulas.drop_last();
        let before = fill_formulas(acts, rest);
        lemma_fill_other(acts, rest, col);
        if before.contains_key(col) {
            let i = choose|i: int|
                0 <= i < rest.len() && (#[trigger] rest[i]).col == col && before[col]
                    == CellAct::Put(rest[i].val, rest[i].style);
            assert(formulas[i] == rest[i]);
        } else if formulas.last().col == col {
            assert(formulas[formulas.len() - 1].col == col);
        }
    }
}

/// The opening tag of a new row.
proof fn lemma_new_row_tag(row: nat)
    ensures
        bytes("<row r=\""@ + decimal(row) + "\">"@) == simple_tag(
            bytes("row"@),
            bytes("r"@),
            bytes(decimal(row)),
            Seq::empty(),
            false,
        ),
        are_letters(bytes("row"@)),
        are_letters(bytes("r"@)),
        is_value(decimal(row)),
        bytes("row"@) == seq![114u8, 111, 119],
{
    reveal_strlit("<row r=\"");
    reveal_strlit("\">");
    reveal_strlit("row");
    reveal_strlit("r");
    lemma_encode_concat("<row r=\""@ + decimal(row), "\">"@);
    lemma_encode_concat("<row r=\""@, decimal(row));
    lemma_encode_ascii("<row r=\""@);
    lemma_encode_ascii("\">"@);
    lemma_encode_ascii("row"@);
    lemma_encode_ascii("r"@);
    lemma_decimal(row);
    assert(bytes("row"@) =~= seq![114u8, 111, 119]);
    assert(bytes("r"@) =~= seq![114u8]);
    assert(bytes("<row r=\""@) =~= seq![60u8, 114, 111, 119, 32, 114, 61, 34]);
    assert(bytes("\">"@) =~= seq![34u8, 62]);
    let n = bytes(decimal(row));
    assert(bytes("<row r=\""@) + n + bytes("\">"@) =~= simple_tag(
        bytes("row"@),
        bytes("r"@),
        n,
        Seq::empty(),
        false,
    ));
    assert forall|j: int| 0 <= j < decimal(row).len() implies #[trigger] decimal(row)[j] != '"'
        && decimal(row)[j] != '<' && decimal(row)[j] != '&' by {
        assert(is_digit(decimal(row)[j]));
    }
}

/// The element that a new row is.
#[verifier::spinoff_prover]
#[verifier::rlimit(60)]
proof fn lemma_new_row_element(rw: RowPut)
    requires
        is_good_request(rw),
    ensures
        ({
            let row = new_row(rw);
            let body = cells_of(Seq::empty(), rw.row as nat, new_acts(rw));
            row_elem(row, 0, row.len() as int) matches Some(x) && {
                &&& element_bounds(row, x) && x.0.at == 0 && is_row_at(row, 0)
                &&& x.0.name == "row"@ && !x.0.closing && no_lt(inside(row, x.0))
                &&& inside(row, x.0).len() > 0 && inside(row, x.0).last() != 47
                &&& row_number(row, x.0) == Some(rw.row as nat)
                &&& content_of(x) == (x.0.after, x.0.after + body.len() as int)
                &&& 0 <= x.0.after && x.0.after + body.len() <= row.len()
                &&& row.subrange(x.0.after, x.0.after + body.len()) == body
            }
        }),
{
    let none = Seq::<u8>::empty();
    let no_acts = Map::<u32, CellAct>::empty();
    let num = rw.row as nat;
    let acts = new_acts(rw);
    let whole = new_row(rw);
    let body = cells_of(none, num, acts);
    let head = bytes("<row r=\""@ + decimal(num) + "\">"@);
    let mark = close_mark("row"@);
    let inner = simple_inside(bytes("row"@), bytes("r"@), bytes(decimal(num)), none);
    lemma_close_marks();
    lemma_new_row_tag(num);
    lemma_put_puts(rw.cells);
    lemma_fill_puts(put_cells(no_acts, rw.cells), rw.formulas);
    assert(whole == head + body + mark);
    assert(whole.subrange(0, whole.len() as int) =~= whole);
    assert(whole =~= none + head + (body + mark));
    assert(whole =~= (head + body) + mark + none);
    lemma_middle(whole, 0, whole, none, head, body + mark);
    lemma_middle(whole, 0, whole, head, body, mark);
    lemma_middle(whole, 0, whole, head + body, mark, none);
    lemma_simple_tag("row"@, "r"@, decimal(num), none, false, whole, 0);
    let t = tag_from(whole, 0)->0;
    let after = head.len() as int;
    lemma_new_clean(none, num, acts, 0, 0x1_0000_0000, mark);
    lemma_close_behind(whole, after, body, mark);
    let x = (t, (0int, whole.len() as int));
    assert(span_of(whole, t) == Some(x.1));
    lemma_row_elem(whole, 0, whole.len() as int);
    lemma_decimal(num);
    assert(is_digit(decimal(num)[0]));
    assert(inner[0] == 114 && inner[1] == 111 && inner[2] == 119 && inner[3] == 32);
    assert(inside(whole, t)[0] == whole[1] && inside(whole, t)[1] == whole[2] && inside(
        whole,
        t,
    )[2] == whole[3] && inside(whole, t)[3] == whole[4]);
    assert(head[0] == 60);
    assert(whole[0] == 60);
    assert(whole.subrange(0, 4) =~= bytes("<row"@));
}

/// The cells of a new row, wherever they stand.
#[verifier::spinoff_prover]
#[verifier::rlimit(60)]
proof fn lemma_new_row_cells(rw: RowPut, r: Seq<u8>, p: int, col: u32)
    requires
        is_good_request(rw),
        0 <= p,
        ({
            let body = cells_of(Seq::empty(), rw.row as nat, new_acts(rw));
            p + body.len() <= r.len() && r.subrange(p, p + body.len()) == body
        }),
    ensures
        ({
            let body = cells_of(Seq::empty(), rw.row as nat, new_acts(rw));
            let again = cells_from(r, p, p + body.len());
            &&& is_plain_content(r, again, p, p + body.len(), 1)
            &&& cell_of(r, keep_cells(r, Map::empty(), again), col) == act_cell(
                Seq::empty(),
                rw.row as nat,
                new_acts(rw),
                col,
            )
        }),
{
    let none = Seq::<u8>::empty();
    let no_acts = Map::<u32, CellAct>::empty();
    let num = rw.row as nat;
    let acts = new_acts(rw);
    let body = cells_of(none, num, acts);
    let stop = p + body.len();
    lemma_put_puts(rw.cells);
    lemma_fill_puts(put_cells(no_acts, rw.cells), rw.formulas);
    let pre = lemma_scan_new(none, num, acts, 0, 0x1_0000_0000, r, p, stop);
    let again = cells_from(r, p, stop);
    assert(cells_from(r, stop, stop).len() == 0);
    assert(pre + cells_from(r, stop, stop) =~= pre);
    assert(fresh_acts(no_acts, acts) =~= acts);
    let items = new_cells(none, num, acts, 0, 0x1_0000_0000);
    lemma_new_items(none, num, no_acts, acts, 0, 0x1_0000_0000);
    if items.len() > 0 {
        assert(is_item(r, again[0], items[0]));
        lemma_cell_ref_one(r, again[0].0);
    }
    lemma_run_plain(r, again, p, stop, items, 1);
    lemma_keep_items(r, no_acts, again, items);
    let held = keep_cells(r, no_acts, again);
    if has_col(items, col as nat) {
        let k = choose|k: int| 0 <= k < items.len() && (#[trigger] items[k]).0 == col;
        assert(is_item(r, again[k], items[k]));
        assert(get(held, items[k].0 as u32) == Some(
            CellAct::Keep(again[k].1.0, again[k].1.1),
        ));
        assert(is_outcome(none, num, no_acts, acts, items[k]));
    } else {
        assert(get(held, col) == get(no_acts, col));
        if acts.contains_key(col) {
            assert(acts[col] is Put);
        }
    }
}

/// A row that is made anew is a plain row of its number, and the cells that are found in it are those
/// that its columns get.
pub proof fn law_cells_of_new_row(rw: RowPut, col: u32)
    requires
        is_good_request(rw),
    ensures
        ({
            let row = new_row(rw);
            row_elem(row, 0, row.len() as int) matches Some(x) && {
                &&& element_bounds(row, x) && x.0.at == 0
                &&& is_plain_row(row, x) && is_row_at(row, 0)
                &&& row_number(row, x.0) == Some(rw.row as nat)
                &&& cell_in(row, x, col) == act_cell(
                    Seq::empty(),
                    rw.row as nat,
                    new_acts(rw),
                    col,
                )
            }
        }),
{
    let row = new_row(rw);
    lemma_new_row_element(rw);
    let x = row_elem(row, 0, row.len() as int)->0;
    lemma_new_row_cells(rw, row, x.0.after, col);
}

/// A column into which a request writes nothing, and which it does not remove, keeps the cell that it
/// had or gets a formula that was asked for.
pub proof fn law_unwritten_column(b: Seq<u8>, e: (Tag, (int, int)), rw: RowPut, col: u32)
    requires
        !rw.clear.contains(col),
        forall|i: int| 0 <= i < rw.cells.len() ==> (#[trigger] rw.cells[i]).col != col,
    ensures
        ({
            let after = act_cell(b, rw.row as nat, row_acts(b, e, rw), col);
            after == cell_in(b, e, col) || exists|i: int|
                0 <= i < rw.formulas.len() && (#[trigger] rw.formulas[i]).col == col && after
                    == Some(
                    bytes(
                        cell_text(
                            col as nat,
                            rw.row as nat,
                            rw.formulas[i].val,
                            rw.formulas[i].style,
                        ),
                    ),
                )
        }),
{
    let kept = kept_cells(b, e);
    let c = content_of(e);
    let acts = row_acts(b, e, rw);
    lemma_all_kept(b, Map::empty(), cells_from(b, c.0, c.1));
    assert(acts == acts_on(b, kept, rw));
    lemma_acts_on(b, kept, rw, col);
    lemma_last_put(rw.cells, col);
    lemma_last_put(rw.formulas, col);
    if let Some(p) = last_put(rw.cells, col) {
        let i = choose|i: int| 0 <= i < rw.cells.len() && rw.cells[i] == p;
        assert(rw.cells[i].col != col);
    }
    if let Some(f) = last_put(rw.formulas, col) {
        let i = choose|i: int| 0 <= i < rw.formulas.len() && rw.formulas[i] == f;
        assert(rw.formulas[i].col == col);
    }
}

/// A column into which nothing is written in a new row gets a formula that was asked for, or has no
/// cell.
pub proof fn law_unwritten_new_column(rw: RowPut, col: u32)
    requires
        forall|i: int| 0 <= i < rw.cells.len() ==> (#[trigger] rw.cells[i]).col != col,
    ensures
        ({
            let after = act_cell(Seq::empty(), rw.row as nat, new_acts(rw), col);
            after is None || exists|i: int|
                0 <= i < rw.formulas.len() && (#[trigger] rw.formulas[i]).col == col && after
                    == Some(
                    bytes(
                        cell_text(
                            col as nat,
                            rw.row as nat,
                            rw.formulas[i].val,
                            rw.formulas[i].style,
                        ),
                    ),
                )
        }),
{
    let acts = put_cells(Map::<u32, CellAct>::empty(), rw.cells);
    lemma_put(Map::empty(), rw.cells, col);
    lemma_last_put(rw.cells, col);
    if let Some(p) = last_put(rw.cells, col) {
        let i = choose|i: int| 0 <= i < rw.cells.len() && rw.cells[i] == p;
        assert(rw.cells[i].col != col);
    }
    assert(get(acts, col) is None);
    lemma_fill_other(acts, rw.formulas, col);
    if new_acts(rw).contains_key(col) {
        let i = choose|i: int|
            0 <= i < rw.formulas.len() && (#[trigger] rw.formulas[i]).col == col && new_acts(
                rw,
            )[col] == CellAct::Put(rw.formulas[i].val, rw.formulas[i].style);
        assert(rw.formulas[i].col == col);
    }
}

/// The tag of a row is at least as long as its name.
proof fn lemma_row_tag_long(b: Seq<u8>, t: Tag)
    requires
        tag_bounds(b, 0, t),
        is_row_at(b, t.at),
    ensures
        t.inner.1 >= t.at + 4,
{
    lemma_close_marks();
    let lt = t.at;
    let w = b.subrange(lt, lt + 4);
    assert(w[1] == b[lt + 1] && w[2] == b[lt + 2] && w[3] == b[lt + 3]);
    lemma_gt_from(b, lt, None);
    assert(gt_from(b, lt, None) == gt_from(b, lt + 1, None));
    assert(gt_from(b, lt + 1, None) == gt_from(b, lt + 2, None));
    assert(gt_from(b, lt + 2, None) == gt_from(b, lt + 3, None));
    assert(gt_from(b, lt + 3, None) == gt_from(b, lt + 4, None));
    lemma_gt_from(b, lt + 4, None);
}

// ------------------------------------------------------------- whole worksheets
/// The rows of a worksheet as workbooks have them, from `pos` to `end`: complete, with no tags
/// between them, and plain where a request is for them.
pub open spec fn are_plain_rows(b: Seq<u8>, pos: int, end: int, ws: Seq<RowPut>) -> bool
    decreases end - pos,
{
    if pos < 0 || pos >= end {
        true
    } else if !is_row_at(b, pos) {
        b[pos] != 60 && are_plain_rows(b, pos + 1, end, ws)
    } else {
        proof {
            lemma_row_elem(b, pos, end);
        }
        match row_elem(b, pos, end) {
            None => false,
            Some(e) => (request_of(b, e, ws) is Some ==> is_plain_row(b, e)) && are_plain_rows(
                b,
                e.1.1,
                end,
                ws,
            ),
        }
    }
}

/// Requests that make no rows and whose cells are found again.
pub open spec fn are_good_requests(ws: Seq<RowPut>) -> bool {
    forall|i: int| 0 <= i < ws.len() ==> is_good_request(#[trigger] ws[i]) && !ws[i].insert
}

proof fn lemma_request_good(ws: Seq<RowPut>, num: nat)
    requires
        are_good_requests(ws),
    ensures
        request_for(ws, num) matches Some(w) ==> is_good_request(w),
    decreases ws.len(),
{
    if ws.len() > 0 {
        assert(is_good_request(ws[ws.len() - 1]));
        assert forall|i: int| 0 <= i < ws.drop_last().len() implies is_good_request(
            #[trigger] ws.drop_last()[i],
        ) && !ws.drop_last()[i].insert by {
            assert(ws.drop_last()[i] == ws[i]);
        }
        lemma_request_good(ws.drop_last(), num);
    }
}

/// A row that no request is for is the same row where its bytes stand again.
proof fn lemma_row_moved(b: Seq<u8>, e: (Tag, (int, int)), r: Seq<u8>, p: int, stop: int)
    requires
        element_bounds(b, e),
        is_row_at(b, e.0.at),
        0 <= p,
        p + (e.1.1 - e.1.0) <= stop <= r.len(),
        r.subrange(p, p + (e.1.1 - e.1.0)) == b.subrange(e.1.0, e.1.1),
    ensures
        is_row_at(r, p),
        row_elem(r, p, stop) == Some(
            (moved_tag(e.0, p - e.1.0), (p, p + (e.1.1 - e.1.0))),
        ),
        inside(r, moved_tag(e.0, p - e.1.0)) == inside(b, e.0),
{
    lemma_close_marks();
    let lt = e.0.at;
    let d = p - lt;
    let v = r.subrange(p, p + (e.1.1 - e.1.0));
    let u = b.subrange(e.1.0, e.1.1);
    assert forall|k: int| lt <= k < e.1.1 implies #[trigger] b[k] == r[k + d] by {
        assert(v[k - lt] == r[k + d]);
        assert(u[k - lt] == b[k]);
    }
    let w = b.subrange(lt, lt + 4);
    assert(w[0] == b[lt] && w[1] == b[lt + 1] && w[2] == b[lt + 2] && w[3] == b[lt + 3]);
    lemma_element_moved(b, e.0, e.1, r, d);
    lemma_row_tag_long(b, e.0);
    assert(b[lt] == r[p] && b[lt + 1] == r[p + 1] && b[lt + 2] == r[p + 2] && b[lt + 3]
        == r[p + 3] && b[lt + 4] == r[p + 4]);
    assert(r.subrange(p, p + 4) =~= w);
}

/// Rows that requests have changed stay as they are when the same requests come again.
#[verifier::spinoff_prover]
#[verifier::rlimit(60)]
proof fn lemma_rows_again(b: Seq<u8>, pos: int, end: int, ws: Seq<RowPut>, r: Seq<u8>, p: int)
    requires
        0 <= pos <= end <= b.len(),
        are_good_requests(ws),
        are_plain_rows(b, pos, end, ws),
        0 <= p,
        ({
            let w = patched(b, pos, end, ws, Seq::empty());
            p + w.len() <= r.len() && r.subrange(p, p + w.len()) == w
        }),
    ensures
        ({
            let w = patched(b, pos, end, ws, Seq::empty());
            patched(r, p, p + w.len(), ws, Seq::empty()) == w
        }),
    decreases end - pos,
{
    let no_rows = Seq::<RowPut>::empty();
    let none = Seq::<u8>::empty();
    let w = patched(b, pos, end, ws, no_rows);
    let stop = p + w.len();
    if pos >= end {
        assert(patched(r, p, stop, ws, no_rows) =~= w);
    } else if !is_row_at(b, pos) {
        let rest = patched(b, pos + 1, end, ws, no_rows);
        let one = seq![b[pos]];
        assert(w =~= none + one + rest);
        assert(w =~= one + rest + none);
        lemma_middle(r, p, w, none, one, rest);
        lemma_middle(r, p, w, one, rest, none);
        assert(r.subrange(p, p + 1)[0] == r[p]);
        lemma_close_marks();
        if is_row_at(r, p) {
            assert(r.subrange(p, p + 4)[0] == r[p]);
        }
        lemma_rows_again(b, pos + 1, end, ws, r, p + 1);
    } else {
        lemma_row_elem(b, pos, end);
        let e = row_elem(b, pos, end)->0;
        let row = row_after(b, e, ws);
        let rest = patched(b, e.1.1, end, ws, no_rows);
        assert(new_rows(no_rows) =~= none);
        assert(new_above(b, e, no_rows) =~= no_rows);
        assert(new_left(b, e, no_rows) =~= no_rows);
        assert(w =~= none + row + rest);
        assert(w =~= row + rest + none);
        lemma_middle(r, p, w, none, row, rest);
        lemma_middle(r, p, w, row, rest, none);
        let q = p + row.len();
        match request_of(b, e, ws) {
            Some(rw) => {
                lemma_request_good(ws, row_number(b, e.0)->0);
                lemma_row_again(b, e, rw, r, p, stop);
            },
            None => {
                lemma_row_moved(b, e, r, p, stop);
            },
        }
        let x = row_elem(r, p, stop)->0;
        assert(x.1.1 == q);
        assert(request_of(r, x, ws) == request_of(b, e, ws));
        assert(row_after(r, x, ws) == row);
        lemma_rows_again(b, e.1.1, end, ws, r, q);
        assert(new_above(r, x, no_rows) =~= no_rows);
        assert(new_left(r, x, no_rows) =~= no_rows);
        assert(row.len() > 0);
        assert(patched(r, p, stop, ws, no_rows) =~= w);
    }
}

/// Rows that requests have changed hold no closing tag of the worksheet's data.
proof fn lemma_rows_clean(b: Seq<u8>, start: int, pos: int, end: int, ws: Seq<RowPut>)
    requires
        0 <= start <= pos <= end <= b.len(),
        are_good_requests(ws),
        are_plain_rows(b, pos, end, ws),
        find_from(b, start, close_mark("sheetData"@)) == Some(end),
    ensures
        is_clean(patched(b, pos, end, ws, Seq::empty()), close_mark("sheetData"@)),
    decreases end - pos,
{
    let pat = close_mark("sheetData"@);
    let no_rows = Seq::<RowPut>::empty();
    let none = Seq::<u8>::empty();
    lemma_close_marks();
    assert(new_rows(no_rows) =~= none);
    lemma_no_lt_clean(none, pat);
    if pos >= end {
    } else if !is_row_at(b, pos) {
        let one = seq![b[pos]];
        lemma_rows_clean(b, start, pos + 1, end, ws);
        lemma_no_lt_clean(one, pat);
        lemma_clean_both(one, patched(b, pos + 1, end, ws, no_rows), pat);
    } else {
        lemma_row_elem(b, pos, end);
        let e = row_elem(b, pos, end)->0;
        let row = row_after(b, e, ws);
        let rest = patched(b, e.1.1, end, ws, no_rows);
        assert(new_above(b, e, no_rows) =~= no_rows);
        assert(new_left(b, e, no_rows) =~= no_rows);
        lemma_rows_clean(b, start, e.1.1, end, ws);
        match request_of(b, e, ws) {
            Some(rw) => {
                lemma_request_good(ws, row_number(b, e.0)->0);
                lemma_row_clean(b, e, rw, start, end);
            },
            None => {
                lemma_front_clean(b, start, end, e.1.0, e.1.1, pat);
                lemma_element_end(b, e);
            },
        }
        lemma_clean_both(row, rest, pat);
        assert(patched(b, pos, end, ws, no_rows) =~= row + rest);
    }
}

/// An element ends with an angle bracket.
proof fn lemma_element_end(b: Seq<u8>, e: (Tag, (int, int)))
    requires
        element_bounds(b, e),
    ensures
        ends_tag(b.subrange(e.1.0, e.1.1)),
{
    let x = b.subrange(e.1.0, e.1.1);
    lemma_span_of(b, e.0);
    if e.0.self_closing {
        assert(x.last() == b[e.0.after - 1]);
    } else {
        let m = close_mark(e.0.name);
        lemma_find_from(b, e.0.after, m);
        lemma_mark_end(e.0.name);
        assert(b.subrange(e.1.1 - m.len(), e.1.1)[m.len() - 1] == b[e.1.1 - 1]);
    }
}

/// A row that a request has changed holds no closing tag of the worksheet's data.
#[verifier::spinoff_prover]
#[verifier::rlimit(60)]
proof fn lemma_row_clean(b: Seq<u8>, e: (Tag, (int, int)), rw: RowPut, start: int, end: int)
    requires
        element_bounds(b, e),
        is_good_request(rw),
        is_plain_row(b, e),
        is_row_at(b, e.0.at),
        0 <= start <= e.1.0,
        e.1.1 <= end,
        find_from(b, start, close_mark("sheetData"@)) == Some(end),
    ensures
        is_clean(rebuilt_row(b, e, rw), close_mark("sheetData"@)),
        ends_tag(rebuilt_row(b, e, rw)),
{
    let pat = close_mark("sheetData"@);
    let c = content_of(e);
    lemma_close_marks();
    lemma_row_facts(b, e, rw);
    lemma_front_clean(b, start, end, c.0, c.1, pat);
    lemma_content_clean(b, e, rw, pat);
    let body = row_body(
        b,
        cells_from(b, c.0, c.1),
        c.0,
        c.1,
        rw.row as nat,
        kept_cells(b, e),
        row_acts(b, e, rw),
        0,
    );
    let head = bytes("<"@) + inside(b, e.0) + bytes(">"@);
    let tail = bytes("</row>"@);
    let lt = e.0.at;
    let w = b.subrange(lt, lt + 4);
    assert(w[1] == b[lt + 1]);
    lemma_row_tag_long(b, e.0);
    assert(inside(b, e.0)[0] == b[lt + 1]);
    assert forall|q: int| 0 <= q implies !#[trigger] is_at(head, q, pat) by {
        if is_at(head, q, pat) {
            let v = head.subrange(q, q + pat.len());
            assert(v[0] == head[q] && v[1] == head[q + 1]);
            if q > 0 {
                assert(head[q] == inside(b, e.0)[q - 1]);
            }
        }
    }
    assert forall|q: int| 0 <= q implies !#[trigger] is_at(tail, q, pat) by {}
    lemma_clean_both(head, body, pat);
    lemma_clean_both(head + body, tail, pat);
    assert(rebuilt_row(b, e, rw) =~= head + body + tail);
}

/// The part of a worksheet in front of its data, from `pos` on: every tag in it ends in it and holds no
/// other.
pub open spec fn is_plain_front(b: Seq<u8>, pos: int, start: int) -> bool
    decreases b.len() - pos,
{
    match tag_from(b, pos) {
        None => false,
        Some(t) => {
            proof {
                lemma_tag_from(b, pos);
            }
            t.after <= start && no_lt(inside(b, t)) && (t.name == "sheetData"@ && !t.closing
                || is_plain_front(b, t.after, start))
        },
    }
}

/// A dimension as workbooks have it.
pub open spec fn is_plain_dimension(b: Seq<u8>, t: Tag, range: Seq<char>, tail: Seq<u8>) -> bool {
    is_value(range) && are_blanks(tail) && inside(b, t) == simple_inside(
        bytes("dimension"@),
        bytes("ref"@),
        bytes(range),
        tail,
    )
}

/// The first dimension from `pos` on stands in front of the data and is plain.
pub open spec fn has_plain_dimension(b: Seq<u8>, pos: int, start: int) -> bool
    decreases b.len() - pos,
{
    match tag_from(b, pos) {
        None => false,
        Some(t) => {
            proof {
                lemma_tag_from(b, pos);
            }
            t.after <= start && no_lt(inside(b, t)) && !(t.name == "sheetData"@ && !t.closing) && (
            if t.name == "dimension"@ && !t.closing {
                exists|range: Seq<char>, tail: Seq<u8>| #[trigger]
                    is_plain_dimension(b, t, range, tail)
            } else {
                has_plain_dimension(b, t.after, start)
            })
        },
    }
}

/// The dimension stands in front of the data, and it reaches down to a row.
pub open spec fn dimension_reaches(b: Seq<u8>, pos: int, start: int, row: nat) -> bool
    decreases b.len() - pos,
{
    match tag_from(b, pos) {
        None => false,
        Some(t) => {
            proof {
                lemma_tag_from(b, pos);
            }
            t.after <= start && (if t.name == "dimension"@ && !t.closing {
                match attr_of(inside(b, t), "ref"@) {
                    Some(range) => stretched(range, row) is None,
                    None => true,
                }
            } else {
                dimension_reaches(b, t.at + 1, start, row)
            })
        },
    }
}

/// The data of a worksheet is found again where the part in front of it stands again, `d` positions
/// further on.
proof fn lemma_data_moved(
    b: Seq<u8>,
    pos: int,
    start: int,
    end: int,
    y: Seq<u8>,
    d: int,
    stop: int,
)
    requires
        0 <= pos,
        is_plain_front(b, pos, start),
        sheet_data_from(b, pos) == Some((start, end, false)),
        moved(b, pos, start, y, d),
        find_from(y, start + d, close_mark("sheetData"@)) == Some(stop),
    ensures
        sheet_data_from(y, pos + d) == Some((start + d, stop, false)),
    decreases b.len() - pos,
{
    lemma_tag_from(b, pos);
    let t = tag_from(b, pos)->0;
    lemma_tag_moved(b, pos, t, y, d);
    lemma_tag_from(y, pos + d);
    if !(t.name == "sheetData"@ && !t.closing) {
        lemma_tag_behind(b, t);
        lemma_tag_behind(y, moved_tag(t, d));
        lemma_data_from_tag(b, t.at + 1, t.after);
        lemma_data_from_tag(y, t.at + d + 1, t.after + d);
        lemma_data_moved(b, t.after, start, end, y, d, stop);
    }
}

/// The search for the data depends on the next tag alone.
proof fn lemma_data_from_tag(b: Seq<u8>, i: int, j: int)
    requires
        tag_from(b, i) == tag_from(b, j),
    ensures
        sheet_data_from(b, i) == sheet_data_from(b, j),
        dimension_from(b, i) == dimension_from(b, j),
{
}

/// The part in front of the data is plain where it is the same.
proof fn lemma_front_same(b: Seq<u8>, pos: int, start: int, y: Seq<u8>)
    requires
        0 <= pos,
        is_plain_front(b, pos, start),
        moved(b, 0, start, y, 0),
    ensures
        is_plain_front(y, pos, start),
    decreases b.len() - pos,
{
    lemma_tag_from(b, pos);
    let t = tag_from(b, pos)->0;
    lemma_tag_same(b, pos, t, y);
    lemma_tag_from(y, pos);
    if !(t.name == "sheetData"@ && !t.closing) {
        lemma_front_same(b, t.after, start, y);
    }
}

/// The dimension in front of the data is plain where that part is the same.
proof fn lemma_plain_dimension_same(b: Seq<u8>, pos: int, start: int, y: Seq<u8>)
    requires
        0 <= pos,
        has_plain_dimension(b, pos, start),
        moved(b, 0, start, y, 0),
    ensures
        has_plain_dimension(y, pos, start),
    decreases b.len() - pos,
{
    lemma_tag_from(b, pos);
    let t = tag_from(b, pos)->0;
    lemma_tag_same(b, pos, t, y);
    lemma_tag_from(y, pos);
    if t.name == "dimension"@ && !t.closing {
        let (range, tail) = choose|range: Seq<char>, tail: Seq<u8>| #[trigger]
            is_plain_dimension(b, t, range, tail);
        assert(is_plain_dimension(y, t, range, tail));
    } else {
        lemma_plain_dimension_same(b, t.after, start, y);
    }
}

/// The first dimension, where it is plain.
proof fn lemma_plain_dimension(b: Seq<u8>, pos: int, start: int)
    requires
        0 <= pos,
        has_plain_dimension(b, pos, start),
    ensures
        dimension_from(b, pos) matches Some(t) && {
            &&& tag_bounds(b, pos, t) && t.after <= start && no_lt(inside(b, t))
            &&& t.name == "dimension"@ && !t.closing
            &&& exists|range: Seq<char>, tail: Seq<u8>| #[trigger]
                is_plain_dimension(b, t, range, tail)
        },
    decreases b.len() - pos,
{
    lemma_tag_from(b, pos);
    let t = tag_from(b, pos)->0;
    if !(t.name == "dimension"@ && !t.closing) {
        lemma_tag_behind(b, t);
        lemma_data_from_tag(b, t.at + 1, t.after);
        lemma_plain_dimension(b, t.after, start);
    }
}

/// The bytes of the names in a dimension.
proof fn lemma_dimension_bytes()
    ensures
        bytes("dimension"@) == seq![100u8, 105, 109, 101, 110, 115, 105, 111, 110],
        bytes("ref"@) == seq![114u8, 101, 102],
        are_letters(bytes("dimension"@)),
        are_letters(bytes("ref"@)),
{
    reveal_strlit("dimension");
    reveal_strlit("ref");
    lemma_encode_ascii("dimension"@);
    lemma_encode_ascii("ref"@);
    assert(bytes("dimension"@) =~= seq![100u8, 105, 109, 101, 110, 115, 105, 111, 110]);
    assert(bytes("ref"@) =~= seq![114u8, 101, 102]);
}

/// Where a dimension is exchanged for another plain one, the search for the dimension gives that one,
/// and the search for the data goes on behind it.
#[verifier::spinoff_prover]
#[verifier::rlimit(60)]
proof fn lemma_exchanged_dimension(
    b: Seq<u8>,
    pos: int,
    start: int,
    t: Tag,
    y: Seq<u8>,
    range: Seq<char>,
    tail: Seq<u8>,
)
    requires
        0 <= pos,
        has_plain_dimension(b, pos, start),
        dimension_from(b, pos) == Some(t),
        is_value(range),
        are_blanks(tail),
        ({
            let w = simple_tag(
                bytes("dimension"@),
                bytes("ref"@),
                bytes(range),
                tail,
                t.self_closing,
            );
            t.at + w.len() <= y.len() && y.subrange(t.at, t.at + w.len()) == w
        }),
        moved(b, 0, t.at, y, 0),
    ensures
        ({
            let w = simple_tag(
                bytes("dimension"@),
                bytes("ref"@),
                bytes(range),
                tail,
                t.self_closing,
            );
            &&& dimension_from(y, pos) matches Some(u) && {
                &&& u.at == t.at && u.after == t.at + w.len()
                &&& attr_of(inside(y, u), "ref"@) == Some(range)
            }
            &&& sheet_data_from(y, pos) == sheet_data_from(y, t.at + w.len())
        }),
    decreases b.len() - pos,
{
    let w = simple_tag(bytes("dimension"@), bytes("ref"@), bytes(range), tail, t.self_closing);
    lemma_tag_from(b, pos);
    let v = tag_from(b, pos)->0;
    lemma_dimension_bytes();
    lemma_plain_dimension(b, pos, start);
    if v.name == "dimension"@ && !v.closing {
        assert(v == t);
        reveal_strlit("dimension");
        reveal_strlit("ref");
        reveal_strlit("sheetData");
        lemma_simple_tag("dimension"@, "ref"@, range, tail, t.self_closing, y, t.at);
        let u = tag_from(y, t.at)->0;
        lemma_tag_from(y, t.at);
        let (x, z) = choose|x: Seq<char>, z: Seq<u8>| #[trigger] is_plain_dimension(b, t, x, z);
        let inner = simple_inside(bytes("dimension"@), bytes("ref"@), bytes(x), z);
        assert(inner[0] == 100);
        assert(inside(b, t)[0] == b[t.at + 1]);
        assert(y[t.at + 1] == inside(y, u)[0]);
        let upto = y.subrange(t.at, t.at + w.len());
        assert(w[0] == 60);
        assert(upto[0] == y[t.at]);
        assert(moved(b, 0, t.at + 2, y, 0)) by {
            assert forall|k: int| 0 <= k < t.at + 2 implies #[trigger] b[k] == y[k + 0] by {}
        }
        lemma_tag_reached(b, pos, t, y);
        lemma_data_from_tag(y, pos, t.at);
        assert("dimension"@.len() != 0);
        assert("sheetData"@[0] != "dimension"@[0]);
        lemma_tag_behind(y, u);
        lemma_data_from_tag(y, u.at + 1, u.after);
    } else {
        lemma_tag_behind(b, v);
        lemma_data_from_tag(b, v.at + 1, v.after);
        lemma_plain_dimension(b, v.after, start);
        assert(v.after <= t.at);
        assert(moved(b, 0, v.after, y, 0));
        lemma_tag_same(b, pos, v, y);
        lemma_tag_from(y, pos);
        lemma_tag_behind(y, v);
        lemma_data_from_tag(y, v.at + 1, v.after);
        lemma_exchanged_dimension(b, v.after, start, t, y, range, tail);
    }
}

/// The dimension of a worksheet is found where the part in front of the data is the same.
proof fn lemma_dimension_same(b: Seq<u8>, pos: int, start: int, row: nat, y: Seq<u8>)
    requires
        0 <= pos,
        dimension_reaches(b, pos, start, row),
        moved(b, 0, start, y, 0),
    ensures
        dimension_reaches(y, pos, start, row),
        dimension_from(y, pos) matches Some(t) && (match attr_of(inside(y, t), "ref"@) {
            Some(range) => stretched(range, row) is None,
            None => true,
        }),
    decreases b.len() - pos,
{
    lemma_tag_from(b, pos);
    let t = tag_from(b, pos)->0;
    lemma_tag_same(b, pos, t, y);
    lemma_tag_from(y, pos);
    lemma_sub_moved(b, t.inner.0, t.inner.1, y, 0);
    if !(t.name == "dimension"@ && !t.closing) {
        lemma_dimension_same(b, t.at + 1, start, row, y);
    }
}

/// A range that was stretched reaches down to the row.
#[verifier::spinoff_prover]
#[verifier::rlimit(60)]
proof fn lemma_stretched(range: Seq<char>, row: nat)
    requires
        is_value(range),
        row <= u32::MAX,
    ensures
        stretched(range, row) matches Some(wider) ==> is_value(wider) && stretched(wider, row) is None,
{
    if let Some(wider) = stretched(range, row) {
        let (first, last) = range_ends(range)->0;
        let (col, old_row) = ref_value(last)->0;
        let k = first.len() as int;
        let end = col_name(col) + decimal(row);
        reveal_strlit(":");
        lemma_colon_from(range, 0);
        if let Some(m) = digit_from(last, 0) {
            lemma_col_small(last.take(m));
        }
        lemma_col_name(col);
        lemma_decimal(row);
        law_reference_read_back(col, row);
        assert forall|j: int| 0 <= j < end.len() implies #[trigger] end[j] != ':' && end[j] != '"'
            && end[j] != '<' && end[j] != '&' by {
            if j < col_name(col).len() {
                assert(letter_place(col_name(col)[j]) is Some);
            } else {
                assert(is_digit(decimal(row)[j - col_name(col).len()]));
            }
        }
        assert(wider == first + ":"@ + end);
        assert forall|j: int| 0 <= j < wider.len() implies #[trigger] wider[j] != '"' && wider[j]
            != '<' && wider[j] != '&' by {
            if j < k {
                assert(wider[j] == range[j]);
            } else if j > k {
                assert(wider[j] == end[j - k - 1]);
            }
        }
        assert forall|j: int| 0 <= j < k implies #[trigger] wider[j] != ':' by {
            assert(wider[j] == range[j]);
        }
        lemma_colon_here(wider, 0, k);
        assert forall|j: int| k + 1 <= j < wider.len() implies #[trigger] wider[j] != ':' by {
            assert(wider[j] == end[j - k - 1]);
        }
        lemma_no_colon(wider, k + 1);
        assert(wider.skip(k + 1) =~= end);
    }
}

proof fn lemma_colon_from(s: Seq<char>, i: int)
    requires
        0 <= i,
    ensures
        colon_from(s, i) matches Some(k) ==> i <= k < s.len() && s[k] == ':' && forall|j: int|
            i <= j < k ==> #[trigger] s[j] != ':',
    decreases s.len() - i,
{
    if i < s.len() && s[i] != ':' {
        lemma_colon_from(s, i + 1);
    }
}

proof fn lemma_colon_here(s: Seq<char>, i: int, k: int)
    requires
        0 <= i <= k < s.len(),
        s[k] == ':',
        forall|j: int| i <= j < k ==> #[trigger] s[j] != ':',
    ensures
        colon_from(s, i) == Some(k),
    decreases k - i,
{
    if i < k {
        assert(s[i] != ':');
        lemma_colon_here(s, i + 1, k);
    }
}

proof fn lemma_no_colon(s: Seq<char>, i: int)
    requires
        0 <= i,
        forall|j: int| i <= j < s.len() ==> #[trigger] s[j] != ':',
    ensures
        colon_from(s, i) is None,
    decreases s.len() - i,
{
    if i < s.len() {
        assert(s[i] != ':');
        lemma_no_colon(s, i + 1);
    }
}

/// Where the attribute of a plain dimension stands in its tag.
proof fn lemma_ref_place(range: Seq<char>, tail: Seq<u8>)
    ensures
        ({
            let x = simple_inside(bytes("dimension"@), bytes("ref"@), bytes(range), tail);
            &&& find_from(x, 0, ref_attr(range)) == Some(10int)
            &&& ref_attr(range) == bytes("ref"@) + seq![61u8, 34u8] + bytes(range) + seq![34u8]
            &&& x == bytes("dimension"@) + seq![32u8] + ref_attr(range) + tail
        }),
{
    let v = bytes(range);
    let x = simple_inside(bytes("dimension"@), bytes("ref"@), v, tail);
    let a = ref_attr(range);
    lemma_dimension_bytes();
    reveal_strlit("ref=\"");
    reveal_strlit("\"");
    lemma_encode_concat("ref=\""@ + range, "\""@);
    lemma_encode_concat("ref=\""@, range);
    lemma_encode_ascii("ref=\""@);
    lemma_encode_ascii("\""@);
    assert(bytes("ref=\""@) =~= seq![114u8, 101, 102, 61, 34]);
    assert(bytes("\""@) =~= seq![34u8]);
    assert(a =~= bytes("ref"@) + seq![61u8, 34u8] + v + seq![34u8]);
    assert(x =~= bytes("dimension"@) + seq![32u8] + a + tail);
    assert(x.subrange(10, 10 + a.len() as int) =~= a);
    assert forall|q: int| 0 <= q < 10 implies !#[trigger] is_at(x, q, a) by {
        if is_at(x, q, a) {
            let w = x.subrange(q, q + a.len());
            assert(w[3] == a[3]);
            assert(x[q + 3] == 61);
        }
    }
    lemma_first_place(x, 0, 10, a);
}

/// A worksheet with a plain dimension, after its dimension was stretched: nothing is to be stretched any
/// more, and its data is what it was, moved.
#[verifier::spinoff_prover]
#[verifier::rlimit(60)]
proof fn lemma_after_stretching(b: Seq<u8>, start: int, end: int, row: nat)
    requires
        row <= u32::MAX,
        is_plain_front(b, 0, start),
        has_plain_dimension(b, 0, start),
        sheet_data_from(b, 0) == Some((start, end, false)),
    ensures
        ({
            let y = with_max_row(b, row);
            let d = y.len() - b.len();
            &&& with_max_row(y, row) == y
            &&& sheet_data_from(y, 0) == Some((start + d, end + d, false))
            &&& 0 <= start + d && y.skip(start + d) == b.skip(start)
        }),
{
    lemma_sheet_data_from(b, 0);
    lemma_plain_dimension(b, 0, start);
    let t = dimension_from(b, 0)->0;
    let (range, tail) = choose|range: Seq<char>, tail: Seq<u8>| #[trigger]
        is_plain_dimension(b, t, range, tail);
    let y = with_max_row(b, row);
    lemma_dimension_bytes();
    lemma_ref_place(range, tail);
    reveal_strlit("ref");
    lemma_simple_attr(bytes("dimension"@), "ref"@, range, tail);
    lemma_stretched(range, row);
    match stretched(range, row) {
        None => {
            assert(y == b);
        },
        Some(wider) => {
            lemma_ref_place(wider, tail);
            let closed = t.self_closing;
            let name = bytes("dimension"@);
            let key = bytes("ref"@);
            let x = simple_inside(name, key, bytes(range), tail);
            let z = simple_inside(name, key, bytes(wider), tail);
            let w = simple_tag(name, key, bytes(wider), tail, closed);
            let at = t.inner.0 + 10;
            assert(y == b.take(at) + ref_attr(wider) + b.skip(at + ref_attr(range).len()));
            assert(inside(b, t) == x);
            lemma_exchange_layout(b, t, x, range, wider, tail);
            let d = y.len() - b.len();
            assert(y =~= b.take(t.at) + w + b.skip(t.after));
            assert(y.subrange(t.at, t.at + w.len()) =~= w);
            assert forall|k: int| 0 <= k < t.at implies #[trigger] b[k] == y[k + 0] by {}
            lemma_exchanged_dimension(b, 0, start, t, y, wider, tail);
            assert(w.len() == t.after - t.at + d);
            assert forall|k: int| t.after <= k < b.len() implies #[trigger] b[k] == y[k + d] by {}
            lemma_data_close(b, 0);
            lemma_find_from(b, start, close_mark("sheetData"@));
            lemma_find_moved(b, start, close_mark("sheetData"@), end, y, d);
            lemma_front_behind(b, 0, start);
            lemma_data_moved(b, t.after, start, end, y, d, end + d);
            assert(y.skip(start + d) =~= b.skip(start));
        },
    }
}

/// Exchanging the range of a plain dimension exchanges the tag.
#[verifier::spinoff_prover]
#[verifier::rlimit(60)]
proof fn lemma_exchange_layout(
    b: Seq<u8>,
    t: Tag,
    x: Seq<u8>,
    range: Seq<char>,
    wider: Seq<char>,
    tail: Seq<u8>,
)
    requires
        tag_bounds(b, 0, t),
        inside(b, t) == x,
        x == simple_inside(bytes("dimension"@), bytes("ref"@), bytes(range), tail),
    ensures
        ({
            let at = t.inner.0 + 10;
            let w = simple_tag(
                bytes("dimension"@),
                bytes("ref"@),
                bytes(wider),
                tail,
                t.self_closing,
            );
            b.take(at) + ref_attr(wider) + b.skip(at + ref_attr(range).len()) == b.take(t.at) + w
                + b.skip(t.after)
        }),
{
    lemma_dimension_bytes();
    lemma_ref_place(range, tail);
    lemma_ref_place(wider, tail);
    let name = bytes("dimension"@);
    let at = t.inner.0 + 10;
    let old_len = ref_attr(range).len() as int;
    let head = seq![60u8] + name + seq![32u8];
    let close = if t.self_closing {
        seq![47u8, 62u8]
    } else {
        seq![62u8]
    };
    let w = simple_tag(name, bytes("ref"@), bytes(wider), tail, t.self_closing);
    assert(w =~= head + ref_attr(wider) + (tail + close));
    assert(b.take(at) =~= b.take(t.at) + head) by {
        assert forall|k: int| 0 <= k < at implies #[trigger] b.take(at)[k] == (b.take(t.at)
            + head)[k] by {
            if k > t.at {
                assert(x[k - t.inner.0] == b[k]);
            }
        }
    }
    assert(b.skip(at + old_len) =~= tail + close + b.skip(t.after)) by {
        let l = b.skip(at + old_len);
        let m = tail + close + b.skip(t.after);
        assert(x.len() == 10 + old_len + tail.len());
        assert(l.len() == m.len());
        assert forall|k: int| 0 <= k < l.len() implies #[trigger] l[k] == m[k] by {
            if k < tail.len() {
                assert(x[10 + old_len + k] == b[t.inner.0 + 10 + old_len + k]);
                assert(x[10 + old_len + k] == tail[k]);
            }
        }
    }
    assert(b.take(t.at) + head + ref_attr(wider) + (tail + close + b.skip(t.after)) =~= b.take(t.at)
        + w + b.skip(t.after));
}

/// Behind the dimension, the part in front of the data is plain, and the data is found.
proof fn lemma_front_behind(b: Seq<u8>, pos: int, start: int)
    requires
        0 <= pos,
        is_plain_front(b, pos, start),
        has_plain_dimension(b, pos, start),
    ensures
        dimension_from(b, pos) matches Some(t) && is_plain_front(b, t.after, start)
            && sheet_data_from(b, pos) == sheet_data_from(b, t.after),
    decreases b.len() - pos,
{
    lemma_tag_from(b, pos);
    let t = tag_from(b, pos)->0;
    lemma_tag_behind(b, t);
    lemma_data_from_tag(b, t.at + 1, t.after);
    if !(t.name == "dimension"@ && !t.closing) {
        lemma_front_behind(b, t.after, start);
    }
}

proof fn lemma_largest_row(ws: Seq<RowPut>)
    ensures
        largest_row(ws) <= u32::MAX,
    decreases ws.len(),
{
    if ws.len() > 1 {
        lemma_largest_row(ws.drop_last());
    }
}

/// Changing a worksheet a second time in the same way changes nothing more: written cells are written
/// alike, formulas that were asked for are found and kept, and a dimension that was stretched is not
/// stretched any further. It is stated of worksheets as workbooks have them, whose dimension is written
/// plainly or is not to be stretched, and of requests that make no rows.
#[verifier::spinoff_prover]
#[verifier::rlimit(60)]
pub proof fn law_second_patch_changes_nothing(b: Seq<u8>, ws: Seq<RowPut>)
    requires
        are_good_requests(ws),
        sheet_data_from(b, 0) matches Some((start, end, false)) && is_plain_front(b, 0, start)
            && are_plain_rows(b, start, end, ws) && (has_plain_dimension(b, 0, start)
            || dimension_reaches(b, 0, start, largest_row(ws)) || with_max_row(
            changed_sheet(b, ws),
            largest_row(ws),
        ) == changed_sheet(b, ws)),
    ensures
        patch_of(b, ws) matches Ok(y) && patch_of(y, ws) == Ok::<Seq<u8>, Seq<char>>(y),
{
    let (start, end, _) = sheet_data_from(b, 0)->0;
    let no_rows = Seq::<RowPut>::empty();
    let mark = close_mark("sheetData"@);
    let row = largest_row(ws);
    lemma_largest_row(ws);
    lemma_sheet_data_from(b, 0);
    lemma_data_close(b, 0);
    lemma_close_marks();
    lemma_nothing_missing(b, ws);
    let rows = patched(b, start, end, ws, no_rows);
    let x = b.take(start) + rows + b.skip(end);
    assert(changed_sheet(b, ws) == x);
    let stop = start + rows.len();
    assert forall|k: int| 0 <= k < start implies #[trigger] b[k] == x[k + 0] by {}
    assert(x.subrange(start, stop) =~= rows);
    lemma_rows_clean(b, start, start, end, ws);
    lemma_find_from(b, start, mark);
    assert(x.subrange(stop, stop + mark.len()) =~= b.subrange(end, end + mark.len()));
    lemma_close_behind(x, start, rows, mark);
    lemma_data_moved(b, 0, start, end, x, 0, stop);
    let y = with_max_row(x, row);
    assert(patch_of(b, ws) == Ok::<Seq<u8>, Seq<char>>(y));
    if has_plain_dimension(b, 0, start) {
        lemma_front_same(b, 0, start, x);
        lemma_plain_dimension_same(b, 0, start, x);
        lemma_after_stretching(x, start, stop, row);
    } else {
        if dimension_reaches(b, 0, start, row) {
            lemma_dimension_same(b, 0, start, row, x);
        }
        assert(y == x);
    }
    let d = y.len() - x.len();
    let tail = x.skip(start);
    assert(y.skip(start + d) == tail);
    assert(y.subrange(start + d, stop + d) =~= rows) by {
        assert(y.subrange(start + d, stop + d) =~= y.skip(start + d).subrange(0, rows.len() as int));
        assert(x.subrange(start, stop) =~= tail.subrange(0, rows.len() as int));
    }
    lemma_nothing_missing(y, ws);
    lemma_rows_again(b, start, end, ws, y, start + d);
    assert(y.take(start + d) + rows + y.skip(stop + d) =~= y) by {
        assert(y.take(start + d) + y.subrange(start + d, stop + d) + y.skip(stop + d) =~= y);
    }
    assert(changed_sheet(y, ws) == y);
}

/// The data of a worksheet ends with its first closing tag.
proof fn lemma_data_close(b: Seq<u8>, pos: int)
    ensures
        sheet_data_from(b, pos) matches Some((start, end, false)) ==> find_from(
            b,
            start,
            close_mark("sheetData"@),
        ) == Some(end),
    decreases b.len() - pos,
{
    if let Some(t) = tag_from(b, pos) {
        lemma_tag_from(b, pos);
        if !(t.name == "sheetData"@ && !t.closing) {
            lemma_data_close(b, t.at + 1);
        }
    }
}

/// No rows come in where no request makes one.
proof fn lemma_nothing_missing(b: Seq<u8>, ws: Seq<RowPut>)
    requires
        are_good_requests(ws),
    ensures
        forall|start: int, end: int|
            by_row(missing_rows(b, #[trigger] sheet_rows(b, start, end), ws)) == Seq::<
                RowPut,
            >::empty(),
{
    assert forall|start: int, end: int|
        by_row(missing_rows(b, #[trigger] sheet_rows(b, start, end), ws)) == Seq::<
            RowPut,
        >::empty() by {
        let rows = sheet_rows(b, start, end);
        lemma_none_missing(b, rows, ws);
        assert(by_row(Seq::<RowPut>::empty()) =~= Seq::<RowPut>::empty());
    }
}

proof fn lemma_none_missing(b: Seq<u8>, rows: Seq<(Tag, (int, int))>, ws: Seq<RowPut>)
    requires
        are_good_requests(ws),
    ensures
        missing_rows(b, rows, ws) == Seq::<RowPut>::empty(),
    decreases ws.len(),
{
    reveal(Seq::filter);
    if ws.len() > 0 {
        assert(!ws[ws.len() - 1].insert);
        assert forall|i: int| 0 <= i < ws.drop_last().len() implies is_good_request(
            #[trigger] ws.drop_last()[i],
        ) && !ws.drop_last()[i].insert by {
            assert(ws.drop_last()[i] == ws[i]);
        }
        lemma_none_missing(b, rows, ws.drop_last());
    }
    assert(missing_rows(b, rows, ws) =~= Seq::<RowPut>::empty());
}

} // verus!
