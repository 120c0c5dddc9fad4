//! Changes to single rows of a worksheet that leave all other bytes as they are.
use std::collections::BTreeMap;
use vstd::prelude::*;
use vstd::std_specs::btree::increasing_seq;
use vstd::std_specs::cmp::OrdSpec;
use vstd::std_specs::iter::IteratorSpec;
use vstd::slice::slice_subrange;
use crate::model::{col_name, fmt_num, lemma_col_small, num_to_col, number_text, Number};
use crate::text::{
    bytes_of, chars_of, decimal, decimal_text, digit, find_from, is_digit, join2, join3,
    lemma_decimal, lemma_encode_ascii, lemma_encode_nonempty, push_bytes, push_text, same_text,
    stands_at, text_of, text_view,
};
use crate::xlsx::xmlscan::{
    attr_of, bytes, bytes_at, cell_ref, cell_ref_of, content_end, content_of, digit_from,
    element_bounds, element_span, escape, escaped, find_byte, fix_dimension, inside, is_at,
    is_blank, lemma_sheet_data_from, lemma_span_of, lemma_tag_from, next_tag, row_number,
    row_number_of, sheet_data_from, sheet_data_span, span_of, tag_from, with_max_row, Tag, TagInfo,
};

verus! {

/// The entries of a table in the order of their keys.
fn in_order<V: Copy>(m: &BTreeMap<u32, V>) -> (r: Vec<(u32, V)>)
    ensures
        forall|i: int, j: int| 0 <= i < j < r@.len() ==> r@[i].0 < r@[j].0,
        forall|i: int|
            0 <= i < r@.len() ==> m@.contains_key((#[trigger] r@[i]).0) && m@[r@[i].0] == r@[i].1,
        forall|k: u32| #[trigger]
            m@.contains_key(k) ==> exists|i: int| 0 <= i < r@.len() && (#[trigger] r@[i]).0 == k,
{
    let mut out: Vec<(u32, V)> = Vec::new();
    let pairs = m.iter();
    let ghost all = pairs.remaining();
    let ghost keys = all.map_values(|kv: (&u32, &V)| *kv.0);
    assert(increasing_seq(keys));
    for kv in it: pairs
        invariant
            it.seq() == all,
            out@.len() == it.index(),
            forall|i: int| 0 <= i < it.index() ==> (#[trigger] out@[i]).0 == *all[i].0,
            forall|i: int| 0 <= i < it.index() ==> (#[trigger] out@[i]).1 == *all[i].1,
    {
        out.push((*kv.0, *kv.1));
    }
    proof {
        assert forall|i: int, j: int| 0 <= i < j < out@.len() implies out@[i].0 < out@[j].0 by {
            assert(keys[i].cmp_spec(&keys[j]) is Less);
        }
        assert forall|k: u32| #[trigger] m@.contains_key(k) implies exists|i: int|
            0 <= i < out@.len() && (#[trigger] out@[i]).0 == k by {
            assert(all.contains((&k, &m@[k])));
            let i = choose|i: int| 0 <= i < all.len() && all[i] == (&k, &m@[k]);
            assert(out@[i].0 == k);
        }
    }
    out
}

// -------------------------------------------------------------------- requests
/// A value to be written into a cell. Dates are written as numbers with a style.
#[derive(Clone, Debug)]
pub enum CellVal {
    Num(Number),
    Text(String),
    Formula(String),
}

/// One cell to be written.
#[derive(Clone, Debug)]
pub struct CellWrite {
    pub col: u32,
    pub val: CellVal,
    pub style: Option<String>,
}

/// What is to be done to one row.
#[derive(Clone, Debug)]
pub struct RowWrite {
    pub row: u32,
    pub cells: Vec<CellWrite>,
    pub clear_cols: Vec<u32>,
    /// Column, formula and style; written where the column's cell holds no formula yet.
    pub ensure_formulas: Vec<(u32, String, Option<String>)>,
    /// Whether the row is made where the worksheet has none of this number.
    pub insert_if_absent: bool,
}

/// A value by its text.
pub ghost enum CellValue {
    Num(Seq<char>),
    Text(Seq<char>),
    Formula(Seq<char>),
}

impl View for CellVal {
    type V = CellValue;

    open spec fn view(&self) -> CellValue {
        match self {
            CellVal::Num(n) => CellValue::Num(n@),
            CellVal::Text(t) => CellValue::Text(t@),
            CellVal::Formula(f) => CellValue::Formula(f@),
        }
    }
}

/// One cell to be written, by its texts.
pub ghost struct CellPut {
    pub col: u32,
    pub val: CellValue,
    pub style: Option<Seq<char>>,
}

impl View for CellWrite {
    type V = CellPut;

    open spec fn view(&self) -> CellPut {
        CellPut { col: self.col, val: self.val@, style: text_view(self.style) }
    }
}

/// A formula that a column is to have.
pub open spec fn formula_view(e: (u32, String, Option<String>)) -> CellPut {
    CellPut { col: e.0, val: CellValue::Formula(e.1@), style: text_view(e.2) }
}

/// What is to be done to one row, by its texts.
pub ghost struct RowPut {
    pub row: u32,
    pub cells: Seq<CellPut>,
    pub clear: Seq<u32>,
    pub formulas: Seq<CellPut>,
    pub insert: bool,
}

impl View for RowWrite {
    type V = RowPut;

    open spec fn view(&self) -> RowPut {
        RowPut {
            row: self.row,
            cells: self.cells@.map_values(|c: CellWrite| c@),
            clear: self.clear_cols@,
            formulas: self.ensure_formulas@.map_values(
                |e: (u32, String, Option<String>)| formula_view(e),
            ),
            insert: self.insert_if_absent,
        }
    }
}

impl RowWrite {
    /// Nothing to be done to row `row`.
    pub fn new(row: u32) -> (r: RowWrite)
        ensures
            r.row == row,
            r.cells@.len() == 0,
            r.clear_cols@.len() == 0,
            r.ensure_formulas@.len() == 0,
            !r.insert_if_absent,
    {
        RowWrite {
            row,
            cells: Vec::new(),
            clear_cols: Vec::new(),
            ensure_formulas: Vec::new(),
            insert_if_absent: false,
        }
    }
}

// ----------------------------------------------------------------------- cells
/// The element of a cell as text.
pub open spec fn cell_text(
    col: nat,
    row: nat,
    val: CellValue,
    style: Option<Seq<char>>,
) -> Seq<char> {
    let head = "<c r=\""@ + (col_name(col) + decimal(row)) + "\""@;
    let styled = match style {
        Some(s) => head + (" s=\""@ + s + "\""@),
        None => head,
    };
    match val {
        CellValue::Num(n) => styled + ("><v>"@ + number_text(n) + "</v></c>"@),
        CellValue::Text(t) => styled + (" t=\"inlineStr\"><is><t xml:space=\"preserve\">"@
            + escaped(t) + "</t></is></c>"@),
        CellValue::Formula(f) => styled + ("><f>"@ + escaped(f) + "</f></c>"@),
    }
}

/// Puts the element of a cell behind the bytes that are there.
fn emit_cell(out: &mut Vec<u8>, col: u32, row: u32, val: &CellVal, style: &Option<String>)
    ensures
        final(out)@ == old(out)@ + bytes(
            cell_text(col as nat, row as nat, val@, text_view(*style)),
        ),
{
    let name = num_to_col(col);
    let num = decimal_text(row as u64);
    let place = join2(name.as_str(), num.as_str());
    let mut cell = join3("<c r=\"", place.as_str(), "\"");
    match style {
        Some(s) => {
            let attr = join3(" s=\"", s.as_str(), "\"");
            cell.append(attr.as_str());
        },
        None => {},
    }
    let rest = match val {
        CellVal::Num(n) => {
            let t = fmt_num(n);
            join3("><v>", t.as_str(), "</v></c>")
        },
        CellVal::Text(t) => {
            let e = escape(t.as_str());
            join3(
                " t=\"inlineStr\"><is><t xml:space=\"preserve\">",
                e.as_str(),
                "</t></is></c>",
            )
        },
        CellVal::Formula(f) => {
            let e = escape(f.as_str());
            join3("><f>", e.as_str(), "</f></c>")
        },
    };
    cell.append(rest.as_str());
    push_text(out, cell.as_str());
}

/// What becomes of a cell.
pub ghost enum CellAct {
    Keep(int, int),
    Put(CellValue, Option<Seq<char>>),
    Remove,
}

/// The bytes that a cell has afterwards.
pub open spec fn act_bytes(b: Seq<u8>, col: nat, row: nat, act: CellAct) -> Seq<u8> {
    match act {
        CellAct::Keep(s, e) => b.subrange(s, e),
        CellAct::Put(val, style) => bytes(cell_text(col, row, val, style)),
        CellAct::Remove => Seq::empty(),
    }
}

/// The bytes of the cells of the columns from `from` on and below `n`, in the order of the columns.
pub open spec fn cells_between(
    b: Seq<u8>,
    row: nat,
    acts: Map<u32, CellAct>,
    from: nat,
    n: nat,
) -> Seq<u8>
    decreases n,
{
    if n <= from {
        Seq::empty()
    } else {
        let col = (n - 1) as u32;
        let before = cells_between(b, row, acts, from, (n - 1) as nat);
        if n <= 0x1_0000_0000 && acts.contains_key(col) {
            before + act_bytes(b, col as nat, row, acts[col])
        } else {
            before
        }
    }
}

/// The bytes of all cells.
pub open spec fn cells_of(b: Seq<u8>, row: nat, acts: Map<u32, CellAct>) -> Seq<u8> {
    cells_between(b, row, acts, 0, 0x1_0000_0000)
}

/// Columns without a cell add nothing.
proof fn lemma_no_cells(
    b: Seq<u8>,
    row: nat,
    acts: Map<u32, CellAct>,
    first: nat,
    from: nat,
    n: nat,
)
    requires
        first <= from <= n <= 0x1_0000_0000,
        forall|k: u32| from <= k < n ==> !acts.contains_key(k),
    ensures
        cells_between(b, row, acts, first, n) == cells_between(b, row, acts, first, from),
    decreases n - from,
{
    if from < n {
        lemma_no_cells(b, row, acts, first, from, (n - 1) as nat);
        assert(!acts.contains_key((n - 1) as u32));
    }
}

/// Where the bytes of a cell come from.
#[derive(Clone, Copy)]
enum Slot {
    Keep(usize, usize),
    Write(usize),
    Ensure(usize),
    Remove,
}

/// What a slot does to its cell.
spec fn slot_act(rw: RowPut, s: Slot) -> CellAct {
    match s {
        Slot::Keep(a, e) => CellAct::Keep(a as int, e as int),
        Slot::Write(i) => CellAct::Put(rw.cells[i as int].val, rw.cells[i as int].style),
        Slot::Ensure(i) => CellAct::Put(rw.formulas[i as int].val, rw.formulas[i as int].style),
        Slot::Remove => CellAct::Remove,
    }
}

/// What slots do to their cells.
spec fn slot_acts(rw: RowPut, m: Map<u32, Slot>) -> Map<u32, CellAct> {
    m.map_values(|s: Slot| slot_act(rw, s))
}

/// A slot refers to bytes and requests that are there.
spec fn slot_fits(len: int, rw: RowPut, s: Slot) -> bool {
    match s {
        Slot::Keep(a, e) => a <= e <= len,
        Slot::Write(i) => i < rw.cells.len(),
        Slot::Ensure(i) => i < rw.formulas.len(),
        Slot::Remove => true,
    }
}

spec fn slots_fit(len: int, rw: RowPut, m: Map<u32, Slot>) -> bool {
    forall|k: u32| m.contains_key(k) ==> slot_fits(len, rw, #[trigger] m[k])
}

/// The entries of a table in the order of their keys.
spec fn is_listed(m: Map<u32, Slot>, items: Seq<(u32, Slot)>) -> bool {
    &&& forall|i: int, j: int| 0 <= i < j < items.len() ==> items[i].0 < items[j].0
    &&& forall|i: int|
        0 <= i < items.len() ==> m.contains_key((#[trigger] items[i]).0) && m[items[i].0]
            == items[i].1
    &&& forall|k: u32| #[trigger]
        m.contains_key(k) ==> exists|i: int| 0 <= i < items.len() && (#[trigger] items[i]).0 == k
}

/// The entries in front of `i` are those below `n`.
spec fn parts_at(items: Seq<(u32, Slot)>, i: int, n: nat) -> bool {
    &&& 0 <= i <= items.len()
    &&& forall|k: int| 0 <= k < i ==> (#[trigger] items[k]).0 < n
    &&& forall|k: int| i <= k < items.len() ==> (#[trigger] items[k]).0 >= n
}

/// Puts a cell as a slot describes it behind the bytes that are there.
fn emit_slot(out: &mut Vec<u8>, orig: &[u8], rw: &RowWrite, col: u32, slot: &Slot)
    requires
        slot_fits(orig@.len() as int, rw@, *slot),
    ensures
        final(out)@ == old(out)@ + act_bytes(
            orig@,
            col as nat,
            rw@.row as nat,
            slot_act(rw@, *slot),
        ),
{
    let ghost before = out@;
    match slot {
        Slot::Keep(s, e) => {
            push_bytes(out, slice_subrange(orig, *s, *e));
        },
        Slot::Write(j) => {
            emit_cell(out, col, rw.row, &rw.cells[*j].val, &rw.cells[*j].style);
        },
        Slot::Ensure(j) => {
            let formula = CellVal::Formula(rw.ensure_formulas[*j].1.clone());
            emit_cell(out, col, rw.row, &formula, &rw.ensure_formulas[*j].2);
        },
        Slot::Remove => {},
    }
    assert(out@ =~= before + act_bytes(
        orig@,
        col as nat,
        rw@.row as nat,
        slot_act(rw@, *slot),
    ));
}

/// Puts the cells of the columns from `next` on and below `upto` behind the bytes that are there,
/// where the entries from `from` on are those of these columns and of later ones. Gives the place of
/// the first entry that is left.
fn emit_between(
    out: &mut Vec<u8>,
    orig: &[u8],
    rw: &RowWrite,
    items: &Vec<(u32, Slot)>,
    from: usize,
    upto: u64,
    Ghost(m): Ghost<Map<u32, Slot>>,
    Ghost(next): Ghost<nat>,
) -> (r: usize)
    requires
        slots_fit(orig@.len() as int, rw@, m),
        is_listed(m, items@),
        parts_at(items@, from as int, next),
        next <= upto <= 0x1_0000_0000,
    ensures
        final(out)@ == old(out)@ + cells_between(
            orig@,
            rw@.row as nat,
            slot_acts(rw@, m),
            next,
            upto as nat,
        ),
        parts_at(items@, r as int, upto as nat),
{
    let ghost acts = slot_acts(rw@, m);
    let ghost start = out@;
    let mut i: usize = from;
    let ghost mut done: nat = next;
    assert(out@ =~= start + cells_between(orig@, rw@.row as nat, acts, next, done));
    while i < items.len() && (items[i].0 as u64) < upto
        invariant
            slots_fit(orig@.len() as int, rw@, m),
            is_listed(m, items@),
            parts_at(items@, i as int, done),
            next <= done <= upto <= 0x1_0000_0000,
            acts == slot_acts(rw@, m),
            out@ == start + cells_between(orig@, rw@.row as nat, acts, next, done),
        decreases items@.len() - i,
    {
        let (col, slot) = items[i];
        proof {
            assert(m.contains_key(items@[i as int].0));
            assert(slot_fits(orig@.len() as int, rw@, m[col]));
            assert(acts[col] == slot_act(rw@, slot));
            assert forall|k: u32| done <= k < col implies !acts.contains_key(k) by {
                if m.contains_key(k) {
                    let j = choose|j: int| 0 <= j < items@.len() && (#[trigger] items@[j]).0 == k;
                    if j > i as int {
                        assert(items@[i as int].0 < items@[j].0);
                    }
                }
            }
            lemma_no_cells(orig@, rw@.row as nat, acts, next, done, col as nat);
        }
        let ghost before = out@;
        emit_slot(out, orig, rw, col, &slot);
        proof {
            done = (col + 1) as nat;
            assert(out@ =~= start + cells_between(orig@, rw@.row as nat, acts, next, done));
            assert forall|k: int| i + 1 <= k < items@.len() implies (#[trigger] items@[k]).0
                >= done by {
                assert(items@[i as int].0 < items@[k].0);
            }
            assert forall|k: int| 0 <= k < i + 1 implies (#[trigger] items@[k]).0 < done by {}
        }
        i = i + 1;
    }
    proof {
        assert forall|k: int| i <= k < items@.len() implies (#[trigger] items@[k]).0 >= upto by {
            if k > i as int {
                assert(items@[i as int].0 < items@[k].0);
            }
        }
        assert forall|k: u32| done <= k < upto implies !acts.contains_key(k) by {
            if m.contains_key(k) {
                let j = choose|j: int| 0 <= j < items@.len() && (#[trigger] items@[j]).0 == k;
                assert(items@[j].0 == k);
            }
        }
        lemma_no_cells(orig@, rw@.row as nat, acts, next, done, upto as nat);
    }
    i
}

/// Puts the cells that the slots describe behind the bytes that are there.
fn emit_slots(out: &mut Vec<u8>, orig: &[u8], rw: &RowWrite, slots: &BTreeMap<u32, Slot>)
    requires
        slots_fit(orig@.len() as int, rw@, slots@),
    ensures
        final(out)@ == old(out)@ + cells_of(orig@, rw@.row as nat, slot_acts(rw@, slots@)),
{
    let items = in_order(slots);
    emit_between(out, orig, rw, &items, 0, 0x1_0000_0000, Ghost(slots@), Ghost(0));
}

// ------------------------------------------------------------------------ rows
/// The cells of a row between `pos` and `end`, one behind the other, up to one that has no end there.
pub open spec fn cells_from(b: Seq<u8>, pos: int, end: int) -> Seq<(Tag, (int, int))>
    decreases b.len() - pos,
{
    if pos < 0 || pos >= end || pos >= b.len() {
        Seq::empty()
    } else if b[pos] != 60 {
        cells_from(b, pos + 1, end)
    } else {
        match tag_from(b, pos) {
            None => Seq::empty(),
            Some(t) => {
                proof {
                    lemma_tag_from(b, pos);
                    lemma_span_of(b, t);
                }
                if t.name != "c"@ || t.closing {
                    cells_from(b, t.at + 1, end)
                } else {
                    match span_of(b, t) {
                        Some(s) if s.1 <= end => seq![(t, s)] + cells_from(b, s.1, end),
                        _ => Seq::empty(),
                    }
                }
            },
        }
    }
}

/// Every cell that has a place is kept.
pub open spec fn keep_cells(
    b: Seq<u8>,
    acts: Map<u32, CellAct>,
    cells: Seq<(Tag, (int, int))>,
) -> Map<u32, CellAct>
    decreases cells.len(),
{
    if cells.len() == 0 {
        acts
    } else {
        let (t, s) = cells[0];
        let next = match cell_ref(b, t) {
            Some((col, row)) => acts.insert(col as u32, CellAct::Keep(s.0, s.1)),
            None => acts,
        };
        keep_cells(b, next, cells.drop_first())
    }
}

/// The cells of these columns are removed.
pub open spec fn clear_cells(acts: Map<u32, CellAct>, cols: Seq<u32>) -> Map<u32, CellAct>
    decreases cols.len(),
{
    if cols.len() == 0 {
        acts
    } else {
        clear_cells(acts, cols.drop_last()).insert(cols.last(), CellAct::Remove)
    }
}

/// The cells of these columns are written.
pub open spec fn put_cells(acts: Map<u32, CellAct>, cells: Seq<CellPut>) -> Map<u32, CellAct>
    decreases cells.len(),
{
    if cells.len() == 0 {
        acts
    } else {
        let c = cells.last();
        put_cells(acts, cells.drop_last()).insert(c.col, CellAct::Put(c.val, c.style))
    }
}

/// Whether a cell is kept that holds a formula.
pub open spec fn keeps_formula(b: Seq<u8>, acts: Map<u32, CellAct>, col: u32) -> bool {
    acts.contains_key(col) && (acts[col] matches CellAct::Keep(s, e) && find_from(
        b.subrange(s, e),
        0,
        bytes("<f"@),
    ) is Some)
}

/// Formulas are written where no formula is kept.
pub open spec fn put_formulas(
    b: Seq<u8>,
    acts: Map<u32, CellAct>,
    formulas: Seq<CellPut>,
) -> Map<u32, CellAct>
    decreases formulas.len(),
{
    if formulas.len() == 0 {
        acts
    } else {
        let before = put_formulas(b, acts, formulas.drop_last());
        let f = formulas.last();
        if keeps_formula(b, before, f.col) {
            before
        } else {
            before.insert(f.col, CellAct::Put(f.val, f.style))
        }
    }
}

/// Formulas are written into columns that have no cell.
pub open spec fn fill_formulas(acts: Map<u32, CellAct>, formulas: Seq<CellPut>) -> Map<
    u32,
    CellAct,
>
    decreases formulas.len(),
{
    if formulas.len() == 0 {
        acts
    } else {
        let before = fill_formulas(acts, formulas.drop_last());
        let f = formulas.last();
        if before.contains_key(f.col) {
            before
        } else {
            before.insert(f.col, CellAct::Put(f.val, f.style))
        }
    }
}

/// The cells of a row that exists, by their columns.
pub open spec fn kept_cells(b: Seq<u8>, e: (Tag, (int, int))) -> Map<u32, CellAct> {
    let c = content_of(e);
    keep_cells(b, Map::empty(), cells_from(b, c.0, c.1))
}

/// What becomes of the cells of a row that exists.
pub open spec fn row_acts(b: Seq<u8>, e: (Tag, (int, int)), rw: RowPut) -> Map<u32, CellAct> {
    let kept = kept_cells(b, e);
    put_formulas(b, put_cells(clear_cells(kept, rw.clear), rw.cells), rw.formulas)
}

/// What becomes of the columns that had no cell.
pub open spec fn fresh_acts(kept: Map<u32, CellAct>, acts: Map<u32, CellAct>) -> Map<u32, CellAct> {
    acts.remove_keys(kept.dom())
}

/// What stands in the place of a cell afterwards: its own bytes where its column is not touched, and
/// otherwise what its column becomes, once.
pub open spec fn cell_after(
    b: Seq<u8>,
    row: nat,
    kept: Map<u32, CellAct>,
    acts: Map<u32, CellAct>,
    col: u32,
    span: (int, int),
) -> Seq<u8> {
    if !acts.contains_key(col) || acts[col] is Keep {
        b.subrange(span.0, span.1)
    } else if kept.contains_key(col) && kept[col] == CellAct::Keep(span.0, span.1) {
        act_bytes(b, col as nat, row, acts[col])
    } else {
        Seq::empty()
    }
}

/// The content of a row from `pos` to `end` afterwards, where `cells` are the cells in it and the
/// columns below `next` are done. What stands between the cells stays; columns that had no cell come
/// in front of the first cell of a later column, or at the end.
pub open spec fn row_body(
    b: Seq<u8>,
    cells: Seq<(Tag, (int, int))>,
    pos: int,
    end: int,
    row: nat,
    kept: Map<u32, CellAct>,
    acts: Map<u32, CellAct>,
    next: nat,
) -> Seq<u8>
    decreases cells.len(),
{
    let fresh = fresh_acts(kept, acts);
    if cells.len() == 0 {
        b.subrange(pos, end) + cells_between(b, row, fresh, next, 0x1_0000_0000)
    } else {
        let (t, s) = cells[0];
        let rest = cells.drop_first();
        match cell_ref(b, t) {
            None => row_body(b, rest, pos, end, row, kept, acts, next),
            Some((col, _)) => b.subrange(pos, s.0) + cells_between(b, row, fresh, next, col)
                + cell_after(b, row, kept, acts, col as u32, s) + row_body(
                b,
                rest,
                s.1,
                end,
                row,
                kept,
                acts,
                if next < col {
                    col
                } else {
                    next
                },
            ),
        }
    }
}

/// A row that exists, after the changes: its own tag, its content and the closing tag.
pub open spec fn rebuilt_row(b: Seq<u8>, e: (Tag, (int, int)), rw: RowPut) -> Seq<u8> {
    let c = content_of(e);
    bytes("<"@) + inside(b, e.0) + bytes(">"@) + row_body(
        b,
        cells_from(b, c.0, c.1),
        c.0,
        c.1,
        rw.row as nat,
        kept_cells(b, e),
        row_acts(b, e, rw),
        0,
    ) + bytes("</row>"@)
}

/// A row that is made anew.
pub open spec fn new_row(rw: RowPut) -> Seq<u8> {
    bytes("<row r=\""@ + decimal(rw.row as nat) + "\">"@) + cells_of(
        Seq::empty(),
        rw.row as nat,
        fill_formulas(put_cells(Map::empty(), rw.cells), rw.formulas),
    ) + bytes("</row>"@)
}

/// Collects the cells of a row that exists.
fn keep_slots(orig: &[u8], start: usize, end: usize, Ghost(rw): Ghost<RowPut>) -> (r: BTreeMap<
    u32,
    Slot,
>)
    requires
        start <= end <= orig@.len(),
    ensures
        slot_acts(rw, r@) == keep_cells(
            orig@,
            Map::empty(),
            cells_from(orig@, start as int, end as int),
        ),
        slots_fit(orig@.len() as int, rw, r@),
{
    let mut slots: BTreeMap<u32, Slot> = BTreeMap::new();
    let mut pos: usize = start;
    let ghost all = keep_cells(
        orig@,
        Map::empty(),
        cells_from(orig@, start as int, end as int),
    );
    assert(slot_acts(rw, slots@) =~= Map::<u32, CellAct>::empty());
    while pos < end
        invariant_except_break
            all == keep_cells(
                orig@,
                slot_acts(rw, slots@),
                cells_from(orig@, pos as int, end as int),
            ),
            slots_fit(orig@.len() as int, rw, slots@),
            end <= orig@.len(),
        ensures
            slot_acts(rw, slots@) == all,
            slots_fit(orig@.len() as int, rw, slots@),
        decreases orig@.len() + 1 - pos,
    {
        if orig[pos] != 60 {
            pos = pos + 1;
            continue;
        }
        proof {
            lemma_tag_from(orig@, pos as int);
        }
        match next_tag(orig, pos) {
            None => {
                break;
            },
            Some((lt, info)) => {
                if !same_text(info.name.as_str(), "c") || info.closing {
                    pos = lt + 1;
                    continue;
                }
                proof {
                    lemma_span_of(orig@, info.at(lt as int));
                }
                match element_span(orig, lt, &info) {
                    None => {
                        break;
                    },
                    Some(span) => {
                        if span.1 > end {
                            break;
                        }
                        let ghost t = info.at(lt as int);
                        let ghost rest = cells_from(orig@, span.1 as int, end as int);
                        let ghost here = (t, (span.0 as int, span.1 as int));
                        assert((seq![here] + rest).drop_first() =~= rest);
                        assert((seq![here] + rest)[0] == here);
                        if let Some((col, _)) = cell_ref_of(orig, &info) {
                            let ghost before = slots@;
                            slots.insert(col, Slot::Keep(span.0, span.1));
                            assert(slot_acts(rw, slots@) =~= slot_acts(rw, before).insert(
                                col,
                                CellAct::Keep(span.0 as int, span.1 as int),
                            ));
                        }
                        pos = span.1;
                    },
                }
            },
        }
    }
    slots
}

/// Marks the cells to be removed.
fn clear_slots(slots: &mut BTreeMap<u32, Slot>, rw: &RowWrite, Ghost(len): Ghost<int>)
    requires
        slots_fit(len, rw@, old(slots)@),
    ensures
        slot_acts(rw@, final(slots)@) == clear_cells(slot_acts(rw@, old(slots)@), rw@.clear),
        slots_fit(len, rw@, final(slots)@),
{
    let ghost first = slot_acts(rw@, slots@);
    let ghost cols = rw.clear_cols@;
    let mut i: usize = 0;
    assert(cols.take(0) =~= Seq::<u32>::empty());
    while i < rw.clear_cols.len()
        invariant
            i <= cols.len(),
            cols == rw.clear_cols@,
            slot_acts(rw@, slots@) == clear_cells(first, cols.take(i as int)),
            slots_fit(len, rw@, slots@),
        decreases cols.len() - i,
    {
        let ghost before = slots@;
        assert(cols.take(i + 1).drop_last() =~= cols.take(i as int));
        let col = rw.clear_cols[i];
        slots.insert(col, Slot::Remove);
        assert(slot_acts(rw@, slots@) =~= slot_acts(rw@, before).insert(col, CellAct::Remove));
        i = i + 1;
    }
    assert(cols.take(i as int) =~= cols);
}

/// Marks the cells to be written.
fn put_slots(slots: &mut BTreeMap<u32, Slot>, rw: &RowWrite, Ghost(len): Ghost<int>)
    requires
        slots_fit(len, rw@, old(slots)@),
    ensures
        slot_acts(rw@, final(slots)@) == put_cells(slot_acts(rw@, old(slots)@), rw@.cells),
        slots_fit(len, rw@, final(slots)@),
{
    let ghost first = slot_acts(rw@, slots@);
    let ghost cells = rw@.cells;
    let mut i: usize = 0;
    assert(cells.take(0) =~= Seq::<CellPut>::empty());
    while i < rw.cells.len()
        invariant
            i <= cells.len(),
            cells == rw@.cells,
            slot_acts(rw@, slots@) == put_cells(first, cells.take(i as int)),
            slots_fit(len, rw@, slots@),
        decreases cells.len() - i,
    {
        let ghost before = slots@;
        assert(cells.take(i + 1).drop_last() =~= cells.take(i as int));
        let col = rw.cells[i].col;
        slots.insert(col, Slot::Write(i));
        assert(slot_acts(rw@, slots@) =~= slot_acts(rw@, before).insert(
            col,
            CellAct::Put(cells[i as int].val, cells[i as int].style),
        ));
        i = i + 1;
    }
    assert(cells.take(i as int) =~= cells);
}

/// Whether a slot keeps a cell that holds a formula.
fn keeps(orig: &[u8], slot: Option<&Slot>) -> (r: bool)
    requires
        slot matches Some(Slot::Keep(s, e)) ==> *s <= *e <= orig@.len(),
    ensures
        r == (slot matches Some(Slot::Keep(s, e)) && find_from(
            orig@.subrange(*s as int, *e as int),
            0,
            bytes("<f"@),
        ) is Some),
{
    proof {
        reveal_strlit("<f");
        lemma_encode_nonempty("<f"@);
    }
    match slot {
        Some(Slot::Keep(s, e)) => {
            find_byte(slice_subrange(orig, *s, *e), 0, "<f".as_bytes()).is_some()
        },
        _ => false,
    }
}

/// Marks the formulas to be written into a row that exists.
fn put_formula_slots(orig: &[u8], slots: &mut BTreeMap<u32, Slot>, rw: &RowWrite)
    requires
        slots_fit(orig@.len() as int, rw@, old(slots)@),
    ensures
        slot_acts(rw@, final(slots)@) == put_formulas(
            orig@,
            slot_acts(rw@, old(slots)@),
            rw@.formulas,
        ),
        slots_fit(orig@.len() as int, rw@, final(slots)@),
{
    let ghost first = slot_acts(rw@, slots@);
    let ghost formulas = rw@.formulas;
    let mut i: usize = 0;
    assert(formulas.take(0) =~= Seq::<CellPut>::empty());
    while i < rw.ensure_formulas.len()
        invariant
            i <= formulas.len(),
            formulas == rw@.formulas,
            slot_acts(rw@, slots@) == put_formulas(orig@, first, formulas.take(i as int)),
            slots_fit(orig@.len() as int, rw@, slots@),
        decreases formulas.len() - i,
    {
        let ghost before = slots@;
        assert(formulas.take(i + 1).drop_last() =~= formulas.take(i as int));
        let col = rw.ensure_formulas[i].0;
        assert(formulas[i as int].col == col);
        assert(before.contains_key(col) ==> slot_fits(orig@.len() as int, rw@, before[col]));
        if !keeps(orig, slots.get(&col)) {
            slots.insert(col, Slot::Ensure(i));
            assert(slot_acts(rw@, slots@) =~= slot_acts(rw@, before).insert(
                col,
                CellAct::Put(formulas[i as int].val, formulas[i as int].style),
            ));
        }
        i = i + 1;
    }
    assert(formulas.take(i as int) =~= formulas);
}

/// Marks the formulas to be written into a row that is made anew.
fn fill_formula_slots(slots: &mut BTreeMap<u32, Slot>, rw: &RowWrite, Ghost(len): Ghost<int>)
    requires
        slots_fit(len, rw@, old(slots)@),
    ensures
        slot_acts(rw@, final(slots)@) == fill_formulas(slot_acts(rw@, old(slots)@), rw@.formulas),
        slots_fit(len, rw@, final(slots)@),
{
    let ghost first = slot_acts(rw@, slots@);
    let ghost formulas = rw@.formulas;
    let mut i: usize = 0;
    assert(formulas.take(0) =~= Seq::<CellPut>::empty());
    while i < rw.ensure_formulas.len()
        invariant
            i <= formulas.len(),
            formulas == rw@.formulas,
            slot_acts(rw@, slots@) == fill_formulas(first, formulas.take(i as int)),
            slots_fit(len, rw@, slots@),
        decreases formulas.len() - i,
    {
        let ghost before = slots@;
        assert(formulas.take(i + 1).drop_last() =~= formulas.take(i as int));
        let col = rw.ensure_formulas[i].0;
        assert(formulas[i as int].col == col);
        if !slots.contains_key(&col) {
            slots.insert(col, Slot::Ensure(i));
            assert(slot_acts(rw@, slots@) =~= slot_acts(rw@, before).insert(
                col,
                CellAct::Put(formulas[i as int].val, formulas[i as int].style),
            ));
        }
        i = i + 1;
    }
    assert(formulas.take(i as int) =~= formulas);
}

/// The slots of the columns that had no cell.
fn fresh_slots(
    kept: &BTreeMap<u32, Slot>,
    slots: &BTreeMap<u32, Slot>,
    Ghost(rw): Ghost<RowPut>,
    Ghost(len): Ghost<int>,
) -> (r: BTreeMap<u32, Slot>)
    requires
        slots_fit(len, rw, slots@),
    ensures
        slot_acts(rw, r@) == fresh_acts(slot_acts(rw, kept@), slot_acts(rw, slots@)),
        slots_fit(len, rw, r@),
{
    let items = in_order(slots);
    let mut out: BTreeMap<u32, Slot> = BTreeMap::new();
    let mut i: usize = 0;
    while i < items.len()
        invariant
            i <= items@.len(),
            is_listed(slots@, items@),
            slots_fit(len, rw, slots@),
            slots_fit(len, rw, out@),
            forall|k: u32| #[trigger]
                out@.contains_key(k) ==> slots@.contains_key(k) && out@[k] == slots@[k]
                    && !kept@.contains_key(k),
            forall|j: int|
                0 <= j < i && !kept@.contains_key((#[trigger] items@[j]).0) ==> out@.contains_key(
                    items@[j].0,
                ),
        decreases items@.len() - i,
    {
        let (col, slot) = items[i];
        assert(slots@.contains_key(items@[i as int].0));
        assert(slot_fits(len, rw, slots@[col]));
        if !kept.contains_key(&col) {
            out.insert(col, slot);
        }
        i = i + 1;
    }
    proof {
        let a = slot_acts(rw, out@);
        let e = fresh_acts(slot_acts(rw, kept@), slot_acts(rw, slots@));
        assert forall|k: u32| a.contains_key(k) == e.contains_key(k) by {
            if slots@.contains_key(k) && !kept@.contains_key(k) {
                let j = choose|j: int| 0 <= j < items@.len() && (#[trigger] items@[j]).0 == k;
                assert(out@.contains_key(items@[j].0));
            }
        }
        assert forall|k: u32| a.contains_key(k) implies a[k] == e[k] by {
            assert(out@.contains_key(k));
        }
        assert(a =~= e);
    }
    out
}

/// Puts the content of a row from `start` to `end` behind the bytes that are there, as it is
/// afterwards.
fn emit_body(
    out: &mut Vec<u8>,
    orig: &[u8],
    start: usize,
    end: usize,
    rw: &RowWrite,
    kept: &BTreeMap<u32, Slot>,
    slots: &BTreeMap<u32, Slot>,
)
    requires
        start <= end <= orig@.len(),
        slots_fit(orig@.len() as int, rw@, slots@),
    ensures
        final(out)@ == old(out)@ + row_body(
            orig@,
            cells_from(orig@, start as int, end as int),
            start as int,
            end as int,
            rw@.row as nat,
            slot_acts(rw@, kept@),
            slot_acts(rw@, slots@),
            0,
        ),
{
    let ghost len = orig@.len() as int;
    let ghost row = rw@.row as nat;
    let ghost k = slot_acts(rw@, kept@);
    let ghost acts = slot_acts(rw@, slots@);
    let fresh = fresh_slots(kept, slots, Ghost(rw@), Ghost(len));
    let items = in_order(&fresh);
    let ghost fa = slot_acts(rw@, fresh@);
    let ghost first = out@;
    let ghost all = row_body(
        orig@,
        cells_from(orig@, start as int, end as int),
        start as int,
        end as int,
        row,
        k,
        acts,
        0,
    );
    let mut next: u32 = 0;
    let mut item: usize = 0;
    let mut from: usize = start;
    let mut pos: usize = start;
    assert(out@ + all =~= first + all);
    while pos < end
        invariant_except_break
            first + all == out@ + row_body(
                orig@,
                cells_from(orig@, pos as int, end as int),
                from as int,
                end as int,
                row,
                k,
                acts,
                next as nat,
            ),
            from <= pos,
        invariant
            start <= from <= end <= orig@.len(),
            is_listed(fresh@, items@),
            parts_at(items@, item as int, next as nat),
            slots_fit(orig@.len() as int, rw@, slots@),
            slots_fit(orig@.len() as int, rw@, fresh@),
            fa == slot_acts(rw@, fresh@),
            fa == fresh_acts(k, acts),
            k == slot_acts(rw@, kept@),
            acts == slot_acts(rw@, slots@),
            row == rw@.row as nat,
        ensures
            first + all == out@ + row_body(
                orig@,
                Seq::empty(),
                from as int,
                end as int,
                row,
                k,
                acts,
                next as nat,
            ),
        decreases orig@.len() + 1 - pos,
    {
        if orig[pos] != 60 {
            pos = pos + 1;
            continue;
        }
        proof {
            lemma_tag_from(orig@, pos as int);
        }
        match next_tag(orig, pos) {
            None => {
                break;
            },
            Some((lt, info)) => {
                if !same_text(info.name.as_str(), "c") || info.closing {
                    pos = lt + 1;
                    continue;
                }
                proof {
                    lemma_span_of(orig@, info.at(lt as int));
                }
                match element_span(orig, lt, &info) {
                    None => {
                        break;
                    },
                    Some(span) => {
                        if span.1 > end {
                            break;
                        }
                        let ghost rest = cells_from(orig@, span.1 as int, end as int);
                        let ghost here = (info.at(lt as int), (span.0 as int, span.1 as int));
                        assert((seq![here] + rest).drop_first() =~= rest);
                        assert((seq![here] + rest)[0] == here);
                        if let Some((col, _)) = cell_ref_of(orig, &info) {
                            let ghost before = out@;
                            let ghost gap = orig@.subrange(from as int, span.0 as int);
                            let ghost new = cells_between(orig@, row, fa, next as nat, col as nat);
                            push_bytes(out, slice_subrange(orig, from, span.0));
                            let ghost done = next as nat;
                            if next < col {
                                item = emit_between(
                                    out,
                                    orig,
                                    rw,
                                    &items,
                                    item,
                                    col as u64,
                                    Ghost(fresh@),
                                    Ghost(next as nat),
                                );
                                next = col;
                            }
                            assert(out@ =~= before + gap + new);
                            let untouched = match slots.get(&col) {
                                Some(Slot::Keep(_, _)) => true,
                                None => true,
                                _ => false,
                            };
                            let winner = match kept.get(&col) {
                                Some(Slot::Keep(a, e)) => *a == span.0 && *e == span.1,
                                _ => false,
                            };
                            if untouched {
                                push_bytes(out, slice_subrange(orig, span.0, span.1));
                            } else if winner {
                                if let Some(slot) = slots.get(&col) {
                                    assert(slot_fits(orig@.len() as int, rw@, slots@[col]));
                                    emit_slot(out, orig, rw, col, slot);
                                }
                            }
                            proof {
                                let after = cell_after(
                                    orig@,
                                    row,
                                    k,
                                    acts,
                                    col,
                                    (span.0 as int, span.1 as int),
                                );
                                assert(out@ =~= before + gap + new + after);
                                let tail = row_body(
                                    orig@,
                                    rest,
                                    span.1 as int,
                                    end as int,
                                    row,
                                    k,
                                    acts,
                                    next as nat,
                                );
                                assert(before + (gap + new + after + tail) =~= out@ + tail);
                            }
                            from = span.1;
                        }
                        pos = span.1;
                    },
                }
            },
        }
    }
    let ghost before = out@;
    push_bytes(out, slice_subrange(orig, from, end));
    emit_between(
        out,
        orig,
        rw,
        &items,
        item,
        0x1_0000_0000,
        Ghost(fresh@),
        Ghost(next as nat),
    );
    assert(out@ =~= before + (orig@.subrange(from as int, end as int) + cells_between(
        orig@,
        row,
        fa,
        next as nat,
        0x1_0000_0000,
    )));
}

/// The opening tag of a row with its attributes as they are.
fn row_start_bytes(orig: &[u8], info: &TagInfo) -> (r: Vec<u8>)
    requires
        info.inner.0 <= info.inner.1 <= orig@.len(),
    ensures
        r@ == bytes("<"@) + inside(orig@, info.at(0)) + bytes(">"@),
{
    let mut out: Vec<u8> = Vec::new();
    push_text(&mut out, "<");
    push_bytes(&mut out, slice_subrange(orig, info.inner.0, info.inner.1));
    push_text(&mut out, ">");
    assert(out@ =~= bytes("<"@) + inside(orig@, info.at(0)) + bytes(">"@));
    out
}

/// Makes the row that exists anew, with all that is not touched kept as it is.
pub fn rebuild_row(orig: &[u8], info: &TagInfo, span: (usize, usize), rw: &RowWrite) -> (r: Vec<u8>)
    requires
        element_bounds(orig@, (info.at(span.0 as int), (span.0 as int, span.1 as int))),
    ensures
        r@ == rebuilt_row(
            orig@,
            (info.at(span.0 as int), (span.0 as int, span.1 as int)),
            rw@,
        ),
{
    let end: usize = content_end(orig, info, span);
    let mut slots = keep_slots(orig, info.after, end, Ghost(rw@));
    clear_slots(&mut slots, rw, Ghost(orig@.len() as int));
    put_slots(&mut slots, rw, Ghost(orig@.len() as int));
    put_formula_slots(orig, &mut slots, rw);
    let kept = keep_slots(orig, info.after, end, Ghost(rw@));
    let mut out = row_start_bytes(orig, info);
    emit_body(&mut out, orig, info.after, end, rw, &kept, &slots);
    push_text(&mut out, "</row>");
    out
}

/// Makes a row that the worksheet does not have.
pub fn build_new_row(rw: &RowWrite) -> (r: Vec<u8>)
    ensures
        r@ == new_row(rw@),
{
    let mut slots: BTreeMap<u32, Slot> = BTreeMap::new();
    assert(slot_acts(rw@, slots@) =~= Map::<u32, CellAct>::empty());
    put_slots(&mut slots, rw, Ghost(0));
    fill_formula_slots(&mut slots, rw, Ghost(0));
    let num = decimal_text(rw.row as u64);
    let tag = join3("<row r=\"", num.as_str(), "\">");
    let mut out: Vec<u8> = Vec::new();
    push_text(&mut out, tag.as_str());
    assert(out@ =~= bytes(tag@));
    let nothing: Vec<u8> = Vec::new();
    assert(nothing@ =~= Seq::<u8>::empty());
    emit_slots(&mut out, nothing.as_slice(), rw, &slots);
    push_text(&mut out, "</row>");
    out
}

// ----------------------------------------------------------------- worksheets
/// Whether the tag of a row starts at `pos`.
pub open spec fn is_row_at(b: Seq<u8>, pos: int) -> bool {
    &&& is_at(b, pos, bytes("<row"@))
    &&& pos + 4 < b.len()
    &&& is_blank(b[pos + 4]) || b[pos + 4] == 62 || b[pos + 4] == 47
}

/// The row that starts at `pos` and ends no later than `end`.
pub open spec fn row_elem(b: Seq<u8>, pos: int, end: int) -> Option<(Tag, (int, int))> {
    match tag_from(b, pos) {
        None => None,
        Some(t) => match span_of(b, t) {
            None => None,
            Some(s) => if t.at == pos && s.1 <= end {
                Some((t, s))
            } else {
                None
            },
        },
    }
}

/// A row that was found lies where it was looked for.
pub proof fn lemma_row_elem(b: Seq<u8>, pos: int, end: int)
    requires
        0 <= pos,
    ensures
        row_elem(b, pos, end) matches Some(e) ==> element_bounds(b, e) && e.1.0 == pos && pos
            < e.1.1 <= end,
{
    lemma_tag_from(b, pos);
    if let Some(t) = tag_from(b, pos) {
        lemma_span_of(b, t);
    }
}

/// The rows between `pos` and `end`, up to the first that is not complete.
pub open spec fn sheet_rows(b: Seq<u8>, pos: int, end: int) -> Seq<(Tag, (int, int))>
    decreases end - pos,
{
    if pos < 0 || pos >= end {
        Seq::empty()
    } else if !is_row_at(b, pos) {
        sheet_rows(b, pos + 1, end)
    } else {
        proof {
            lemma_row_elem(b, pos, end);
        }
        match row_elem(b, pos, end) {
            None => Seq::empty(),
            Some(e) => seq![e] + sheet_rows(b, e.1.1, end),
        }
    }
}

/// Whether one of the rows has the number `num`.
pub open spec fn has_row(b: Seq<u8>, rows: Seq<(Tag, (int, int))>, num: nat) -> bool {
    exists|i: int| 0 <= i < rows.len() && row_number(b, (#[trigger] rows[i]).0) == Some(num)
}

/// The requests whose rows are to be made and are not there.
pub open spec fn missing_rows(
    b: Seq<u8>,
    rows: Seq<(Tag, (int, int))>,
    ws: Seq<RowPut>,
) -> Seq<RowPut> {
    ws.filter(|w: RowPut| w.insert && !has_row(b, rows, w.row as nat))
}

/// Requests in the order of their rows with one more put in, behind those of the same row.
pub open spec fn placed(s: Seq<RowPut>, w: RowPut) -> Seq<RowPut>
    decreases s.len(),
{
    if s.len() == 0 || s.last().row <= w.row {
        s.push(w)
    } else {
        placed(s.drop_last(), w).push(s.last())
    }
}

/// Requests in the order of their rows; those of one row keep their order.
pub open spec fn by_row(ws: Seq<RowPut>) -> Seq<RowPut>
    decreases ws.len(),
{
    if ws.len() == 0 {
        Seq::empty()
    } else {
        placed(by_row(ws.drop_last()), ws.last())
    }
}

/// New rows, one behind the other.
pub open spec fn new_rows(ws: Seq<RowPut>) -> Seq<u8>
    decreases ws.len(),
{
    if ws.len() == 0 {
        Seq::empty()
    } else {
        new_row(ws[0]) + new_rows(ws.drop_first())
    }
}

/// The requests in front that are for rows above row `num`.
pub open spec fn rows_above(ws: Seq<RowPut>, num: nat) -> Seq<RowPut>
    decreases ws.len(),
{
    if ws.len() > 0 && ws[0].row < num {
        seq![ws[0]] + rows_above(ws.drop_first(), num)
    } else {
        Seq::empty()
    }
}

/// The other requests.
pub open spec fn rows_left(ws: Seq<RowPut>, num: nat) -> Seq<RowPut>
    decreases ws.len(),
{
    if ws.len() > 0 && ws[0].row < num {
        rows_left(ws.drop_first(), num)
    } else {
        ws
    }
}

/// The last request for row `num`.
pub open spec fn request_for(ws: Seq<RowPut>, num: nat) -> Option<RowPut>
    decreases ws.len(),
{
    if ws.len() == 0 {
        None
    } else if ws.last().row == num {
        Some(ws.last())
    } else {
        request_for(ws.drop_last(), num)
    }
}

/// The request that a row is subject to.
pub open spec fn request_of(b: Seq<u8>, e: (Tag, (int, int)), ws: Seq<RowPut>) -> Option<RowPut> {
    match row_number(b, e.0) {
        Some(n) => request_for(ws, n),
        None => None,
    }
}

/// A row after the changes.
pub open spec fn row_after(b: Seq<u8>, e: (Tag, (int, int)), ws: Seq<RowPut>) -> Seq<u8> {
    match request_of(b, e, ws) {
        Some(w) => rebuilt_row(b, e, w),
        None => b.subrange(e.1.0, e.1.1),
    }
}

/// The new rows that come in front of a row.
pub open spec fn new_above(b: Seq<u8>, e: (Tag, (int, int)), new: Seq<RowPut>) -> Seq<RowPut> {
    match row_number(b, e.0) {
        Some(n) => rows_above(new, n),
        None => Seq::empty(),
    }
}

/// The new rows that do not come in front of a row.
pub open spec fn new_left(b: Seq<u8>, e: (Tag, (int, int)), new: Seq<RowPut>) -> Seq<RowPut> {
    match row_number(b, e.0) {
        Some(n) => rows_left(new, n),
        None => new,
    }
}

/// The content of a worksheet from `pos` to `end` after the changes: bytes between the rows and
/// rows that no request is for stay, rows that one is for are made anew, and the rows `new` are
/// put in front of the first row with a larger number, or at the end.
pub open spec fn patched(
    b: Seq<u8>,
    pos: int,
    end: int,
    ws: Seq<RowPut>,
    new: Seq<RowPut>,
) -> Seq<u8>
    decreases end - pos,
{
    if pos < 0 || pos >= end {
        new_rows(new)
    } else if !is_row_at(b, pos) {
        seq![b[pos]] + patched(b, pos + 1, end, ws, new)
    } else {
        proof {
            lemma_row_elem(b, pos, end);
        }
        match row_elem(b, pos, end) {
            None => b.subrange(pos, end) + new_rows(new),
            Some(e) => new_rows(new_above(b, e, new)) + row_after(b, e, ws) + patched(
                b,
                e.1.1,
                end,
                ws,
                new_left(b, e, new),
            ),
        }
    }
}

/// The largest row that requests are for; one where there is none.
pub open spec fn largest_row(ws: Seq<RowPut>) -> nat
    decreases ws.len(),
{
    if ws.len() == 0 {
        1
    } else if ws.len() == 1 {
        ws[0].row as nat
    } else {
        let before = largest_row(ws.drop_last());
        if ws.last().row as nat > before {
            ws.last().row as nat
        } else {
            before
        }
    }
}

/// The worksheet after the changes, before its dimension is stretched. An empty `sheetData` is
/// replaced by one with the new rows.
pub open spec fn changed_sheet(b: Seq<u8>, ws: Seq<RowPut>) -> Seq<u8> {
    match sheet_data_from(b, 0) {
        None => b,
        Some((start, end, self_closing)) => if self_closing {
            b.take(start) + bytes("<sheetData>"@) + new_rows(ws.filter(|w: RowPut| w.insert))
                + bytes("</sheetData>"@) + b.skip(tag_from(b, start)->0.after)
        } else {
            let new = by_row(missing_rows(b, sheet_rows(b, start, end), ws));
            b.take(start) + patched(b, start, end, ws, new) + b.skip(end)
        },
    }
}

/// The worksheet after the changes, with its dimension stretched to the largest row, or the message
/// that it has no `sheetData`.
pub open spec fn patch_of(b: Seq<u8>, ws: Seq<RowPut>) -> Result<Seq<u8>, Seq<char>> {
    match sheet_data_from(b, 0) {
        None => Err("BadZipFile: sheetData not found"@),
        Some(_) => Ok(with_max_row(changed_sheet(b, ws), largest_row(ws))),
    }
}

/// Requests by their texts.
pub open spec fn puts(ws: Seq<RowWrite>) -> Seq<RowPut> {
    ws.map_values(|w: RowWrite| w@)
}

/// Whether the tag of a row starts at `pos`.
fn is_row_tag(b: &[u8], pos: usize) -> (r: bool)
    requires
        pos <= b@.len(),
    ensures
        r == is_row_at(b@, pos as int),
{
    proof {
        reveal_strlit("<row");
        lemma_encode_ascii("<row"@);
    }
    if !bytes_at(b, pos, "<row".as_bytes()) {
        return false;
    }
    if b.len() - pos <= 4 {
        return false;
    }
    let c = b[pos + 4];
    c == 32 || c == 9 || c == 13 || c == 10 || c == 62 || c == 47
}

/// The row that starts at `pos` and ends no later than `end`.
fn row_at(b: &[u8], pos: usize, end: usize) -> (r: Option<(TagInfo, (usize, usize))>)
    ensures
        match row_elem(b@, pos as int, end as int) {
            Some(e) => r matches Some(x) && x.0.at(pos as int) == e.0 && x.1.0 == e.1.0 && x.1.1
                == e.1.1,
            None => r is None,
        },
{
    proof {
        lemma_tag_from(b@, pos as int);
    }
    match next_tag(b, pos) {
        None => None,
        Some((lt, info)) => match element_span(b, lt, &info) {
            None => None,
            Some(span) => {
                if lt == pos && span.1 <= end {
                    Some((info, span))
                } else {
                    None
                }
            },
        },
    }
}

/// The numbers of the rows between `start` and `end`.
fn row_numbers(b: &[u8], start: usize, end: usize) -> (r: Vec<u32>)
    requires
        start <= end <= b@.len(),
    ensures
        forall|n: u32|
            #[trigger] r@.contains(n) == has_row(
                b@,
                sheet_rows(b@, start as int, end as int),
                n as nat,
            ),
{
    let mut out: Vec<u32> = Vec::new();
    let mut pos: usize = start;
    let ghost all = sheet_rows(b@, start as int, end as int);
    let ghost mut seen: Seq<(Tag, (int, int))> = Seq::empty();
    assert(seen + all =~= all);
    while pos < end
        invariant_except_break
            end <= b@.len(),
            all == seen + sheet_rows(b@, pos as int, end as int),
            forall|n: u32| #[trigger] out@.contains(n) == has_row(b@, seen, n as nat),
        ensures
            all == seen,
            forall|n: u32| #[trigger] out@.contains(n) == has_row(b@, seen, n as nat),
        decreases end + 1 - pos,
    {
        if !is_row_tag(b, pos) {
            pos = pos + 1;
            assert(pos >= end ==> seen + Seq::empty() =~= seen);
            continue;
        }
        proof {
            lemma_row_elem(b@, pos as int, end as int);
        }
        match row_at(b, pos, end) {
            None => {
                assert(seen + Seq::empty() =~= seen);
                break;
            },
            Some((info, span)) => {
                let ghost e = row_elem(b@, pos as int, end as int)->0;
                let ghost before = seen;
                let ghost nums = out@;
                let num = row_number_of(b, &info);
                proof {
                    assert(inside(b@, info.at(0)) == inside(b@, e.0));
                    seen = seen.push(e);
                    assert(all =~= seen + sheet_rows(b@, span.1 as int, end as int));
                }
                if let Some(k) = num {
                    out.push(k);
                }
                proof {
                    assert forall|n: u32|
                        #[trigger] out@.contains(n) == has_row(b@, seen, n as nat) by {
                        lemma_has_row_push(b@, before, e, n as nat);
                        assert(nums.contains(n) == has_row(b@, before, n as nat));
                        if let Some(k) = num {
                            assert(out@.last() == k);
                            if out@.contains(n) && n != k {
                                let i = choose|i: int| 0 <= i < out@.len() && out@[i] == n;
                                assert(nums[i] == n);
                            }
                            if nums.contains(n) {
                                let i = choose|i: int| 0 <= i < nums.len() && nums[i] == n;
                                assert(out@[i] == n);
                            }
                        }
                    }
                }
                pos = span.1;
                assert(pos >= end ==> seen + Seq::empty() =~= seen);
            },
        }
    }
    out
}

/// A number is there after one more row if it was there before or is that row's.
proof fn lemma_has_row_push(
    b: Seq<u8>,
    rows: Seq<(Tag, (int, int))>,
    e: (Tag, (int, int)),
    num: nat,
)
    ensures
        has_row(b, rows.push(e), num) == (has_row(b, rows, num) || row_number(b, e.0) == Some(num)),
{
    let more = rows.push(e);
    assert(more[rows.len() as int] == e);
    if has_row(b, rows, num) {
        let i = choose|i: int|
            0 <= i < rows.len() && row_number(b, (#[trigger] rows[i]).0) == Some(num);
        assert(more[i] == rows[i]);
    }
    if has_row(b, more, num) {
        let i = choose|i: int|
            0 <= i < more.len() && row_number(b, (#[trigger] more[i]).0) == Some(num);
        if i < rows.len() {
            assert(more[i] == rows[i]);
        }
    }
}

/// Whether a number is among those given.
fn contains_num(nums: &Vec<u32>, n: u32) -> (r: bool)
    ensures
        r == nums@.contains(n),
{
    let mut i: usize = 0;
    while i < nums.len()
        invariant
            i <= nums@.len(),
            forall|j: int| 0 <= j < i ==> nums@[j] != n,
        decreases nums@.len() - i,
    {
        if nums[i] == n {
            return true;
        }
        i = i + 1;
    }
    false
}

/// The requests at the given places.
spec fn chosen(ws: Seq<RowPut>, order: Seq<usize>) -> Seq<RowPut> {
    order.map_values(|i: usize| ws[i as int])
}

spec fn places_fit(n: nat, order: Seq<usize>) -> bool {
    forall|k: int| 0 <= k < order.len() ==> #[trigger] order[k] < n
}

/// Puts one more place into the order of rows.
fn place_row(order: &mut Vec<usize>, writes: &[RowWrite], i: usize)
    requires
        i < writes@.len(),
        places_fit(writes@.len(), old(order)@),
    ensures
        chosen(puts(writes@), final(order)@) == placed(
            chosen(puts(writes@), old(order)@),
            puts(writes@)[i as int],
        ),
        places_fit(writes@.len(), final(order)@),
{
    let ghost ws = puts(writes@);
    let ghost before = order@;
    let ghost s = chosen(ws, order@);
    let mut k: usize = order.len();
    assert(s.take(k as int) =~= s);
    assert(placed(s, ws[i as int]) + s.skip(k as int) =~= placed(s, ws[i as int]));
    while k > 0 && writes[order[k - 1]].row > writes[i].row
        invariant
            k <= order@.len(),
            i < writes@.len(),
            ws == puts(writes@),
            s == chosen(ws, order@),
            order@ == before,
            places_fit(writes@.len(), order@),
            placed(s, ws[i as int]) == placed(s.take(k as int), ws[i as int]) + s.skip(k as int),
        decreases k,
    {
        proof {
            let t = s.take(k as int);
            assert(t.drop_last() =~= s.take(k - 1));
            assert(t.last() == ws[order@[k - 1] as int]);
            assert(s.skip(k - 1) =~= seq![s[k - 1]] + s.skip(k as int));
            assert(placed(t.drop_last(), ws[i as int]).push(t.last()) + s.skip(k as int) =~= placed(
                s.take(k - 1),
                ws[i as int],
            ) + s.skip(k - 1));
        }
        k = k - 1;
    }
    proof {
        if k > 0 {
            assert(s.take(k as int).last() == ws[order@[k - 1] as int]);
        }
        assert(placed(s.take(k as int), ws[i as int]) == s.take(k as int).push(ws[i as int]));
    }
    order.insert(k, i);
    proof {
        assert(order@ =~= before.insert(k as int, i));
        assert(chosen(ws, order@) =~= s.take(k as int).push(ws[i as int]) + s.skip(k as int));
        assert forall|j: int| 0 <= j < order@.len() implies #[trigger] order@[j]
            < writes@.len() by {
            if j < k {
                assert(order@[j] == before[j]);
            } else if j > k {
                assert(order@[j] == before[j - 1]);
            }
        }
    }
}

/// The places of the requests whose rows are to be made, in the order of the rows.
fn insert_order(b: &[u8], start: usize, end: usize, writes: &[RowWrite]) -> (r: Vec<usize>)
    requires
        start <= end <= b@.len(),
    ensures
        chosen(puts(writes@), r@) == by_row(
            missing_rows(b@, sheet_rows(b@, start as int, end as int), puts(writes@)),
        ),
        places_fit(writes@.len(), r@),
{
    let nums = row_numbers(b, start, end);
    let ghost ws = puts(writes@);
    let ghost rows = sheet_rows(b@, start as int, end as int);
    let ghost pred = |w: RowPut| w.insert && !has_row(b@, rows, w.row as nat);
    let mut order: Vec<usize> = Vec::new();
    let mut i: usize = 0;
    proof {
        reveal(Seq::filter);
        assert(ws.take(0) =~= Seq::<RowPut>::empty());
        assert(ws.take(0).filter(pred) =~= Seq::<RowPut>::empty());
        assert(chosen(ws, order@) =~= by_row(ws.take(0).filter(pred)));
    }
    while i < writes.len()
        invariant
            i <= writes@.len(),
            ws == puts(writes@),
            rows == sheet_rows(b@, start as int, end as int),
            pred == (|w: RowPut| w.insert && !has_row(b@, rows, w.row as nat)),
            forall|n: u32| #[trigger] nums@.contains(n) == has_row(b@, rows, n as nat),
            chosen(ws, order@) == by_row(ws.take(i as int).filter(pred)),
            places_fit(writes@.len(), order@),
        decreases writes@.len() - i,
    {
        proof {
            reveal(Seq::filter);
            let t = ws.take(i + 1);
            assert(t.drop_last() =~= ws.take(i as int));
            assert(t.last() == ws[i as int]);
            let f = ws.take(i as int).filter(pred);
            assert(f.push(ws[i as int]).drop_last() =~= f);
            assert(nums@.contains(ws[i as int].row) == has_row(
                b@,
                rows,
                (ws[i as int].row) as nat,
            ));
        }
        if writes[i].insert_if_absent && !contains_num(&nums, writes[i].row) {
            place_row(&mut order, writes, i);
        }
        i = i + 1;
    }
    assert(ws.take(i as int) =~= ws);
    order
}

/// The last request for row `num`.
fn find_request<'a>(writes: &'a [RowWrite], num: u32) -> (r: Option<&'a RowWrite>)
    ensures
        match request_for(puts(writes@), num as nat) {
            Some(w) => r matches Some(x) && x@ == w,
            None => r is None,
        },
{
    let ghost ws = puts(writes@);
    let mut i: usize = writes.len();
    assert(ws.take(i as int) =~= ws);
    while i > 0
        invariant
            i <= writes@.len(),
            ws == puts(writes@),
            request_for(ws, num as nat) == request_for(ws.take(i as int), num as nat),
        decreases i,
    {
        assert(ws.take(i as int).drop_last() =~= ws.take(i - 1));
        if writes[i - 1].row == num {
            return Some(&writes[i - 1]);
        }
        i = i - 1;
    }
    None
}

/// Puts new rows behind the bytes that are there.
fn emit_new_rows(out: &mut Vec<u8>, writes: &[RowWrite], order: &Vec<usize>, from: usize, to: usize)
    requires
        from <= to <= order@.len(),
        places_fit(writes@.len(), order@),
    ensures
        final(out)@ == old(out)@ + new_rows(
            chosen(puts(writes@), order@).subrange(from as int, to as int),
        ),
{
    let ghost s = chosen(puts(writes@), order@);
    let ghost start = out@;
    let ghost all = new_rows(s.subrange(from as int, to as int));
    let mut i: usize = from;
    assert(start + all =~= out@ + new_rows(s.subrange(i as int, to as int)));
    while i < to
        invariant
            from <= i <= to <= order@.len(),
            places_fit(writes@.len(), order@),
            s == chosen(puts(writes@), order@),
            start + all == out@ + new_rows(s.subrange(i as int, to as int)),
        decreases to - i,
    {
        let ghost before = out@;
        assert(order@[i as int] < writes@.len());
        let row = build_new_row(&writes[order[i]]);
        push_bytes(out, row.as_slice());
        proof {
            let t = s.subrange(i as int, to as int);
            assert(t.drop_first() =~= s.subrange(i + 1, to as int));
            assert(t[0] == puts(writes@)[order@[i as int] as int]);
            assert(before + (new_row(t[0]) + new_rows(t.drop_first())) =~= out@ + new_rows(
                s.subrange(i + 1, to as int),
            ));
        }
        i = i + 1;
    }
    assert(out@ + Seq::<u8>::empty() =~= out@);
}

/// How far the requests in front are for rows above row `num`.
fn end_of_above(writes: &[RowWrite], order: &Vec<usize>, from: usize, num: u32) -> (r: usize)
    requires
        from <= order@.len(),
        places_fit(writes@.len(), order@),
    ensures
        from <= r <= order@.len(),
        rows_above(chosen(puts(writes@), order@).skip(from as int), num as nat) == chosen(
            puts(writes@),
            order@,
        ).subrange(from as int, r as int),
        rows_left(chosen(puts(writes@), order@).skip(from as int), num as nat) == chosen(
            puts(writes@),
            order@,
        ).skip(r as int),
{
    let ghost s = chosen(puts(writes@), order@);
    let mut i: usize = from;
    assert(s.subrange(from as int, from as int) + rows_above(s.skip(from as int), num as nat)
        =~= rows_above(s.skip(from as int), num as nat));
    while i < order.len() && writes[order[i]].row < num
        invariant
            from <= i <= order@.len(),
            places_fit(writes@.len(), order@),
            s == chosen(puts(writes@), order@),
            rows_above(s.skip(from as int), num as nat) == s.subrange(from as int, i as int)
                + rows_above(s.skip(i as int), num as nat),
            rows_left(s.skip(from as int), num as nat) == rows_left(s.skip(i as int), num as nat),
        decreases order@.len() - i,
    {
        proof {
            let t = s.skip(i as int);
            assert(t.drop_first() =~= s.skip(i + 1));
            assert(t[0] == s[i as int]);
            assert(s.subrange(from as int, i as int) + (seq![t[0]] + rows_above(
                t.drop_first(),
                num as nat,
            )) =~= s.subrange(from as int, i + 1) + rows_above(s.skip(i + 1), num as nat));
        }
        i = i + 1;
    }
    proof {
        if i < order@.len() {
            assert(s.skip(i as int)[0] == puts(writes@)[order@[i as int] as int]);
        }
        assert(s.subrange(from as int, i as int) + Seq::empty() =~= s.subrange(
            from as int,
            i as int,
        ));
    }
    i
}

/// The content of a worksheet that is not empty, after the changes.
fn patch_rows(b: &[u8], start: usize, end: usize, writes: &[RowWrite]) -> (r: Vec<u8>)
    requires
        start <= end <= b@.len(),
    ensures
        r@ == patched(
            b@,
            start as int,
            end as int,
            puts(writes@),
            by_row(
                missing_rows(b@, sheet_rows(b@, start as int, end as int), puts(writes@)),
            ),
        ),
{
    let order = insert_order(b, start, end, writes);
    let ghost ws = puts(writes@);
    let ghost new = chosen(ws, order@);
    let ghost all = patched(b@, start as int, end as int, ws, new);
    let mut out: Vec<u8> = Vec::new();
    let mut next: usize = 0;
    let mut pos: usize = start;
    assert(new.skip(0) =~= new);
    assert(out@ + all =~= all);
    while pos < end
        invariant
            pos <= end <= b@.len(),
            next <= order@.len(),
            places_fit(writes@.len(), order@),
            ws == puts(writes@),
            new == chosen(ws, order@),
            all == out@ + patched(b@, pos as int, end as int, ws, new.skip(next as int)),
        decreases end - pos,
    {
        let ghost before = out@;
        if !is_row_tag(b, pos) {
            out.push(b[pos]);
            proof {
                let rest = patched(b@, pos + 1, end as int, ws, new.skip(next as int));
                assert(before + (seq![b@[pos as int]] + rest) =~= out@ + rest);
            }
            pos = pos + 1;
            continue;
        }
        proof {
            lemma_row_elem(b@, pos as int, end as int);
        }
        match row_at(b, pos, end) {
            None => {
                push_bytes(&mut out, slice_subrange(b, pos, end));
                proof {
                    let rest = new_rows(new.skip(next as int));
                    assert(before + (b@.subrange(pos as int, end as int) + rest) =~= out@ + rest);
                }
                pos = end;
            },
            Some((info, span)) => {
                let ghost e = row_elem(b@, pos as int, end as int)->0;
                let ghost left = new.skip(next as int);
                assert(inside(b@, info.at(0)) == inside(b@, e.0));
                let num = row_number_of(b, &info);
                let upto: usize = match num {
                    Some(n) => end_of_above(writes, &order, next, n),
                    None => next,
                };
                proof {
                    assert(num is None ==> new.subrange(next as int, next as int)
                        =~= Seq::<RowPut>::empty());
                    assert(new_above(b@, e, left) == new.subrange(next as int, upto as int));
                    assert(new_left(b@, e, left) == new.skip(upto as int));
                }
                emit_new_rows(&mut out, writes, &order, next, upto);
                let ghost above = out@;
                let request = match num {
                    Some(n) => find_request(writes, n),
                    None => None,
                };
                match request {
                    Some(w) => {
                        let row = rebuild_row(b, &info, span, w);
                        push_bytes(&mut out, row.as_slice());
                    },
                    None => {
                        push_bytes(&mut out, slice_subrange(b, span.0, span.1));
                    },
                }
                proof {
                    assert(out@ == above + row_after(b@, e, ws));
                    let rest = patched(b@, span.1 as int, end as int, ws, new.skip(upto as int));
                    assert(before + (new_rows(new_above(b@, e, left)) + row_after(b@, e, ws) + rest)
                        =~= out@ + rest);
                }
                next = upto;
                pos = span.1;
            },
        }
    }
    emit_new_rows(&mut out, writes, &order, next, order.len());
    assert(new.subrange(next as int, order@.len() as int) =~= new.skip(next as int));
    out
}

/// The rows for a worksheet that is empty.
fn fresh_rows(writes: &[RowWrite]) -> (r: Vec<u8>)
    ensures
        r@ == new_rows(puts(writes@).filter(|w: RowPut| w.insert)),
{
    let ghost ws = puts(writes@);
    let ghost pred = |w: RowPut| w.insert;
    let mut order: Vec<usize> = Vec::new();
    let mut i: usize = 0;
    proof {
        reveal(Seq::filter);
        assert(ws.take(0) =~= Seq::<RowPut>::empty());
        assert(chosen(ws, order@) =~= ws.take(0).filter(pred));
    }
    while i < writes.len()
        invariant
            i <= writes@.len(),
            ws == puts(writes@),
            pred == (|w: RowPut| w.insert),
            chosen(ws, order@) == ws.take(i as int).filter(pred),
            places_fit(writes@.len(), order@),
        decreases writes@.len() - i,
    {
        proof {
            reveal(Seq::filter);
            assert(ws.take(i + 1).drop_last() =~= ws.take(i as int));
        }
        let ghost before = order@;
        if writes[i].insert_if_absent {
            order.push(i);
            assert(chosen(ws, order@) =~= chosen(ws, before).push(ws[i as int]));
            assert(places_fit(writes@.len(), order@)) by {
                assert forall|k: int| 0 <= k < order@.len() implies #[trigger] order@[k]
                    < writes@.len() by {
                    if k < before.len() {
                        assert(order@[k] == before[k]);
                    }
                }
            }
        }
        i = i + 1;
    }
    let mut out: Vec<u8> = Vec::new();
    emit_new_rows(&mut out, writes, &order, 0, order.len());
    proof {
        assert(ws.take(i as int) =~= ws);
        assert(chosen(ws, order@).subrange(0, order@.len() as int) =~= chosen(ws, order@));
        assert(out@ =~= new_rows(chosen(ws, order@)));
    }
    out
}

/// The largest row that requests are for.
fn max_row(writes: &[RowWrite]) -> (r: u32)
    ensures
        r == largest_row(puts(writes@)),
{
    let ghost ws = puts(writes@);
    if writes.len() == 0 {
        return 1;
    }
    let mut most: u32 = writes[0].row;
    let mut i: usize = 1;
    assert(ws.take(1)[0] == ws[0]);
    while i < writes.len()
        invariant
            1 <= i <= writes@.len(),
            ws == puts(writes@),
            most == largest_row(ws.take(i as int)),
        decreases writes@.len() - i,
    {
        assert(ws.take(i + 1).drop_last() =~= ws.take(i as int));
        if writes[i].row > most {
            most = writes[i].row;
        }
        i = i + 1;
    }
    assert(ws.take(i as int) =~= ws);
    most
}

/// Changes rows of a worksheet and keeps all other bytes as they are.
pub fn apply_patch(sheet_xml: &[u8], writes: &[RowWrite]) -> (r: Result<Vec<u8>, String>)
    ensures
        match patch_of(sheet_xml@, puts(writes@)) {
            Ok(b) => r matches Ok(v) && v@ == b,
            Err(e) => r matches Err(t) && t@ == e,
        },
{
    proof {
        lemma_sheet_data_from(sheet_xml@, 0);
    }
    match sheet_data_span(sheet_xml) {
        None => Err(String::from_str("BadZipFile: sheetData not found")),
        Some((start, end, self_closing)) => {
            let mut out = bytes_of(sheet_xml, 0, start);
            assert(sheet_xml@.subrange(0, start as int) =~= sheet_xml@.take(start as int));
            let from: usize = if self_closing {
                proof {
                    lemma_tag_from(sheet_xml@, start as int);
                }
                let after: usize = match next_tag(sheet_xml, start) {
                    Some((_, info)) => info.after,
                    None => start,
                };
                let rows = fresh_rows(writes);
                push_text(&mut out, "<sheetData>");
                push_bytes(&mut out, rows.as_slice());
                push_text(&mut out, "</sheetData>");
                after
            } else {
                let rows = patch_rows(sheet_xml, start, end, writes);
                push_bytes(&mut out, rows.as_slice());
                end
            };
            push_bytes(&mut out, slice_subrange(sheet_xml, from, sheet_xml.len()));
            assert(sheet_xml@.subrange(from as int, sheet_xml@.len() as int) =~= sheet_xml@.skip(
                from as int,
            ));
            fix_dimension(&mut out, max_row(writes));
            Ok(out)
        },
    }
}

// -------------------------------------------------------------------- formulas
/// A capital letter.
pub open spec fn is_capital(c: char) -> bool {
    'A' <= c <= 'Z'
}

/// Whether a reference can start behind this character.
pub open spec fn starts_behind(c: char) -> bool {
    !(is_digit(c) || is_capital(c) || 'a' <= c <= 'z' || c == '$' || c == '.')
}

/// Whether a reference can end in front of this character.
pub open spec fn ends_before(c: char) -> bool {
    !(is_digit(c) || is_capital(c) || 'a' <= c <= 'z' || c == '_')
}

/// Whether at `i` a reference starts that has `letters` letters and the row number `num`.
pub open spec fn is_ref_at(s: Seq<char>, i: int, letters: int, num: Seq<char>) -> bool {
    let k = i + letters + num.len();
    &&& k <= s.len()
    &&& i == 0 || starts_behind(s[i - 1])
    &&& forall|j: int| i <= j < i + letters ==> is_capital(#[trigger] s[j])
    &&& s.subrange(i + letters, k) == num
    &&& k == s.len() || ends_before(s[k])
}

/// The formula from `i` on, with relative references to row `from` moved to row `to`.
pub open spec fn renumbered_from(
    s: Seq<char>,
    i: int,
    from: Seq<char>,
    to: Seq<char>,
) -> Seq<char>
    decreases s.len() - i,
{
    if i < 0 || i >= s.len() {
        Seq::empty()
    } else if is_ref_at(s, i, 2, from) {
        s.subrange(i, i + 2) + to + renumbered_from(s, i + 2 + from.len(), from, to)
    } else if is_ref_at(s, i, 1, from) {
        s.subrange(i, i + 1) + to + renumbered_from(s, i + 1 + from.len(), from, to)
    } else {
        seq![s[i]] + renumbered_from(s, i + 1, from, to)
    }
}

/// The formula with relative references to row `from` moved to row `to`.
pub open spec fn renumbered(s: Seq<char>, from: nat, to: nat) -> Seq<char> {
    renumbered_from(s, 0, decimal(from), decimal(to))
}

/// Whether a character is a capital letter.
fn capital(c: char) -> (r: bool)
    ensures
        r == is_capital(c),
{
    'A' <= c && c <= 'Z'
}

/// Whether at `i` a reference starts that has `letters` letters and the row number `num`.
fn ref_at(c: &Vec<char>, i: usize, letters: usize, num: &Vec<char>) -> (r: bool)
    requires
        i < c@.len(),
        1 <= letters <= 2,
    ensures
        r == is_ref_at(c@, i as int, letters as int, num@),
{
    if letters > c.len() - i || num.len() > c.len() - i - letters {
        return false;
    }
    if i > 0 {
        let p = c[i - 1];
        if digit(p) || capital(p) || ('a' <= p && p <= 'z') || p == '$' || p == '.' {
            return false;
        }
    }
    if !capital(c[i]) {
        assert(!is_capital(c@[i as int]));
        return false;
    }
    if letters == 2 && !capital(c[i + 1]) {
        assert(!is_capital(c@[i + 1]));
        return false;
    }
    if !stands_at(c, i + letters, num) {
        return false;
    }
    let k: usize = i + letters + num.len();
    if k < c.len() {
        let n = c[k];
        if digit(n) || capital(n) || ('a' <= n && n <= 'z') || n == '_' {
            return false;
        }
    }
    true
}

/// Moves the relative references of a formula from row `from_row` to row `to_row`: a reference is
/// one or two capital letters and the row number, with nothing around it that would make it part
/// of something longer.
pub fn renumber_formula(f: &str, from_row: u32, to_row: u32) -> (r: String)
    ensures
        r@ == renumbered(f@, from_row as nat, to_row as nat),
{
    let c = chars_of(f);
    let from_text = decimal_text(from_row as u64);
    let from = chars_of(from_text.as_str());
    let to = decimal_text(to_row as u64);
    let mut out = String::new();
    let mut i: usize = 0;
    let ghost all = renumbered(f@, from_row as nat, to_row as nat);
    assert(out@ + all =~= all);
    while i < c.len()
        invariant
            c@ == f@,
            from@ == decimal(from_row as nat),
            to@ == decimal(to_row as nat),
            i <= c@.len(),
            all == out@ + renumbered_from(f@, i as int, from@, to@),
        decreases c@.len() - i,
    {
        let ghost before = out@;
        let letters: usize = if ref_at(&c, i, 2, &from) {
            2
        } else if ref_at(&c, i, 1, &from) {
            1
        } else {
            0
        };
        if letters > 0 {
            let name = text_of(&c, i, i + letters);
            out.append(name.as_str());
            out.append(to.as_str());
            proof {
                let rest = renumbered_from(f@, i + letters + from@.len(), from@, to@);
                assert(before + (name@ + to@ + rest) =~= out@ + rest);
            }
            i = i + letters + from.len();
        } else {
            out.push(c[i]);
            proof {
                let rest = renumbered_from(f@, i + 1, from@, to@);
                assert(before + (seq![f@[i as int]] + rest) =~= out@ + rest);
            }
            i = i + 1;
        }
    }
    assert(out@ + Seq::<char>::empty() =~= out@);
    out
}

/// A formula that is moved to the row where it is stays as it is.
pub proof fn law_renumber_same_row(s: Seq<char>, row: nat)
    ensures
        renumbered(s, row, row) == s,
{
    lemma_renumber_same(s, 0, decimal(row));
    assert(s.skip(0) =~= s);
}

proof fn lemma_renumber_same(s: Seq<char>, i: int, num: Seq<char>)
    requires
        0 <= i <= s.len(),
    ensures
        renumbered_from(s, i, num, num) == s.skip(i),
    decreases s.len() - i,
{
    if i < s.len() {
        if is_ref_at(s, i, 2, num) {
            lemma_renumber_same(s, i + 2 + num.len(), num);
            assert(s.subrange(i, i + 2) + s.subrange(i + 2, i + 2 + num.len()) + s.skip(
                i + 2 + num.len(),
            ) =~= s.skip(i));
        } else if is_ref_at(s, i, 1, num) {
            lemma_renumber_same(s, i + 1 + num.len(), num);
            assert(s.subrange(i, i + 1) + s.subrange(i + 1, i + 1 + num.len()) + s.skip(
                i + 1 + num.len(),
            ) =~= s.skip(i));
        } else {
            lemma_renumber_same(s, i + 1, num);
            assert(seq![s[i]] + s.skip(i + 1) =~= s.skip(i));
        }
    } else {
        assert(renumbered_from(s, i, num, num) =~= s.skip(i));
    }
}

/// Behind a character that no reference can start behind, the next character stays.
proof fn lemma_runs_on(s: Seq<char>, i: int, from: Seq<char>, to: Seq<char>)
    requires
        1 <= i < s.len(),
        !starts_behind(s[i - 1]),
    ensures
        renumbered_from(s, i, from, to) == seq![s[i]] + renumbered_from(s, i + 1, from, to),
{
}

/// A formula gets no shorter where the new number is no shorter, and no longer where it is no longer.
proof fn lemma_renumbered_len(s: Seq<char>, i: int, from: Seq<char>, to: Seq<char>)
    requires
        0 <= i <= s.len(),
    ensures
        from.len() <= to.len() ==> renumbered_from(s, i, from, to).len() >= s.len() - i,
        from.len() >= to.len() ==> renumbered_from(s, i, from, to).len() <= s.len() - i,
    decreases s.len() - i,
{
    if i < s.len() {
        if is_ref_at(s, i, 2, from) {
            lemma_renumbered_len(s, i + 2 + from.len(), from, to);
        } else if is_ref_at(s, i, 1, from) {
            lemma_renumbered_len(s, i + 1 + from.len(), from, to);
        } else {
            lemma_renumbered_len(s, i + 1, from, to);
        }
    }
}

/// A formula that stays as it is when it is moved from a row to another has no reference to it.
proof fn lemma_no_ref(s: Seq<char>, i: int, from: Seq<char>, to: Seq<char>)
    requires
        0 <= i <= s.len(),
        from != to,
        renumbered_from(s, i, from, to) == s.skip(i),
    ensures
        forall|q: int|
            i <= q < s.len() ==> !(#[trigger] is_ref_at(s, q, 1, from)) && !is_ref_at(
                s,
                q,
                2,
                from,
            ),
    decreases s.len() - i,
{
    if i < s.len() {
        let k: int = if is_ref_at(s, i, 2, from) {
            2
        } else {
            1
        };
        let all = renumbered_from(s, i, from, to);
        if is_ref_at(s, i, k, from) {
            let later = i + k + from.len();
            let rest = renumbered_from(s, later, from, to);
            lemma_renumbered_len(s, later, from, to);
            assert(all == s.subrange(i, i + k) + to + rest);
            assert(all.len() == s.len() - i);
            assert(to.len() == from.len());
            assert(all.subrange(k, k + to.len()) =~= to);
            assert(s.skip(i).subrange(k, k + to.len()) =~= s.subrange(i + k, later));
        } else {
            let rest = renumbered_from(s, i + 1, from, to);
            assert(all == seq![s[i]] + rest);
            assert(rest =~= all.skip(1));
            assert(s.skip(i).skip(1) =~= s.skip(i + 1));
            lemma_no_ref(s, i + 1, from, to);
        }
    }
}

/// Where `g` goes on at `j + 1` as the moved formula does at `i + 1`, and both have the same
/// character in front, they go on alike for as long as no reference can start in `g`.
proof fn lemma_same_run(
    s: Seq<char>,
    i: int,
    g: Seq<char>,
    j: int,
    n: int,
    from: Seq<char>,
    to: Seq<char>,
)
    requires
        0 <= i < s.len(),
        0 <= j,
        1 <= n,
        j + n <= g.len(),
        s[i] == g[j],
        g.skip(j + 1) == renumbered_from(s, i + 1, from, to),
        forall|q: int| j <= q < j + n ==> !starts_behind(#[trigger] g[q]),
    ensures
        i + n <= s.len(),
        s.subrange(i, i + n) == g.subrange(j, j + n),
        g.skip(j + n) == renumbered_from(s, i + n, from, to),
        (i + n == s.len()) == (j + n == g.len()),
        i + n < s.len() ==> s[i + n] == g[j + n],
    decreases n,
{
    if n == 1 {
        assert(s.subrange(i, i + 1) =~= g.subrange(j, j + 1));
    } else {
        lemma_same_run(s, i, g, j, n - 1, from, to);
        assert(!starts_behind(g[j + n - 2]));
        assert(g.subrange(j, j + n - 1)[n - 2] == g[j + n - 2]);
        assert(s.subrange(i, i + n - 1)[n - 2] == s[i + n - 2]);
        let here = g.skip(j + n - 1);
        assert(here.len() > 0);
        lemma_runs_on(s, i + n - 1, from, to);
        assert(here[0] == g[j + n - 1]);
        assert(here.skip(1) =~= g.skip(j + n));
        assert(here.skip(1) =~= renumbered_from(s, i + n, from, to));
        assert(s.subrange(i, i + n) =~= g.subrange(j, j + n)) by {
            assert forall|q: int| 0 <= q < n implies #[trigger] s.subrange(i, i + n)[q] == g.subrange(
                j,
                j + n,
            )[q] by {
                if q < n - 1 {
                    assert(s.subrange(i, i + n - 1)[q] == g.subrange(j, j + n - 1)[q]);
                }
            }
        }
    }
    assert(g.subrange(j, j + n)[n - 1] == g[j + n - 1]);
    assert(s.subrange(i, i + n)[n - 1] == s[i + n - 1]);
    assert(!starts_behind(g[j + n - 1]));
    if i + n < s.len() {
        lemma_runs_on(s, i + n, from, to);
        assert(g.skip(j + n)[0] == s[i + n]);
        assert(g.skip(j + n).len() > 0);
    } else {
        assert(g.skip(j + n).len() == 0);
    }
}

/// Moving back what was moved gives what was there, from `i` on.
#[verifier::spinoff_prover]
#[verifier::rlimit(60)]
proof fn lemma_moved_back(
    s: Seq<char>,
    i: int,
    g: Seq<char>,
    j: int,
    from: Seq<char>,
    to: Seq<char>,
)
    requires
        0 <= i <= s.len(),
        0 <= j <= g.len(),
        from.len() > 0,
        to.len() > 0,
        forall|q: int| 0 <= q < from.len() ==> is_digit(#[trigger] from[q]),
        forall|q: int| 0 <= q < to.len() ==> is_digit(#[trigger] to[q]),
        g.skip(j) == renumbered_from(s, i, from, to),
        (i == 0 || starts_behind(s[i - 1])) == (j == 0 || starts_behind(g[j - 1])),
        forall|q: int|
            0 <= q < s.len() ==> !(#[trigger] is_ref_at(s, q, 1, to)) && !is_ref_at(s, q, 2, to),
    ensures
        renumbered_from(g, j, to, from) == s.skip(i),
    decreases s.len() - i,
{
    let all = renumbered_from(s, i, from, to);
    let k: int = if is_ref_at(s, i, 2, from) {
        2
    } else {
        1
    };
    if i == s.len() {
        assert(g.skip(j).len() == 0);
        assert(renumbered_from(g, j, to, from) =~= s.skip(i));
    } else if is_ref_at(s, i, k, from) {
        assert(all.len() > 0);
        let later = i + k + from.len();
        let behind = j + k + to.len();
        let rest = renumbered_from(s, later, from, to);
        assert(all == s.subrange(i, i + k) + to + rest);
        assert(g.skip(behind) =~= rest) by {
            assert(g.skip(j).skip(k + to.len()) =~= g.skip(behind));
            assert(all.skip(k + to.len()) =~= rest);
        }
        assert forall|q: int| j <= q < j + k implies is_capital(#[trigger] g[q]) by {
            assert(g[q] == g.skip(j)[q - j]);
            assert(all[q - j] == s[i + (q - j)]);
        }
        assert(g.subrange(j + k, behind) =~= to) by {
            assert forall|q: int| 0 <= q < to.len() implies #[trigger] g.subrange(j + k, behind)[q]
                == to[q] by {
                assert(g[j + k + q] == g.skip(j)[k + q]);
                assert(all[k + q] == to[q]);
            }
        }
        assert(s.subrange(i + k, later)[from.len() - 1] == s[later - 1]);
        assert(is_digit(from[from.len() - 1]));
        assert(g.subrange(j + k, behind)[to.len() - 1] == g[behind - 1]);
        assert(is_digit(to[to.len() - 1]));
        if behind < g.len() {
            assert(rest.len() > 0);
            lemma_runs_on(s, later, from, to);
            assert(g[behind] == g.skip(behind)[0]);
        }
        assert(is_ref_at(g, j, k, to));
        if k == 1 {
            assert(g.subrange(j + 1, behind)[0] == g[j + 1]);
            assert(is_digit(to[0]));
            assert(!is_capital(g[j + 1]));
            assert(!is_ref_at(g, j, 2, to));
        }
        lemma_moved_back(s, later, g, behind, from, to);
        assert(g.subrange(j, j + k) =~= s.subrange(i, i + k)) by {
            assert forall|q: int| 0 <= q < k implies #[trigger] g.subrange(j, j + k)[q] == s.subrange(
                i,
                i + k,
            )[q] by {
                assert(g[j + q] == g.skip(j)[q]);
                assert(all[q] == s[i + q]);
            }
        }
        assert(s.subrange(i, i + k) + from + s.skip(later) =~= s.skip(i)) by {
            assert(s.subrange(i, i + k) + s.subrange(i + k, later) + s.skip(later) =~= s.skip(i));
        }
    } else {
        assert(all == seq![s[i]] + renumbered_from(s, i + 1, from, to));
        assert(g[j] == g.skip(j)[0]);
        assert(g.skip(j + 1) =~= renumbered_from(s, i + 1, from, to)) by {
            assert(g.skip(j).skip(1) =~= g.skip(j + 1));
            assert(all.skip(1) =~= renumbered_from(s, i + 1, from, to));
        }
        assert(!is_ref_at(s, i, 1, to));
        lemma_no_new_ref(s, i, g, j, 1, from, to);
        lemma_no_new_ref(s, i, g, j, 2, from, to);
        lemma_moved_back(s, i + 1, g, j + 1, from, to);
        assert(seq![g[j]] + s.skip(i + 1) =~= s.skip(i));
    }
}

/// Where nothing was moved, no reference to the new row came up.
proof fn lemma_no_new_ref(
    s: Seq<char>,
    i: int,
    g: Seq<char>,
    j: int,
    k: int,
    from: Seq<char>,
    to: Seq<char>,
)
    requires
        0 <= i < s.len(),
        0 <= j < g.len(),
        k == 1 || k == 2,
        to.len() > 0,
        forall|q: int| 0 <= q < to.len() ==> is_digit(#[trigger] to[q]),
        s[i] == g[j],
        g.skip(j + 1) == renumbered_from(s, i + 1, from, to),
        (i == 0 || starts_behind(s[i - 1])) == (j == 0 || starts_behind(g[j - 1])),
        !is_ref_at(s, i, k, to),
    ensures
        !is_ref_at(g, j, k, to),
{
    if is_ref_at(g, j, k, to) {
        let n = k + to.len();
        assert forall|q: int| j <= q < j + n implies !starts_behind(#[trigger] g[q]) by {
            if q >= j + k {
                assert(g.subrange(j + k, j + n)[q - j - k] == g[q]);
                assert(is_digit(to[q - j - k]));
            }
        }
        lemma_same_run(s, i, g, j, n, from, to);
        assert forall|q: int| i <= q < i + k implies is_capital(#[trigger] s[q]) by {
            assert(s.subrange(i, i + n)[q - i] == g.subrange(j, j + n)[q - i]);
            assert(is_capital(g[j + (q - i)]));
        }
        assert(s.subrange(i + k, i + n) =~= g.subrange(j + k, j + n)) by {
            assert forall|q: int| 0 <= q < to.len() implies #[trigger] s.subrange(i + k, i + n)[q]
                == g.subrange(j + k, j + n)[q] by {
                assert(s.subrange(i, i + n)[k + q] == g.subrange(j, j + n)[k + q]);
            }
        }
        assert(is_ref_at(s, i, k, to));
    }
}

/// A formula without a reference to a row comes back as it was when its references are moved to that
/// row and back.
pub proof fn law_renumber_there_and_back(s: Seq<char>, from: nat, to: nat)
    requires
        from != to,
        renumbered(s, to, from) == s,
    ensures
        renumbered(renumbered(s, from, to), to, from) == s,
{
    let a = decimal(from);
    let b = decimal(to);
    lemma_decimal(from);
    lemma_decimal(to);
    assert(a != b);
    assert(s.skip(0) =~= s);
    lemma_no_ref(s, 0, b, a);
    let g = renumbered(s, from, to);
    assert(g.skip(0) =~= g);
    lemma_moved_back(s, 0, g, 0, a, b);
}

// ------------------------------------------------------------------------ laws
/// A piece of bytes stands in another, whole.
pub open spec fn holds_piece(whole: Seq<u8>, piece: Seq<u8>) -> bool {
    exists|x: Seq<u8>, y: Seq<u8>| whole == #[trigger] (x + piece + y)
}

/// A piece of a part is a piece of the whole.
proof fn lemma_piece_behind(front: Seq<u8>, whole: Seq<u8>, back: Seq<u8>, piece: Seq<u8>)
    requires
        holds_piece(whole, piece),
    ensures
        holds_piece(front + whole + back, piece),
{
    let (x, y) = choose|x: Seq<u8>, y: Seq<u8>| whole == #[trigger] (x + piece + y);
    assert(front + whole + back =~= (front + x) + piece + (y + back));
}

/// A request that no row of the worksheet is subject to, and that makes no row, changes nothing:
/// the content of the worksheet stays as it is, byte for byte.
pub proof fn law_idle_patch_keeps_content(b: Seq<u8>, pos: int, end: int, ws: Seq<RowPut>)
    requires
        0 <= pos <= end <= b.len(),
        forall|i: int|
            0 <= i < sheet_rows(b, pos, end).len() ==> request_of(
                b,
                #[trigger] sheet_rows(b, pos, end)[i],
                ws,
            ) is None,
    ensures
        patched(b, pos, end, ws, Seq::empty()) == b.subrange(pos, end),
    decreases end - pos,
{
    let none = Seq::<RowPut>::empty();
    let rows = sheet_rows(b, pos, end);
    if pos < end {
        if !is_row_at(b, pos) {
            law_idle_patch_keeps_content(b, pos + 1, end, ws);
            assert(seq![b[pos]] + b.subrange(pos + 1, end) =~= b.subrange(pos, end));
        } else {
            lemma_row_elem(b, pos, end);
            match row_elem(b, pos, end) {
                None => {
                    assert(b.subrange(pos, end) + new_rows(none) =~= b.subrange(pos, end));
                },
                Some(e) => {
                    let rest = sheet_rows(b, e.1.1, end);
                    assert(rows[0] == e);
                    assert forall|i: int| 0 <= i < rest.len() implies request_of(
                        b,
                        #[trigger] rest[i],
                        ws,
                    ) is None by {
                        assert(rows[i + 1] == rest[i]);
                    }
                    law_idle_patch_keeps_content(b, e.1.1, end, ws);
                    assert(new_above(b, e, none) =~= none);
                    assert(new_left(b, e, none) =~= none);
                    assert(new_rows(none) + b.subrange(e.1.0, e.1.1) + b.subrange(e.1.1, end)
                        =~= b.subrange(pos, end));
                },
            }
        }
    } else {
        assert(patched(b, pos, end, ws, none) =~= b.subrange(pos, end));
    }
}

/// Each row of the worksheet is in the result, whole: as it was where no request is for it, and
/// made anew by the request that is for it. In particular no row that is not asked for changes.
pub proof fn law_rows_stay_or_follow_request(
    b: Seq<u8>,
    pos: int,
    end: int,
    ws: Seq<RowPut>,
    new: Seq<RowPut>,
    i: int,
)
    requires
        0 <= pos <= end <= b.len(),
        0 <= i < sheet_rows(b, pos, end).len(),
    ensures
        holds_piece(
            patched(b, pos, end, ws, new),
            row_after(b, sheet_rows(b, pos, end)[i], ws),
        ),
        request_of(b, sheet_rows(b, pos, end)[i], ws) is None ==> row_after(
            b,
            sheet_rows(b, pos, end)[i],
            ws,
        ) == b.subrange(sheet_rows(b, pos, end)[i].1.0, sheet_rows(b, pos, end)[i].1.1),
    decreases end - pos,
{
    let rows = sheet_rows(b, pos, end);
    let piece = row_after(b, rows[i], ws);
    if !is_row_at(b, pos) {
        law_rows_stay_or_follow_request(b, pos + 1, end, ws, new, i);
        let rest = patched(b, pos + 1, end, ws, new);
        lemma_piece_behind(seq![b[pos]], rest, Seq::empty(), piece);
        assert(seq![b[pos]] + rest + Seq::<u8>::empty() =~= seq![b[pos]] + rest);
    } else {
        lemma_row_elem(b, pos, end);
        let e = row_elem(b, pos, end)->0;
        let head = new_rows(new_above(b, e, new));
        let rest = patched(b, e.1.1, end, ws, new_left(b, e, new));
        if i == 0 {
            assert(rows[0] == e);
            assert(patched(b, pos, end, ws, new) == head + piece + rest);
        } else {
            assert(rows[i] == sheet_rows(b, e.1.1, end)[i - 1]);
            law_rows_stay_or_follow_request(b, e.1.1, end, ws, new_left(b, e, new), i - 1);
            let front = head + row_after(b, e, ws);
            lemma_piece_behind(front, rest, Seq::empty(), piece);
            assert(front + rest + Seq::<u8>::empty() =~= front + rest);
        }
    }
}

/// The requests in front and the others are all requests.
proof fn lemma_above_and_left(ws: Seq<RowPut>, num: nat)
    ensures
        rows_above(ws, num) + rows_left(ws, num) == ws,
    decreases ws.len(),
{
    if ws.len() > 0 && ws[0].row < num {
        lemma_above_and_left(ws.drop_first(), num);
        assert(seq![ws[0]] + rows_above(ws.drop_first(), num) + rows_left(ws.drop_first(), num)
            =~= seq![ws[0]] + ws.drop_first());
        assert(seq![ws[0]] + ws.drop_first() =~= ws);
    } else {
        assert(Seq::<RowPut>::empty() + ws =~= ws);
    }
}

/// Each of the rows one behind the other is there, whole.
proof fn lemma_new_rows_hold(ws: Seq<RowPut>, i: int)
    requires
        0 <= i < ws.len(),
    ensures
        holds_piece(new_rows(ws), new_row(ws[i])),
    decreases ws.len(),
{
    if i == 0 {
        assert(new_rows(ws) =~= Seq::<u8>::empty() + new_row(ws[0]) + new_rows(ws.drop_first()));
    } else {
        assert(ws.drop_first()[i - 1] == ws[i]);
        lemma_new_rows_hold(ws.drop_first(), i - 1);
        lemma_piece_behind(
            new_row(ws[0]),
            new_rows(ws.drop_first()),
            Seq::empty(),
            new_row(ws[i]),
        );
        assert(new_row(ws[0]) + new_rows(ws.drop_first()) + Seq::<u8>::empty() =~= new_rows(ws));
    }
}

/// Each row that is to be made is in the result, whole.
pub proof fn law_new_rows_come_in(
    b: Seq<u8>,
    pos: int,
    end: int,
    ws: Seq<RowPut>,
    new: Seq<RowPut>,
    i: int,
)
    requires
        0 <= pos <= end <= b.len(),
        0 <= i < new.len(),
    ensures
        holds_piece(patched(b, pos, end, ws, new), new_row(new[i])),
    decreases end - pos,
{
    let piece = new_row(new[i]);
    if pos >= end {
        lemma_new_rows_hold(new, i);
    } else if !is_row_at(b, pos) {
        law_new_rows_come_in(b, pos + 1, end, ws, new, i);
        let rest = patched(b, pos + 1, end, ws, new);
        lemma_piece_behind(seq![b[pos]], rest, Seq::empty(), piece);
        assert(seq![b[pos]] + rest + Seq::<u8>::empty() =~= seq![b[pos]] + rest);
    } else {
        lemma_row_elem(b, pos, end);
        match row_elem(b, pos, end) {
            None => {
                lemma_new_rows_hold(new, i);
                lemma_piece_behind(b.subrange(pos, end), new_rows(new), Seq::empty(), piece);
                assert(b.subrange(pos, end) + new_rows(new) + Seq::<u8>::empty() =~= b.subrange(
                    pos,
                    end,
                ) + new_rows(new));
            },
            Some(e) => {
                let above = new_above(b, e, new);
                let left = new_left(b, e, new);
                if let Some(n) = row_number(b, e.0) {
                    lemma_above_and_left(new, n);
                } else {
                    assert(above + left =~= new);
                }
                let rest = patched(b, e.1.1, end, ws, left);
                if i < above.len() {
                    assert((above + left)[i] == above[i]);
                    lemma_new_rows_hold(above, i);
                    lemma_piece_behind(
                        Seq::empty(),
                        new_rows(above),
                        row_after(b, e, ws) + rest,
                        piece,
                    );
                    assert(Seq::<u8>::empty() + new_rows(above) + (row_after(b, e, ws) + rest)
                        =~= patched(b, pos, end, ws, new));
                } else {
                    assert((above + left)[i] == left[i - above.len()]);
                    law_new_rows_come_in(b, e.1.1, end, ws, left, i - above.len());
                    let front = new_rows(above) + row_after(b, e, ws);
                    lemma_piece_behind(front, rest, Seq::empty(), piece);
                    assert(front + rest + Seq::<u8>::empty() =~= patched(b, pos, end, ws, new));
                }
            },
        }
    }
}

/// Putting requests into the order of their rows loses none and adds none, and the rows ascend.
pub proof fn law_by_row_sorts(ws: Seq<RowPut>)
    ensures
        by_row(ws).to_multiset() == ws.to_multiset(),
        forall|i: int, j: int|
            0 <= i < j < by_row(ws).len() ==> by_row(ws)[i].row <= by_row(ws)[j].row,
    decreases ws.len(),
{
    if ws.len() > 0 {
        law_by_row_sorts(ws.drop_last());
        lemma_placed(by_row(ws.drop_last()), ws.last());
        ws.drop_last().to_multiset_ensures();
        by_row(ws.drop_last()).to_multiset_ensures();
        assert(ws.drop_last().push(ws.last()) =~= ws);
    } else {
        assert(by_row(ws) =~= ws);
    }
}

proof fn lemma_placed(s: Seq<RowPut>, w: RowPut)
    requires
        forall|i: int, j: int| 0 <= i < j < s.len() ==> s[i].row <= s[j].row,
    ensures
        placed(s, w).len() == s.len() + 1,
        placed(s, w).to_multiset() == s.to_multiset().insert(w),
        forall|i: int, j: int|
            0 <= i < j < placed(s, w).len() ==> placed(s, w)[i].row <= placed(s, w)[j].row,
        placed(s, w).last().row == w.row || (s.len() > 0 && placed(s, w).last() == s.last()),
        forall|i: int|
            0 <= i < placed(s, w).len() ==> (#[trigger] placed(s, w)[i]).row <= w.row || (s.len()
                > 0 && placed(s, w)[i].row <= s.last().row),
    decreases s.len(),
{
    s.to_multiset_ensures();
    if s.len() > 0 && s.last().row > w.row {
        let t = s.drop_last();
        lemma_placed(t, w);
        t.to_multiset_ensures();
        placed(t, w).to_multiset_ensures();
        assert(t.push(s.last()) =~= s);
        assert(t.to_multiset().insert(s.last()).insert(w) =~= t.to_multiset().insert(w).insert(
            s.last(),
        ));
    }
}

/// What becomes of a cell is among the cells of a new row, whole.
pub proof fn law_cells_are_in_row(b: Seq<u8>, row: nat, acts: Map<u32, CellAct>, col: u32)
    requires
        acts.contains_key(col),
    ensures
        holds_piece(cells_of(b, row, acts), act_bytes(b, col as nat, row, acts[col])),
{
    lemma_cell_between(b, row, acts, col, 0, 0x1_0000_0000);
}

proof fn lemma_cell_between(
    b: Seq<u8>,
    row: nat,
    acts: Map<u32, CellAct>,
    col: u32,
    from: nat,
    n: nat,
)
    requires
        acts.contains_key(col),
        from <= col < n <= 0x1_0000_0000,
    ensures
        holds_piece(
            cells_between(b, row, acts, from, n),
            act_bytes(b, col as nat, row, acts[col]),
        ),
    decreases n,
{
    let before = cells_between(b, row, acts, from, (n - 1) as nat);
    let piece = act_bytes(b, col as nat, row, acts[col]);
    if col == n - 1 {
        assert(before + piece =~= before + piece + Seq::<u8>::empty());
    } else {
        lemma_cell_between(b, row, acts, col, from, (n - 1) as nat);
        let last = (n - 1) as u32;
        if acts.contains_key(last) {
            let tail = act_bytes(b, last as nat, row, acts[last]);
            lemma_piece_behind(Seq::empty(), before, tail, piece);
            assert(Seq::<u8>::empty() + before + tail =~= before + tail);
        }
    }
}

/// Cells that stand one behind the other between `pos` and `end`.
pub open spec fn is_chain(cells: Seq<(Tag, (int, int))>, pos: int, end: int) -> bool
    decreases cells.len(),
{
    if cells.len() == 0 {
        pos <= end
    } else {
        let s = cells[0].1;
        pos <= s.0 && s.0 < s.1 && is_chain(cells.drop_first(), s.1, end)
    }
}

pub proof fn lemma_chain_from(cells: Seq<(Tag, (int, int))>, pos: int, early: int, end: int)
    requires
        is_chain(cells, pos, end),
        early <= pos,
    ensures
        is_chain(cells, early, end),
        pos <= end,
    decreases cells.len(),
{
    if cells.len() > 0 {
        let s = cells[0].1;
        lemma_chain_from(cells.drop_first(), s.1, s.1, end);
    }
}

/// The cells of a row stand one behind the other inside of it.
pub proof fn lemma_cells_from(b: Seq<u8>, pos: int, end: int)
    requires
        0 <= pos <= end <= b.len(),
    ensures
        is_chain(cells_from(b, pos, end), pos, end),
    decreases b.len() - pos,
{
    if pos < end {
        if b[pos] != 60 {
            lemma_cells_from(b, pos + 1, end);
            lemma_chain_from(cells_from(b, pos + 1, end), pos + 1, pos, end);
        } else {
            lemma_tag_from(b, pos);
            if let Some(t) = tag_from(b, pos) {
                lemma_span_of(b, t);
                if t.name != "c"@ || t.closing {
                    if t.at + 1 <= end {
                        lemma_cells_from(b, t.at + 1, end);
                        lemma_chain_from(cells_from(b, t.at + 1, end), t.at + 1, pos, end);
                    } else {
                        assert(cells_from(b, t.at + 1, end).len() == 0);
                    }
                } else {
                    match span_of(b, t) {
                        Some(s) if s.1 <= end => {
                            let rest = cells_from(b, s.1, end);
                            lemma_cells_from(b, s.1, end);
                            assert((seq![(t, s)] + rest).drop_first() =~= rest);
                        },
                        _ => {},
                    }
                }
            }
        }
    }
}

/// A piece of a part is a piece of the whole.
proof fn lemma_piece_in(whole: Seq<u8>, a: Seq<u8>, m: Seq<u8>, c: Seq<u8>, piece: Seq<u8>)
    requires
        whole == a + m + c,
        holds_piece(m, piece),
    ensures
        holds_piece(whole, piece),
{
    lemma_piece_behind(a, m, c, piece);
}

/// A cell whose column is not touched stays in its row, byte for byte.
proof fn lemma_cell_stays(
    b: Seq<u8>,
    cells: Seq<(Tag, (int, int))>,
    pos: int,
    end: int,
    row: nat,
    kept: Map<u32, CellAct>,
    acts: Map<u32, CellAct>,
    next: nat,
    i: int,
)
    requires
        0 <= i < cells.len(),
        cell_ref(b, cells[i].0) matches Some((col, _)) && (!acts.contains_key(col as u32)
            || acts[col as u32] is Keep),
    ensures
        holds_piece(
            row_body(b, cells, pos, end, row, kept, acts, next),
            b.subrange(cells[i].1.0, cells[i].1.1),
        ),
    decreases cells.len(),
{
    let fresh = fresh_acts(kept, acts);
    let (t, s) = cells[0];
    let rest = cells.drop_first();
    let piece = b.subrange(cells[i].1.0, cells[i].1.1);
    let whole = row_body(b, cells, pos, end, row, kept, acts, next);
    if i > 0 {
        assert(rest[i - 1] == cells[i]);
    }
    match cell_ref(b, t) {
        None => {
            lemma_cell_stays(b, rest, pos, end, row, kept, acts, next, i - 1);
        },
        Some((col, _)) => {
            let later = if next < col {
                col
            } else {
                next
            };
            let front = b.subrange(pos, s.0) + cells_between(b, row, fresh, next, col);
            let mid = cell_after(b, row, kept, acts, col as u32, s);
            let back = row_body(b, rest, s.1, end, row, kept, acts, later);
            if i == 0 {
                assert(mid == piece);
                assert(whole =~= front + piece + back);
            } else {
                lemma_cell_stays(b, rest, s.1, end, row, kept, acts, later, i - 1);
                assert(whole =~= (front + mid) + back + Seq::<u8>::empty());
                lemma_piece_in(whole, front + mid, back, Seq::empty(), piece);
            }
        },
    }
}

/// What the column of a cell becomes stands in the place of the cell that counts for the column.
proof fn lemma_cell_changes(
    b: Seq<u8>,
    cells: Seq<(Tag, (int, int))>,
    pos: int,
    end: int,
    row: nat,
    kept: Map<u32, CellAct>,
    acts: Map<u32, CellAct>,
    next: nat,
    i: int,
)
    requires
        0 <= i < cells.len(),
        cell_ref(b, cells[i].0) matches Some((col, _)) && acts.contains_key(col as u32) && !(
        acts[col as u32] is Keep) && kept.contains_key(col as u32) && kept[col as u32]
            == CellAct::Keep(cells[i].1.0, cells[i].1.1),
    ensures
        ({
            let col = (cell_ref(b, cells[i].0)->0).0 as u32;
            holds_piece(
                row_body(b, cells, pos, end, row, kept, acts, next),
                act_bytes(b, col as nat, row, acts[col]),
            )
        }),
    decreases cells.len(),
{
    let fresh = fresh_acts(kept, acts);
    let (t, s) = cells[0];
    let rest = cells.drop_first();
    let own = (cell_ref(b, cells[i].0)->0).0 as u32;
    let piece = act_bytes(b, own as nat, row, acts[own]);
    let whole = row_body(b, cells, pos, end, row, kept, acts, next);
    if i > 0 {
        assert(rest[i - 1] == cells[i]);
    }
    match cell_ref(b, t) {
        None => {
            lemma_cell_changes(b, rest, pos, end, row, kept, acts, next, i - 1);
        },
        Some((col, _)) => {
            let later = if next < col {
                col
            } else {
                next
            };
            let front = b.subrange(pos, s.0) + cells_between(b, row, fresh, next, col);
            let mid = cell_after(b, row, kept, acts, col as u32, s);
            let back = row_body(b, rest, s.1, end, row, kept, acts, later);
            if i == 0 {
                assert(mid == piece);
                assert(whole =~= front + piece + back);
            } else {
                lemma_cell_changes(b, rest, s.1, end, row, kept, acts, later, i - 1);
                assert(whole =~= (front + mid) + back + Seq::<u8>::empty());
                lemma_piece_in(whole, front + mid, back, Seq::empty(), piece);
            }
        },
    }
}

/// What a column without a cell becomes is in the row.
proof fn lemma_cell_comes_in(
    b: Seq<u8>,
    cells: Seq<(Tag, (int, int))>,
    pos: int,
    end: int,
    row: nat,
    kept: Map<u32, CellAct>,
    acts: Map<u32, CellAct>,
    next: nat,
    col: u32,
)
    requires
        acts.contains_key(col),
        !kept.contains_key(col),
        next <= col,
    ensures
        holds_piece(
            row_body(b, cells, pos, end, row, kept, acts, next),
            act_bytes(b, col as nat, row, acts[col]),
        ),
    decreases cells.len(),
{
    let fresh = fresh_acts(kept, acts);
    let piece = act_bytes(b, col as nat, row, acts[col]);
    let whole = row_body(b, cells, pos, end, row, kept, acts, next);
    assert(fresh.contains_key(col) && fresh[col] == acts[col]);
    if cells.len() == 0 {
        lemma_cell_between(b, row, fresh, col, next, 0x1_0000_0000);
        let mid = cells_between(b, row, fresh, next, 0x1_0000_0000);
        assert(whole =~= b.subrange(pos, end) + mid + Seq::<u8>::empty());
        lemma_piece_in(whole, b.subrange(pos, end), mid, Seq::empty(), piece);
    } else {
        let (t, s) = cells[0];
        let rest = cells.drop_first();
        match cell_ref(b, t) {
            None => {
                lemma_cell_comes_in(b, rest, pos, end, row, kept, acts, next, col);
            },
            Some((c, _)) => {
                let later = if next < c {
                    c
                } else {
                    next
                };
                let gap = b.subrange(pos, s.0);
                let new = cells_between(b, row, fresh, next, c);
                let mid = cell_after(b, row, kept, acts, c as u32, s);
                let back = row_body(b, rest, s.1, end, row, kept, acts, later);
                lemma_cell_ref_small(b, t);
                if col < c {
                    lemma_cell_between(b, row, fresh, col, next, c);
                    assert(whole =~= gap + new + (mid + back));
                    lemma_piece_in(whole, gap, new, mid + back, piece);
                } else {
                    lemma_cell_comes_in(b, rest, s.1, end, row, kept, acts, later, col);
                    assert(whole =~= (gap + new + mid) + back + Seq::<u8>::empty());
                    lemma_piece_in(whole, gap + new + mid, back, Seq::empty(), piece);
                }
            },
        }
    }
}

/// The column of a cell is a number of at most three letters.
pub proof fn lemma_cell_ref_small(b: Seq<u8>, t: Tag)
    ensures
        cell_ref(b, t) matches Some((col, _)) ==> col <= 18278,
{
    if let Some(v) = attr_of(inside(b, t), "r"@) {
        if let Some(k) = digit_from(v, 0) {
            lemma_col_small(v.take(k));
        }
    }
}

/// The cell that counts for a column is one of the cells.
proof fn lemma_kept_is_cell(
    b: Seq<u8>,
    acts: Map<u32, CellAct>,
    cells: Seq<(Tag, (int, int))>,
    col: u32,
)
    requires
        keep_cells(b, acts, cells).contains_key(col),
        !acts.contains_key(col) || keep_cells(b, acts, cells)[col] != acts[col],
    ensures
        exists|i: int|
            {
                &&& 0 <= i < cells.len()
                &&& cell_ref(b, (#[trigger] cells[i]).0) matches Some((c, _)) && c == col
                &&& keep_cells(b, acts, cells)[col] == CellAct::Keep(cells[i].1.0, cells[i].1.1)
            },
    decreases cells.len(),
{
    if cells.len() > 0 {
        let (t, s) = cells[0];
        let rest = cells.drop_first();
        let after = match cell_ref(b, t) {
            Some((c, row)) => acts.insert(c as u32, CellAct::Keep(s.0, s.1)),
            None => acts,
        };
        lemma_cell_ref_small(b, t);
        if after.contains_key(col) && keep_cells(b, after, rest)[col] == after[col] {
            assert(cell_ref(b, cells[0].0) is Some);
            assert(cells[0].1 == s);
        } else {
            lemma_kept_is_cell(b, after, rest, col);
            let i = choose|i: int|
                {
                    &&& 0 <= i < rest.len()
                    &&& cell_ref(b, (#[trigger] rest[i]).0) matches Some((c, _)) && c == col
                    &&& keep_cells(b, after, rest)[col] == CellAct::Keep(rest[i].1.0, rest[i].1.1)
                };
            assert(cells[i + 1] == rest[i]);
        }
    }
}

/// A cell of a row whose column a request does not name is still in the row, byte for byte.
pub proof fn law_untouched_cell_stays(b: Seq<u8>, e: (Tag, (int, int)), rw: RowPut, i: int)
    requires
        0 <= i < cells_from(b, content_of(e).0, content_of(e).1).len(),
        ({
            let t = cells_from(b, content_of(e).0, content_of(e).1)[i].0;
            cell_ref(b, t) matches Some((col, _)) && !rw.clear.contains(col as u32) && (forall|k: int|
                0 <= k < rw.cells.len() ==> (#[trigger] rw.cells[k]).col != col) && (forall|k: int|
                0 <= k < rw.formulas.len() ==> (#[trigger] rw.formulas[k]).col != col)
        }),
    ensures
        ({
            let s = cells_from(b, content_of(e).0, content_of(e).1)[i].1;
            holds_piece(rebuilt_row(b, e, rw), b.subrange(s.0, s.1))
        }),
{
    let c = content_of(e);
    let cells = cells_from(b, c.0, c.1);
    let col = (cell_ref(b, cells[i].0)->0).0 as u32;
    let kept = kept_cells(b, e);
    let acts = row_acts(b, e, rw);
    lemma_cell_ref_small(b, cells[i].0);
    law_unnamed_column_stays(b, e, rw, col);
    lemma_all_kept(b, Map::empty(), cells);
    lemma_cell_stays(b, cells, c.0, c.1, rw.row as nat, kept, acts, 0, i);
    let body = row_body(b, cells, c.0, c.1, rw.row as nat, kept, acts, 0);
    let front = bytes("<"@) + inside(b, e.0) + bytes(">"@);
    lemma_piece_in(
        rebuilt_row(b, e, rw),
        front,
        body,
        bytes("</row>"@),
        b.subrange(cells[i].1.0, cells[i].1.1),
    );
}

/// What a request writes into a row that exists is in the row, whole.
pub proof fn law_written_cell_is_in_row(b: Seq<u8>, e: (Tag, (int, int)), rw: RowPut, col: u32)
    requires
        row_acts(b, e, rw).contains_key(col),
        row_acts(b, e, rw)[col] is Put,
    ensures
        holds_piece(
            rebuilt_row(b, e, rw),
            act_bytes(b, col as nat, rw.row as nat, row_acts(b, e, rw)[col]),
        ),
{
    let c = content_of(e);
    let cells = cells_from(b, c.0, c.1);
    let kept = kept_cells(b, e);
    let acts = row_acts(b, e, rw);
    let row = rw.row as nat;
    let piece = act_bytes(b, col as nat, row, acts[col]);
    let body = row_body(b, cells, c.0, c.1, row, kept, acts, 0);
    if kept.contains_key(col) {
        lemma_kept_is_cell(b, Map::empty(), cells, col);
        let i = choose|i: int|
            {
                &&& 0 <= i < cells.len()
                &&& cell_ref(b, (#[trigger] cells[i]).0) matches Some((c, _)) && c == col
                &&& kept[col] == CellAct::Keep(cells[i].1.0, cells[i].1.1)
            };
        lemma_cell_changes(b, cells, c.0, c.1, row, kept, acts, 0, i);
    } else {
        lemma_cell_comes_in(b, cells, c.0, c.1, row, kept, acts, 0, col);
    }
    let front = bytes("<"@) + inside(b, e.0) + bytes(">"@);
    lemma_piece_in(rebuilt_row(b, e, rw), front, body, bytes("</row>"@), piece);
}

/// All that is kept is kept as it is.
pub proof fn lemma_all_kept(b: Seq<u8>, acts: Map<u32, CellAct>, cells: Seq<(Tag, (int, int))>)
    requires
        forall|k: u32| #[trigger] acts.contains_key(k) ==> acts[k] is Keep,
    ensures
        forall|k: u32| #[trigger]
            keep_cells(b, acts, cells).contains_key(k) ==> keep_cells(b, acts, cells)[k] is Keep,
    decreases cells.len(),
{
    if cells.len() > 0 {
        let (t, s) = cells[0];
        let after = match cell_ref(b, t) {
            Some((c, row)) => acts.insert(c as u32, CellAct::Keep(s.0, s.1)),
            None => acts,
        };
        lemma_all_kept(b, after, cells.drop_first());
    }
}

/// A row for which a request writes and removes nothing keeps its content byte for byte, with all
/// that stands between its cells.
pub proof fn law_idle_row_keeps_content(b: Seq<u8>, e: (Tag, (int, int)), rw: RowPut)
    requires
        element_bounds(b, e),
        rw.clear.len() == 0,
        rw.cells.len() == 0,
        rw.formulas.len() == 0,
    ensures
        rebuilt_row(b, e, rw) == bytes("<"@) + inside(b, e.0) + bytes(">"@) + b.subrange(
            content_of(e).0,
            content_of(e).1,
        ) + bytes("</row>"@),
{
    let c = content_of(e);
    lemma_span_of(b, e.0);
    lemma_cells_from(b, c.0, c.1);
    let kept = kept_cells(b, e);
    lemma_all_kept(b, Map::empty(), cells_from(b, c.0, c.1));
    lemma_idle_body(b, cells_from(b, c.0, c.1), c.0, c.1, rw.row as nat, kept, 0);
}

proof fn lemma_idle_body(
    b: Seq<u8>,
    cells: Seq<(Tag, (int, int))>,
    pos: int,
    end: int,
    row: nat,
    kept: Map<u32, CellAct>,
    next: nat,
)
    requires
        0 <= pos,
        end <= b.len(),
        is_chain(cells, pos, end),
        forall|k: u32| #[trigger] kept.contains_key(k) ==> kept[k] is Keep,
    ensures
        row_body(b, cells, pos, end, row, kept, kept, next) == b.subrange(pos, end),
    decreases cells.len(),
{
    let fresh = fresh_acts(kept, kept);
    assert forall|k: u32| !fresh.contains_key(k) by {}
    if cells.len() == 0 {
        lemma_none_between(b, row, fresh, next, 0x1_0000_0000);
        assert(b.subrange(pos, end) + Seq::<u8>::empty() =~= b.subrange(pos, end));
    } else {
        let (t, s) = cells[0];
        let rest = cells.drop_first();
        match cell_ref(b, t) {
            None => {
                lemma_chain_from(rest, s.1, pos, end);
                lemma_idle_body(b, rest, pos, end, row, kept, next);
            },
            Some((col, _)) => {
                let later = if next < col {
                    col
                } else {
                    next
                };
                lemma_cell_ref_small(b, t);
                lemma_none_between(b, row, fresh, next, col);
                lemma_chain_from(rest, s.1, s.1, end);
                lemma_idle_body(b, rest, s.1, end, row, kept, later);
                assert(b.subrange(pos, s.0) + Seq::<u8>::empty() + b.subrange(s.0, s.1)
                    + b.subrange(s.1, end) =~= b.subrange(pos, end));
            },
        }
    }
}

proof fn lemma_none_between(
    b: Seq<u8>,
    row: nat,
    acts: Map<u32, CellAct>,
    from: nat,
    n: nat,
)
    requires
        n <= 0x1_0000_0000,
        forall|k: u32| !acts.contains_key(k),
    ensures
        cells_between(b, row, acts, from, n) == Seq::<u8>::empty(),
    decreases n,
{
    if n > from {
        lemma_none_between(b, row, acts, from, (n - 1) as nat);
    }
}

/// A column that a request does not name keeps the cell that it had, or stays without one.
pub proof fn law_unnamed_column_stays(b: Seq<u8>, e: (Tag, (int, int)), rw: RowPut, col: u32)
    requires
        !rw.clear.contains(col),
        forall|i: int| 0 <= i < rw.cells.len() ==> (#[trigger] rw.cells[i]).col != col,
        forall|i: int| 0 <= i < rw.formulas.len() ==> (#[trigger] rw.formulas[i]).col != col,
    ensures
        ({
            let kept = kept_cells(b, e);
            let after = row_acts(b, e, rw);
            &&& after.contains_key(col) == kept.contains_key(col)
            &&& kept.contains_key(col) ==> after[col] == kept[col]
        }),
{
    let kept = kept_cells(b, e);
    lemma_clear_other(kept, rw.clear, col);
    lemma_put_other(clear_cells(kept, rw.clear), rw.cells, col);
    lemma_formulas_other(b, put_cells(clear_cells(kept, rw.clear), rw.cells), rw.formulas, col);
}

proof fn lemma_clear_other(acts: Map<u32, CellAct>, cols: Seq<u32>, col: u32)
    requires
        !cols.contains(col),
    ensures
        clear_cells(acts, cols).contains_key(col) == acts.contains_key(col),
        acts.contains_key(col) ==> clear_cells(acts, cols)[col] == acts[col],
    decreases cols.len(),
{
    if cols.len() > 0 {
        assert(cols.last() != col);
        assert(!cols.drop_last().contains(col)) by {
            if cols.drop_last().contains(col) {
                let i = choose|i: int| 0 <= i < cols.len() - 1 && cols.drop_last()[i] == col;
                assert(cols[i] == col);
            }
        }
        lemma_clear_other(acts, cols.drop_last(), col);
    }
}

/// A column that is cleared is removed.
pub proof fn lemma_cleared(acts: Map<u32, CellAct>, cols: Seq<u32>, col: u32)
    requires
        cols.contains(col),
    ensures
        clear_cells(acts, cols).contains_key(col),
        clear_cells(acts, cols)[col] is Remove,
    decreases cols.len(),
{
    if cols.last() != col {
        let i = choose|i: int| 0 <= i < cols.len() && cols[i] == col;
        assert(cols.drop_last()[i] == col);
        lemma_cleared(acts, cols.drop_last(), col);
    }
}

proof fn lemma_put_other(acts: Map<u32, CellAct>, cells: Seq<CellPut>, col: u32)
    requires
        forall|i: int| 0 <= i < cells.len() ==> (#[trigger] cells[i]).col != col,
    ensures
        put_cells(acts, cells).contains_key(col) == acts.contains_key(col),
        acts.contains_key(col) ==> put_cells(acts, cells)[col] == acts[col],
    decreases cells.len(),
{
    if cells.len() > 0 {
        assert(cells[cells.len() - 1].col != col);
        lemma_put_other(acts, cells.drop_last(), col);
    }
}

proof fn lemma_formulas_other(
    b: Seq<u8>,
    acts: Map<u32, CellAct>,
    formulas: Seq<CellPut>,
    col: u32,
)
    requires
        forall|i: int| 0 <= i < formulas.len() ==> (#[trigger] formulas[i]).col != col,
    ensures
        put_formulas(b, acts, formulas).contains_key(col) == acts.contains_key(col),
        acts.contains_key(col) ==> put_formulas(b, acts, formulas)[col] == acts[col],
    decreases formulas.len(),
{
    if formulas.len() > 0 {
        assert(formulas[formulas.len() - 1].col != col);
        lemma_formulas_other(b, acts, formulas.drop_last(), col);
    }
}

/// A column that is written and that no formula is asked for has what was written last.
pub proof fn law_written_column(b: Seq<u8>, e: (Tag, (int, int)), rw: RowPut, k: int)
    requires
        0 <= k < rw.cells.len(),
        forall|i: int| k < i < rw.cells.len() ==> (#[trigger] rw.cells[i]).col != rw.cells[k].col,
        forall|i: int|
            0 <= i < rw.formulas.len() ==> (#[trigger] rw.formulas[i]).col != rw.cells[k].col,
    ensures
        row_acts(b, e, rw).contains_key(rw.cells[k].col),
        row_acts(b, e, rw)[rw.cells[k].col] == CellAct::Put(rw.cells[k].val, rw.cells[k].style),
{
    let kept = kept_cells(b, e);
    lemma_put_last(clear_cells(kept, rw.clear), rw.cells, k);
    lemma_formulas_other(
        b,
        put_cells(clear_cells(kept, rw.clear), rw.cells),
        rw.formulas,
        rw.cells[k].col,
    );
}

proof fn lemma_put_last(acts: Map<u32, CellAct>, cells: Seq<CellPut>, k: int)
    requires
        0 <= k < cells.len(),
        forall|i: int| k < i < cells.len() ==> (#[trigger] cells[i]).col != cells[k].col,
    ensures
        put_cells(acts, cells).contains_key(cells[k].col),
        put_cells(acts, cells)[cells[k].col] == CellAct::Put(cells[k].val, cells[k].style),
    decreases cells.len(),
{
    if k < cells.len() - 1 {
        assert(cells[cells.len() - 1].col != cells[k].col);
        assert(cells.drop_last()[k] == cells[k]);
        lemma_put_last(acts, cells.drop_last(), k);
    }
}

/// A worksheet that no request is made for stays as it is, byte for byte, but for a dimension that
/// does not even reach the first row.
pub proof fn law_no_request_no_change(b: Seq<u8>)
    requires
        sheet_data_from(b, 0) matches Some((_, _, false)),
    ensures
        patch_of(b, Seq::empty()) == Ok::<Seq<u8>, Seq<char>>(with_max_row(b, 1)),
{
    let none = Seq::<RowPut>::empty();
    lemma_sheet_data_from(b, 0);
    let (start, end, _) = sheet_data_from(b, 0)->0;
    let rows = sheet_rows(b, start, end);
    reveal(Seq::filter);
    assert(missing_rows(b, rows, none) =~= none);
    assert(by_row(none) =~= none);
    law_idle_patch_keeps_content(b, start, end, none);
    assert(b.take(start) + b.subrange(start, end) + b.skip(end) =~= b);
}

/// A request that makes its row where it is missing, and that no later request for the same row
/// follows, is carried out: the row is in the worksheet, made anew from the one that was there or
/// newly made.
pub proof fn law_request_is_carried_out(b: Seq<u8>, ws: Seq<RowPut>, k: int)
    requires
        sheet_data_from(b, 0) is Some,
        0 <= k < ws.len(),
        ws[k].insert,
        forall|j: int| k < j < ws.len() ==> (#[trigger] ws[j]).row != ws[k].row,
    ensures
        patch_of(b, ws) == Ok::<Seq<u8>, Seq<char>>(
            with_max_row(changed_sheet(b, ws), largest_row(ws)),
        ),
        ({
            let (start, end, self_closing) = sheet_data_from(b, 0)->0;
            let rows = sheet_rows(b, start, end);
            if !self_closing && has_row(b, rows, ws[k].row as nat) {
                exists|i: int|
                    0 <= i < rows.len() && row_number(b, (#[trigger] rows[i]).0) == Some(
                        ws[k].row as nat,
                    ) && holds_piece(changed_sheet(b, ws), rebuilt_row(b, rows[i], ws[k]))
            } else {
                holds_piece(changed_sheet(b, ws), new_row(ws[k]))
            }
        }),
{
    lemma_sheet_data_from(b, 0);
    let (start, end, self_closing) = sheet_data_from(b, 0)->0;
    let rows = sheet_rows(b, start, end);
    if self_closing {
        let pred = |w: RowPut| w.insert;
        ws.lemma_filter_contains(pred, k);
        let made = ws.filter(pred);
        let i = choose|i: int| 0 <= i < made.len() && made[i] == ws[k];
        lemma_new_rows_hold(made, i);
        let front = b.take(start) + bytes("<sheetData>"@);
        let back = bytes("</sheetData>"@) + b.skip(tag_from(b, start)->0.after);
        lemma_piece_behind(front, new_rows(made), back, new_row(ws[k]));
        assert(front + new_rows(made) + back =~= changed_sheet(b, ws));
    } else {
        let new = by_row(missing_rows(b, rows, ws));
        let content = patched(b, start, end, ws, new);
        if has_row(b, rows, ws[k].row as nat) {
            let i = choose|i: int|
                0 <= i < rows.len() && row_number(b, (#[trigger] rows[i]).0) == Some(
                    ws[k].row as nat,
                );
            lemma_request_for(ws, k);
            law_rows_stay_or_follow_request(b, start, end, ws, new, i);
            lemma_piece_behind(b.take(start), content, b.skip(end), rebuilt_row(b, rows[i], ws[k]));
        } else {
            let pred = |w: RowPut| w.insert && !has_row(b, rows, w.row as nat);
            let missing = ws.filter(pred);
            ws.lemma_filter_contains(pred, k);
            law_by_row_sorts(missing);
            missing.to_multiset_ensures();
            new.to_multiset_ensures();
            assert(missing.contains(ws[k]));
            assert(new.to_multiset().count(ws[k]) > 0);
            assert(new.contains(ws[k]));
            let i = choose|i: int| 0 <= i < new.len() && new[i] == ws[k];
            law_new_rows_come_in(b, start, end, ws, new, i);
            lemma_piece_behind(b.take(start), content, b.skip(end), new_row(ws[k]));
        }
    }
}

/// The last request for a row is the one that counts.
proof fn lemma_request_for(ws: Seq<RowPut>, k: int)
    requires
        0 <= k < ws.len(),
        forall|j: int| k < j < ws.len() ==> (#[trigger] ws[j]).row != ws[k].row,
    ensures
        request_for(ws, ws[k].row as nat) == Some(ws[k]),
    decreases ws.len(),
{
    if k < ws.len() - 1 {
        assert(ws[ws.len() - 1].row != ws[k].row);
        assert(ws.drop_last()[k] == ws[k]);
        lemma_request_for(ws.drop_last(), k);
    }
}

} // verus!
