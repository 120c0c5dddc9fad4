//! The workbook in memory, and the changes that are made to it.
use std::collections::BTreeMap;
use vstd::prelude::*;
use vstd::utf8::encode_utf8;
use crate::model::{
    before_point, class_rows, date_value, digits_only, excel_serial, field_text, js_str,
    member_rows, norm_phone, number_view, parse_date_str, parse_time_frac, serial_of, time_value,
    to_num, whole_part, ClassRow, Date, Fields, MemberRow, Number, RawClass, RawMember, SeqNo,
    SeqVal,
};
use crate::text::{
    all_digits, chars_of, decimal, decimal_text, digits_value, has_prefix, join2, lemma_decimal,
    numeral_value, read_digits, read_i64, same_text, signed_decimal, signed_value, text_of,
    text_view, trim, trimmed,
};
use crate::xlsx::surgery::{
    apply_patch, cell_text, formula_view, is_row_at, kept_cells, lemma_cleared, new_row, patch_of,
    puts, rebuilt_row, renumber_formula, renumbered, row_acts, row_elem, CellPut, CellVal,
    CellValue, CellWrite, RowPut, RowWrite,
};
use crate::xlsx::again::{
    act_cell, cell_in, is_good_request, is_plain_row, law_cells_of_changed_row,
    law_cells_of_new_row, law_unwritten_column, law_unwritten_new_column, new_acts,
};
use crate::xlsx::read::{ledger_in, missing_sheet_text, read_raw, Ledger};
use crate::xlsx::reload::{
    data_of, is_plain_package, law_packing_keeps_worksheets, law_packing_settles,
    lemma_data_of_final, lemma_data_of_with,
};
use crate::xlsx::xmlscan::{
    bytes, element_bounds, find_entry, row_templates, row_templates_of, sheet_paths, sheet_paths_of,
    templates, CellTpl, Tag, Template,
};
use crate::xlsx::zipio::{
    are_files, entry_index, files, final_parts, finalize_and_write, is_dir_name, lemma_final_files,
    lemma_final_names, lemma_part_from, names_fit, names_short, packed, part_from, parts, parts_in,
    read_entries, set_data, with_data, Entry, Part,
};
use crate::{ARCHIVE_MAX_ROW, RECORDS_MAX_ROW, SHEET_ARCHIVE, SHEET_RECORDS};

verus! {

/// Why a request was refused.
#[derive(Debug)]
pub enum StoreError {
    /// The request does not fit the ledger.
    Biz(String),
    /// Something went wrong with the workbook.
    Sys(String),
}

/// Why a request was refused, by its message.
pub ghost enum Fault {
    Biz(Seq<char>),
    Sys(Seq<char>),
}

impl View for StoreError {
    type V = Fault;

    open spec fn view(&self) -> Fault {
        match self {
            StoreError::Biz(t) => Fault::Biz(t@),
            StoreError::Sys(t) => Fault::Sys(t@),
        }
    }
}

/// The outcome of a request by its message.
pub open spec fn done(r: Result<(), StoreError>) -> Result<(), Fault> {
    match r {
        Ok(_) => Ok(()),
        Err(e) => Err(e@),
    }
}

// ------------------------------------------------------------------------- rows
/// The first row from `r` to `last` that is not used.
pub open spec fn free_from(used: Seq<u32>, r: int, last: int) -> Option<int>
    decreases last + 1 - r,
{
    if r > last {
        None
    } else if used.contains(r as u32) {
        free_from(used, r + 1, last)
    } else {
        Some(r)
    }
}

/// Whether a row is used.
fn is_used(rows: &[u32], r: u32) -> (b: bool)
    ensures
        b == rows@.contains(r),
{
    let mut i: usize = 0;
    while i < rows.len()
        invariant
            i <= rows@.len(),
            forall|k: int| 0 <= k < i ==> rows@[k] != r,
        decreases rows@.len() - i,
    {
        if rows[i] == r {
            return true;
        }
        i = i + 1;
    }
    false
}

/// A row that is found free is not used, lies behind the heading and no later than the last row,
/// and every row in front of it is used; where none is found all are used.
pub proof fn law_first_empty_row(used: Seq<u32>, r: int, last: int)
    requires
        0 <= r,
        last <= u32::MAX,
    ensures
        free_from(used, r, last) matches Some(k) ==> r <= k <= last && !used.contains(k as u32)
            && forall|j: int| r <= j < k ==> used.contains(#[trigger] (j as u32)),
        free_from(used, r, last) is None ==> forall|j: int|
            r <= j <= last ==> used.contains(#[trigger] (j as u32)),
    decreases last + 1 - r,
{
    if r <= last && used.contains(r as u32) {
        law_first_empty_row(used, r + 1, last);
    }
}

// ---------------------------------------------------------------------- numbers
/// The number that stands behind `prefix` in a member's number, where nothing but digits does.
pub open spec fn number_behind(id: Seq<char>, prefix: Seq<char>) -> Option<int> {
    if prefix.is_prefix_of(id) {
        match numeral_value(id.skip(prefix.len() as int)) {
            Some(n) if n <= i64::MAX => Some(n as int),
            _ => None,
        }
    } else {
        None
    }
}

/// The largest number that stands behind `prefix`; zero where there is none.
pub open spec fn largest_behind(members: Seq<MemberRow>, prefix: Seq<char>) -> int
    decreases members.len(),
{
    if members.len() == 0 {
        0
    } else {
        let before = largest_behind(members.drop_last(), prefix);
        match number_behind(members.last().id, prefix) {
            Some(n) if n > before => n,
            _ => before,
        }
    }
}

/// The text in front of the first hyphen.
pub open spec fn front_part(s: Seq<char>) -> Seq<char>
    decreases s.len(),
{
    if s.len() == 0 || s[0] == '-' {
        Seq::empty()
    } else {
        seq![s[0]] + front_part(s.drop_first())
    }
}

/// The first member from `i` on whose phone has the given digits.
pub open spec fn phone_from(members: Seq<MemberRow>, i: int, digits: Seq<char>) -> Option<int>
    decreases members.len() - i,
{
    if i < 0 || i >= members.len() {
        None
    } else if digits_only(members[i].phone).len() > 0 && digits_only(members[i].phone) == digits {
        Some(i)
    } else {
        phone_from(members, i + 1, digits)
    }
}

/// The front of the numbers of a member's cards: that of the number which is given, or that of the
/// member with the same phone.
pub open spec fn card_base(
    members: Seq<MemberRow>,
    phone: Seq<char>,
    base_id: Option<Seq<char>>,
) -> Option<Seq<char>> {
    match base_id {
        Some(b) => Some(front_part(b)),
        None => match phone_from(members, 0, digits_only(phone)) {
            Some(i) => Some(front_part(members[i].id)),
            None => None,
        },
    }
}

/// A number with at least three digits.
pub open spec fn three_digits(n: nat) -> Seq<char> {
    if n < 10 {
        "00"@ + decimal(n)
    } else if n < 100 {
        "0"@ + decimal(n)
    } else {
        decimal(n)
    }
}

/// What new numbers start with.
pub open spec fn id_prefix(base: Option<Seq<char>>) -> Seq<char> {
    match base {
        Some(b) => b + "-"@,
        None => "M"@,
    }
}

/// The number of a new member, or of a further card of a member.
pub open spec fn new_id(
    members: Seq<MemberRow>,
    phone: Seq<char>,
    base_id: Option<Seq<char>>,
) -> Seq<char> {
    let base = card_base(members, phone, base_id);
    let next = (largest_behind(members, id_prefix(base)) + 1) as nat;
    match base {
        Some(_) => id_prefix(base) + decimal(next),
        None => id_prefix(base) + three_digits(next),
    }
}

/// Whether there is a number left for a new member.
pub open spec fn id_left(
    members: Seq<MemberRow>,
    phone: Seq<char>,
    base_id: Option<Seq<char>>,
) -> bool {
    largest_behind(members, id_prefix(card_base(members, phone, base_id))) < i64::MAX
}

/// Digits with zeros in front of them write the same number.
proof fn lemma_three_digits(n: nat)
    ensures
        numeral_value(three_digits(n)) == Some(n),
{
    lemma_decimal(n);
    reveal_strlit("00");
    reveal_strlit("0");
    if n < 100 {
        let zeros = if n < 10 {
            "00"@
        } else {
            "0"@
        };
        lemma_zeros_in_front(zeros, decimal(n));
    }
}

/// Zeros in front of digits do not change the number.
pub proof fn lemma_zeros_in_front(zeros: Seq<char>, s: Seq<char>)
    requires
        all_digits(s),
        forall|i: int| 0 <= i < zeros.len() ==> zeros[i] == '0',
    ensures
        all_digits(zeros + s),
        digits_value(zeros + s) == digits_value(s),
    decreases zeros.len() + s.len(),
{
    let t = zeros + s;
    if s.len() > 0 {
        assert(t.drop_last() =~= zeros + s.drop_last());
        lemma_zeros_in_front(zeros, s.drop_last());
    } else if zeros.len() > 0 {
        assert(t.drop_last() =~= zeros.drop_last() + s);
        lemma_zeros_in_front(zeros.drop_last(), s);
        assert(t.last() == '0');
        assert(digits_value(s) == 0);
    }
}

/// No member's number behind a prefix is above the largest.
proof fn lemma_largest(members: Seq<MemberRow>, prefix: Seq<char>, i: int)
    requires
        0 <= i < members.len(),
    ensures
        0 <= largest_behind(members, prefix),
        number_behind(members[i].id, prefix) matches Some(n) ==> n <= largest_behind(
            members,
            prefix,
        ),
    decreases members.len(),
{
    if i < members.len() - 1 {
        lemma_largest(members.drop_last(), prefix, i);
        assert(members.drop_last()[i] == members[i]);
    }
    lemma_largest_not_negative(members.drop_last(), prefix);
}

proof fn lemma_largest_not_negative(members: Seq<MemberRow>, prefix: Seq<char>)
    ensures
        0 <= largest_behind(members, prefix) <= i64::MAX,
    decreases members.len(),
{
    if members.len() > 0 {
        lemma_largest_not_negative(members.drop_last(), prefix);
    }
}

/// A new number is no member's number.
pub proof fn law_new_id_is_fresh(
    members: Seq<MemberRow>,
    phone: Seq<char>,
    base_id: Option<Seq<char>>,
    i: int,
)
    requires
        id_left(members, phone, base_id),
        0 <= i < members.len(),
    ensures
        members[i].id != new_id(members, phone, base_id),
{
    let base = card_base(members, phone, base_id);
    let prefix = id_prefix(base);
    lemma_largest(members, prefix, i);
    let next = (largest_behind(members, prefix) + 1) as nat;
    let digits = match base {
        Some(_) => decimal(next),
        None => three_digits(next),
    };
    lemma_decimal(next);
    lemma_three_digits(next);
    let id = new_id(members, phone, base_id);
    assert(id == prefix + digits);
    assert(prefix.is_prefix_of(id)) by {
        assert(id.subrange(0, prefix.len() as int) =~= prefix);
    }
    assert(id.skip(prefix.len() as int) =~= digits);
    assert(number_behind(id, prefix) == Some(next as int));
}

/// The number that stands behind `prefix`.
fn read_behind(id: &str, prefix: &str) -> (r: Option<i64>)
    ensures
        match number_behind(id@, prefix@) {
            Some(n) => r matches Some(v) && v == n,
            None => r is None,
        },
{
    if !has_prefix(id, prefix) {
        return None;
    }
    let c = chars_of(id);
    let from: usize = chars_of(prefix).len();
    assert(c@.subrange(from as int, c@.len() as int) =~= id@.skip(from as int));
    match read_digits(&c, from, i64::MAX as u64) {
        Some(v) => Some(v as i64),
        None => None,
    }
}

/// The largest number that stands behind `prefix`.
fn max_behind(members: &Vec<RawMember>, prefix: &str) -> (r: i64)
    ensures
        r == largest_behind(member_rows(members@), prefix@),
        0 <= r,
{
    let ghost all = member_rows(members@);
    let mut max: i64 = 0;
    let mut i: usize = 0;
    assert(all.take(0) =~= Seq::<MemberRow>::empty());
    while i < members.len()
        invariant
            i <= members@.len(),
            all == member_rows(members@),
            0 <= max,
            max == largest_behind(all.take(i as int), prefix@),
        decreases members@.len() - i,
    {
        assert(all.take(i + 1).drop_last() =~= all.take(i as int));
        if let Some(v) = read_behind(members[i].id.as_str(), prefix) {
            if v > max {
                max = v;
            }
        }
        i = i + 1;
    }
    assert(all.take(i as int) =~= all);
    max
}

/// The text in front of the first hyphen.
fn front_text(s: &str) -> (r: String)
    ensures
        r@ == front_part(s@),
{
    let c = chars_of(s);
    let mut i: usize = 0;
    assert(c@.skip(0) =~= s@);
    assert(c@.take(0) + front_part(s@) =~= front_part(s@));
    while i < c.len() && c[i] != '-'
        invariant
            c@ == s@,
            i <= c@.len(),
            front_part(s@) == c@.take(i as int) + front_part(c@.skip(i as int)),
        decreases c@.len() - i,
    {
        proof {
            let t = c@.skip(i as int);
            assert(t.drop_first() =~= c@.skip(i + 1));
            assert(t[0] == c@[i as int]);
            assert(c@.take(i as int) + (seq![t[0]] + front_part(t.drop_first())) =~= c@.take(i + 1)
                + front_part(c@.skip(i + 1)));
        }
        i = i + 1;
    }
    proof {
        if i < c@.len() {
            assert(c@.skip(i as int)[0] == '-');
        }
        assert(c@.take(i as int) + Seq::<char>::empty() =~= c@.take(i as int));
    }
    let r = text_of(&c, 0, i);
    assert(r@ =~= c@.take(i as int));
    r
}

/// The first member whose phone has the given digits.
fn find_phone(members: &Vec<RawMember>, digits: &str) -> (r: Option<usize>)
    ensures
        match phone_from(member_rows(members@), 0, digits@) {
            Some(k) => r matches Some(i) && i == k && i < members@.len(),
            None => r is None,
        },
{
    let ghost all = member_rows(members@);
    let mut i: usize = 0;
    while i < members.len()
        invariant
            i <= members@.len(),
            all == member_rows(members@),
            phone_from(all, 0, digits@) == phone_from(all, i as int, digits@),
        decreases members@.len() - i,
    {
        let own = norm_phone(members[i].phone.as_str());
        if chars_of(own.as_str()).len() > 0 && same_text(own.as_str(), digits) {
            return Some(i);
        }
        i = i + 1;
    }
    None
}

/// The front of the numbers of a member's cards.
fn find_base(members: &Vec<RawMember>, phone: &str, base_id: &Option<String>) -> (r: Option<String>)
    ensures
        text_view(r) == card_base(member_rows(members@), phone@, text_view(*base_id)),
{
    match base_id {
        Some(b) => Some(front_text(b.as_str())),
        None => {
            let digits = norm_phone(phone);
            match find_phone(members, digits.as_str()) {
                Some(i) => Some(front_text(members[i].id.as_str())),
                None => None,
            }
        },
    }
}

/// What new numbers start with.
fn prefix_of(base: &Option<String>) -> (r: String)
    ensures
        r@ == id_prefix(text_view(*base)),
{
    match base {
        Some(b) => join2(b.as_str(), "-"),
        None => String::from_str("M"),
    }
}

// ------------------------------------------------------------------------ store
/// The workbook in memory.
pub struct Store {
    pub entries: Vec<Entry>,
    pub doc_bytes: Vec<u8>,
    pub members: Vec<RawMember>,
    pub classes: Vec<RawClass>,
    pub tpl_archive: BTreeMap<u32, CellTpl>,
    pub tpl_class: BTreeMap<u32, CellTpl>,
    pub sheet_archive: String,
    pub sheet_class: String,
    pub refund_header_present: bool,
    pub pending: bool,
    pub pending_reason: Option<String>,
    pub last_saved: Option<String>,
    /// What is known of changes that could not be saved and can be taken up again.
    pub recoverable: Option<String>,
}

/// The workbook in memory by its values.
pub ghost struct Book {
    pub parts: Seq<Part>,
    pub doc: Seq<u8>,
    pub members: Seq<MemberRow>,
    pub classes: Seq<ClassRow>,
    pub tpl_archive: Map<u32, Template>,
    pub tpl_class: Map<u32, Template>,
    pub sheet_archive: Seq<char>,
    pub sheet_class: Seq<char>,
    pub refund_header: bool,
    pub pending: bool,
    pub pending_reason: Option<Seq<char>>,
    pub last_saved: Option<Seq<char>>,
    pub recoverable: Option<Seq<char>>,
}

impl View for Store {
    type V = Book;

    open spec fn view(&self) -> Book {
        Book {
            parts: parts(self.entries@),
            doc: self.doc_bytes@,
            members: member_rows(self.members@),
            classes: class_rows(self.classes@),
            tpl_archive: templates(self.tpl_archive@),
            tpl_class: templates(self.tpl_class@),
            sheet_archive: self.sheet_archive@,
            sheet_class: self.sheet_class@,
            refund_header: self.refund_header_present,
            pending: self.pending,
            pending_reason: text_view(self.pending_reason),
            last_saved: text_view(self.last_saved),
            recoverable: text_view(self.recoverable),
        }
    }
}

/// Whether the bytes of the workbook hold its parts as they are saved: an archive of fewer than
/// 65535 parts and less than four gigabytes is read back part for part.
pub open spec fn holds_parts(b: Book) -> bool {
    b.parts.len() < 65535 && b.doc.len() < 0xffff_ffff ==> parts_in(b.doc) == Ok::<
        Seq<Part>,
        Seq<char>,
    >(files(final_parts(b.parts)))
}

/// A part of the workbook is no longer there.
pub open spec fn missing_part_text(name: Seq<char>) -> Seq<char> {
    "missing sheet part "@ + name
}

/// The workbook after its parts were packed and read again.
pub open spec fn rebuilt(s: Book) -> (Book, Result<(), Fault>) {
    match packed(final_parts(s.parts)) {
        Err(e) => (s, Err(Fault::Sys(e))),
        Ok(doc) => match ledger_in(doc) {
            Err(e) => (Book { doc, ..s }, Err(Fault::Sys(e))),
            Ok(l) => (
                Book {
                    doc,
                    members: l.members,
                    classes: l.classes,
                    refund_header: l.refund_header,
                    ..s
                },
                Ok(()),
            ),
        },
    }
}

/// The workbook after rows of a worksheet were changed. Where the worksheet has no part or cannot
/// be changed, everything stays as it is.
pub open spec fn sheet_patched(s: Book, sheet: Seq<char>, ws: Seq<RowPut>) -> (
    Book,
    Result<(), Fault>,
) {
    match part_from(s.parts, 0, sheet) {
        None => (s, Err(Fault::Sys(missing_part_text(sheet)))),
        Some(i) => match patch_of(s.parts[i].data, ws) {
            Err(e) => (s, Err(Fault::Sys(e))),
            Ok(data) => rebuilt(
                Book { parts: s.parts.update(i, Part { name: s.parts[i].name, data }), ..s },
            ),
        },
    }
}

/// The style that a template gives a column.
pub open spec fn style_of(tpl: Map<u32, Template>, col: u32) -> Option<Seq<char>> {
    if tpl.contains_key(col) {
        tpl[col].style
    } else {
        None
    }
}

/// The formula that a template gives a column in row `row`; the templates stand in row 2.
pub open spec fn formula_of(tpl: Map<u32, Template>, col: u32, row: u32) -> Option<CellPut> {
    if tpl.contains_key(col) {
        match tpl[col].formula {
            Some(f) => Some(
                CellPut {
                    col,
                    val: CellValue::Formula(renumbered(f, 2, row as nat)),
                    style: tpl[col].style,
                },
            ),
            None => None,
        }
    } else {
        None
    }
}

/// The formulas that templates give the columns from `from` to `to` in row `row`.
pub open spec fn formulas_of(tpl: Map<u32, Template>, from: int, to: int, row: u32) -> Seq<CellPut>
    decreases to + 1 - from,
{
    if from > to {
        Seq::empty()
    } else {
        let before = formulas_of(tpl, from, to - 1, row);
        match formula_of(tpl, to as u32, row) {
            Some(f) => before.push(f),
            None => before,
        }
    }
}

/// A text for a column.
pub open spec fn text_put(tpl: Map<u32, Template>, col: u32, t: Seq<char>) -> CellPut {
    CellPut { col, val: CellValue::Text(t), style: style_of(tpl, col) }
}

/// A number for a column.
pub open spec fn num_put(tpl: Map<u32, Template>, col: u32, n: Seq<char>) -> CellPut {
    CellPut { col, val: CellValue::Num(n), style: style_of(tpl, col) }
}

/// A day for a column, as its number in the workbook.
pub open spec fn day_put(tpl: Map<u32, Template>, col: u32, day: (int, Seq<char>)) -> CellPut {
    num_put(tpl, col, signed_decimal(serial_of(day.0)))
}

/// One cell, or none.
pub open spec fn one(c: Option<CellPut>) -> Seq<CellPut> {
    match c {
        Some(x) => seq![x],
        None => Seq::empty(),
    }
}

/// A day for a column, where the text of a field names one.
pub open spec fn day_cell(tpl: Map<u32, Template>, col: u32, t: Seq<char>) -> Seq<CellPut> {
    match date_value(t) {
        Some(d) => seq![day_put(tpl, col, d)],
        None => Seq::empty(),
    }
}

/// A number for a column, where there is one.
pub open spec fn num_cell(tpl: Map<u32, Template>, col: u32, n: Option<Seq<char>>) -> Seq<CellPut> {
    match n {
        Some(x) => seq![num_put(tpl, col, x)],
        None => Seq::empty(),
    }
}

/// A text for a column, where it is not empty.
pub open spec fn text_cell(tpl: Map<u32, Template>, col: u32, t: Seq<char>) -> Seq<CellPut> {
    if t.len() > 0 {
        seq![text_put(tpl, col, t)]
    } else {
        Seq::empty()
    }
}

/// The style that a template gives a column.
fn tpl_style(tpl: &BTreeMap<u32, CellTpl>, col: u32) -> (r: Option<String>)
    ensures
        text_view(r) == style_of(templates(tpl@), col),
{
    match tpl.get(&col) {
        Some(t) => match &t.style {
            Some(s) => Some(s.clone()),
            None => None,
        },
        None => None,
    }
}

/// Adds a cell to what is to be done to a row.
fn push_cell(rw: &mut RowWrite, tpl: &BTreeMap<u32, CellTpl>, col: u32, val: CellVal)
    ensures
        final(rw)@ == (RowPut {
            cells: old(rw)@.cells.push(
                CellPut { col, val: val@, style: style_of(templates(tpl@), col) },
            ),
            ..old(rw)@
        }),
{
    let ghost before = rw@;
    let cell = CellWrite { col, val, style: tpl_style(tpl, col) };
    rw.cells.push(cell);
    assert(rw@.cells =~= before.cells.push(cell@));
}

/// Adds the formula that a template gives a column.
fn push_formula(rw: &mut RowWrite, tpl: &BTreeMap<u32, CellTpl>, col: u32)
    ensures
        final(rw)@ == (RowPut {
            formulas: old(rw)@.formulas + one(formula_of(templates(tpl@), col, old(rw)@.row)),
            ..old(rw)@
        }),
{
    let ghost before = rw@;
    if let Some(t) = tpl.get(&col) {
        if let Some(f) = &t.formula {
            let style = match &t.style {
                Some(s) => Some(s.clone()),
                None => None,
            };
            let formula = (col, renumber_formula(f.as_str(), 2, rw.row), style);
            rw.ensure_formulas.push(formula);
            assert(rw@.formulas =~= before.formulas.push(formula_view(formula)));
        }
    }
    assert(rw@.formulas =~= before.formulas + one(formula_of(templates(tpl@), col, before.row)));
}

/// Adds the formulas that templates give the columns from `from` to `to`.
fn push_formulas(rw: &mut RowWrite, tpl: &BTreeMap<u32, CellTpl>, from: u32, to: u32)
    requires
        1 <= from <= to < u32::MAX,
    ensures
        final(rw)@ == (RowPut {
            formulas: old(rw)@.formulas + formulas_of(
                templates(tpl@),
                from as int,
                to as int,
                old(rw)@.row,
            ),
            ..old(rw)@
        }),
{
    let ghost before = rw@;
    let mut col: u32 = from;
    assert(rw@.formulas =~= before.formulas + formulas_of(
        templates(tpl@),
        from as int,
        from - 1,
        before.row,
    ));
    while col <= to
        invariant
            1 <= from <= col <= to + 1,
            to < u32::MAX,
            rw@ == (RowPut {
                formulas: before.formulas + formulas_of(
                    templates(tpl@),
                    from as int,
                    col - 1,
                    before.row,
                ),
                ..before
            }),
        decreases to + 1 - col,
    {
        push_formula(rw, tpl, col);
        assert(rw@.formulas =~= before.formulas + formulas_of(
            templates(tpl@),
            from as int,
            col as int,
            before.row,
        ));
        col = col + 1;
    }
}

// --------------------------------------------------------------- adding a member
/// The number of a member that a request gives as the one whose next card it asks for.
pub open spec fn asked_base(body: Fields) -> Option<Seq<char>> {
    match body.value("base_member_id"@) {
        Some(v) => field_text(v),
        None => None,
    }
}

/// What is written for a new member.
pub open spec fn member_put(
    tpl: Map<u32, Template>,
    row: u32,
    id: Seq<char>,
    body: Fields,
    today: (int, Seq<char>),
) -> RowPut {
    let bought = match date_value(body.text("purchase_date"@)) {
        Some(d) => d,
        None => today,
    };
    let total = if body.text("card_type"@) == "次卡"@ {
        match body.number("total_sessions"@) {
            Some(n) => Some(before_point(n)),
            None => None,
        }
    } else {
        None
    };
    RowPut {
        row,
        cells: seq![
            text_put(tpl, 1, id),
            text_put(tpl, 2, body.text("name"@)),
            text_put(tpl, 3, body.text("phone"@)),
            text_put(tpl, 4, body.text("teacher"@)),
            text_put(tpl, 5, body.text("member_type"@)),
            text_put(tpl, 6, body.text("card_type"@)),
            day_put(tpl, 7, bought),
        ] + day_cell(tpl, 8, body.text("activation_date"@)) + day_cell(
            tpl,
            9,
            body.text("expiry_date"@),
        ) + num_cell(tpl, 10, body.number("amount"@)) + num_cell(
            tpl,
            11,
            body.number("receivable"@),
        ) + num_cell(tpl, 13, total) + text_cell(tpl, 23, body.text("remark"@)),
        clear: Seq::empty(),
        formulas: one(formula_of(tpl, 12, row)) + formulas_of(tpl, 14, 21, row),
        insert: true,
    }
}

/// The rows that members are in.
pub open spec fn member_places(m: Seq<MemberRow>) -> Seq<u32> {
    m.map_values(|x: MemberRow| x.row)
}

/// The rows that classes are in.
pub open spec fn class_places(c: Seq<ClassRow>) -> Seq<u32> {
    c.map_values(|x: ClassRow| x.row)
}

/// The workbook after a member was added, and the member's number.
pub open spec fn member_added(s: Book, body: Fields, today: (int, Seq<char>)) -> (
    Book,
    Result<Seq<char>, Fault>,
) {
    match free_from(member_places(s.members), 2, ARCHIVE_MAX_ROW as int) {
        None => (s, Err(Fault::Biz("会员档案已满（503 行）"@))),
        Some(row) => {
            let id = new_id(s.members, body.text("phone"@), asked_base(body));
            let put = member_put(s.tpl_archive, row as u32, id, body, today);
            let (after, r) = sheet_patched(s, s.sheet_archive, seq![put]);
            (
                after,
                match r {
                    Ok(_) => Ok(id),
                    Err(e) => Err(e),
                },
            )
        },
    }
}

/// The outcome of a request that gives a text.
pub open spec fn told(r: Result<String, StoreError>) -> Result<Seq<char>, Fault> {
    match r {
        Ok(t) => Ok(t@),
        Err(e) => Err(e@),
    }
}

/// Adds a day to what is to be done to a row, where a text names one.
fn push_day(rw: &mut RowWrite, tpl: &BTreeMap<u32, CellTpl>, col: u32, t: &str)
    ensures
        final(rw)@ == (RowPut {
            cells: old(rw)@.cells + day_cell(templates(tpl@), col, t@),
            ..old(rw)@
        }),
{
    let ghost before = rw@;
    if let Some(d) = parse_date_str(t) {
        push_cell(rw, tpl, col, CellVal::Num(Number::whole(excel_serial(&d))));
    }
    assert(rw@.cells =~= before.cells + day_cell(templates(tpl@), col, t@));
}

/// Adds a number to what is to be done to a row, where there is one.
fn push_num(rw: &mut RowWrite, tpl: &BTreeMap<u32, CellTpl>, col: u32, n: Option<Number>)
    ensures
        final(rw)@ == (RowPut {
            cells: old(rw)@.cells + num_cell(templates(tpl@), col, number_view(n)),
            ..old(rw)@
        }),
{
    let ghost before = rw@;
    if let Some(x) = n {
        push_cell(rw, tpl, col, CellVal::Num(x));
    }
    assert(rw@.cells =~= before.cells + num_cell(templates(tpl@), col, number_view(n)));
}

/// Adds a text to what is to be done to a row, where it is not empty.
fn push_text_cell(rw: &mut RowWrite, tpl: &BTreeMap<u32, CellTpl>, col: u32, t: String)
    ensures
        final(rw)@ == (RowPut {
            cells: old(rw)@.cells + text_cell(templates(tpl@), col, t@),
            ..old(rw)@
        }),
{
    let ghost before = rw@;
    if chars_of(t.as_str()).len() > 0 {
        push_cell(rw, tpl, col, CellVal::Text(t));
    }
    assert(rw@.cells =~= before.cells + text_cell(templates(tpl@), col, t@));
}

/// What is written for a new member.
fn member_row(
    tpl: &BTreeMap<u32, CellTpl>,
    row: u32,
    id: &str,
    body: &Fields,
    today: &Date,
) -> (r: RowWrite)
    ensures
        r@ == member_put(templates(tpl@), row, id@, *body, today@),
{
    let ghost t = templates(tpl@);
    let mut rw = RowWrite::new(row);
    rw.insert_if_absent = true;
    assert(rw@.cells =~= Seq::<CellPut>::empty());
    assert(rw@.formulas =~= Seq::<CellPut>::empty());
    assert(rw@.clear =~= Seq::<u32>::empty());
    push_cell(&mut rw, tpl, 1, CellVal::Text(String::from_str(id)));
    push_cell(&mut rw, tpl, 2, CellVal::Text(body.get_text("name")));
    push_cell(&mut rw, tpl, 3, CellVal::Text(body.get_text("phone")));
    push_cell(&mut rw, tpl, 4, CellVal::Text(body.get_text("teacher")));
    push_cell(&mut rw, tpl, 5, CellVal::Text(body.get_text("member_type")));
    push_cell(&mut rw, tpl, 6, CellVal::Text(body.get_text("card_type")));
    let bought_text = body.get_text("purchase_date");
    let bought = match parse_date_str(bought_text.as_str()) {
        Some(d) => d,
        None => today.copy(),
    };
    push_cell(&mut rw, tpl, 7, CellVal::Num(Number::whole(excel_serial(&bought))));
    proof {
        let first = seq![
            text_put(t, 1, id@),
            text_put(t, 2, body.text("name"@)),
            text_put(t, 3, body.text("phone"@)),
            text_put(t, 4, body.text("teacher"@)),
            text_put(t, 5, body.text("member_type"@)),
            text_put(t, 6, body.text("card_type"@)),
            day_put(t, 7, bought@),
        ];
        assert(rw@.cells =~= first);
    }
    let activation = body.get_text("activation_date");
    push_day(&mut rw, tpl, 8, activation.as_str());
    let expiry = body.get_text("expiry_date");
    push_day(&mut rw, tpl, 9, expiry.as_str());
    push_num(&mut rw, tpl, 10, body.get_num("amount"));
    push_num(&mut rw, tpl, 11, body.get_num("receivable"));
    let card = body.get_text("card_type");
    let total = if same_text(card.as_str(), "次卡") {
        match body.get_num("total_sessions") {
            Some(n) => Some(n.trunc()),
            None => None,
        }
    } else {
        None
    };
    push_num(&mut rw, tpl, 13, total);
    push_text_cell(&mut rw, tpl, 23, body.get_text("remark"));
    push_formula(&mut rw, tpl, 12);
    assert(rw@.formulas =~= one(formula_of(t, 12, row)));
    push_formulas(&mut rw, tpl, 14, 21);
    rw
}

impl Store {
    /// No part has a name that is longer than an archive can hold.
    pub open spec fn wf(&self) -> bool {
        names_fit(parts(self.entries@))
    }

    /// The first row behind the heading that is not used, up to `max_row`.
    pub fn first_empty_row(rows: &[u32], max_row: u32) -> (r: Option<u32>)
        ensures
            match free_from(rows@, 2, max_row as int) {
                Some(k) => r matches Some(n) && n == k,
                None => r is None,
            },
    {
        let mut k: u64 = 2;
        while k <= max_row as u64
            invariant
                2 <= k,
                free_from(rows@, 2, max_row as int) == free_from(rows@, k as int, max_row as int),
            decreases max_row + 1 - k,
        {
            if !is_used(rows, k as u32) {
                return Some(k as u32);
            }
            k = k + 1;
        }
        None
    }

    /// Whether there is a number left for a new member.
    pub fn has_id_left(&self, phone: &str, base_id: &Option<String>) -> (r: bool)
        ensures
            r == id_left(self@.members, phone@, text_view(*base_id)),
    {
        let base = find_base(&self.members, phone, base_id);
        let prefix = prefix_of(&base);
        max_behind(&self.members, prefix.as_str()) < i64::MAX
    }

    /// The number of a new member, or of a further card of a member: with `base_id`, or where a
    /// member has the same phone, the next card of that member, and otherwise the next member.
    pub fn gen_member_id(&self, phone: &str, base_id: &Option<String>) -> (r: String)
        requires
            id_left(self@.members, phone@, text_view(*base_id)),
        ensures
            r@ == new_id(self@.members, phone@, text_view(*base_id)),
            forall|i: int| 0 <= i < self.members@.len() ==> (#[trigger] self.members@[i]).id@ != r@,
    {
        let base = find_base(&self.members, phone, base_id);
        let prefix = prefix_of(&base);
        let next: i64 = max_behind(&self.members, prefix.as_str()) + 1;
        let digits = decimal_text(next as u64);
        let mut out = String::from_str(prefix.as_str());
        if base.is_none() {
            if next < 10 {
                out.append("00");
            } else if next < 100 {
                out.append("0");
            }
        }
        out.append(digits.as_str());
        proof {
            let all = self@.members;
            assert(out@ =~= new_id(all, phone@, text_view(*base_id)));
            assert forall|i: int| 0 <= i < self.members@.len() implies (
            #[trigger] self.members@[i]).id@ != out@ by {
                law_new_id_is_fresh(all, phone@, text_view(*base_id), i);
                assert(all[i].id == self.members@[i].id@);
            }
        }
        out
    }

    /// Packs the parts and reads members and classes again.
    fn rebuild(&mut self) -> (r: Result<(), StoreError>)
        requires
            old(self).wf(),
        ensures
            final(self).wf(),
            final(self)@ == rebuilt(old(self)@).0,
            done(r) == rebuilt(old(self)@).1,
            r is Ok ==> holds_parts(final(self)@),
    {
        match finalize_and_write(self.entries.as_slice()) {
            Err(e) => Err(StoreError::Sys(e)),
            Ok(doc) => {
                self.doc_bytes = doc;
                match read_raw(self.doc_bytes.as_slice()) {
                    Err(e) => Err(StoreError::Sys(e)),
                    Ok((members, classes, header)) => {
                        self.members = members;
                        self.classes = classes;
                        self.refund_header_present = header;
                        Ok(())
                    },
                }
            },
        }
    }

    /// Changes rows of a worksheet.
    fn patch_sheet(&mut self, sheet: &str, writes: &Vec<RowWrite>) -> (r: Result<(), StoreError>)
        requires
            old(self).wf(),
        ensures
            final(self).wf(),
            final(self)@ == sheet_patched(old(self)@, sheet@, puts(writes@)).0,
            done(r) == sheet_patched(old(self)@, sheet@, puts(writes@)).1,
            r is Ok ==> holds_parts(final(self)@),
    {
        let at: usize = match entry_index(&self.entries, sheet) {
            Some(i) => i,
            None => {
                return Err(StoreError::Sys(join2("missing sheet part ", sheet)));
            },
        };
        match apply_patch(self.entries[at].data.as_slice(), writes.as_slice()) {
            Err(e) => Err(StoreError::Sys(e)),
            Ok(data) => {
                let ghost before = self@;
                set_data(&mut self.entries, at, data);
                proof {
                    assert(before.parts[at as int].name == sheet@);
                    assert(names_fit(parts(self.entries@)));
                }
                self.rebuild()
            },
        }
    }

    /// Adds a member, and gives the member's number.
    pub fn add_member(&mut self, body: &Fields, today: &Date) -> (r: Result<String, StoreError>)
        requires
            old(self).wf(),
            free_from(member_places(old(self)@.members), 2, ARCHIVE_MAX_ROW as int) is Some
                ==> id_left(old(self)@.members, body.text("phone"@), asked_base(*body)),
        ensures
            final(self).wf(),
            final(self)@ == member_added(old(self)@, *body, today@).0,
            told(r) == member_added(old(self)@, *body, today@).1,
            r is Ok ==> holds_parts(final(self)@),
    {
        let used = self.member_rows_used();
        let row: u32 = match Store::first_empty_row(used.as_slice(), ARCHIVE_MAX_ROW) {
            Some(n) => n,
            None => {
                return Err(StoreError::Biz(String::from_str("会员档案已满（503 行）")));
            },
        };
        let phone = body.get_text("phone");
        let base = match body.get("base_member_id") {
            Some(v) => js_str(v),
            None => None,
        };
        let id = self.gen_member_id(phone.as_str(), &base);
        let rw = member_row(&self.tpl_archive, row, id.as_str(), body, today);
        let mut writes: Vec<RowWrite> = Vec::new();
        writes.push(rw);
        assert(puts(writes@) =~= seq![rw@]);
        let sheet = self.sheet_archive.clone();
        match self.patch_sheet(sheet.as_str(), &writes) {
            Ok(_) => Ok(id),
            Err(e) => Err(e),
        }
    }

    /// The rows that members are in.
    fn member_rows_used(&self) -> (r: Vec<u32>)
        ensures
            r@ == member_places(self@.members),
    {
        let mut out: Vec<u32> = Vec::new();
        let mut i: usize = 0;
        while i < self.members.len()
            invariant
                i <= self.members@.len(),
                out@ == member_places(self@.members).take(i as int),
            decreases self.members@.len() - i,
        {
            out.push(self.members[i].row);
            assert(member_places(self@.members).take(i + 1) =~= member_places(self@.members).take(
                i as int,
            ).push(self.members@[i as int].row));
            i = i + 1;
        }
        assert(member_places(self@.members).take(i as int) =~= member_places(self@.members));
        out
    }

    /// The rows that classes are in.
    fn class_rows_used(&self) -> (r: Vec<u32>)
        ensures
            r@ == class_places(self@.classes),
    {
        let mut out: Vec<u32> = Vec::new();
        let mut i: usize = 0;
        while i < self.classes.len()
            invariant
                i <= self.classes@.len(),
                out@ == class_places(self@.classes).take(i as int),
            decreases self.classes@.len() - i,
        {
            out.push(self.classes[i].row);
            assert(class_places(self@.classes).take(i + 1) =~= class_places(self@.classes).take(
                i as int,
            ).push(self.classes@[i as int].row));
            i = i + 1;
        }
        assert(class_places(self@.classes).take(i as int) =~= class_places(self@.classes));
        out
    }
}

// ------------------------------------------------------------- changing a member
/// The first member with a number, from the one at `i` on.
pub open spec fn member_from(members: Seq<MemberRow>, i: int, id: Seq<char>) -> Option<int>
    decreases members.len() - i,
{
    if i < 0 || i >= members.len() {
        None
    } else if members[i].id == id {
        Some(i)
    } else {
        member_from(members, i + 1, id)
    }
}

/// A text for a column, where the field is there and stands for one.
pub open spec fn text_change(
    tpl: Map<u32, Template>,
    fields: Fields,
    key: Seq<char>,
    col: u32,
) -> Seq<CellPut> {
    match fields.value(key) {
        Some(v) => match field_text(v) {
            Some(t) => seq![text_put(tpl, col, t)],
            None => Seq::empty(),
        },
        None => Seq::empty(),
    }
}

/// A day for a column, where the field is there and names one.
pub open spec fn day_change(
    tpl: Map<u32, Template>,
    fields: Fields,
    key: Seq<char>,
    col: u32,
) -> Seq<CellPut> {
    match fields.value(key) {
        Some(v) => match field_text(v) {
            Some(t) => if t.len() > 0 {
                day_cell(tpl, col, t)
            } else {
                Seq::empty()
            },
            None => Seq::empty(),
        },
        None => Seq::empty(),
    }
}

/// A number for a column, where the field is there and stands for one.
pub open spec fn num_change(
    tpl: Map<u32, Template>,
    fields: Fields,
    key: Seq<char>,
    col: u32,
    whole: bool,
) -> Seq<CellPut> {
    match fields.number(key) {
        Some(n) => seq![
            num_put(
                tpl,
                col,
                if whole {
                    before_point(n)
                } else {
                    n
                },
            ),
        ],
        None => Seq::empty(),
    }
}

/// A column to be cleared, where the field is there and stands for no number.
pub open spec fn num_clear(fields: Fields, key: Seq<char>, col: u32) -> Seq<u32> {
    if fields.value(key) is Some && fields.number(key) is None {
        seq![col]
    } else {
        Seq::empty()
    }
}

/// What is written into the row of a member. A field that is not there changes nothing; numbers, the
/// remark and the refund are cleared where their fields stand for none.
pub open spec fn change_put(tpl: Map<u32, Template>, row: u32, fields: Fields) -> RowPut {
    let refund = fields.value("refund"@) is Some;
    RowPut {
        row,
        cells: text_change(tpl, fields, "name"@, 2) + text_change(tpl, fields, "phone"@, 3)
            + text_change(tpl, fields, "teacher"@, 4) + text_change(
            tpl,
            fields,
            "member_type"@,
            5,
        ) + text_change(tpl, fields, "card_type"@, 6) + day_change(
            tpl,
            fields,
            "purchase_date"@,
            7,
        ) + day_change(tpl, fields, "activation_date"@, 8) + day_change(
            tpl,
            fields,
            "expiry_date"@,
            9,
        ) + num_change(tpl, fields, "amount"@, 10, false) + num_change(
            tpl,
            fields,
            "receivable"@,
            11,
            false,
        ) + num_change(tpl, fields, "total_sessions"@, 13, true) + text_cell(
            tpl,
            23,
            fields.text("remark"@),
        ) + (if refund && fields.flag("refund"@) {
            seq![text_put(tpl, 22, "是"@)]
        } else {
            Seq::empty()
        }),
        clear: num_clear(fields, "amount"@, 10) + num_clear(fields, "receivable"@, 11) + num_clear(
            fields,
            "total_sessions"@,
            13,
        ) + (if fields.value("remark"@) is Some && fields.text("remark"@).len() == 0 {
            seq![23u32]
        } else {
            Seq::empty()
        }) + (if refund && !fields.flag("refund"@) {
            seq![22u32]
        } else {
            Seq::empty()
        }),
        formulas: Seq::empty(),
        insert: false,
    }
}

/// The heading of the refunds.
pub open spec fn header_put(tpl: Map<u32, Template>) -> RowPut {
    RowPut {
        row: 1,
        cells: seq![text_put(tpl, 22, "退卡"@)],
        clear: Seq::empty(),
        formulas: Seq::empty(),
        insert: false,
    }
}

/// The workbook after a member was changed. With the first refund the heading of the refunds is
/// written too.
pub open spec fn member_changed(s: Book, id: Seq<char>, fields: Fields) -> (
    Book,
    Result<(), Fault>,
) {
    match member_from(s.members, 0, id) {
        None => (s, Err(Fault::Biz("会员不存在: "@ + id))),
        Some(i) => {
            let put = change_put(s.tpl_archive, s.members[i].row, fields);
            if fields.flag("refund"@) && !s.refund_header {
                sheet_patched(
                    Book { refund_header: true, ..s },
                    s.sheet_archive,
                    seq![put, header_put(s.tpl_archive)],
                )
            } else {
                sheet_patched(s, s.sheet_archive, seq![put])
            }
        },
    }
}

/// Adds a text, where the field is there and stands for one.
fn change_text(
    rw: &mut RowWrite,
    tpl: &BTreeMap<u32, CellTpl>,
    fields: &Fields,
    key: &str,
    col: u32,
)
    ensures
        final(rw)@ == (RowPut {
            cells: old(rw)@.cells + text_change(templates(tpl@), *fields, key@, col),
            ..old(rw)@
        }),
{
    let ghost before = rw@;
    if let Some(v) = fields.get(key) {
        if let Some(t) = js_str(v) {
            push_cell(rw, tpl, col, CellVal::Text(t));
        }
    }
    assert(rw@.cells =~= before.cells + text_change(templates(tpl@), *fields, key@, col));
}

/// Adds a day, where the field is there and names one.
fn change_day(
    rw: &mut RowWrite,
    tpl: &BTreeMap<u32, CellTpl>,
    fields: &Fields,
    key: &str,
    col: u32,
)
    ensures
        final(rw)@ == (RowPut {
            cells: old(rw)@.cells + day_change(templates(tpl@), *fields, key@, col),
            ..old(rw)@
        }),
{
    let ghost before = rw@;
    if let Some(v) = fields.get(key) {
        if let Some(t) = js_str(v) {
            if chars_of(t.as_str()).len() > 0 {
                push_day(rw, tpl, col, t.as_str());
            }
        }
    }
    assert(rw@.cells =~= before.cells + day_change(templates(tpl@), *fields, key@, col));
}

/// Adds a number, or clears the column, where the field is there.
fn change_num(
    rw: &mut RowWrite,
    tpl: &BTreeMap<u32, CellTpl>,
    fields: &Fields,
    key: &str,
    col: u32,
    whole: bool,
)
    ensures
        final(rw)@ == (RowPut {
            cells: old(rw)@.cells + num_change(templates(tpl@), *fields, key@, col, whole),
            clear: old(rw)@.clear + num_clear(*fields, key@, col),
            ..old(rw)@
        }),
{
    let ghost before = rw@;
    if let Some(v) = fields.get(key) {
        match to_num(v) {
            Some(n) => {
                let n = if whole {
                    n.trunc()
                } else {
                    n
                };
                push_cell(rw, tpl, col, CellVal::Num(n));
            },
            None => {
                rw.clear_cols.push(col);
            },
        }
    }
    assert(rw@.cells =~= before.cells + num_change(templates(tpl@), *fields, key@, col, whole));
    assert(rw@.clear =~= before.clear + num_clear(*fields, key@, col));
}

/// What is written into the row of a member.
#[verifier::rlimit(40)]
fn change_row(tpl: &BTreeMap<u32, CellTpl>, row: u32, fields: &Fields) -> (r: RowWrite)
    ensures
        r@ == change_put(templates(tpl@), row, *fields),
{
    let ghost t = templates(tpl@);
    let mut rw = RowWrite::new(row);
    assert(rw@.cells =~= Seq::<CellPut>::empty());
    assert(rw@.formulas =~= Seq::<CellPut>::empty());
    assert(rw@.clear =~= Seq::<u32>::empty());
    change_text(&mut rw, tpl, fields, "name", 2);
    assert(rw@.cells =~= text_change(t, *fields, "name"@, 2));
    change_text(&mut rw, tpl, fields, "phone", 3);
    change_text(&mut rw, tpl, fields, "teacher", 4);
    change_text(&mut rw, tpl, fields, "member_type", 5);
    change_text(&mut rw, tpl, fields, "card_type", 6);
    change_day(&mut rw, tpl, fields, "purchase_date", 7);
    change_day(&mut rw, tpl, fields, "activation_date", 8);
    change_day(&mut rw, tpl, fields, "expiry_date", 9);
    change_num(&mut rw, tpl, fields, "amount", 10, false);
    assert(rw@.clear =~= num_clear(*fields, "amount"@, 10));
    change_num(&mut rw, tpl, fields, "receivable", 11, false);
    change_num(&mut rw, tpl, fields, "total_sessions", 13, true);
    let ghost before = rw@;
    if fields.get("remark").is_some() {
        let remark = fields.get_text("remark");
        if chars_of(remark.as_str()).len() > 0 {
            push_cell(&mut rw, tpl, 23, CellVal::Text(remark));
        } else {
            rw.clear_cols.push(23);
        }
    }
    proof {
        assert(rw@.cells =~= before.cells + text_cell(t, 23, fields.text("remark"@)));
        assert(rw@.clear =~= before.clear + (if fields.value("remark"@) is Some && fields.text(
            "remark"@,
        ).len() == 0 {
            seq![23u32]
        } else {
            Seq::empty()
        }));
    }
    let ghost before = rw@;
    if fields.get("refund").is_some() {
        if fields.get_flag("refund") {
            push_cell(&mut rw, tpl, 22, CellVal::Text(String::from_str("是")));
        } else {
            rw.clear_cols.push(22);
        }
    }
    proof {
        let refund = fields.value("refund"@) is Some;
        assert(rw@.cells =~= before.cells + (if refund && fields.flag("refund"@) {
            seq![text_put(t, 22, "是"@)]
        } else {
            Seq::empty()
        }));
        assert(rw@.clear =~= before.clear + (if refund && !fields.flag("refund"@) {
            seq![22u32]
        } else {
            Seq::empty()
        }));
    }
    rw
}

// --------------------------------------------------------------- adding a class
/// The integer that a running number stands for.
pub open spec fn seq_int(q: SeqVal) -> Option<int> {
    match q {
        SeqVal::Null => None,
        SeqVal::Int(i) => Some(i),
        SeqVal::Real(n) => Some(whole_part(n)),
        SeqVal::Text(t) => signed_value(trimmed(t)),
    }
}

/// The largest running number; zero where there is none above it.
pub open spec fn largest_seq(classes: Seq<ClassRow>) -> int
    decreases classes.len(),
{
    if classes.len() == 0 {
        0
    } else {
        let before = largest_seq(classes.drop_last());
        match seq_int(classes.last().seq) {
            Some(n) if n > before => n,
            _ => before,
        }
    }
}

/// Whether there is a running number left for a class, where it is not refused before it needs one.
pub open spec fn seq_left(s: Book, body: Fields) -> bool {
    ({
        &&& member_from(s.members, 0, body.text("member_id"@)) is Some
        &&& date_value(body.text("date"@)) is Some
        &&& free_from(class_places(s.classes), 2, RECORDS_MAX_ROW as int) is Some
    }) ==> largest_seq(s.classes) < i64::MAX
}

/// The time of day of a new class in seconds: the one that is asked for, and otherwise `now`.
pub open spec fn class_time(body: Fields, now: int) -> int {
    match time_value(body.text("time"@)) {
        Some(n) => n,
        None => now,
    }
}

/// The time of day of a new class in seconds; as a fraction of the day it is this number over 86400.
pub fn class_seconds(body: &Fields, now: u32) -> (r: u32)
    ensures
        r == class_time(*body, now as int),
{
    let t = body.get_text("time");
    match parse_time_frac(t.as_str()) {
        Some(n) => n,
        None => now,
    }
}

/// What is written for a new class; `time` is the time of day as a fraction of the day.
pub open spec fn class_put(
    tpl: Map<u32, Template>,
    row: u32,
    seq: int,
    id: Seq<char>,
    day: (int, Seq<char>),
    time: Seq<char>,
    body: Fields,
) -> RowPut {
    RowPut {
        row,
        cells: seq![
            num_put(tpl, 1, signed_decimal(seq)),
            text_put(tpl, 2, id),
            day_put(tpl, 4, day),
            num_put(tpl, 5, time),
        ] + text_cell(tpl, 12, body.text("course"@)) + (if body.flag("effect"@) {
            seq![text_put(tpl, 13, "1"@)]
        } else {
            Seq::empty()
        }) + text_cell(tpl, 14, body.text("remark"@)),
        clear: Seq::empty(),
        formulas: formulas_of(tpl, 3, 11, row),
        insert: true,
    }
}

/// The workbook after a class was added.
pub open spec fn class_added(s: Book, body: Fields, time: Seq<char>) -> (Book, Result<(), Fault>) {
    let id = body.text("member_id"@);
    if member_from(s.members, 0, id) is None {
        (s, Err(Fault::Biz("会员编号不存在: "@ + id)))
    } else {
        match date_value(body.text("date"@)) {
            None => (s, Err(Fault::Biz("上课日期无效"@))),
            Some(day) => match free_from(class_places(s.classes), 2, RECORDS_MAX_ROW as int) {
                None => (s, Err(Fault::Biz("上课记录已满（1000 行）"@))),
                Some(row) => {
                    let put = class_put(
                        s.tpl_class,
                        row as u32,
                        largest_seq(s.classes) + 1,
                        id,
                        day,
                        time,
                        body,
                    );
                    sheet_patched(s, s.sheet_class, seq![put])
                },
            },
        }
    }
}

/// What is done to the row of a class that is deleted; its formulas stay.
pub open spec fn delete_put(row: u32) -> RowPut {
    RowPut {
        row,
        cells: Seq::empty(),
        clear: seq![1u32, 2, 4, 5, 12, 13, 14],
        formulas: Seq::empty(),
        insert: false,
    }
}

/// The workbook after a class was deleted.
pub open spec fn class_deleted(s: Book, row: u32) -> (Book, Result<(), Fault>) {
    if !(2 <= row <= RECORDS_MAX_ROW) {
        (s, Err(Fault::Biz("行号无效"@)))
    } else if !class_places(s.classes).contains(row) {
        (s, Err(Fault::Biz("该行没有上课记录"@)))
    } else {
        sheet_patched(s, s.sheet_class, seq![delete_put(row)])
    }
}

/// What is written for a new class.
fn class_row(
    tpl: &BTreeMap<u32, CellTpl>,
    row: u32,
    seq: i64,
    id: &str,
    day: &Date,
    time: &Number,
    body: &Fields,
) -> (r: RowWrite)
    ensures
        r@ == class_put(templates(tpl@), row, seq as int, id@, day@, time@, *body),
{
    let ghost t = templates(tpl@);
    let mut rw = RowWrite::new(row);
    rw.insert_if_absent = true;
    assert(rw@.cells =~= Seq::<CellPut>::empty());
    assert(rw@.formulas =~= Seq::<CellPut>::empty());
    assert(rw@.clear =~= Seq::<u32>::empty());
    push_cell(&mut rw, tpl, 1, CellVal::Num(Number::whole(seq)));
    push_cell(&mut rw, tpl, 2, CellVal::Text(String::from_str(id)));
    push_cell(&mut rw, tpl, 4, CellVal::Num(Number::whole(excel_serial(day))));
    push_cell(&mut rw, tpl, 5, CellVal::Num(time.copy()));
    proof {
        let first = seq![
            num_put(t, 1, signed_decimal(seq as int)),
            text_put(t, 2, id@),
            day_put(t, 4, day@),
            num_put(t, 5, time@),
        ];
        assert(rw@.cells =~= first);
    }
    push_text_cell(&mut rw, tpl, 12, body.get_text("course"));
    let ghost before = rw@;
    if body.get_flag("effect") {
        push_cell(&mut rw, tpl, 13, CellVal::Text(String::from_str("1")));
    }
    assert(rw@.cells =~= before.cells + (if body.flag("effect"@) {
        seq![text_put(t, 13, "1"@)]
    } else {
        Seq::empty()
    }));
    push_text_cell(&mut rw, tpl, 14, body.get_text("remark"));
    push_formulas(&mut rw, tpl, 3, 11);
    assert(rw@.formulas =~= formulas_of(t, 3, 11, row));
    rw
}

/// The integer that a running number stands for.
fn seq_number(q: &SeqNo) -> (r: Option<i64>)
    ensures
        match seq_int(q@) {
            Some(n) => r matches Some(v) && v == n,
            None => r is None,
        },
{
    match q {
        SeqNo::Null => None,
        SeqNo::Int(i) => Some(*i),
        SeqNo::Real(n) => Some(n.to_i64()),
        SeqNo::Text(t) => {
            let s = trim(t.as_str());
            read_i64(s.as_str())
        },
    }
}

impl Store {
    /// The place of the first member with a number.
    pub fn find_member(&self, id: &str) -> (r: Option<usize>)
        ensures
            match member_from(self@.members, 0, id@) {
                Some(k) => r matches Some(i) && i == k && i < self.members@.len(),
                None => r is None,
            },
    {
        let mut i: usize = 0;
        while i < self.members.len()
            invariant
                i <= self.members@.len(),
                member_from(self@.members, 0, id@) == member_from(self@.members, i as int, id@),
            decreases self.members@.len() - i,
        {
            if same_text(self.members[i].id.as_str(), id) {
                return Some(i);
            }
            i = i + 1;
        }
        None
    }

    /// Changes the fields of a member that are given.
    #[verifier::rlimit(40)]
    pub fn update_member(&mut self, mid: &str, fields: &Fields) -> (r: Result<(), StoreError>)
        requires
            old(self).wf(),
        ensures
            final(self).wf(),
            final(self)@ == member_changed(old(self)@, mid@, *fields).0,
            done(r) == member_changed(old(self)@, mid@, *fields).1,
            r is Ok ==> holds_parts(final(self)@),
    {
        let row: u32 = match self.find_member(mid) {
            Some(i) => self.members[i].row,
            None => {
                return Err(StoreError::Biz(join2("会员不存在: ", mid)));
            },
        };
        let rw = change_row(&self.tpl_archive, row, fields);
        let mut writes: Vec<RowWrite> = Vec::new();
        writes.push(rw);
        assert(puts(writes@) =~= seq![rw@]);
        let ghost tpl = templates(self.tpl_archive@);
        if fields.get_flag("refund") && !self.refund_header_present {
            let mut header = RowWrite::new(1);
            assert(header@.cells =~= Seq::<CellPut>::empty());
            push_cell(
                &mut header,
                &self.tpl_archive,
                22,
                CellVal::Text(String::from_str("退卡")),
            );
            proof {
                assert(header@.cells =~= header_put(tpl).cells);
                assert(header@.clear =~= Seq::<u32>::empty());
                assert(header@.formulas =~= Seq::<CellPut>::empty());
            }
            writes.push(header);
            assert(puts(writes@) =~= seq![rw@, header_put(tpl)]);
            self.refund_header_present = true;
        }
        let sheet = self.sheet_archive.clone();
        self.patch_sheet(sheet.as_str(), &writes)
    }

    /// The largest running number.
    pub fn max_seq(&self) -> (r: i64)
        ensures
            r == largest_seq(self@.classes),
            0 <= r,
    {
        let ghost all = self@.classes;
        let mut max: i64 = 0;
        let mut i: usize = 0;
        assert(all.take(0) =~= Seq::<ClassRow>::empty());
        while i < self.classes.len()
            invariant
                i <= self.classes@.len(),
                all == self@.classes,
                0 <= max,
                max == largest_seq(all.take(i as int)),
            decreases self.classes@.len() - i,
        {
            assert(all.take(i + 1).drop_last() =~= all.take(i as int));
            if let Some(v) = seq_number(&self.classes[i].seq) {
                if v > max {
                    max = v;
                }
            }
            i = i + 1;
        }
        assert(all.take(i as int) =~= all);
        max
    }

    /// Whether there is a running number left for a class, where it is not refused before it needs
    /// one.
    pub fn has_seq_left(&self, body: &Fields) -> (r: bool)
        ensures
            r == seq_left(self@, *body),
    {
        let id = body.get_text("member_id");
        if self.find_member(id.as_str()).is_none() {
            return true;
        }
        let day_text = body.get_text("date");
        if parse_date_str(day_text.as_str()).is_none() {
            return true;
        }
        let used = self.class_rows_used();
        if Store::first_empty_row(used.as_slice(), RECORDS_MAX_ROW).is_none() {
            return true;
        }
        self.max_seq() < i64::MAX
    }

    /// Adds a class; `time` is the time of day as a fraction of the day.
    pub fn add_class(&mut self, body: &Fields, time: &Number) -> (r: Result<(), StoreError>)
        requires
            old(self).wf(),
            seq_left(old(self)@, *body),
        ensures
            final(self).wf(),
            final(self)@ == class_added(old(self)@, *body, time@).0,
            done(r) == class_added(old(self)@, *body, time@).1,
            r is Ok ==> holds_parts(final(self)@),
    {
        let id = body.get_text("member_id");
        if self.find_member(id.as_str()).is_none() {
            return Err(StoreError::Biz(join2("会员编号不存在: ", id.as_str())));
        }
        let day_text = body.get_text("date");
        let day = match parse_date_str(day_text.as_str()) {
            Some(d) => d,
            None => {
                return Err(StoreError::Biz(String::from_str("上课日期无效")));
            },
        };
        let used = self.class_rows_used();
        let row: u32 = match Store::first_empty_row(used.as_slice(), RECORDS_MAX_ROW) {
            Some(n) => n,
            None => {
                return Err(StoreError::Biz(String::from_str("上课记录已满（1000 行）")));
            },
        };
        let seq: i64 = self.max_seq() + 1;
        let rw = class_row(&self.tpl_class, row, seq, id.as_str(), &day, time, body);
        let mut writes: Vec<RowWrite> = Vec::new();
        writes.push(rw);
        assert(puts(writes@) =~= seq![rw@]);
        let sheet = self.sheet_class.clone();
        self.patch_sheet(sheet.as_str(), &writes)
    }

    /// Adds a class where there is a running number left for it; otherwise everything stays as it is.
    pub fn try_add_class(&mut self, body: &Fields, time: &Number) -> (r: Option<
        Result<(), StoreError>,
    >)
        requires
            old(self).wf(),
        ensures
            final(self).wf(),
            r is Some == seq_left(old(self)@, *body),
            r is None ==> final(self)@ == old(self)@,
            r matches Some(x) ==> {
                &&& final(self)@ == class_added(old(self)@, *body, time@).0
                &&& done(x) == class_added(old(self)@, *body, time@).1
                &&& x is Ok ==> holds_parts(final(self)@)
            },
    {
        if self.has_seq_left(body) {
            Some(self.add_class(body, time))
        } else {
            None
        }
    }

    /// Deletes the class in a row.
    pub fn delete_class(&mut self, row: u32) -> (r: Result<(), StoreError>)
        requires
            old(self).wf(),
        ensures
            final(self).wf(),
            final(self)@ == class_deleted(old(self)@, row).0,
            done(r) == class_deleted(old(self)@, row).1,
            r is Ok ==> holds_parts(final(self)@),
    {
        if row < 2 || row > RECORDS_MAX_ROW {
            return Err(StoreError::Biz(String::from_str("行号无效")));
        }
        let used = self.class_rows_used();
        if !is_used(used.as_slice(), row) {
            return Err(StoreError::Biz(String::from_str("该行没有上课记录")));
        }
        let mut rw = RowWrite::new(row);
        rw.clear_cols.push(1);
        rw.clear_cols.push(2);
        rw.clear_cols.push(4);
        rw.clear_cols.push(5);
        rw.clear_cols.push(12);
        rw.clear_cols.push(13);
        rw.clear_cols.push(14);
        proof {
            assert(rw@.cells =~= Seq::<CellPut>::empty());
            assert(rw@.formulas =~= Seq::<CellPut>::empty());
            assert(rw@.clear =~= delete_put(row).clear);
        }
        let mut writes: Vec<RowWrite> = Vec::new();
        writes.push(rw);
        assert(puts(writes@) =~= seq![delete_put(row)]);
        let sheet = self.sheet_class.clone();
        self.patch_sheet(sheet.as_str(), &writes)
    }
}

// ---------------------------------------------------------------------- loading
/// Why bytes could not be loaded.
#[derive(Debug)]
pub enum LoadError {
    /// What is wrong with the workbook.
    Message(String),
    /// A part of the workbook has a name that an archive cannot hold when it is written.
    NameTooLong,
}

/// What a workbook holds besides its parts.
pub struct Contents {
    pub members: Vec<RawMember>,
    pub classes: Vec<RawClass>,
    pub refund_header_present: bool,
    pub tpl_archive: BTreeMap<u32, CellTpl>,
    pub tpl_class: BTreeMap<u32, CellTpl>,
    pub sheet_archive: String,
    pub sheet_class: String,
}

/// What a workbook holds besides its parts, by its values.
pub ghost struct ContentsView {
    pub ledger: Ledger,
    pub tpl_archive: Map<u32, Template>,
    pub tpl_class: Map<u32, Template>,
    pub sheet_archive: Seq<char>,
    pub sheet_class: Seq<char>,
}

impl View for Contents {
    type V = ContentsView;

    open spec fn view(&self) -> ContentsView {
        ContentsView {
            ledger: Ledger {
                members: member_rows(self.members@),
                classes: class_rows(self.classes@),
                refund_header: self.refund_header_present,
            },
            tpl_archive: templates(self.tpl_archive@),
            tpl_class: templates(self.tpl_class@),
            sheet_archive: self.sheet_archive@,
            sheet_class: self.sheet_class@,
        }
    }
}

/// The data of a part, or the message that it is missing.
pub open spec fn part_data(p: Seq<Part>, name: Seq<char>) -> Result<Seq<u8>, Seq<char>> {
    match part_from(p, 0, name) {
        Some(i) => Ok(p[i].data),
        None => Err("missing part "@ + name),
    }
}

/// What the workbook with the given bytes and parts holds, or what is wrong with it.
pub open spec fn contents_of(bytes: Seq<u8>, p: Seq<Part>) -> Result<ContentsView, Seq<char>> {
    match sheet_paths_of(p) {
        Err(e) => Err(e),
        Ok(paths) => if !paths.contains_key(SHEET_ARCHIVE@) {
            Err(missing_sheet_text(SHEET_ARCHIVE@))
        } else if !paths.contains_key(SHEET_RECORDS@) {
            Err(missing_sheet_text(SHEET_RECORDS@))
        } else {
            match ledger_in(bytes) {
                Err(e) => Err(e),
                Ok(ledger) => match part_data(p, paths[SHEET_ARCHIVE@]) {
                    Err(e) => Err(e),
                    Ok(archive) => match part_data(p, paths[SHEET_RECORDS@]) {
                        Err(e) => Err(e),
                        Ok(records) => Ok(
                            ContentsView {
                                ledger,
                                tpl_archive: row_templates_of(archive, 2),
                                tpl_class: row_templates_of(records, 2),
                                sheet_archive: paths[SHEET_ARCHIVE@],
                                sheet_class: paths[SHEET_RECORDS@],
                            },
                        ),
                    },
                },
            }
        },
    }
}

/// The workbook that is loaded from bytes and their parts, or what is wrong with it.
pub open spec fn loaded(bytes: Seq<u8>, p: Seq<Part>, recoverable: Option<Seq<char>>) -> Result<
    Book,
    Seq<char>,
> {
    match contents_of(bytes, p) {
        Err(e) => Err(e),
        Ok(c) => match packed(final_parts(p)) {
            Err(e) => Err(e),
            Ok(doc) => Ok(
                Book {
                    parts: p,
                    doc,
                    members: c.ledger.members,
                    classes: c.ledger.classes,
                    tpl_archive: c.tpl_archive,
                    tpl_class: c.tpl_class,
                    sheet_archive: c.sheet_archive,
                    sheet_class: c.sheet_class,
                    refund_header: c.ledger.refund_header,
                    pending: false,
                    pending_reason: None,
                    last_saved: None,
                    recoverable,
                },
            ),
        },
    }
}

/// The workbook in memory after it was loaded again. Where the parts cannot be packed, only the
/// templates and the names of the worksheets' parts are those of the new workbook.
pub open spec fn reloaded(s: Book, bytes: Seq<u8>, p: Seq<Part>) -> (Book, Result<(), Seq<char>>) {
    match contents_of(bytes, p) {
        Err(e) => (s, Err(e)),
        Ok(c) => {
            let partly = Book {
                tpl_archive: c.tpl_archive,
                tpl_class: c.tpl_class,
                sheet_archive: c.sheet_archive,
                sheet_class: c.sheet_class,
                ..s
            };
            match packed(final_parts(p)) {
                Err(e) => (partly, Err(e)),
                Ok(doc) => (
                    Book {
                        parts: p,
                        doc,
                        members: c.ledger.members,
                        classes: c.ledger.classes,
                        refund_header: c.ledger.refund_header,
                        pending: false,
                        pending_reason: None,
                        last_saved: None,
                        ..partly
                    },
                    Ok(()),
                ),
            }
        },
    }
}

/// The templates of a worksheet.
fn sheet_templates(entries: &[Entry], name: &str) -> (r: Result<BTreeMap<u32, CellTpl>, String>)
    ensures
        match part_data(parts(entries@), name@) {
            Ok(d) => r matches Ok(t) && templates(t@) == row_templates_of(d, 2),
            Err(e) => r matches Err(t) && t@ == e,
        },
{
    proof {
        lemma_part_from(parts(entries@), 0, name@);
    }
    match find_entry(entries, name) {
        Some(x) => Ok(row_templates(x.data.as_slice(), 2)),
        None => Err(join2("missing part ", name)),
    }
}

/// Reads what a workbook holds besides its parts.
pub fn read_contents(bytes: &[u8], entries: &[Entry]) -> (r: Result<Contents, String>)
    ensures
        match contents_of(bytes@, parts(entries@)) {
            Ok(c) => r matches Ok(x) && x@ == c,
            Err(e) => r matches Err(t) && t@ == e,
        },
{
    let paths = match sheet_paths(entries) {
        Ok(p) => p,
        Err(e) => {
            return Err(e);
        },
    };
    let sheet_archive = match paths.get(SHEET_ARCHIVE) {
        Some(p) => p.clone(),
        None => {
            return Err(join2("该表格缺少工作表：", SHEET_ARCHIVE));
        },
    };
    let sheet_class = match paths.get(SHEET_RECORDS) {
        Some(p) => p.clone(),
        None => {
            return Err(join2("该表格缺少工作表：", SHEET_RECORDS));
        },
    };
    let (members, classes, refund_header_present) = match read_raw(bytes) {
        Ok(x) => x,
        Err(e) => {
            return Err(e);
        },
    };
    let tpl_archive = match sheet_templates(entries, sheet_archive.as_str()) {
        Ok(t) => t,
        Err(e) => {
            return Err(e);
        },
    };
    let tpl_class = match sheet_templates(entries, sheet_class.as_str()) {
        Ok(t) => t,
        Err(e) => {
            return Err(e);
        },
    };
    Ok(
        Contents {
            members,
            classes,
            refund_header_present,
            tpl_archive,
            tpl_class,
            sheet_archive,
            sheet_class,
        },
    )
}

impl Store {
    /// Loads a workbook from its bytes and the parts in them.
    pub fn from_entries(
        bytes: &[u8],
        entries: Vec<Entry>,
        recoverable: Option<String>,
    ) -> (r: Result<Store, String>)
        requires
            names_fit(parts(entries@)),
        ensures
            match loaded(bytes@, parts(entries@), text_view(recoverable)) {
                Ok(b) => r matches Ok(s) && s@ == b && s.wf() && holds_parts(b),
                Err(e) => r matches Err(t) && t@ == e,
            },
    {
        match read_contents(bytes, entries.as_slice()) {
            Err(e) => Err(e),
            Ok(c) => match finalize_and_write(entries.as_slice()) {
                Err(e) => Err(e),
                Ok(doc_bytes) => Ok(
                    Store {
                        entries,
                        doc_bytes,
                        members: c.members,
                        classes: c.classes,
                        tpl_archive: c.tpl_archive,
                        tpl_class: c.tpl_class,
                        sheet_archive: c.sheet_archive,
                        sheet_class: c.sheet_class,
                        refund_header_present: c.refund_header_present,
                        pending: false,
                        pending_reason: None,
                        last_saved: None,
                        recoverable,
                    },
                ),
            },
        }
    }

    /// Loads a workbook from its bytes. A workbook with a part whose name is too long to be written
    /// again is not loaded.
    pub fn from_bytes(bytes: &[u8], recoverable: Option<String>) -> (r: Result<Store, LoadError>)
        ensures
            match parts_in(bytes@) {
                Err(e) => r matches Err(LoadError::Message(t)) && t@ == e,
                Ok(p) => if !names_fit(p) {
                    r matches Err(LoadError::NameTooLong)
                } else {
                    match loaded(bytes@, p, text_view(recoverable)) {
                        Ok(b) => r matches Ok(s) && s@ == b && s.wf() && holds_parts(b) && are_files(
                            b.parts,
                        ),
                        Err(e) => r matches Err(LoadError::Message(t)) && t@ == e,
                    }
                },
            },
    {
        let entries = match read_entries(bytes) {
            Ok(v) => v,
            Err(e) => {
                return Err(LoadError::Message(e));
            },
        };
        if !names_short(entries.as_slice()) {
            return Err(LoadError::NameTooLong);
        }
        match Store::from_entries(bytes, entries, recoverable) {
            Ok(s) => Ok(s),
            Err(e) => Err(LoadError::Message(e)),
        }
    }

    /// Loads the workbook again from its bytes and the parts in them.
    pub fn reload_entries(&mut self, bytes: &[u8], entries: Vec<Entry>) -> (r: Result<(), String>)
        requires
            old(self).wf(),
            names_fit(parts(entries@)),
        ensures
            final(self).wf(),
            final(self)@ == reloaded(old(self)@, bytes@, parts(entries@)).0,
            match reloaded(old(self)@, bytes@, parts(entries@)).1 {
                Ok(_) => r is Ok && holds_parts(final(self)@),
                Err(e) => r matches Err(t) && t@ == e,
            },
    {
        match read_contents(bytes, entries.as_slice()) {
            Err(e) => Err(e),
            Ok(c) => {
                self.tpl_archive = c.tpl_archive;
                self.tpl_class = c.tpl_class;
                self.sheet_archive = c.sheet_archive;
                self.sheet_class = c.sheet_class;
                match finalize_and_write(entries.as_slice()) {
                    Err(e) => Err(e),
                    Ok(doc) => {
                        self.doc_bytes = doc;
                        self.entries = entries;
                        self.members = c.members;
                        self.classes = c.classes;
                        self.refund_header_present = c.refund_header_present;
                        self.pending = false;
                        self.pending_reason = None;
                        self.last_saved = None;
                        Ok(())
                    },
                }
            },
        }
    }

    /// Loads the workbook again from its bytes. Where a part has a name that is too long to be
    /// written again, everything stays as it is.
    pub fn reload_file(&mut self, bytes: &[u8]) -> (r: Result<(), LoadError>)
        requires
            old(self).wf(),
        ensures
            final(self).wf(),
            match parts_in(bytes@) {
                Err(e) => final(self)@ == old(self)@ && (r matches Err(LoadError::Message(t)) && t@
                    == e),
                Ok(p) => if !names_fit(p) {
                    final(self)@ == old(self)@ && (r matches Err(LoadError::NameTooLong))
                } else {
                    &&& final(self)@ == reloaded(old(self)@, bytes@, p).0
                    &&& match reloaded(old(self)@, bytes@, p).1 {
                        Ok(_) => r is Ok && holds_parts(final(self)@) && are_files(
                            final(self)@.parts,
                        ),
                        Err(e) => r matches Err(LoadError::Message(t)) && t@ == e,
                    }
                },
            },
    {
        let entries = match read_entries(bytes) {
            Ok(v) => v,
            Err(e) => {
                return Err(LoadError::Message(e));
            },
        };
        if !names_short(entries.as_slice()) {
            return Err(LoadError::NameTooLong);
        }
        match self.reload_entries(bytes, entries) {
            Ok(_) => Ok(()),
            Err(e) => Err(LoadError::Message(e)),
        }
    }
}

// ----------------------------------------------------------------------- saving
/// What is said while the workbook is open elsewhere.
pub const OCCUPIED_MSG: &'static str =
    "表格文件正被 Excel/WPS 打开，暂存于服务中；请关闭文件后点击“重试保存”。";

/// What came of writing the workbook.
pub enum SaveOutcome {
    /// The file was written; the time is given.
    Written(String),
    /// Another program keeps the file from being written.
    Denied,
    /// Something else went wrong; its message is given.
    Failed(String),
}

/// The workbook in memory after an attempt to write it, and whether it is saved.
pub open spec fn saved(s: Book, outcome: SaveOutcome) -> (Book, Result<bool, Fault>) {
    match outcome {
        SaveOutcome::Written(ts) => (
            Book {
                pending: false,
                pending_reason: None,
                last_saved: Some(ts@),
                recoverable: None,
                ..s
            },
            Ok(true),
        ),
        SaveOutcome::Denied => (
            Book { pending: true, pending_reason: Some(OCCUPIED_MSG@), ..s },
            Ok(false),
        ),
        SaveOutcome::Failed(e) => (s, Err(Fault::Sys("OSError: "@ + e@))),
    }
}

/// The outcome of saving by its message.
pub open spec fn saved_view(r: Result<bool, StoreError>) -> Result<bool, Fault> {
    match r {
        Ok(b) => Ok(b),
        Err(e) => Err(e@),
    }
}

impl Store {
    /// Whether the file on disk is to be kept as a version before the workbook is written over it:
    /// not while an earlier change still waits to be written.
    pub fn snapshot_first(&self) -> (r: bool)
        ensures
            r == !self@.pending,
    {
        !self.pending
    }

    /// Takes note of what came of writing the workbook.
    pub fn save(&mut self, outcome: SaveOutcome) -> (r: Result<bool, StoreError>)
        requires
            old(self).wf(),
        ensures
            final(self).wf(),
            final(self)@ == saved(old(self)@, outcome).0,
            saved_view(r) == saved(old(self)@, outcome).1,
    {
        match outcome {
            SaveOutcome::Written(ts) => {
                self.pending = false;
                self.pending_reason = None;
                self.last_saved = Some(ts);
                self.recoverable = None;
                Ok(true)
            },
            SaveOutcome::Denied => {
                self.pending = true;
                self.pending_reason = Some(String::from_str(OCCUPIED_MSG));
                Ok(false)
            },
            SaveOutcome::Failed(e) => Err(StoreError::Sys(join2("OSError: ", e.as_str()))),
        }
    }

    /// Whether the workbook may be loaded again from disk: not while a change waits to be written.
    pub fn reload_from_disk(&self) -> (r: Result<(), StoreError>)
        ensures
            done(r) == (if self@.pending {
                Err(Fault::Biz("存在未保存的变更，不能重载（请先关闭表格并重试保存）"@))
            } else {
                Ok(())
            }),
    {
        if self.pending {
            Err(
                StoreError::Biz(
                    String::from_str("存在未保存的变更，不能重载（请先关闭表格并重试保存）"),
                ),
            )
        } else {
            Ok(())
        }
    }

    /// Whether changes that could not be saved can be taken up again, where `there` says whether
    /// the file with them is there.
    pub fn may_recover(&self, there: bool) -> (r: Result<(), StoreError>)
        ensures
            done(r) == (if !there || self@.recoverable is None {
                Err(Fault::Biz("没有可恢复的挂起变更"@))
            } else {
                Ok(())
            }),
    {
        if !there || self.recoverable.is_none() {
            Err(StoreError::Biz(String::from_str("没有可恢复的挂起变更")))
        } else {
            Ok(())
        }
    }

    /// Takes up the changes that could not be saved, once their file stands in the place of the
    /// workbook: `bytes` is its content, and `ts` the time.
    pub fn recover_pending(&mut self, bytes: &[u8], ts: String) -> (r: Result<(), LoadError>)
        requires
            old(self).wf(),
        ensures
            final(self).wf(),
            ({
                let cleared = Book { recoverable: None, ..old(self)@ };
                match parts_in(bytes@) {
                    Err(e) => final(self)@ == cleared && (r matches Err(LoadError::Message(t))
                        && t@ == e),
                    Ok(p) => if !names_fit(p) {
                        final(self)@ == cleared && (r matches Err(LoadError::NameTooLong))
                    } else {
                        let (after, outcome) = reloaded(cleared, bytes@, p);
                        match outcome {
                            Ok(_) => r is Ok && holds_parts(final(self)@) && final(self)@ == (Book {
                                last_saved: Some(ts@),
                                ..after
                            }),
                            Err(e) => final(self)@ == after && (r matches Err(
                                LoadError::Message(t),
                            ) && t@ == e),
                        }
                    },
                }
            }),
    {
        self.recoverable = None;
        match self.reload_file(bytes) {
            Err(e) => Err(e),
            Ok(_) => {
                self.last_saved = Some(ts);
                Ok(())
            },
        }
    }

    /// Gives the changes up that could not be saved.
    pub fn discard_pending(&mut self)
        requires
            old(self).wf(),
        ensures
            final(self).wf(),
            final(self)@ == (Book { recoverable: None, ..old(self)@ }),
    {
        self.recoverable = None;
    }
}

/// What is answered where a file cannot be written: the given message where another program holds
/// it, and otherwise that of the system.
pub fn write_fault(denied: bool, held: &str, error: &str) -> (r: StoreError)
    ensures
        r@ == (if denied {
            Fault::Biz(held@)
        } else {
            Fault::Sys("OSError: "@ + error@)
        }),
{
    if denied {
        StoreError::Biz(String::from_str(held))
    } else {
        StoreError::Sys(join2("OSError: ", error))
    }
}

/// Saving and then saving again changes nothing more; what was written is no longer waited for.
pub proof fn law_save_settles(s: Book, ts: String)
    ensures
        ({
            let once = saved(s, SaveOutcome::Written(ts));
            &&& once.1 == Ok::<bool, Fault>(true)
            &&& !once.0.pending && once.0.pending_reason is None && once.0.recoverable is None
            &&& saved(once.0, SaveOutcome::Written(ts)) == once
        }),
{
}

/// Saving touches neither the workbook nor what was read from it, whatever comes of it.
pub proof fn law_save_keeps_workbook(s: Book, outcome: SaveOutcome)
    ensures
        ({
            let after = saved(s, outcome).0;
            &&& after.parts == s.parts && after.doc == s.doc
            &&& after.members == s.members && after.classes == s.classes
            &&& after.tpl_archive == s.tpl_archive && after.tpl_class == s.tpl_class
            &&& after.refund_header == s.refund_header
        }),
{
}

/// A request that is refused because it does not fit the ledger leaves the workbook as it is.
pub proof fn law_refusal_changes_nothing(
    s: Book,
    body: Fields,
    today: (int, Seq<char>),
    time: Seq<char>,
    id: Seq<char>,
    row: u32,
)
    ensures
        member_added(s, body, today).1 matches Err(Fault::Biz(_)) ==> member_added(s, body, today).0
            == s,
        member_changed(s, id, body).1 matches Err(Fault::Biz(_)) ==> member_changed(s, id, body).0
            == s,
        class_added(s, body, time).1 matches Err(Fault::Biz(_)) ==> class_added(s, body, time).0
            == s,
        class_deleted(s, row).1 matches Err(Fault::Biz(_)) ==> class_deleted(s, row).0 == s,
{
}

/// A change of rows touches no part but that of the worksheet: all parts keep their names and their
/// order, and all others their bytes.
pub proof fn law_change_touches_one_part(s: Book, sheet: Seq<char>, ws: Seq<RowPut>)
    ensures
        ({
            let after = sheet_patched(s, sheet, ws).0;
            &&& after.parts.len() == s.parts.len()
            &&& forall|i: int|
                0 <= i < s.parts.len() ==> (#[trigger] after.parts[i]).name == s.parts[i].name && (
                part_from(s.parts, 0, sheet) != Some(i) ==> after.parts[i] == s.parts[i])
            &&& after.tpl_archive == s.tpl_archive && after.tpl_class == s.tpl_class
            &&& after.sheet_archive == s.sheet_archive && after.sheet_class == s.sheet_class
            &&& after.pending == s.pending && after.last_saved == s.last_saved
        }),
{
    lemma_part_from(s.parts, 0, sheet);
}

/// The members and classes in memory are those that the bytes of the workbook hold.
pub open spec fn is_read(s: Book) -> bool {
    ledger_in(s.doc) == Ok::<Ledger, Seq<char>>(
        Ledger { members: s.members, classes: s.classes, refund_header: s.refund_header },
    )
}

/// After every change that succeeds, the members and classes in memory are those that the bytes of
/// the workbook hold.
pub proof fn law_changes_are_read(
    s: Book,
    body: Fields,
    today: (int, Seq<char>),
    time: Seq<char>,
    id: Seq<char>,
    row: u32,
)
    ensures
        member_added(s, body, today).1 is Ok ==> is_read(member_added(s, body, today).0),
        member_changed(s, id, body).1 is Ok ==> is_read(member_changed(s, id, body).0),
        class_added(s, body, time).1 is Ok ==> is_read(class_added(s, body, time).0),
        class_deleted(s, row).1 is Ok ==> is_read(class_deleted(s, row).0),
{
}

/// A part that holds a worksheet and nothing that packing may change.
pub open spec fn is_worksheet_part(p: Seq<Part>, name: Seq<char>) -> bool {
    &&& data_of(p, name) is Some
    &&& name != "xl/workbook.xml"@ && name != "xl/_rels/workbook.xml.rels"@
    &&& name != "xl/calcChain.xml"@ && name != "[Content_Types].xml"@
}

/// A workbook whose parts are as workbooks have them, whose two worksheets are where its parts say,
/// and whose bytes are those of its parts.
pub open spec fn is_whole(s: Book) -> bool {
    &&& is_plain_package(s.parts) && are_files(s.parts) && names_fit(s.parts)
    &&& is_worksheet_part(s.parts, s.sheet_archive) && is_worksheet_part(s.parts, s.sheet_class)
    &&& sheet_paths_of(s.parts) matches Ok(paths) && {
        &&& paths.contains_key(SHEET_ARCHIVE@) && paths[SHEET_ARCHIVE@] == s.sheet_archive
        &&& paths.contains_key(SHEET_RECORDS@) && paths[SHEET_RECORDS@] == s.sheet_class
    }
    &&& packed(final_parts(s.parts)) == Ok::<Seq<u8>, Seq<char>>(s.doc)
}

/// A workbook that is loaded is whole where its parts are as workbooks have them.
pub proof fn law_loaded_is_whole(bytes: Seq<u8>, p: Seq<Part>, recoverable: Option<Seq<char>>)
    requires
        loaded(bytes, p, recoverable) is Ok,
        is_plain_package(p) && are_files(p) && names_fit(p),
        is_worksheet_part(p, loaded(bytes, p, recoverable)->Ok_0.sheet_archive),
        is_worksheet_part(p, loaded(bytes, p, recoverable)->Ok_0.sheet_class),
    ensures
        is_whole(loaded(bytes, p, recoverable)->Ok_0),
{
}

/// A change of a worksheet's rows that succeeds leaves the workbook whole.
#[verifier::spinoff_prover]
#[verifier::rlimit(60)]
proof fn lemma_patch_keeps_whole(s: Book, sheet: Seq<char>, ws: Seq<RowPut>)
    requires
        is_whole(s),
        is_worksheet_part(s.parts, sheet),
        sheet_patched(s, sheet, ws).1 is Ok,
    ensures
        is_whole(sheet_patched(s, sheet, ws).0),
{
    let after = sheet_patched(s, sheet, ws).0;
    lemma_part_from(s.parts, 0, sheet);
    let i = part_from(s.parts, 0, sheet)->0;
    let data = patch_of(s.parts[i].data, ws)->Ok_0;
    assert(after.parts == with_data(s.parts, sheet, data));
    lemma_data_of_with(s.parts, sheet, data, "xl/workbook.xml"@);
    lemma_data_of_with(s.parts, sheet, data, "xl/_rels/workbook.xml.rels"@);
    lemma_data_of_with(s.parts, sheet, data, s.sheet_archive);
    lemma_data_of_with(s.parts, sheet, data, s.sheet_class);
    assert forall|k: int| 0 <= k < after.parts.len() implies !is_dir_name(
        (#[trigger] after.parts[k]).name,
    ) && encode_utf8(after.parts[k].name).len() <= 65535 by {
        assert(after.parts[k].name == s.parts[k].name);
        assert(!is_dir_name(s.parts[k].name));
    }
}

/// Every change that succeeds leaves a whole workbook whole, and the members and classes in memory
/// are then those of its bytes.
#[verifier::spinoff_prover]
#[verifier::rlimit(60)]
pub proof fn law_changes_keep_whole(
    s: Book,
    body: Fields,
    today: (int, Seq<char>),
    time: Seq<char>,
    id: Seq<char>,
    row: u32,
)
    requires
        is_whole(s),
    ensures
        member_added(s, body, today).1 is Ok ==> is_whole(member_added(s, body, today).0)
            && is_read(member_added(s, body, today).0),
        member_changed(s, id, body).1 is Ok ==> is_whole(member_changed(s, id, body).0) && is_read(
            member_changed(s, id, body).0,
        ),
        class_added(s, body, time).1 is Ok ==> is_whole(class_added(s, body, time).0) && is_read(
            class_added(s, body, time).0,
        ),
        class_deleted(s, row).1 is Ok ==> is_whole(class_deleted(s, row).0) && is_read(
            class_deleted(s, row).0,
        ),
{
    law_changes_are_read(s, body, today, time, id, row);
    if member_added(s, body, today).1 is Ok {
        lemma_added_member_whole(s, body, today);
    }
    if member_changed(s, id, body).1 is Ok {
        lemma_changed_member_whole(s, id, body);
    }
    if class_added(s, body, time).1 is Ok {
        lemma_added_class_whole(s, body, time);
    }
    if class_deleted(s, row).1 is Ok {
        lemma_patch_keeps_whole(s, s.sheet_class, seq![delete_put(row)]);
    }
}

#[verifier::spinoff_prover]
#[verifier::rlimit(60)]
proof fn lemma_added_member_whole(s: Book, body: Fields, today: (int, Seq<char>))
    requires
        is_whole(s),
        member_added(s, body, today).1 is Ok,
    ensures
        is_whole(member_added(s, body, today).0),
{
    let row = free_from(member_places(s.members), 2, ARCHIVE_MAX_ROW as int)->0;
    let id = new_id(s.members, body.text("phone"@), asked_base(body));
    let put = member_put(s.tpl_archive, row as u32, id, body, today);
    lemma_patch_keeps_whole(s, s.sheet_archive, seq![put]);
}

#[verifier::spinoff_prover]
#[verifier::rlimit(60)]
proof fn lemma_changed_member_whole(s: Book, id: Seq<char>, fields: Fields)
    requires
        is_whole(s),
        member_changed(s, id, fields).1 is Ok,
    ensures
        is_whole(member_changed(s, id, fields).0),
{
    let i = member_from(s.members, 0, id)->0;
    let put = change_put(s.tpl_archive, s.members[i].row, fields);
    if fields.flag("refund"@) && !s.refund_header {
        let marked = Book { refund_header: true, ..s };
        assert(is_whole(marked));
        lemma_patch_keeps_whole(marked, s.sheet_archive, seq![put, header_put(s.tpl_archive)]);
    } else {
        lemma_patch_keeps_whole(s, s.sheet_archive, seq![put]);
    }
}

#[verifier::spinoff_prover]
#[verifier::rlimit(60)]
proof fn lemma_added_class_whole(s: Book, body: Fields, time: Seq<char>)
    requires
        is_whole(s),
        class_added(s, body, time).1 is Ok,
    ensures
        is_whole(class_added(s, body, time).0),
{
    let id = body.text("member_id"@);
    let day = date_value(body.text("date"@))->0;
    let row = free_from(class_places(s.classes), 2, RECORDS_MAX_ROW as int)->0;
    let put = class_put(
        s.tpl_class,
        row as u32,
        largest_seq(s.classes) + 1,
        id,
        day,
        time,
        body,
    );
    lemma_patch_keeps_whole(s, s.sheet_class, seq![put]);
}

/// A whole workbook whose members and classes are those of its bytes can be loaded from these bytes
/// again: with the same members, classes, heading and worksheets, as a whole workbook of the same
/// bytes. After a change that succeeds, this is what the workbook is.
#[verifier::spinoff_prover]
#[verifier::rlimit(60)]
pub proof fn law_changed_workbook_loads_again(s: Book, recoverable: Option<Seq<char>>)
    requires
        is_whole(s),
        is_read(s),
        holds_parts(s),
        s.parts.len() < 65535,
        s.doc.len() < 0xffff_ffff,
    ensures
        parts_in(s.doc) matches Ok(p) && {
            &&& names_fit(p) && are_files(p)
            &&& loaded(s.doc, p, recoverable) matches Ok(again) && {
                &&& is_whole(again) && is_read(again)
                &&& again.doc == s.doc
                &&& again.members == s.members && again.classes == s.classes
                &&& again.refund_header == s.refund_header
                &&& again.sheet_archive == s.sheet_archive && again.sheet_class == s.sheet_class
            }
        },
{
    let p = final_parts(s.parts);
    lemma_final_files(s.parts);
    lemma_final_names(s.parts);
    law_packing_settles(s.parts);
    law_packing_keeps_worksheets(s.parts, SHEET_ARCHIVE@);
    law_packing_keeps_worksheets(s.parts, SHEET_RECORDS@);
    lemma_data_of_final(s.parts, s.sheet_archive);
    lemma_data_of_final(s.parts, s.sheet_class);
    assert(parts_in(s.doc) == Ok::<Seq<Part>, Seq<char>>(p));
}

/// Changes that could not be saved come back: a workbook that takes up the bytes which another one
/// held has its members, its classes and its heading, as it has them where these bytes are loaded,
/// and nothing is left to be taken up. It succeeds exactly where these bytes can be loaded.
pub proof fn law_held_changes_come_back(held: Book, s: Book, p: Seq<Part>)
    requires
        is_read(held),
        parts_in(held.doc) == Ok::<Seq<Part>, Seq<char>>(p),
    ensures
        ({
            let cleared = Book { recoverable: None, ..s };
            let (after, outcome) = reloaded(cleared, held.doc, p);
            &&& outcome is Ok == loaded(held.doc, p, None) is Ok
            &&& outcome is Ok ==> {
                &&& after.members == held.members && after.classes == held.classes
                &&& after.refund_header == held.refund_header
                &&& after.recoverable is None && !after.pending && after.pending_reason is None
                &&& loaded(held.doc, p, None) == Ok::<Book, Seq<char>>(after)
            }
        }),
{
}

/// Every column that is written for a new class is one that is cleared when a class is deleted.
pub proof fn law_delete_clears_what_add_writes(
    tpl: Map<u32, Template>,
    row: u32,
    seq: int,
    id: Seq<char>,
    day: (int, Seq<char>),
    time: Seq<char>,
    body: Fields,
    i: int,
)
    requires
        0 <= i < class_put(tpl, row, seq, id, day, time, body).cells.len(),
    ensures
        delete_put(row).clear.contains(class_put(tpl, row, seq, id, day, time, body).cells[i].col),
{
    let col = class_put(tpl, row, seq, id, day, time, body).cells[i].col;
    let clear = delete_put(row).clear;
    assert(clear[0] == 1 && clear[1] == 2 && clear[2] == 4 && clear[3] == 5 && clear[4] == 12
        && clear[5] == 13 && clear[6] == 14);
}

/// Deleting a class leaves no cell in its row in any column that is written for a new class, and it
/// leaves the cells of all other columns byte for byte as they are.
pub proof fn law_deleted_class_leaves_no_cells(b: Seq<u8>, e: (Tag, (int, int)), row: u32, col: u32)
    requires
        element_bounds(b, e),
        is_plain_row(b, e),
        is_row_at(b, e.0.at),
    ensures
        ({
            let after = rebuilt_row(b, e, delete_put(row));
            row_elem(after, 0, after.len() as int) matches Some(x) && cell_in(after, x, col) == (
            if delete_put(row).clear.contains(col) {
                None
            } else {
                cell_in(b, e, col)
            })
        }),
{
    let put = delete_put(row);
    law_cells_of_changed_row(b, e, put, col);
    if put.clear.contains(col) {
        lemma_cleared(kept_cells(b, e), put.clear, col);
    } else {
        law_unwritten_column(b, e, put, col);
    }
}

/// Whether a cell holds a formula that a request asks for.
pub open spec fn is_asked_formula(put: RowPut, col: u32, cell: Option<Seq<u8>>) -> bool {
    exists|i: int|
        0 <= i < put.formulas.len() && (#[trigger] put.formulas[i]).col == col && cell == Some(
            bytes(
                cell_text(col as nat, put.row as nat, put.formulas[i].val, put.formulas[i].style),
            ),
        )
}

/// Adding a class to a row and deleting it again leaves no cell in the columns that are cleared, and in
/// every other column the cell that was there or a formula that the class asked for.
pub proof fn law_added_class_is_deleted(
    b: Seq<u8>,
    e: (Tag, (int, int)),
    tpl: Map<u32, Template>,
    row: u32,
    seq: int,
    id: Seq<char>,
    day: (int, Seq<char>),
    time: Seq<char>,
    body: Fields,
    col: u32,
)
    requires
        element_bounds(b, e),
        is_plain_row(b, e),
        is_row_at(b, e.0.at),
        is_good_request(class_put(tpl, row, seq, id, day, time, body)),
    ensures
        ({
            let put = class_put(tpl, row, seq, id, day, time, body);
            let added = rebuilt_row(b, e, put);
            row_elem(added, 0, added.len() as int) matches Some(x) && {
                let deleted = rebuilt_row(added, x, delete_put(row));
                row_elem(deleted, 0, deleted.len() as int) matches Some(y) && (
                if delete_put(row).clear.contains(col) {
                    cell_in(deleted, y, col) is None
                } else {
                    cell_in(deleted, y, col) == cell_in(b, e, col) || is_asked_formula(
                        put,
                        col,
                        cell_in(deleted, y, col),
                    )
                })
            }
        }),
{
    let put = class_put(tpl, row, seq, id, day, time, body);
    let added = rebuilt_row(b, e, put);
    law_cells_of_changed_row(b, e, put, col);
    let x = row_elem(added, 0, added.len() as int)->0;
    law_deleted_class_leaves_no_cells(added, x, row, col);
    if !delete_put(row).clear.contains(col) {
        lemma_not_written(tpl, row, seq, id, day, time, body, col);
        law_unwritten_column(b, e, put, col);
        let after = act_cell(b, row as nat, row_acts(b, e, put), col);
        if after != cell_in(b, e, col) {
            let i = choose|i: int|
                0 <= i < put.formulas.len() && (#[trigger] put.formulas[i]).col == col && after
                    == Some(
                    bytes(
                        cell_text(
                            col as nat,
                            put.row as nat,
                            put.formulas[i].val,
                            put.formulas[i].style,
                        ),
                    ),
                );
            assert(put.formulas[i].col == col);
        }
    }
}

/// Adding a class in a row that is made for it and deleting it again leaves the row with formulas that
/// the class asked for and no other cells.
pub proof fn law_new_class_is_deleted(
    tpl: Map<u32, Template>,
    row: u32,
    seq: int,
    id: Seq<char>,
    day: (int, Seq<char>),
    time: Seq<char>,
    body: Fields,
    col: u32,
)
    requires
        is_good_request(class_put(tpl, row, seq, id, day, time, body)),
    ensures
        ({
            let put = class_put(tpl, row, seq, id, day, time, body);
            let added = new_row(put);
            row_elem(added, 0, added.len() as int) matches Some(x) && {
                let deleted = rebuilt_row(added, x, delete_put(row));
                row_elem(deleted, 0, deleted.len() as int) matches Some(y) && (cell_in(
                    deleted,
                    y,
                    col,
                ) is None || (!delete_put(row).clear.contains(col) && is_asked_formula(
                    put,
                    col,
                    cell_in(deleted, y, col),
                )))
            }
        }),
{
    let put = class_put(tpl, row, seq, id, day, time, body);
    let added = new_row(put);
    law_cells_of_new_row(put, col);
    let x = row_elem(added, 0, added.len() as int)->0;
    law_deleted_class_leaves_no_cells(added, x, row, col);
    if !delete_put(row).clear.contains(col) {
        lemma_not_written(tpl, row, seq, id, day, time, body, col);
        law_unwritten_new_column(put, col);
        let after = act_cell(Seq::empty(), row as nat, new_acts(put), col);
        if after is Some {
            let i = choose|i: int|
                0 <= i < put.formulas.len() && (#[trigger] put.formulas[i]).col == col && after
                    == Some(
                    bytes(
                        cell_text(
                            col as nat,
                            put.row as nat,
                            put.formulas[i].val,
                            put.formulas[i].style,
                        ),
                    ),
                );
            assert(put.formulas[i].col == col);
        }
    }
}

/// A column that is not cleared is not written for a new class, and it is removed by nothing.
proof fn lemma_not_written(
    tpl: Map<u32, Template>,
    row: u32,
    seq: int,
    id: Seq<char>,
    day: (int, Seq<char>),
    time: Seq<char>,
    body: Fields,
    col: u32,
)
    requires
        !delete_put(row).clear.contains(col),
    ensures
        ({
            let put = class_put(tpl, row, seq, id, day, time, body);
            &&& !put.clear.contains(col)
            &&& forall|i: int| 0 <= i < put.cells.len() ==> (#[trigger] put.cells[i]).col != col
        }),
{
    let put = class_put(tpl, row, seq, id, day, time, body);
    assert forall|i: int| 0 <= i < put.cells.len() implies (#[trigger] put.cells[i]).col != col by {
        law_delete_clears_what_add_writes(tpl, row, seq, id, day, time, body, i);
    }
}

/// A class is deleted only from a row between the heading and the end that holds one, and the same
/// row is refused once it holds none.
pub proof fn law_delete_refusals(s: Book, row: u32)
    ensures
        (class_deleted(s, row).1 matches Err(Fault::Biz(_))) == !(2 <= row <= RECORDS_MAX_ROW
            && class_places(s.classes).contains(row)),
        class_deleted(s, row).1 is Ok ==> 2 <= row <= RECORDS_MAX_ROW,
{
}

/// The row that a new member gets was not used, and lies between the heading and the end of the
/// archive; the member's number was not used either.
pub proof fn law_new_member_takes_free_place(s: Book, body: Fields, today: (int, Seq<char>))
    requires
        id_left(s.members, body.text("phone"@), asked_base(body)),
    ensures
        member_added(s, body, today).1 matches Ok(id) ==> {
            &&& free_from(member_places(s.members), 2, ARCHIVE_MAX_ROW as int) matches Some(row)
            &&& 2 <= row <= ARCHIVE_MAX_ROW
            &&& forall|i: int| 0 <= i < s.members.len() ==> (#[trigger] s.members[i]).row != row
            &&& forall|i: int| 0 <= i < s.members.len() ==> (#[trigger] s.members[i]).id != id
        },
{
    let used = member_places(s.members);
    law_first_empty_row(used, 2, ARCHIVE_MAX_ROW as int);
    if let Some(row) = free_from(used, 2, ARCHIVE_MAX_ROW as int) {
        let id = new_id(s.members, body.text("phone"@), asked_base(body));
        assert forall|i: int| 0 <= i < s.members.len() implies (#[trigger] s.members[i]).row
            != row by {
            assert(used[i] == s.members[i].row);
            if s.members[i].row == row {
                assert(used.contains(row as u32));
            }
        }
        assert forall|i: int| 0 <= i < s.members.len() implies (#[trigger] s.members[i]).id
            != id by {
            law_new_id_is_fresh(s.members, body.text("phone"@), asked_base(body), i);
        }
    }
}

} // verus!
