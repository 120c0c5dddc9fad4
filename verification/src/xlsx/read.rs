//! Reading members and classes from the cells of the workbook.
use calamine::{Data, DataType, Reader};
use vstd::prelude::*;
use crate::model::{
    class_rows, clock_text, date_view, exponent_field, fmt_hm, fraction_field, is_finite,
    is_negative, is_one_val, is_whole, member_rows, num_of, number_view, parse_date_as, parsed_date,
    shown_text, whole_part, ClassRow, Date, MemberRow, Number, RawClass, RawMember, RawVal, SeqNo,
    SeqVal, Val,
};
use crate::text::{chars_of, join2, same_text, trim, trimmed};
use crate::xlsx::limits::{
    book_fits, check_book, check_sheets, compound, compound_fault, is_compound, sheets_fit,
    styles_fit, why_compound,
};
use crate::{ARCHIVE_MAX_ROW, RECORDS_MAX_ROW, SHEET_ARCHIVE, SHEET_RECORDS};

verus! {

// ------------------------------------------------------------- outside workbook
/// `calamine::Xlsx`.
#[verifier::external_type_specification]
#[verifier::external_body]
#[verifier::reject_recursive_types(RS)]
pub struct ExXlsx<RS>(calamine::Xlsx<RS>);

/// `calamine::Range`.
#[verifier::external_type_specification]
#[verifier::external_body]
#[verifier::reject_recursive_types(T)]
pub struct ExRange<T>(calamine::Range<T>);

/// `calamine::Data`.
#[verifier::external_type_specification]
#[verifier::external_body]
pub struct ExData(calamine::Data);

/// A workbook over bytes in memory.
pub type Book = calamine::Xlsx<std::io::Cursor<Vec<u8>>>;

/// The cells of a worksheet.
pub type Cells = calamine::Range<calamine::Data>;

/// The content of a cell.
pub enum CellData {
    Empty,
    Error,
    Text(String),
    Bool(bool),
    Num(Number),
    /// A number with the format of a date or a time: its bits, the number itself, and whether the
    /// format is that of a length of time.
    DateTime(u64, Number, bool),
    DateTimeIso(String),
    DurationIso(String),
}

/// The content of a cell by its texts.
pub ghost enum CellContent {
    Empty,
    Error,
    Text(Seq<char>),
    Bool(bool),
    Num(Seq<char>),
    DateTime(u64, Seq<char>, bool),
    DateTimeIso(Seq<char>),
    DurationIso(Seq<char>),
}

impl View for CellData {
    type V = CellContent;

    open spec fn view(&self) -> CellContent {
        match self {
            CellData::Empty => CellContent::Empty,
            CellData::Error => CellContent::Error,
            CellData::Text(t) => CellContent::Text(t@),
            CellData::Bool(b) => CellContent::Bool(*b),
            CellData::Num(n) => CellContent::Num(n@),
            CellData::DateTime(b, n, d) => CellContent::DateTime(*b, n@, *d),
            CellData::DateTimeIso(t) => CellContent::DateTimeIso(t@),
            CellData::DurationIso(t) => CellContent::DurationIso(t@),
        }
    }
}

/// The bytes that a workbook was opened on.
pub uninterp spec fn book_bytes(b: Book) -> Seq<u8>;

/// Why bytes cannot be opened as a workbook, if they cannot.
pub uninterp spec fn book_error(bytes: Seq<u8>) -> Option<Seq<char>>;

/// The names of the worksheets of a workbook.
pub uninterp spec fn book_sheets(bytes: Seq<u8>) -> Seq<Seq<char>>;

/// Whether the cells of a worksheet can be read.
pub uninterp spec fn has_cells(bytes: Seq<u8>, sheet: Seq<char>) -> bool;

/// The workbook and the worksheet that cells were read from.
pub uninterp spec fn cells_source(c: Cells) -> (Seq<u8>, Seq<char>);

/// The content of a cell, where rows and columns count from zero.
pub uninterp spec fn cell_content(bytes: Seq<u8>, sheet: Seq<char>, row: nat, col: nat) -> CellContent;

/// The day that a number with the format of a date stands for.
pub uninterp spec fn cell_day(bytes: Seq<u8>, sheet: Seq<char>, row: nat, col: nat) -> Option<
    (int, Seq<char>),
>;

/// `calamine::Xlsx::new` on bytes in memory. Whether it succeeds, and the message of its error,
/// depend on the bytes alone. It looks for a compound document first, in which it follows numbers
/// without a bound, and it counts the brackets in the format of a number in one byte: such bytes are
/// left out.
#[verifier::external_body]
pub(crate) fn open_book(bytes: &[u8]) -> (r: Result<Book, String>)
    requires
        book_fits(bytes@),
    ensures
        match book_error(bytes@) {
            None => r matches Ok(b) && book_bytes(b) == bytes@,
            Some(e) => r matches Err(t) && t@ == e,
        },
{
    calamine::Xlsx::new(std::io::Cursor::new(bytes.to_vec())).map_err(|e| format!("{}", e))
}

/// `sheet_names` of `calamine::Reader` gives the names of the worksheets in the workbook.
#[verifier::external_body]
pub(crate) fn sheet_names(b: &Book) -> (r: Vec<String>)
    ensures
        r@.map_values(|s: String| s@) == book_sheets(book_bytes(*b)),
{
    b.sheet_names()
}

/// `worksheet_range` of `calamine::Reader`, with the first row as the header row, so that the range
/// starts there and cells whose rows do not ascend are dropped instead of making it panic. Whether
/// it succeeds depends on the workbook and the name alone; the error is dropped. It counts up the
/// digits and letters of places, takes the first corner of the dimension from the second, and looks
/// up shared texts by their numbers without a bound: worksheets on which that fails are left out. It
/// holds the whole range from the first to the last cell in memory.
#[verifier::external_body]
fn read_cells(b: &mut Book, sheet: &str) -> (r: Option<Cells>)
    requires
        sheets_fit(book_bytes(*old(b))),
    ensures
        book_bytes(*final(b)) == book_bytes(*old(b)),
        r is Some == has_cells(book_bytes(*old(b)), sheet@),
        r matches Some(c) ==> cells_source(c) == (book_bytes(*old(b)), sheet@),
{
    b.with_header_row(calamine::HeaderRow::Row(0)).worksheet_range(sheet).ok()
}

/// `calamine::Range::get_value`, with the content as plain values; a cell outside of the range
/// counts as empty. What it holds depends on the workbook, the worksheet and the place alone.
#[verifier::external_body]
fn get_cell(c: &Cells, row: u32, col: u32) -> (r: CellData)
    ensures
        r@ == cell_content(cells_source(*c).0, cells_source(*c).1, row as nat, col as nat),
{
    match c.get_value((row, col)).unwrap_or(&Data::Empty) {
        Data::Empty => CellData::Empty,
        Data::Error(_) => CellData::Error,
        Data::String(t) => CellData::Text(t.clone()),
        Data::Bool(b) => CellData::Bool(*b),
        Data::DateTimeIso(t) => CellData::DateTimeIso(t.clone()),
        Data::DurationIso(t) => CellData::DurationIso(t.clone()),
        Data::DateTime(t) => {
            let text = t.as_f64().to_string();
            CellData::DateTime(t.as_f64().to_bits(), Number { text }, t.is_duration())
        },
        d => CellData::Num(
            Number { text: d.as_f64().map(|v| v.to_string()).unwrap_or_default() },
        ),
    }
}

/// Whether a number is below any that a day can have, so far that counting milliseconds up to it
/// leaves the range of `i64`. What is no number is not below any.
pub open spec fn is_far_below(bits: u64) -> bool {
    is_negative(bits) && exponent_field(bits) >= 1059 && !(exponent_field(bits) == 2047
        && fraction_field(bits) != 0)
}

fn far_below(bits: u64) -> (r: bool)
    ensures
        r == is_far_below(bits),
{
    let e: u64 = (bits / 0x10_0000_0000_0000) % 2048;
    bits >= 0x8000_0000_0000_0000 && e >= 1059 && !(e == 2047 && bits % 0x10_0000_0000_0000 != 0)
}

/// `calamine::ExcelDateTime::as_datetime` of the content of a cell, with the day as number and
/// text. What comes out depends on the workbook, the worksheet and the place alone. It panics on
/// numbers that are far below any day.
#[verifier::external_body]
fn get_day(c: &Cells, row: u32, col: u32) -> (r: Option<Date>)
    requires
        cell_content(
            cells_source(*c).0,
            cells_source(*c).1,
            row as nat,
            col as nat,
        ) matches CellContent::DateTime(bits, _, _) ==> !is_far_below(bits),
    ensures
        date_view(r) == cell_day(
            cells_source(*c).0,
            cells_source(*c).1,
            row as nat,
            col as nat,
        ),
{
    let day = c.get_value((row, col)).and_then(|d| d.get_datetime()).and_then(
        |t| t.as_datetime(),
    )?.date();
    Some(
        Date {
            days: chrono::Datelike::num_days_from_ce(&day),
            text: day.format("%Y-%m-%d").to_string(),
        },
    )
}

// ----------------------------------------------------------------------- values
/// The value that the content of a cell stands for, where `day` is the day that a number with the
/// format of a date stands for.
pub open spec fn raw_value(c: CellContent, day: Option<(int, Seq<char>)>) -> Val {
    match c {
        CellContent::Empty => Val::Empty,
        CellContent::Error => Val::Empty,
        CellContent::Text(t) => Val::Text(t),
        CellContent::Bool(b) => Val::Text(
            if b {
                "true"@
            } else {
                "false"@
            },
        ),
        CellContent::Num(n) => Val::Num(n),
        CellContent::DateTime(bits, n, duration) => if !duration && exponent_field(bits) < 1023 {
            Val::Time(bits)
        } else if is_far_below(bits) {
            Val::Num(n)
        } else {
            match day {
                Some((d, t)) => Val::Date(d, t),
                None => Val::Num(n),
            }
        },
        CellContent::DateTimeIso(t) => match parsed_date(t, "%Y-%m-%dT%H:%M:%S"@) {
            Some((d, x)) => Val::Date(d, x),
            None => Val::Text(t),
        },
        CellContent::DurationIso(t) => Val::Text(t),
    }
}

/// Whether a number with the format of a date may stand for a day.
fn asks_for_day(d: &CellData) -> (r: bool)
    ensures
        r == (d@ matches CellContent::DateTime(bits, _, duration) && (duration || exponent_field(
            bits,
        ) >= 1023) && !is_far_below(bits)),
{
    match d {
        CellData::DateTime(bits, _, duration) => {
            let e: u64 = (*bits / 0x10_0000_0000_0000) % 2048;
            (*duration || e >= 1023) && !far_below(*bits)
        },
        _ => false,
    }
}

/// The value that the content of a cell stands for.
pub fn data_to_raw(d: CellData, day: Option<Date>) -> (r: RawVal)
    ensures
        r@ == raw_value(d@, date_view(day)),
{
    match d {
        CellData::Empty => RawVal::Empty,
        CellData::Error => RawVal::Empty,
        CellData::Text(t) => RawVal::Text(t),
        CellData::Bool(b) => RawVal::Text(
            if b {
                String::from_str("true")
            } else {
                String::from_str("false")
            },
        ),
        CellData::Num(n) => RawVal::Num(n),
        CellData::DateTime(bits, n, duration) => {
            let e: u64 = (bits / 0x10_0000_0000_0000) % 2048;
            if !duration && e < 1023 {
                RawVal::Time(bits)
            } else if far_below(bits) {
                RawVal::Num(n)
            } else {
                match day {
                    Some(x) => RawVal::Date(x),
                    None => RawVal::Num(n),
                }
            }
        },
        CellData::DateTimeIso(t) => match parse_date_as(t.as_str(), "%Y-%m-%dT%H:%M:%S") {
            Some(x) => RawVal::Date(x),
            None => RawVal::Text(t),
        },
        CellData::DurationIso(t) => RawVal::Text(t),
    }
}

/// The value of a cell of a workbook.
pub open spec fn value_at(bytes: Seq<u8>, sheet: Seq<char>, row: nat, col: nat) -> Val {
    raw_value(cell_content(bytes, sheet, row, col), cell_day(bytes, sheet, row, col))
}

/// Reads the value of a cell.
fn raw(c: &Cells, row: u32, col: u32) -> (r: RawVal)
    ensures
        r@ == value_at(cells_source(*c).0, cells_source(*c).1, row as nat, col as nat),
{
    let d = get_cell(c, row, col);
    if asks_for_day(&d) {
        let day = get_day(c, row, col);
        data_to_raw(d, day)
    } else {
        data_to_raw(d, None)
    }
}

// ------------------------------------------------------------------------- grid
/// The values of a worksheet, row by row.
pub struct Grid {
    pub rows: Vec<Vec<RawVal>>,
}

impl Grid {
    /// The value in a row and a column, which count from zero; empty outside of the grid.
    pub open spec fn at(&self, row: int, col: int) -> Val {
        if 0 <= row < self.rows@.len() && 0 <= col < self.rows@[row]@.len() {
            self.rows@[row]@[col]@
        } else {
            Val::Empty
        }
    }

    /// The values of the grid.
    pub open spec fn values(&self) -> spec_fn(int, int) -> Val {
        |row: int, col: int| self.at(row, col)
    }

    /// The value in a row and a column, which count from zero.
    pub fn cell(&self, row: usize, col: usize) -> (r: RawVal)
        ensures
            r@ == self.at(row as int, col as int),
    {
        if row < self.rows.len() && col < self.rows[row].len() {
            self.rows[row][col].copy()
        } else {
            RawVal::Empty
        }
    }

    /// How the value in a row and a column is shown.
    fn text(&self, row: usize, col: usize) -> (r: String)
        ensures
            r@ == shown_text(self.at(row as int, col as int)),
    {
        self.cell(row, col).display_text()
    }

    /// The number in a row and a column.
    fn num(&self, row: usize, col: usize) -> (r: Option<Number>)
        ensures
            number_view(r) == num_of(self.at(row as int, col as int)),
    {
        self.cell(row, col).num()
    }
}

/// Whether a grid holds the first cells of a worksheet.
pub open spec fn grid_of(g: Grid, bytes: Seq<u8>, sheet: Seq<char>, height: int, width: int) -> bool {
    forall|r: int, c: int|
        0 <= r < height && 0 <= c < width ==> #[trigger] g.at(r, c) == value_at(
            bytes,
            sheet,
            r as nat,
            c as nat,
        )
}

/// Reads the first cells of a row.
fn read_row(c: &Cells, row: u32, width: u32) -> (r: Vec<RawVal>)
    ensures
        r@.len() == width,
        forall|k: int|
            0 <= k < width ==> (#[trigger] r@[k])@ == value_at(
                cells_source(*c).0,
                cells_source(*c).1,
                row as nat,
                k as nat,
            ),
{
    let mut out: Vec<RawVal> = Vec::new();
    let mut i: u32 = 0;
    while i < width
        invariant
            i <= width,
            out@.len() == i,
            forall|k: int|
                0 <= k < i ==> (#[trigger] out@[k])@ == value_at(
                    cells_source(*c).0,
                    cells_source(*c).1,
                    row as nat,
                    k as nat,
                ),
        decreases width - i,
    {
        out.push(raw(c, row, i));
        i = i + 1;
    }
    out
}

/// Reads the first cells of a worksheet.
fn read_grid(c: &Cells, height: u32, width: u32) -> (r: Grid)
    ensures
        grid_of(r, cells_source(*c).0, cells_source(*c).1, height as int, width as int),
{
    let mut rows: Vec<Vec<RawVal>> = Vec::new();
    let mut i: u32 = 0;
    while i < height
        invariant
            i <= height,
            rows@.len() == i,
            forall|k: int, j: int|
                0 <= k < i && 0 <= j < width ==> (#[trigger] rows@[k]@[j])@ == value_at(
                    cells_source(*c).0,
                    cells_source(*c).1,
                    k as nat,
                    j as nat,
                ),
            forall|k: int| 0 <= k < i ==> (#[trigger] rows@[k])@.len() == width,
        decreases height - i,
    {
        let row = read_row(c, i, width);
        rows.push(row);
        i = i + 1;
    }
    Grid { rows }
}

// ------------------------------------------------------------------------- rows
/// The values of a worksheet by row and column, which count from zero.
pub type Values = spec_fn(int, int) -> Val;

/// The member in a row of the archive, where rows count from zero.
pub open spec fn member_at(g: Values, r: int) -> MemberRow {
    MemberRow {
        row: (r + 1) as u32,
        id: trimmed(shown_text(g(r, 0))),
        name: shown_text(g(r, 1)),
        phone: shown_text(g(r, 2)),
        teacher: shown_text(g(r, 3)),
        member_type: shown_text(g(r, 4)),
        card_type: shown_text(g(r, 5)),
        purchase: g(r, 6),
        activation: g(r, 7),
        expiry: g(r, 8),
        amount: num_of(g(r, 9)),
        receivable: num_of(g(r, 10)),
        total: num_of(g(r, 12)),
        refund: shown_text(g(r, 21)) == "是"@,
        remark: shown_text(g(r, 22)),
    }
}

/// The members in the rows below `end`, without the heading and without rows that have no number.
pub open spec fn members_below(g: Values, end: int) -> Seq<MemberRow>
    decreases end,
{
    if end <= 1 {
        Seq::empty()
    } else {
        let before = members_below(g, end - 1);
        if member_at(g, end - 1).id.len() == 0 {
            before
        } else {
            before.push(member_at(g, end - 1))
        }
    }
}

/// The running number that a cell holds.
pub open spec fn seq_value(v: Val) -> SeqVal {
    match v {
        Val::Empty => SeqVal::Null,
        Val::Num(n) => if is_whole(n) {
            SeqVal::Int(whole_part(n))
        } else if is_finite(n) {
            SeqVal::Real(n)
        } else {
            SeqVal::Null
        },
        Val::Text(t) => SeqVal::Text(t),
        Val::Date(_, t) => SeqVal::Text(t),
        Val::Time(b) => SeqVal::Text(clock_text(b)),
    }
}

/// The class in a row of the records, where rows count from zero.
pub open spec fn class_at(g: Values, r: int) -> ClassRow {
    ClassRow {
        row: (r + 1) as u32,
        seq: seq_value(g(r, 0)),
        member_id: trimmed(shown_text(g(r, 1))),
        date: g(r, 3),
        time: g(r, 4),
        course: shown_text(g(r, 11)),
        effect: is_one_val(g(r, 12)),
        remark: shown_text(g(r, 13)),
    }
}

/// The classes in the rows below `end`, without the heading and without rows that name no member.
pub open spec fn classes_below(g: Values, end: int) -> Seq<ClassRow>
    decreases end,
{
    if end <= 1 {
        Seq::empty()
    } else {
        let before = classes_below(g, end - 1);
        if class_at(g, end - 1).member_id.len() == 0 {
            before
        } else {
            before.push(class_at(g, end - 1))
        }
    }
}

/// The members in the rows of the archive below `end`.
pub fn read_members(g: &Grid, end: u32) -> (r: Vec<RawMember>)
    ensures
        member_rows(r@) == members_below(g.values(), end as int),
{
    let mut out: Vec<RawMember> = Vec::new();
    let mut r: u32 = 1;
    assert(member_rows(out@) =~= Seq::<MemberRow>::empty());
    while r < end
        invariant
            1 <= r,
            r <= end || end <= 1,
            member_rows(out@) == members_below(g.values(), if end <= 1 {
                end as int
            } else {
                r as int
            }),
        decreases end - r,
    {
        let ghost before = out@;
        let i: usize = r as usize;
        let id_text = g.text(i, 0);
        let id = trim(id_text.as_str());
        if chars_of(id.as_str()).len() > 0 {
            let flag = g.text(i, 21);
            let m = RawMember {
                row: r + 1,
                id,
                name: g.text(i, 1),
                phone: g.text(i, 2),
                teacher: g.text(i, 3),
                member_type: g.text(i, 4),
                card_type: g.text(i, 5),
                purchase: g.cell(i, 6),
                activation: g.cell(i, 7),
                expiry: g.cell(i, 8),
                amount: g.num(i, 9),
                receivable: g.num(i, 10),
                total: g.num(i, 12),
                refund: same_text(flag.as_str(), "是"),
                remark: g.text(i, 22),
            };
            assert(m@ == member_at(g.values(), r as int));
            out.push(m);
            assert(member_rows(out@) =~= member_rows(before).push(m@));
        }
        r = r + 1;
    }
    out
}

/// The running number that a cell holds.
fn seq_no(v: RawVal) -> (r: SeqNo)
    ensures
        r@ == seq_value(v@),
{
    match v {
        RawVal::Empty => SeqNo::Null,
        RawVal::Num(n) => {
            if n.is_whole_number() {
                SeqNo::Int(n.to_i64())
            } else if n.finite() {
                SeqNo::Real(n)
            } else {
                SeqNo::Null
            }
        },
        RawVal::Text(t) => SeqNo::Text(t),
        RawVal::Date(d) => SeqNo::Text(d.text),
        RawVal::Time(b) => SeqNo::Text(fmt_hm(b)),
    }
}

/// The classes in the rows of the records below `end`.
pub fn read_classes(g: &Grid, end: u32) -> (r: Vec<RawClass>)
    ensures
        class_rows(r@) == classes_below(g.values(), end as int),
{
    let mut out: Vec<RawClass> = Vec::new();
    let mut r: u32 = 1;
    assert(class_rows(out@) =~= Seq::<ClassRow>::empty());
    while r < end
        invariant
            1 <= r,
            r <= end || end <= 1,
            class_rows(out@) == classes_below(g.values(), if end <= 1 {
                end as int
            } else {
                r as int
            }),
        decreases end - r,
    {
        let ghost before = out@;
        let i: usize = r as usize;
        let id_text = g.text(i, 1);
        let member_id = trim(id_text.as_str());
        if chars_of(member_id.as_str()).len() > 0 {
            let c = RawClass {
                row: r + 1,
                seq: seq_no(g.cell(i, 0)),
                member_id,
                date: g.cell(i, 3),
                time: g.cell(i, 4),
                course: g.text(i, 11),
                effect: g.cell(i, 12).is_one(),
                remark: g.text(i, 13),
            };
            assert(c@ == class_at(g.values(), r as int));
            out.push(c);
            assert(class_rows(out@) =~= class_rows(before).push(c@));
        }
        r = r + 1;
    }
    out
}

/// The values of a worksheet of a workbook.
pub open spec fn book_values(bytes: Seq<u8>, sheet: Seq<char>) -> Values {
    |row: int, col: int| value_at(bytes, sheet, row as nat, col as nat)
}

/// A grid that holds the first cells of a worksheet has the same members as the worksheet.
proof fn lemma_grid_members(g: Grid, bytes: Seq<u8>, sheet: Seq<char>, height: int, end: int)
    requires
        grid_of(g, bytes, sheet, height, 23),
        end <= height,
    ensures
        members_below(g.values(), end) == members_below(book_values(bytes, sheet), end),
    decreases end,
{
    if end > 1 {
        lemma_grid_members(g, bytes, sheet, height, end - 1);
        let b = book_values(bytes, sheet);
        assert forall|c: int| 0 <= c < 23 implies g.values()(end - 1, c) == #[trigger] b(
            end - 1,
            c,
        ) by {
            assert(g.at(end - 1, c) == value_at(bytes, sheet, (end - 1) as nat, c as nat));
        }
        assert(member_at(g.values(), end - 1) == member_at(b, end - 1)) by {
            assert(g.values()(end - 1, 0) == b(end - 1, 0));
            assert(g.values()(end - 1, 1) == b(end - 1, 1));
            assert(g.values()(end - 1, 2) == b(end - 1, 2));
            assert(g.values()(end - 1, 3) == b(end - 1, 3));
            assert(g.values()(end - 1, 4) == b(end - 1, 4));
            assert(g.values()(end - 1, 5) == b(end - 1, 5));
            assert(g.values()(end - 1, 6) == b(end - 1, 6));
            assert(g.values()(end - 1, 7) == b(end - 1, 7));
            assert(g.values()(end - 1, 8) == b(end - 1, 8));
            assert(g.values()(end - 1, 9) == b(end - 1, 9));
            assert(g.values()(end - 1, 10) == b(end - 1, 10));
            assert(g.values()(end - 1, 12) == b(end - 1, 12));
            assert(g.values()(end - 1, 21) == b(end - 1, 21));
            assert(g.values()(end - 1, 22) == b(end - 1, 22));
        }
    }
}

/// A grid that holds the first cells of a worksheet has the same classes as the worksheet.
proof fn lemma_grid_classes(g: Grid, bytes: Seq<u8>, sheet: Seq<char>, height: int, end: int)
    requires
        grid_of(g, bytes, sheet, height, 14),
        end <= height,
    ensures
        classes_below(g.values(), end) == classes_below(book_values(bytes, sheet), end),
    decreases end,
{
    if end > 1 {
        lemma_grid_classes(g, bytes, sheet, height, end - 1);
        let b = book_values(bytes, sheet);
        assert forall|c: int| 0 <= c < 14 implies g.values()(end - 1, c) == #[trigger] b(
            end - 1,
            c,
        ) by {
            assert(g.at(end - 1, c) == value_at(bytes, sheet, (end - 1) as nat, c as nat));
        }
        assert(class_at(g.values(), end - 1) == class_at(b, end - 1)) by {
            assert(g.values()(end - 1, 0) == b(end - 1, 0));
            assert(g.values()(end - 1, 1) == b(end - 1, 1));
            assert(g.values()(end - 1, 3) == b(end - 1, 3));
            assert(g.values()(end - 1, 4) == b(end - 1, 4));
            assert(g.values()(end - 1, 11) == b(end - 1, 11));
            assert(g.values()(end - 1, 12) == b(end - 1, 12));
            assert(g.values()(end - 1, 13) == b(end - 1, 13));
        }
    }
}

/// What is said of a workbook without a worksheet that is needed.
pub open spec fn missing_sheet_text(sheet: Seq<char>) -> Seq<char> {
    "该表格缺少工作表："@ + sheet
}

/// The members, the classes and whether the heading of the refunds is there.
pub ghost struct Ledger {
    pub members: Seq<MemberRow>,
    pub classes: Seq<ClassRow>,
    pub refund_header: bool,
}

/// What the bytes of a workbook hold, or the message of what is wrong with them.
pub open spec fn ledger_in(bytes: Seq<u8>) -> Result<Ledger, Seq<char>> {
    if is_compound(bytes) {
        Err("BadZipFile: "@ + compound_fault(bytes))
    } else if !styles_fit(bytes) {
        Err("BadZipFile: styles out of range"@)
    } else {
        match book_error(bytes) {
            Some(e) => Err("BadZipFile: "@ + e),
            None => if sheets_fit(bytes) {
                ledger_of(bytes)
            } else {
                Err("BadZipFile: worksheet out of range"@)
            },
        }
    }
}

/// What the worksheets of a workbook hold, or which of them is not there.
pub open spec fn ledger_of(bytes: Seq<u8>) -> Result<Ledger, Seq<char>> {
    if !has_cells(bytes, SHEET_ARCHIVE@) {
        Err(missing_sheet_text(SHEET_ARCHIVE@))
    } else if !has_cells(bytes, SHEET_RECORDS@) {
        Err(missing_sheet_text(SHEET_RECORDS@))
    } else {
        let archive = book_values(bytes, SHEET_ARCHIVE@);
        let records = book_values(bytes, SHEET_RECORDS@);
        Ok(
            Ledger {
                members: members_below(archive, ARCHIVE_MAX_ROW as int),
                classes: classes_below(records, RECORDS_MAX_ROW as int),
                refund_header: trimmed(shown_text(archive(0, 21))).len() > 0,
            },
        )
    }
}

/// The rows that were read, by their texts.
pub open spec fn ledger_view(r: (Vec<RawMember>, Vec<RawClass>, bool)) -> Ledger {
    Ledger { members: member_rows(r.0@), classes: class_rows(r.1@), refund_header: r.2 }
}

/// Whether the heading of the refunds is there.
pub fn has_refund_header(g: &Grid) -> (r: bool)
    ensures
        r == (trimmed(shown_text(g.at(0, 21))).len() > 0),
{
    let head = g.text(0, 21);
    let t = trim(head.as_str());
    chars_of(t.as_str()).len() > 0
}

/// Reads members and classes from the bytes of a workbook, and whether the heading of the refunds
/// is there.
pub fn read_raw(bytes: &[u8]) -> (r: Result<(Vec<RawMember>, Vec<RawClass>, bool), String>)
    ensures
        match ledger_in(bytes@) {
            Ok(l) => r matches Ok(x) && ledger_view(x) == l,
            Err(e) => r matches Err(t) && t@ == e,
        },
{
    if compound(bytes) {
        let why = why_compound(bytes);
        return Err(join2("BadZipFile: ", why.as_str()));
    }
    if !check_book(bytes) {
        return Err(String::from_str("BadZipFile: styles out of range"));
    }
    let mut book = match open_book(bytes) {
        Ok(b) => b,
        Err(e) => {
            return Err(join2("BadZipFile: ", e.as_str()));
        },
    };
    if !check_sheets(bytes) {
        return Err(String::from_str("BadZipFile: worksheet out of range"));
    }
    let archive_cells = match read_cells(&mut book, SHEET_ARCHIVE) {
        Some(c) => c,
        None => {
            return Err(join2("该表格缺少工作表：", SHEET_ARCHIVE));
        },
    };
    let record_cells = match read_cells(&mut book, SHEET_RECORDS) {
        Some(c) => c,
        None => {
            return Err(join2("该表格缺少工作表：", SHEET_RECORDS));
        },
    };
    let archive = read_grid(&archive_cells, ARCHIVE_MAX_ROW, 23);
    let records = read_grid(&record_cells, RECORDS_MAX_ROW, 14);
    proof {
        lemma_grid_members(
            archive,
            bytes@,
            SHEET_ARCHIVE@,
            ARCHIVE_MAX_ROW as int,
            ARCHIVE_MAX_ROW as int,
        );
        lemma_grid_classes(
            records,
            bytes@,
            SHEET_RECORDS@,
            RECORDS_MAX_ROW as int,
            RECORDS_MAX_ROW as int,
        );
        assert(archive.at(0, 21) == value_at(bytes@, SHEET_ARCHIVE@, 0, 21));
    }
    Ok(
        (
            read_members(&archive, ARCHIVE_MAX_ROW),
            read_classes(&records, RECORDS_MAX_ROW),
            has_refund_header(&archive),
        ),
    )
}

/// Members stand in rows behind the heading and in front of the end, each in a row of its own that
/// lies behind those before it, and each has a number.
pub proof fn law_member_rows_ascend(g: Values, end: int)
    requires
        end <= u32::MAX,
    ensures
        forall|i: int|
            0 <= i < members_below(g, end).len() ==> 2 <= (#[trigger] members_below(g, end)[i]).row
                <= end && members_below(g, end)[i].id.len() > 0,
        forall|i: int, j: int|
            0 <= i < j < members_below(g, end).len() ==> members_below(g, end)[i].row
                < members_below(g, end)[j].row,
    decreases end,
{
    if end > 1 {
        law_member_rows_ascend(g, end - 1);
    }
}

/// Classes stand in rows behind the heading and in front of the end, each in a row of its own that
/// lies behind those before it, and each names a member.
pub proof fn law_class_rows_ascend(g: Values, end: int)
    requires
        end <= u32::MAX,
    ensures
        forall|i: int|
            0 <= i < classes_below(g, end).len() ==> 2 <= (#[trigger] classes_below(g, end)[i]).row
                <= end && classes_below(g, end)[i].member_id.len() > 0,
        forall|i: int, j: int|
            0 <= i < j < classes_below(g, end).len() ==> classes_below(g, end)[i].row
                < classes_below(g, end)[j].row,
    decreases end,
{
    if end > 1 {
        law_class_rows_ascend(g, end - 1);
    }
}

} // verus!
