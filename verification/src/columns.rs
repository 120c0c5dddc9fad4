//! What is read of a row after a request was written into it: each field comes back in its own place,
//! and what a request does not name stays.
use vstd::prelude::*;
use crate::figures::{is_all_white, lemma_all_white};
use crate::model::{
    before_point, clock_text, date_value, is_finite, number_text, shown_text, whole_part, ClassRow,
    FieldVal, Fields, MemberRow, SeqVal, Val,
};
use crate::store::{
    change_put, class_put, day_cell, day_change, day_put, delete_put, formula_of, formulas_of,
    member_put, num_cell, num_change, num_clear, num_put, one, text_cell, text_change, text_put,
};
use crate::text::{
    decimal, is_digit, lemma_decimal, signed_decimal, trimmed, trimmed_back, trimmed_front,
};
use crate::xlsx::read::{
    book_values, class_at, classes_below, has_cells, ledger_of, member_at, members_below, seq_value,
    Values,
};
use crate::xlsx::surgery::{renumbered, CellPut, CellValue, RowPut};
use crate::xlsx::xmlscan::Template;

verus! {

// ---------------------------------------------------------------------- reading
/// Whether a value is what is read of a cell that was written so: a text is read as it is, and a
/// number as it is, as the day that it is the number of, or as a time of day.
pub open spec fn reads_as(val: CellValue, v: Val) -> bool {
    match val {
        CellValue::Text(t) => v == Val::Text(t) || (t.len() == 0 && v is Empty),
        CellValue::Num(n) => {
            ||| v == Val::Num(number_text(n))
            ||| v matches Val::Date(d, _) && n == signed_decimal(d - 693594)
            ||| v is Time
        },
        CellValue::Formula(_) => true,
    }
}

/// What cells write into a column; the last of them counts.
pub open spec fn value_in(cells: Seq<CellPut>, col: int) -> Option<CellValue>
    decreases cells.len(),
{
    if cells.len() == 0 {
        None
    } else if cells.last().col == col {
        Some(cells.last().val)
    } else {
        value_in(cells.drop_last(), col)
    }
}

/// Whether a row is read after a request as it was written: columns that are written hold what was
/// written, columns that are cleared are empty, and columns that are not named hold what they held.
/// Of columns that are to have a formula nothing is said.
pub open spec fn row_follows(g: Values, h: Values, put: RowPut) -> bool {
    forall|c: int|
        0 <= c && value_in(put.formulas, c + 1) is None ==> (match value_in(put.cells, c + 1) {
            Some(val) => reads_as(val, #[trigger] h(put.row - 1, c)),
            None => if c < u32::MAX && put.clear.contains((c + 1) as u32) {
                h(put.row - 1, c) is Empty
            } else {
                h(put.row - 1, c) == g(put.row - 1, c)
            },
        })
}

/// Whether a worksheet is read after requests for different rows as it was written: each of the rows
/// follows its request, and all others are as they were.
pub open spec fn sheet_follows(g: Values, h: Values, ws: Seq<RowPut>) -> bool {
    &&& forall|k: int| 0 <= k < ws.len() ==> row_follows(g, h, #[trigger] ws[k])
    &&& forall|q: int, c: int|
        (forall|k: int| 0 <= k < ws.len() ==> (#[trigger] ws[k]).row != q + 1) ==> #[trigger] h(
            q,
            c,
        ) == g(q, c)
}

proof fn lemma_value_concat(a: Seq<CellPut>, b: Seq<CellPut>, col: int)
    ensures
        value_in(a + b, col) == (match value_in(b, col) {
            Some(v) => Some(v),
            None => value_in(a, col),
        }),
    decreases b.len(),
{
    if b.len() == 0 {
        assert(a + b =~= a);
    } else {
        assert((a + b).drop_last() =~= a + b.drop_last());
        lemma_value_concat(a, b.drop_last(), col);
    }
}

proof fn lemma_value_one(x: CellPut, col: int)
    ensures
        value_in(seq![x], col) == (if x.col == col {
            Some(x.val)
        } else {
            None
        }),
        value_in(Seq::<CellPut>::empty(), col) is None,
{
    assert(seq![x].drop_last() =~= Seq::<CellPut>::empty());
    assert(value_in(Seq::<CellPut>::empty(), col) is None);
}

// ----------------------------------------------------------------------- fields
/// The text that a value of a request stands for, if it stands for one.
pub open spec fn says(v: Option<FieldVal>) -> Option<Seq<char>> {
    match v {
        None => None,
        Some(FieldVal::Null) => None,
        Some(FieldVal::Text(t, _)) => Some(trimmed(t)),
        Some(FieldVal::Num(n)) => Some(number_text(n)),
        Some(FieldVal::Bool(true)) => Some("True"@),
        Some(FieldVal::Bool(false)) => Some("False"@),
        Some(FieldVal::Other(t)) => Some(t),
    }
}

/// The number that a value of a request stands for, if it stands for one.
pub open spec fn counts(v: Option<FieldVal>) -> Option<Seq<char>> {
    match v {
        Some(FieldVal::Num(n)) => Some(n),
        Some(FieldVal::Text(t, n)) => if trimmed(t).len() > 0 {
            n
        } else {
            None
        },
        _ => None,
    }
}

/// The text of a value, or nothing written.
pub open spec fn says_or_empty(v: Option<FieldVal>) -> Seq<char> {
    match says(v) {
        Some(t) => t,
        None => Seq::empty(),
    }
}

/// The day that a text names, if it names one.
pub open spec fn day_named(t: Seq<char>) -> Option<int> {
    match date_value(t) {
        Some(d) => Some(d.0),
        None => None,
    }
}

/// Whether a cell holds a day, as such or by its number.
pub open spec fn is_day(v: Val, day: int) -> bool {
    match v {
        Val::Date(d, _) => d == day,
        Val::Num(n) => n == number_text(signed_decimal(day - 693594)),
        Val::Time(_) => true,
        _ => false,
    }
}

/// Whether the number of a cell is the given one, where the cell is read as a number.
pub open spec fn is_number(v: Val, read: Option<Seq<char>>, n: Seq<char>) -> bool {
    &&& v is Num || v is Date || v is Time
    &&& v is Num ==> read == Some(number_text(n))
}

proof fn lemma_signed_decimal(a: int, b: int)
    requires
        signed_decimal(a) == signed_decimal(b),
    ensures
        a == b,
{
    lemma_decimal(if a < 0 {
        (-a) as nat
    } else {
        a as nat
    });
    lemma_decimal(if b < 0 {
        (-b) as nat
    } else {
        b as nat
    });
    if a < 0 && b < 0 {
        let x = decimal((-a) as nat);
        let y = decimal((-b) as nat);
        assert(x =~= (seq!['-'] + x).drop_first());
        assert(y =~= (seq!['-'] + y).drop_first());
    } else if a < 0 {
        assert(signed_decimal(a)[0] == '-');
        assert(is_digit(signed_decimal(b)[0]));
    } else if b < 0 {
        assert(signed_decimal(b)[0] == '-');
        assert(is_digit(signed_decimal(a)[0]));
    }
}

/// A day that was written is read as that day.
proof fn lemma_day_read(v: Val, day: int)
    requires
        reads_as(CellValue::Num(signed_decimal(day - 693594)), v),
    ensures
        is_day(v, day),
{
    if let Val::Date(d, _) = v {
        lemma_signed_decimal(day - 693594, d - 693594);
    }
}

// --------------------------------------------------------------- changed members
/// A text of a member follows its field: it is what the field says, and it stays where the field says
/// nothing.
pub open spec fn text_follows(v: Option<FieldVal>, old_text: Seq<char>, new_text: Seq<char>) -> bool {
    match says(v) {
        Some(t) => new_text == t,
        None => new_text == old_text,
    }
}

/// A day of a member follows its field: it is the day that the field names, and it stays where the
/// field names none.
pub open spec fn day_follows(v: Option<FieldVal>, old_val: Val, new_val: Val) -> bool {
    match says(v) {
        Some(t) if t.len() > 0 && day_named(t) is Some => is_day(new_val, day_named(t)->0),
        _ => new_val == old_val,
    }
}

/// A number of a member follows its field: it is what the field says, it is gone where the field is
/// there and says none, and it stays where the field is not there. `cell` is what its cell holds.
pub open spec fn number_follows(
    v: Option<FieldVal>,
    whole: bool,
    cell: Val,
    old_num: Option<Seq<char>>,
    new_num: Option<Seq<char>>,
) -> bool {
    match (v, counts(v)) {
        (None, _) => new_num == old_num,
        (Some(_), Some(n)) => is_number(
            cell,
            new_num,
            if whole {
                before_point(n)
            } else {
                n
            },
        ),
        (Some(_), None) => new_num is None,
    }
}

/// A member after a change has what the request says of each field, and what it had of all others.
pub open spec fn member_follows(fields: Fields, m: MemberRow, n: MemberRow, h: Values) -> bool {
    let r = m.row - 1;
    &&& n.row == m.row && n.id == m.id
    &&& text_follows(fields.value("name"@), m.name, n.name)
    &&& text_follows(fields.value("phone"@), m.phone, n.phone)
    &&& text_follows(fields.value("teacher"@), m.teacher, n.teacher)
    &&& text_follows(fields.value("member_type"@), m.member_type, n.member_type)
    &&& text_follows(fields.value("card_type"@), m.card_type, n.card_type)
    &&& day_follows(fields.value("purchase_date"@), m.purchase, n.purchase)
    &&& day_follows(fields.value("activation_date"@), m.activation, n.activation)
    &&& day_follows(fields.value("expiry_date"@), m.expiry, n.expiry)
    &&& number_follows(fields.value("amount"@), false, h(r, 9), m.amount, n.amount)
    &&& number_follows(fields.value("receivable"@), false, h(r, 10), m.receivable, n.receivable)
    &&& number_follows(fields.value("total_sessions"@), true, h(r, 12), m.total, n.total)
    &&& n.remark == (if fields.value("remark"@) is Some {
        says_or_empty(fields.value("remark"@))
    } else {
        m.remark
    })
    &&& n.refund == (match fields.value("refund"@) {
        Some(v) => v == FieldVal::Bool(true),
        None => m.refund,
    })
}

/// The cells that a request writes, one for each column.
proof fn lemma_change_cells(tpl: Map<u32, Template>, row: u32, fields: Fields, col: int)
    ensures
        value_in(change_put(tpl, row, fields).formulas, col) is None,
        value_in(change_put(tpl, row, fields).cells, col) == (if col == 2 {
            text_value(fields, "name"@)
        } else if col == 3 {
            text_value(fields, "phone"@)
        } else if col == 4 {
            text_value(fields, "teacher"@)
        } else if col == 5 {
            text_value(fields, "member_type"@)
        } else if col == 6 {
            text_value(fields, "card_type"@)
        } else if col == 7 {
            day_value(fields, "purchase_date"@)
        } else if col == 8 {
            day_value(fields, "activation_date"@)
        } else if col == 9 {
            day_value(fields, "expiry_date"@)
        } else if col == 10 {
            num_value(fields, "amount"@, false)
        } else if col == 11 {
            num_value(fields, "receivable"@, false)
        } else if col == 13 {
            num_value(fields, "total_sessions"@, true)
        } else if col == 22 && fields.value("refund"@) == Some(FieldVal::Bool(true)) {
            Some(CellValue::Text("是"@))
        } else if col == 23 && says_or_empty(fields.value("remark"@)).len() > 0 {
            Some(CellValue::Text(says_or_empty(fields.value("remark"@))))
        } else {
            None
        }),
{
    let a1 = text_change(tpl, fields, "name"@, 2);
    let a2 = text_change(tpl, fields, "phone"@, 3);
    let a3 = text_change(tpl, fields, "teacher"@, 4);
    let a4 = text_change(tpl, fields, "member_type"@, 5);
    let a5 = text_change(tpl, fields, "card_type"@, 6);
    let a6 = day_change(tpl, fields, "purchase_date"@, 7);
    let a7 = day_change(tpl, fields, "activation_date"@, 8);
    let a8 = day_change(tpl, fields, "expiry_date"@, 9);
    let a9 = num_change(tpl, fields, "amount"@, 10, false);
    let a10 = num_change(tpl, fields, "receivable"@, 11, false);
    let a11 = num_change(tpl, fields, "total_sessions"@, 13, true);
    let a12 = text_cell(tpl, 23, fields.text("remark"@));
    let a13 = if fields.value("refund"@) is Some && fields.flag("refund"@) {
        seq![text_put(tpl, 22, "是"@)]
    } else {
        Seq::empty()
    };
    lemma_text_change(tpl, fields, "name"@, 2, col);
    lemma_text_change(tpl, fields, "phone"@, 3, col);
    lemma_text_change(tpl, fields, "teacher"@, 4, col);
    lemma_text_change(tpl, fields, "member_type"@, 5, col);
    lemma_text_change(tpl, fields, "card_type"@, 6, col);
    lemma_day_change(tpl, fields, "purchase_date"@, 7, col);
    lemma_day_change(tpl, fields, "activation_date"@, 8, col);
    lemma_day_change(tpl, fields, "expiry_date"@, 9, col);
    lemma_num_change(tpl, fields, "amount"@, 10, false, col);
    lemma_num_change(tpl, fields, "receivable"@, 11, false, col);
    lemma_num_change(tpl, fields, "total_sessions"@, 13, true, col);
    lemma_value_one(text_put(tpl, 23, fields.text("remark"@)), col);
    lemma_value_one(text_put(tpl, 22, "是"@), col);
    lemma_value_concat(a1, a2, col);
    lemma_value_concat(a1 + a2, a3, col);
    lemma_value_concat(a1 + a2 + a3, a4, col);
    lemma_value_concat(a1 + a2 + a3 + a4, a5, col);
    lemma_value_concat(a1 + a2 + a3 + a4 + a5, a6, col);
    lemma_value_concat(a1 + a2 + a3 + a4 + a5 + a6, a7, col);
    lemma_value_concat(a1 + a2 + a3 + a4 + a5 + a6 + a7, a8, col);
    lemma_value_concat(a1 + a2 + a3 + a4 + a5 + a6 + a7 + a8, a9, col);
    lemma_value_concat(a1 + a2 + a3 + a4 + a5 + a6 + a7 + a8 + a9, a10, col);
    lemma_value_concat(a1 + a2 + a3 + a4 + a5 + a6 + a7 + a8 + a9 + a10, a11, col);
    lemma_value_concat(a1 + a2 + a3 + a4 + a5 + a6 + a7 + a8 + a9 + a10 + a11, a12, col);
    lemma_value_concat(a1 + a2 + a3 + a4 + a5 + a6 + a7 + a8 + a9 + a10 + a11 + a12, a13, col);
}

spec fn text_value(fields: Fields, key: Seq<char>) -> Option<CellValue> {
    match says(fields.value(key)) {
        Some(t) => Some(CellValue::Text(t)),
        None => None,
    }
}

spec fn day_value(fields: Fields, key: Seq<char>) -> Option<CellValue> {
    match says(fields.value(key)) {
        Some(t) if t.len() > 0 && day_named(t) is Some => Some(
            CellValue::Num(signed_decimal(day_named(t)->0 - 693594)),
        ),
        _ => None,
    }
}

spec fn num_value(fields: Fields, key: Seq<char>, whole: bool) -> Option<CellValue> {
    match counts(fields.value(key)) {
        Some(n) => Some(
            CellValue::Num(
                if whole {
                    before_point(n)
                } else {
                    n
                },
            ),
        ),
        None => None,
    }
}

proof fn lemma_text_change(
    tpl: Map<u32, Template>,
    fields: Fields,
    key: Seq<char>,
    at: u32,
    col: int,
)
    ensures
        value_in(text_change(tpl, fields, key, at), col) == (if at == col {
            text_value(fields, key)
        } else {
            None
        }),
{
    if let Some(t) = says(fields.value(key)) {
        lemma_value_one(text_put(tpl, at, t), col);
    } else {
        lemma_value_one(text_put(tpl, at, key), col);
    }
}

proof fn lemma_day_change(
    tpl: Map<u32, Template>,
    fields: Fields,
    key: Seq<char>,
    at: u32,
    col: int,
)
    ensures
        value_in(day_change(tpl, fields, key, at), col) == (if at == col {
            day_value(fields, key)
        } else {
            None
        }),
{
    lemma_value_one(text_put(tpl, at, key), col);
    if let Some(t) = says(fields.value(key)) {
        if let Some(d) = date_value(t) {
            lemma_value_one(day_put(tpl, at, d), col);
        }
    }
}

proof fn lemma_num_change(
    tpl: Map<u32, Template>,
    fields: Fields,
    key: Seq<char>,
    at: u32,
    whole: bool,
    col: int,
)
    ensures
        value_in(num_change(tpl, fields, key, at, whole), col) == (if at == col {
            num_value(fields, key, whole)
        } else {
            None
        }),
{
    lemma_value_one(text_put(tpl, at, key), col);
    if let Some(n) = counts(fields.value(key)) {
        lemma_value_one(num_put(tpl, at, n), col);
        lemma_value_one(num_put(tpl, at, before_point(n)), col);
    }
}

/// The columns that a request clears.
proof fn lemma_change_clear(tpl: Map<u32, Template>, row: u32, fields: Fields, col: u32)
    ensures
        change_put(tpl, row, fields).clear.contains(col) == ({
            ||| col == 10 && fields.value("amount"@) is Some && counts(fields.value("amount"@)) is None
            ||| col == 11 && fields.value("receivable"@) is Some && counts(
                fields.value("receivable"@),
            ) is None
            ||| col == 13 && fields.value("total_sessions"@) is Some && counts(
                fields.value("total_sessions"@),
            ) is None
            ||| col == 23 && fields.value("remark"@) is Some && says_or_empty(
                fields.value("remark"@),
            ).len() == 0
            ||| col == 22 && (fields.value("refund"@) matches Some(v) && v != FieldVal::Bool(true))
        }),
{
    let a = num_clear(fields, "amount"@, 10);
    let b = num_clear(fields, "receivable"@, 11);
    let c = num_clear(fields, "total_sessions"@, 13);
    let d = if fields.value("remark"@) is Some && fields.text("remark"@).len() == 0 {
        seq![23u32]
    } else {
        Seq::empty()
    };
    let e = if fields.value("refund"@) is Some && !fields.flag("refund"@) {
        seq![22u32]
    } else {
        Seq::empty()
    };
    lemma_contains_concat(a, b, col);
    lemma_contains_concat(a + b, c, col);
    lemma_contains_concat(a + b + c, d, col);
    lemma_contains_concat(a + b + c + d, e, col);
    lemma_contains_one(10, col);
    lemma_contains_one(11, col);
    lemma_contains_one(13, col);
    lemma_contains_one(22, col);
    lemma_contains_one(23, col);
}

proof fn lemma_contains_concat(a: Seq<u32>, b: Seq<u32>, x: u32)
    ensures
        (a + b).contains(x) == (a.contains(x) || b.contains(x)),
{
    let w = a + b;
    if a.contains(x) {
        let i = choose|i: int| 0 <= i < a.len() && a[i] == x;
        assert(w[i] == x);
    }
    if b.contains(x) {
        let i = choose|i: int| 0 <= i < b.len() && b[i] == x;
        assert(w[a.len() + i] == x);
    }
    if w.contains(x) {
        let i = choose|i: int| 0 <= i < w.len() && w[i] == x;
        if i < a.len() {
            assert(a[i] == x);
        } else {
            assert(b[i - a.len()] == x);
        }
    }
}

proof fn lemma_contains_one(y: u32, x: u32)
    ensures
        seq![y].contains(x) == (x == y),
        !Seq::<u32>::empty().contains(x),
{
    if x == y {
        assert(seq![y][0] == x);
    }
}

/// A member in whose row a request for a change was written has what the request says of each field,
/// and what it had of all others.
pub proof fn law_change_is_read_back(
    tpl: Map<u32, Template>,
    row: u32,
    fields: Fields,
    g: Values,
    h: Values,
)
    requires
        1 <= row,
        row_follows(g, h, change_put(tpl, row, fields)),
    ensures
        member_follows(fields, member_at(g, row - 1), member_at(h, row - 1), h),
{
    lemma_change_read(tpl, row, fields, g, h, 0);
    lemma_texts_read(tpl, row, fields, g, h);
    lemma_days_read(tpl, row, fields, g, h);
    lemma_numbers_read(tpl, row, fields, g, h);
    lemma_rest_read(tpl, row, fields, g, h);
}

/// What is read of a column after a change.
proof fn lemma_change_read(
    tpl: Map<u32, Template>,
    row: u32,
    fields: Fields,
    g: Values,
    h: Values,
    c: int,
)
    requires
        1 <= row,
        0 <= c < 100,
        row_follows(g, h, change_put(tpl, row, fields)),
    ensures
        match value_in(change_put(tpl, row, fields).cells, c + 1) {
            Some(val) => reads_as(val, h(row - 1, c)),
            None => if change_put(tpl, row, fields).clear.contains((c + 1) as u32) {
                h(row - 1, c) is Empty
            } else {
                h(row - 1, c) == g(row - 1, c)
            },
        },
        c == 0 ==> h(row - 1, c) == g(row - 1, c),
{
    let put = change_put(tpl, row, fields);
    lemma_change_cells(tpl, row, fields, c + 1);
    lemma_change_clear(tpl, row, fields, (c + 1) as u32);
    assert(put.row == row);
    assert(h(put.row - 1, c) == h(row - 1, c));
}

proof fn lemma_texts_read(
    tpl: Map<u32, Template>,
    row: u32,
    fields: Fields,
    g: Values,
    h: Values,
)
    requires
        1 <= row,
        row_follows(g, h, change_put(tpl, row, fields)),
    ensures
        ({
            let m = member_at(g, row - 1);
            let n = member_at(h, row - 1);
            &&& text_follows(fields.value("name"@), m.name, n.name)
            &&& text_follows(fields.value("phone"@), m.phone, n.phone)
            &&& text_follows(fields.value("teacher"@), m.teacher, n.teacher)
            &&& text_follows(fields.value("member_type"@), m.member_type, n.member_type)
            &&& text_follows(fields.value("card_type"@), m.card_type, n.card_type)
        }),
{
    assert forall|c: int| 1 <= c <= 5 implies (match value_in(
        change_put(tpl, row, fields).cells,
        c + 1,
    ) {
        Some(val) => reads_as(val, #[trigger] h(row - 1, c)),
        None => h(row - 1, c) == g(row - 1, c),
    }) by {
        lemma_change_read(tpl, row, fields, g, h, c);
        lemma_change_clear(tpl, row, fields, (c + 1) as u32);
    }
    lemma_change_cells(tpl, row, fields, 2);
    lemma_change_cells(tpl, row, fields, 3);
    lemma_change_cells(tpl, row, fields, 4);
    lemma_change_cells(tpl, row, fields, 5);
    lemma_change_cells(tpl, row, fields, 6);
    lemma_text_shown(h(row - 1, 1));
    lemma_text_shown(h(row - 1, 2));
    lemma_text_shown(h(row - 1, 3));
    lemma_text_shown(h(row - 1, 4));
    lemma_text_shown(h(row - 1, 5));
}

/// A text that was written is shown as it is.
proof fn lemma_text_shown(v: Val)
    ensures
        forall|t: Seq<char>| #[trigger]
            reads_as(CellValue::Text(t), v) ==> shown_text(v) == t,
{
    assert forall|t: Seq<char>| #[trigger]
        reads_as(CellValue::Text(t), v) implies shown_text(v) == t by {
        assert(shown_text(v) =~= t);
    }
}

proof fn lemma_days_read(
    tpl: Map<u32, Template>,
    row: u32,
    fields: Fields,
    g: Values,
    h: Values,
)
    requires
        1 <= row,
        row_follows(g, h, change_put(tpl, row, fields)),
    ensures
        ({
            let m = member_at(g, row - 1);
            let n = member_at(h, row - 1);
            &&& day_follows(fields.value("purchase_date"@), m.purchase, n.purchase)
            &&& day_follows(fields.value("activation_date"@), m.activation, n.activation)
            &&& day_follows(fields.value("expiry_date"@), m.expiry, n.expiry)
        }),
{
    assert forall|c: int| 6 <= c <= 8 implies (match value_in(
        change_put(tpl, row, fields).cells,
        c + 1,
    ) {
        Some(val) => reads_as(val, #[trigger] h(row - 1, c)),
        None => h(row - 1, c) == g(row - 1, c),
    }) by {
        lemma_change_read(tpl, row, fields, g, h, c);
        lemma_change_clear(tpl, row, fields, (c + 1) as u32);
    }
    lemma_change_cells(tpl, row, fields, 7);
    lemma_change_cells(tpl, row, fields, 8);
    lemma_change_cells(tpl, row, fields, 9);
    lemma_day_field(fields.value("purchase_date"@), h(row - 1, 6));
    lemma_day_field(fields.value("activation_date"@), h(row - 1, 7));
    lemma_day_field(fields.value("expiry_date"@), h(row - 1, 8));
}

proof fn lemma_day_field(f: Option<FieldVal>, v: Val)
    ensures
        says(f) matches Some(t) ==> (day_named(t) matches Some(d) ==> (reads_as(
            CellValue::Num(signed_decimal(d - 693594)),
            v,
        ) ==> is_day(v, d))),
{
    if let Some(t) = says(f) {
        if let Some(d) = day_named(t) {
            if reads_as(CellValue::Num(signed_decimal(d - 693594)), v) {
                lemma_day_read(v, d);
            }
        }
    }
}

proof fn lemma_numbers_read(
    tpl: Map<u32, Template>,
    row: u32,
    fields: Fields,
    g: Values,
    h: Values,
)
    requires
        1 <= row,
        row_follows(g, h, change_put(tpl, row, fields)),
    ensures
        ({
            let m = member_at(g, row - 1);
            let n = member_at(h, row - 1);
            let r = row - 1;
            &&& number_follows(fields.value("amount"@), false, h(r, 9), m.amount, n.amount)
            &&& number_follows(
                fields.value("receivable"@),
                false,
                h(r, 10),
                m.receivable,
                n.receivable,
            )
            &&& number_follows(fields.value("total_sessions"@), true, h(r, 12), m.total, n.total)
        }),
{
    lemma_change_read(tpl, row, fields, g, h, 9);
    lemma_change_read(tpl, row, fields, g, h, 10);
    lemma_change_read(tpl, row, fields, g, h, 12);
    lemma_change_clear(tpl, row, fields, 10);
    lemma_change_clear(tpl, row, fields, 11);
    lemma_change_clear(tpl, row, fields, 13);
    lemma_change_cells(tpl, row, fields, 10);
    lemma_change_cells(tpl, row, fields, 11);
    lemma_change_cells(tpl, row, fields, 13);
}

proof fn lemma_rest_read(
    tpl: Map<u32, Template>,
    row: u32,
    fields: Fields,
    g: Values,
    h: Values,
)
    requires
        1 <= row,
        row_follows(g, h, change_put(tpl, row, fields)),
    ensures
        ({
            let m = member_at(g, row - 1);
            let n = member_at(h, row - 1);
            &&& n.remark == (if fields.value("remark"@) is Some {
                says_or_empty(fields.value("remark"@))
            } else {
                m.remark
            })
            &&& n.refund == (match fields.value("refund"@) {
                Some(v) => v == FieldVal::Bool(true),
                None => m.refund,
            })
        }),
{
    let n = member_at(h, row - 1);
    reveal_strlit("是");
    lemma_change_read(tpl, row, fields, g, h, 21);
    lemma_change_read(tpl, row, fields, g, h, 22);
    lemma_change_clear(tpl, row, fields, 22);
    lemma_change_clear(tpl, row, fields, 23);
    lemma_change_cells(tpl, row, fields, 22);
    lemma_change_cells(tpl, row, fields, 23);
    lemma_text_shown(h(row - 1, 21));
    lemma_text_shown(h(row - 1, 22));
    if h(row - 1, 22) is Empty {
        assert(n.remark =~= Seq::<char>::empty());
    }
    if h(row - 1, 21) is Empty {
        assert(shown_text(h(row - 1, 21)).len() == 0);
        assert("是"@.len() == 1);
    }
}

// ------------------------------------------------------------------- new members
/// A day that is asked for is there, and a day that is not stays as it was.
pub open spec fn day_given(t: Seq<char>, old_val: Val, new_val: Val) -> bool {
    match day_named(t) {
        Some(d) => is_day(new_val, d),
        None => new_val == old_val,
    }
}

/// A number that is asked for is there, and a number that is not stays as it was.
pub open spec fn number_given(
    n: Option<Seq<char>>,
    cell: Val,
    old_num: Option<Seq<char>>,
    new_num: Option<Seq<char>>,
) -> bool {
    match n {
        Some(x) => is_number(cell, new_num, x),
        None => new_num == old_num,
    }
}

/// A new member has the number that was given out and all that the request says; a purchase without a
/// day is one of today, and sessions are counted only on a card of sessions. `m` is what the row held
/// before.
pub open spec fn is_new_member(
    body: Fields,
    today: int,
    id: Seq<char>,
    m: MemberRow,
    n: MemberRow,
    h: Values,
) -> bool {
    let r = m.row - 1;
    let sessions = match counts(body.value("total_sessions"@)) {
        Some(x) if says_or_empty(body.value("card_type"@)) == "次卡"@ => Some(before_point(x)),
        _ => None,
    };
    let remark = says_or_empty(body.value("remark"@));
    &&& n.row == m.row && n.id == trimmed(id)
    &&& n.name == says_or_empty(body.value("name"@))
    &&& n.phone == says_or_empty(body.value("phone"@))
    &&& n.teacher == says_or_empty(body.value("teacher"@))
    &&& n.member_type == says_or_empty(body.value("member_type"@))
    &&& n.card_type == says_or_empty(body.value("card_type"@))
    &&& is_day(
        n.purchase,
        match day_named(says_or_empty(body.value("purchase_date"@))) {
            Some(d) => d,
            None => today,
        },
    )
    &&& day_given(says_or_empty(body.value("activation_date"@)), m.activation, n.activation)
    &&& day_given(says_or_empty(body.value("expiry_date"@)), m.expiry, n.expiry)
    &&& number_given(counts(body.value("amount"@)), h(r, 9), m.amount, n.amount)
    &&& number_given(counts(body.value("receivable"@)), h(r, 10), m.receivable, n.receivable)
    &&& number_given(sessions, h(r, 12), m.total, n.total)
    &&& n.remark == (if remark.len() > 0 {
        remark
    } else {
        m.remark
    })
    &&& n.refund == m.refund
}

spec fn day_text_value(t: Seq<char>) -> Option<CellValue> {
    match day_named(t) {
        Some(d) => Some(CellValue::Num(signed_decimal(d - 693594))),
        None => None,
    }
}

spec fn num_text_value(n: Option<Seq<char>>) -> Option<CellValue> {
    match n {
        Some(x) => Some(CellValue::Num(x)),
        None => None,
    }
}

proof fn lemma_day_cell(tpl: Map<u32, Template>, at: u32, t: Seq<char>, col: int)
    ensures
        value_in(day_cell(tpl, at, t), col) == (if at == col {
            day_text_value(t)
        } else {
            None
        }),
{
    lemma_value_one(text_put(tpl, at, t), col);
    if let Some(d) = date_value(t) {
        lemma_value_one(day_put(tpl, at, d), col);
    }
}

proof fn lemma_num_cell(tpl: Map<u32, Template>, at: u32, n: Option<Seq<char>>, col: int)
    ensures
        value_in(num_cell(tpl, at, n), col) == (if at == col {
            num_text_value(n)
        } else {
            None
        }),
{
    lemma_value_one(text_put(tpl, at, Seq::empty()), col);
    if let Some(x) = n {
        lemma_value_one(num_put(tpl, at, x), col);
    }
}

proof fn lemma_text_cell(tpl: Map<u32, Template>, at: u32, t: Seq<char>, col: int)
    ensures
        value_in(text_cell(tpl, at, t), col) == (if at == col && t.len() > 0 {
            Some(CellValue::Text(t))
        } else {
            None
        }),
{
    lemma_value_one(text_put(tpl, at, t), col);
}

/// The seven cells that every new member has.
proof fn lemma_first_cells(
    tpl: Map<u32, Template>,
    id: Seq<char>,
    body: Fields,
    bought: (int, Seq<char>),
    col: int,
)
    ensures
        value_in(
            seq![
                text_put(tpl, 1, id),
                text_put(tpl, 2, body.text("name"@)),
                text_put(tpl, 3, body.text("phone"@)),
                text_put(tpl, 4, body.text("teacher"@)),
                text_put(tpl, 5, body.text("member_type"@)),
                text_put(tpl, 6, body.text("card_type"@)),
                day_put(tpl, 7, bought),
            ],
            col,
        ) == (if col == 1 {
            Some(CellValue::Text(id))
        } else if col == 2 {
            Some(CellValue::Text(says_or_empty(body.value("name"@))))
        } else if col == 3 {
            Some(CellValue::Text(says_or_empty(body.value("phone"@))))
        } else if col == 4 {
            Some(CellValue::Text(says_or_empty(body.value("teacher"@))))
        } else if col == 5 {
            Some(CellValue::Text(says_or_empty(body.value("member_type"@))))
        } else if col == 6 {
            Some(CellValue::Text(says_or_empty(body.value("card_type"@))))
        } else if col == 7 {
            Some(CellValue::Num(signed_decimal(bought.0 - 693594)))
        } else {
            None
        }),
{
    let a = text_put(tpl, 1, id);
    let b = text_put(tpl, 2, body.text("name"@));
    let c = text_put(tpl, 3, body.text("phone"@));
    let d = text_put(tpl, 4, body.text("teacher"@));
    let e = text_put(tpl, 5, body.text("member_type"@));
    let f = text_put(tpl, 6, body.text("card_type"@));
    let g = day_put(tpl, 7, bought);
    assert(seq![a, b, c, d, e, f, g].drop_last() =~= seq![a, b, c, d, e, f]);
    assert(seq![a, b, c, d, e, f].drop_last() =~= seq![a, b, c, d, e]);
    assert(seq![a, b, c, d, e].drop_last() =~= seq![a, b, c, d]);
    assert(seq![a, b, c, d].drop_last() =~= seq![a, b, c]);
    assert(seq![a, b, c].drop_last() =~= seq![a, b]);
    assert(seq![a, b].drop_last() =~= seq![a]);
    lemma_value_one(a, col);
    reveal_with_fuel(value_in, 8);
}

spec fn sessions_asked(body: Fields) -> Option<Seq<char>> {
    match counts(body.value("total_sessions"@)) {
        Some(x) if says_or_empty(body.value("card_type"@)) == "次卡"@ => Some(before_point(x)),
        _ => None,
    }
}

proof fn lemma_member_cells(
    tpl: Map<u32, Template>,
    row: u32,
    id: Seq<char>,
    body: Fields,
    today: (int, Seq<char>),
    col: int,
)
    ensures
        value_in(member_put(tpl, row, id, body, today).cells, col) == (if col == 1 {
            Some(CellValue::Text(id))
        } else if col == 2 {
            Some(CellValue::Text(says_or_empty(body.value("name"@))))
        } else if col == 3 {
            Some(CellValue::Text(says_or_empty(body.value("phone"@))))
        } else if col == 4 {
            Some(CellValue::Text(says_or_empty(body.value("teacher"@))))
        } else if col == 5 {
            Some(CellValue::Text(says_or_empty(body.value("member_type"@))))
        } else if col == 6 {
            Some(CellValue::Text(says_or_empty(body.value("card_type"@))))
        } else if col == 7 {
            Some(
                CellValue::Num(
                    signed_decimal(
                        (match day_named(says_or_empty(body.value("purchase_date"@))) {
                            Some(d) => d,
                            None => today.0,
                        }) - 693594,
                    ),
                ),
            )
        } else if col == 8 {
            day_text_value(says_or_empty(body.value("activation_date"@)))
        } else if col == 9 {
            day_text_value(says_or_empty(body.value("expiry_date"@)))
        } else if col == 10 {
            num_text_value(counts(body.value("amount"@)))
        } else if col == 11 {
            num_text_value(counts(body.value("receivable"@)))
        } else if col == 13 {
            num_text_value(sessions_asked(body))
        } else if col == 23 && says_or_empty(body.value("remark"@)).len() > 0 {
            Some(CellValue::Text(says_or_empty(body.value("remark"@))))
        } else {
            None
        }),
{
    let bought = match date_value(body.text("purchase_date"@)) {
        Some(d) => d,
        None => today,
    };
    let total = if body.text("card_type"@) == "次卡"@ {
        match body.number("total_sessions"@) {
            Some(n) => Some(before_point(n)),
            None => None,
        }
    } else {
        None
    };
    let a = seq![
        text_put(tpl, 1, id),
        text_put(tpl, 2, body.text("name"@)),
        text_put(tpl, 3, body.text("phone"@)),
        text_put(tpl, 4, body.text("teacher"@)),
        text_put(tpl, 5, body.text("member_type"@)),
        text_put(tpl, 6, body.text("card_type"@)),
        day_put(tpl, 7, bought),
    ];
    let b = day_cell(tpl, 8, body.text("activation_date"@));
    let c = day_cell(tpl, 9, body.text("expiry_date"@));
    let d = num_cell(tpl, 10, body.number("amount"@));
    let e = num_cell(tpl, 11, body.number("receivable"@));
    let f = num_cell(tpl, 13, total);
    let g = text_cell(tpl, 23, body.text("remark"@));
    lemma_first_cells(tpl, id, body, bought, col);
    lemma_day_cell(tpl, 8, body.text("activation_date"@), col);
    lemma_day_cell(tpl, 9, body.text("expiry_date"@), col);
    lemma_num_cell(tpl, 10, body.number("amount"@), col);
    lemma_num_cell(tpl, 11, body.number("receivable"@), col);
    lemma_num_cell(tpl, 13, total, col);
    lemma_text_cell(tpl, 23, body.text("remark"@), col);
    lemma_value_concat(a, b, col);
    lemma_value_concat(a + b, c, col);
    lemma_value_concat(a + b + c, d, col);
    lemma_value_concat(a + b + c + d, e, col);
    lemma_value_concat(a + b + c + d + e, f, col);
    lemma_value_concat(a + b + c + d + e + f, g, col);
    assert(total == sessions_asked(body));
}

// --------------------------------------------------------------------- formulas
/// The formula that a template has in a column, moved from the row of the templates to another.
pub open spec fn formula_for(tpl: Map<u32, Template>, col: int, row: u32) -> Option<CellValue> {
    if 0 <= col <= u32::MAX && tpl.contains_key(col as u32) && tpl[col as u32].formula is Some {
        Some(CellValue::Formula(renumbered(tpl[col as u32].formula->0, 2, row as nat)))
    } else {
        None
    }
}

proof fn lemma_formulas(tpl: Map<u32, Template>, from: int, to: int, row: u32, col: int)
    requires
        0 <= from,
        to <= u32::MAX,
    ensures
        value_in(formulas_of(tpl, from, to, row), col) == (if from <= col <= to {
            formula_for(tpl, col, row)
        } else {
            None
        }),
    decreases to + 1 - from,
{
    if from <= to {
        let before = formulas_of(tpl, from, to - 1, row);
        lemma_formulas(tpl, from, to - 1, row, col);
        if let Some(f) = formula_of(tpl, to as u32, row) {
            assert(before.push(f).drop_last() =~= before);
        }
    }
}

/// A new member has the formulas of the row of the templates, in the columns that are calculated, each
/// moved to the new row.
pub proof fn law_new_member_has_formulas(
    tpl: Map<u32, Template>,
    row: u32,
    id: Seq<char>,
    body: Fields,
    today: (int, Seq<char>),
    col: int,
)
    ensures
        value_in(member_put(tpl, row, id, body, today).formulas, col) == (if col == 12 || 14 <= col
            <= 21 {
            formula_for(tpl, col, row)
        } else {
            None
        }),
{
    let a = one(formula_of(tpl, 12, row));
    let b = formulas_of(tpl, 14, 21, row);
    lemma_formulas(tpl, 14, 21, row, col);
    lemma_value_concat(a, b, col);
    lemma_value_one(text_put(tpl, 12, id), col);
    if let Some(f) = formula_of(tpl, 12, row) {
        lemma_value_one(f, col);
    }
}

/// A new class has the formulas of the row of the templates, in the columns that are calculated, each
/// moved to the new row.
pub proof fn law_new_class_has_formulas(
    tpl: Map<u32, Template>,
    row: u32,
    number: int,
    id: Seq<char>,
    day: (int, Seq<char>),
    time: Seq<char>,
    body: Fields,
    col: int,
)
    ensures
        value_in(class_put(tpl, row, number, id, day, time, body).formulas, col) == (if 3 <= col
            <= 11 {
            formula_for(tpl, col, row)
        } else {
            None
        }),
{
    lemma_formulas(tpl, 3, 11, row, col);
}

/// A member whose row was written for a request to add one is the member that was asked for.
pub proof fn law_new_member_is_read_back(
    tpl: Map<u32, Template>,
    row: u32,
    id: Seq<char>,
    body: Fields,
    today: (int, Seq<char>),
    g: Values,
    h: Values,
)
    requires
        1 <= row,
        row_follows(g, h, member_put(tpl, row, id, body, today)),
    ensures
        is_new_member(body, today.0, id, member_at(g, row - 1), member_at(h, row - 1), h),
{
    let m = member_at(g, row - 1);
    let n = member_at(h, row - 1);
    let put = member_put(tpl, row, id, body, today);
    let r = row - 1;
    assert(put.row == row);
    assert forall|c: int|
        0 <= c <= 10 || c == 12 || c == 21 || c == 22 implies (match value_in(put.cells, c + 1) {
        Some(val) => reads_as(val, #[trigger] h(r, c)),
        None => h(r, c) == g(r, c),
    }) by {
        law_new_member_has_formulas(tpl, row, id, body, today, c + 1);
        assert(!put.clear.contains((c + 1) as u32));
        assert(h(put.row - 1, c) == h(r, c));
    }
    lemma_new_member_texts(tpl, row, id, body, today, h);
    lemma_member_cells(tpl, row, id, body, today, 7);
    lemma_member_cells(tpl, row, id, body, today, 8);
    lemma_member_cells(tpl, row, id, body, today, 9);
    lemma_member_cells(tpl, row, id, body, today, 10);
    lemma_member_cells(tpl, row, id, body, today, 11);
    lemma_member_cells(tpl, row, id, body, today, 13);
    lemma_member_cells(tpl, row, id, body, today, 22);
    lemma_member_cells(tpl, row, id, body, today, 23);
    lemma_days(h(r, 6));
    lemma_days(h(r, 7));
    lemma_days(h(r, 8));
    lemma_text_shown(h(r, 22));
}

proof fn lemma_days(v: Val)
    ensures
        forall|d: int| #[trigger]
            reads_as(CellValue::Num(signed_decimal(d - 693594)), v) ==> is_day(v, d),
{
    assert forall|d: int| #[trigger]
        reads_as(CellValue::Num(signed_decimal(d - 693594)), v) implies is_day(v, d) by {
        lemma_day_read(v, d);
    }
}

proof fn lemma_new_member_texts(
    tpl: Map<u32, Template>,
    row: u32,
    id: Seq<char>,
    body: Fields,
    today: (int, Seq<char>),
    h: Values,
)
    requires
        1 <= row,
        forall|c: int|
            0 <= c <= 5 ==> (match value_in(member_put(tpl, row, id, body, today).cells, c + 1) {
                Some(val) => reads_as(val, #[trigger] h(row - 1, c)),
                None => true,
            }),
    ensures
        ({
            let n = member_at(h, row - 1);
            &&& n.id == trimmed(id)
            &&& n.name == says_or_empty(body.value("name"@))
            &&& n.phone == says_or_empty(body.value("phone"@))
            &&& n.teacher == says_or_empty(body.value("teacher"@))
            &&& n.member_type == says_or_empty(body.value("member_type"@))
            &&& n.card_type == says_or_empty(body.value("card_type"@))
        }),
{
    let r = row - 1;
    lemma_member_cells(tpl, row, id, body, today, 1);
    lemma_member_cells(tpl, row, id, body, today, 2);
    lemma_member_cells(tpl, row, id, body, today, 3);
    lemma_member_cells(tpl, row, id, body, today, 4);
    lemma_member_cells(tpl, row, id, body, today, 5);
    lemma_member_cells(tpl, row, id, body, today, 6);
    lemma_text_shown(h(r, 0));
    lemma_text_shown(h(r, 1));
    lemma_text_shown(h(r, 2));
    lemma_text_shown(h(r, 3));
    lemma_text_shown(h(r, 4));
    lemma_text_shown(h(r, 5));
}

// --------------------------------------------------------------------- classes
/// A new class has its running number, its member, its day and its time, and what the request says of
/// the course, the effect and the remark. `c` is what the row held before.
pub open spec fn is_new_class(
    body: Fields,
    number: int,
    id: Seq<char>,
    day: int,
    c: ClassRow,
    n: ClassRow,
    h: Values,
) -> bool {
    let r = c.row - 1;
    let course = says_or_empty(body.value("course"@));
    let remark = says_or_empty(body.value("remark"@));
    &&& n.row == c.row && n.member_id == trimmed(id)
    &&& h(r, 0) is Num ==> n.seq == SeqVal::Int(number)
    &&& is_day(n.date, day)
    &&& n.course == (if course.len() > 0 {
        course
    } else {
        c.course
    })
    &&& n.effect == (c.effect || body.value("effect"@) == Some(FieldVal::Bool(true)))
    &&& n.remark == (if remark.len() > 0 {
        remark
    } else {
        c.remark
    })
}

proof fn lemma_class_cells(
    tpl: Map<u32, Template>,
    row: u32,
    number: int,
    id: Seq<char>,
    day: (int, Seq<char>),
    time: Seq<char>,
    body: Fields,
    col: int,
)
    ensures
        value_in(class_put(tpl, row, number, id, day, time, body).cells, col) == (if col == 1 {
            Some(CellValue::Num(signed_decimal(number)))
        } else if col == 2 {
            Some(CellValue::Text(id))
        } else if col == 4 {
            Some(CellValue::Num(signed_decimal(day.0 - 693594)))
        } else if col == 5 {
            Some(CellValue::Num(time))
        } else if col == 12 && says_or_empty(body.value("course"@)).len() > 0 {
            Some(CellValue::Text(says_or_empty(body.value("course"@))))
        } else if col == 13 && body.value("effect"@) == Some(FieldVal::Bool(true)) {
            Some(CellValue::Text("1"@))
        } else if col == 14 && says_or_empty(body.value("remark"@)).len() > 0 {
            Some(CellValue::Text(says_or_empty(body.value("remark"@))))
        } else {
            None
        }),
{
    let w = num_put(tpl, 1, signed_decimal(number));
    let x = text_put(tpl, 2, id);
    let y = day_put(tpl, 4, day);
    let z = num_put(tpl, 5, time);
    let a = seq![w, x, y, z];
    let b = text_cell(tpl, 12, body.text("course"@));
    let c = if body.flag("effect"@) {
        seq![text_put(tpl, 13, "1"@)]
    } else {
        Seq::empty()
    };
    let d = text_cell(tpl, 14, body.text("remark"@));
    assert(a.drop_last() =~= seq![w, x, y]);
    assert(seq![w, x, y].drop_last() =~= seq![w, x]);
    assert(seq![w, x].drop_last() =~= seq![w]);
    lemma_value_one(w, col);
    reveal_with_fuel(value_in, 5);
    lemma_text_cell(tpl, 12, body.text("course"@), col);
    lemma_text_cell(tpl, 14, body.text("remark"@), col);
    lemma_value_one(text_put(tpl, 13, "1"@), col);
    lemma_value_concat(a, b, col);
    lemma_value_concat(a + b, c, col);
    lemma_value_concat(a + b + c, d, col);
}

/// A whole number that was written is read as itself.
proof fn lemma_number_read(n: int)
    requires
        0 <= n <= i64::MAX,
    ensures
        seq_value(Val::Num(number_text(signed_decimal(n)))) == SeqVal::Int(n),
{
    let t = decimal(n as nat);
    lemma_decimal(n as nat);
    reveal_strlit("-0");
    reveal_strlit("NaN");
    reveal_strlit("inf");
    reveal_strlit("-inf");
    assert(is_digit(t[0]));
    assert("-0"@[0] == '-' && "NaN"@[0] == 'N' && "inf"@[0] == 'i' && "-inf"@[0] == '-');
    lemma_no_point(t);
    assert(number_text(t) == t);
    assert(is_finite(t));
    assert(whole_part(t) == n);
}

proof fn lemma_no_point(t: Seq<char>)
    requires
        forall|i: int| 0 <= i < t.len() ==> #[trigger] t[i] != '.',
    ensures
        before_point(t) == t,
    decreases t.len(),
{
    if t.len() > 0 {
        let r = t.drop_first();
        assert forall|i: int| 0 <= i < r.len() implies #[trigger] r[i] != '.' by {
            assert(r[i] == t[i + 1]);
        }
        lemma_no_point(r);
        assert(seq![t[0]] + r =~= t);
    } else {
        assert(before_point(t) =~= t);
    }
}

proof fn lemma_one_is_one()
    ensures
        trimmed("1"@) == "1"@,
{
    reveal_strlit("1");
    assert(trimmed_front("1"@) == "1"@);
    assert(trimmed_back("1"@) == "1"@);
}

/// A class whose row was written for a request to add one is the class that was asked for, where the
/// row of the templates calculates neither the day nor the time.
pub proof fn law_new_class_is_read_back(
    tpl: Map<u32, Template>,
    row: u32,
    number: int,
    id: Seq<char>,
    day: (int, Seq<char>),
    time: Seq<char>,
    body: Fields,
    g: Values,
    h: Values,
)
    requires
        1 <= row,
        0 <= number <= i64::MAX,
        formula_for(tpl, 4, row) is None,
        formula_for(tpl, 5, row) is None,
        row_follows(g, h, class_put(tpl, row, number, id, day, time, body)),
    ensures
        is_new_class(body, number, id, day.0, class_at(g, row - 1), class_at(h, row - 1), h),
        reads_as(CellValue::Num(time), class_at(h, row - 1).time),
{
    let put = class_put(tpl, row, number, id, day, time, body);
    let r = row - 1;
    assert(put.row == row);
    assert forall|c: int|
        c == 0 || c == 1 || c == 3 || c == 4 || 11 <= c <= 13 implies (match value_in(
        put.cells,
        c + 1,
    ) {
        Some(val) => reads_as(val, #[trigger] h(r, c)),
        None => h(r, c) == g(r, c),
    }) by {
        law_new_class_has_formulas(tpl, row, number, id, day, time, body, c + 1);
        assert(!put.clear.contains((c + 1) as u32));
        assert(h(put.row - 1, c) == h(r, c));
    }
    lemma_class_cells(tpl, row, number, id, day, time, body, 1);
    lemma_class_cells(tpl, row, number, id, day, time, body, 2);
    lemma_class_cells(tpl, row, number, id, day, time, body, 4);
    lemma_class_cells(tpl, row, number, id, day, time, body, 5);
    lemma_class_cells(tpl, row, number, id, day, time, body, 12);
    lemma_class_cells(tpl, row, number, id, day, time, body, 13);
    lemma_class_cells(tpl, row, number, id, day, time, body, 14);
    lemma_number_read(number);
    lemma_days(h(r, 3));
    lemma_one_is_one();
    reveal_strlit("1");
    lemma_text_shown(h(r, 1));
    lemma_text_shown(h(r, 11));
    lemma_text_shown(h(r, 13));
}

/// A row that was cleared for a request to delete a class names no member any more and holds nothing
/// of the class, and its other columns are as they were.
pub proof fn law_deleted_class_is_gone(row: u32, g: Values, h: Values)
    requires
        1 <= row,
        row_follows(g, h, delete_put(row)),
    ensures
        ({
            let c = class_at(h, row - 1);
            &&& c.member_id.len() == 0 && c.seq is Null && c.date is Empty && c.time is Empty
            &&& c.course.len() == 0 && !c.effect && c.remark.len() == 0
        }),
        forall|c: int|
            c == 2 || 5 <= c <= 10 || c >= 14 ==> #[trigger] h(row - 1, c) == g(row - 1, c),
{
    let put = delete_put(row);
    let r = row - 1;
    assert(put.row == row);
    assert(put.clear =~= seq![1u32, 2, 4, 5, 12, 13, 14]);
    assert forall|c: int| 0 <= c implies (#[trigger] h(r, c) == h(put.row - 1, c)) by {}
    assert(put.clear[0] == 1 && put.clear[1] == 2 && put.clear[2] == 4 && put.clear[3] == 5);
    assert(put.clear[4] == 12 && put.clear[5] == 13 && put.clear[6] == 14);
    assert(h(r, 0) is Empty);
    assert(h(r, 1) is Empty);
    assert(h(r, 3) is Empty);
    assert(h(r, 4) is Empty);
    assert(h(r, 11) is Empty);
    assert(h(r, 12) is Empty);
    assert(h(r, 13) is Empty);
    lemma_all_white(Seq::<char>::empty());
    assert(shown_text(h(r, 1)) =~= Seq::<char>::empty());
    assert forall|c: int| c == 2 || 5 <= c <= 10 || c >= 14 implies #[trigger] h(row - 1, c) == g(
        row - 1,
        c,
    ) by {
        if c < u32::MAX {
            assert(!put.clear.contains((c + 1) as u32));
        }
    }
}

// ------------------------------------------------------------------------ rows
/// A row of a worksheet that no request is for holds the member or the class that it held.
pub proof fn law_other_rows_stay(g: Values, h: Values, ws: Seq<RowPut>, q: int)
    requires
        sheet_follows(g, h, ws),
        forall|k: int| 0 <= k < ws.len() ==> (#[trigger] ws[k]).row != q + 1,
    ensures
        member_at(h, q) == member_at(g, q),
        class_at(h, q) == class_at(g, q),
{
    assert forall|c: int| #[trigger] h(q, c) == g(q, c) by {}
}

/// The members that are listed are those of the rows that have a number, and no others.
pub proof fn law_listed_members(g: Values, end: int)
    requires
        end <= u32::MAX,
    ensures
        forall|q: int|
            1 <= q < end ==> (#[trigger] member_at(g, q).id.len() > 0) == members_below(
                g,
                end,
            ).contains(member_at(g, q)),
        forall|i: int|
            0 <= i < members_below(g, end).len() ==> exists|q: int|
                1 <= q < end && #[trigger] members_below(g, end)[i] == #[trigger] member_at(g, q),
    decreases end,
{
    if end > 1 {
        law_listed_members(g, end - 1);
        let before = members_below(g, end - 1);
        let all = members_below(g, end);
        let last = member_at(g, end - 1);
        assert forall|q: int| 1 <= q < end implies (#[trigger] member_at(g, q).id.len() > 0)
            == all.contains(member_at(g, q)) by {
            let m = member_at(g, q);
            if q < end - 1 {
                if before.contains(m) {
                    let i = choose|i: int| 0 <= i < before.len() && before[i] == m;
                    assert(all[i] == m);
                }
                if all.contains(m) && !before.contains(m) {
                    let i = choose|i: int| 0 <= i < all.len() && all[i] == m;
                    assert(all[i] == last);
                }
            } else {
                if last.id.len() > 0 {
                    assert(all[all.len() - 1] == last);
                } else if all.contains(last) {
                    let i = choose|i: int| 0 <= i < all.len() && all[i] == last;
                    assert(before[i] == last);
                    let k = choose|k: int|
                        1 <= k < end - 1 && #[trigger] before[i] == #[trigger] member_at(g, k);
                    assert(member_at(g, k).row != last.row);
                }
            }
        }
        assert forall|i: int| 0 <= i < all.len() implies exists|q: int|
            1 <= q < end && #[trigger] all[i] == #[trigger] member_at(g, q) by {
            if i < before.len() {
                assert(before[i] == all[i]);
                let k = choose|k: int|
                    1 <= k < end - 1 && #[trigger] before[i] == #[trigger] member_at(g, k);
                assert(all[i] == member_at(g, k));
            } else {
                assert(all[i] == member_at(g, end - 1));
            }
        }
    }
}

/// The classes that are listed are those of the rows that name a member, and no others.
pub proof fn law_listed_classes(g: Values, end: int)
    requires
        end <= u32::MAX,
    ensures
        forall|q: int|
            1 <= q < end ==> (#[trigger] class_at(g, q).member_id.len() > 0) == classes_below(
                g,
                end,
            ).contains(class_at(g, q)),
        forall|i: int|
            0 <= i < classes_below(g, end).len() ==> exists|q: int|
                1 <= q < end && #[trigger] classes_below(g, end)[i] == #[trigger] class_at(g, q),
    decreases end,
{
    if end > 1 {
        law_listed_classes(g, end - 1);
        let before = classes_below(g, end - 1);
        let all = classes_below(g, end);
        let last = class_at(g, end - 1);
        assert forall|q: int| 1 <= q < end implies (#[trigger] class_at(g, q).member_id.len() > 0)
            == all.contains(class_at(g, q)) by {
            let m = class_at(g, q);
            if q < end - 1 {
                if before.contains(m) {
                    let i = choose|i: int| 0 <= i < before.len() && before[i] == m;
                    assert(all[i] == m);
                }
                if all.contains(m) && !before.contains(m) {
                    let i = choose|i: int| 0 <= i < all.len() && all[i] == m;
                    assert(all[i] == last);
                }
            } else {
                if last.member_id.len() > 0 {
                    assert(all[all.len() - 1] == last);
                } else if all.contains(last) {
                    let i = choose|i: int| 0 <= i < all.len() && all[i] == last;
                    assert(before[i] == last);
                    let k = choose|k: int|
                        1 <= k < end - 1 && #[trigger] before[i] == #[trigger] class_at(g, k);
                    assert(class_at(g, k).row != last.row);
                }
            }
        }
        assert forall|i: int| 0 <= i < all.len() implies exists|q: int|
            1 <= q < end && #[trigger] all[i] == #[trigger] class_at(g, q) by {
            if i < before.len() {
                assert(before[i] == all[i]);
                let k = choose|k: int|
                    1 <= k < end - 1 && #[trigger] before[i] == #[trigger] class_at(g, k);
                assert(all[i] == class_at(g, k));
            } else {
                assert(all[i] == class_at(g, end - 1));
            }
        }
    }
}

/// Whether a text is what is shown of a cell: nothing of an empty one, a text and a day by their
/// texts, a number by its own, and a time of day by hours and minutes.
pub open spec fn is_text_of(v: Val, t: Seq<char>) -> bool {
    match v {
        Val::Empty => t.len() == 0,
        Val::Text(x) => t == x,
        Val::Date(_, x) => t == x,
        Val::Num(n) => t == number_text(n),
        Val::Time(b) => t == clock_text(b),
    }
}

/// Whether a number is that of a cell: a cell that holds no number has none.
pub open spec fn is_number_of(v: Val, n: Option<Seq<char>>) -> bool {
    match v {
        Val::Num(x) => n == Some(x),
        _ => n is None,
    }
}

/// The fields of a member are what the columns A to K, M, V and W of its row show.
pub proof fn law_member_is_read(g: Values, r: int)
    requires
        0 <= r < u32::MAX,
    ensures
        ({
            let m = member_at(g, r);
            &&& m.row == r + 1
            &&& exists|id: Seq<char>| #[trigger] is_text_of(g(r, 0), id) && m.id == trimmed(id)
            &&& is_text_of(g(r, 1), m.name) && is_text_of(g(r, 2), m.phone)
            &&& is_text_of(g(r, 3), m.teacher) && is_text_of(g(r, 4), m.member_type)
            &&& is_text_of(g(r, 5), m.card_type) && is_text_of(g(r, 22), m.remark)
            &&& m.purchase == g(r, 6) && m.activation == g(r, 7) && m.expiry == g(r, 8)
            &&& is_number_of(g(r, 9), m.amount) && is_number_of(g(r, 10), m.receivable)
            &&& is_number_of(g(r, 12), m.total)
            &&& m.refund == is_text_of(g(r, 21), "是"@)
        }),
{
    let t = shown_text(g(r, 21));
    assert(is_text_of(g(r, 0), shown_text(g(r, 0))));
    reveal_strlit("是");
    assert("是"@.len() == 1);
    if g(r, 21) is Empty {
        assert(t.len() == 0);
    }
}

/// The fields of a class are what the columns A, B, D, E, L, M and N of its row show; an effect is a
/// one, as a number or as a text.
pub proof fn law_class_is_read(g: Values, r: int)
    requires
        0 <= r < u32::MAX,
    ensures
        ({
            let c = class_at(g, r);
            &&& c.row == r + 1
            &&& exists|id: Seq<char>| #[trigger]
                is_text_of(g(r, 1), id) && c.member_id == trimmed(id)
            &&& c.date == g(r, 3) && c.time == g(r, 4)
            &&& is_text_of(g(r, 11), c.course) && is_text_of(g(r, 13), c.remark)
            &&& c.effect == (match g(r, 12) {
                Val::Num(n) => n == "1"@,
                Val::Text(t) => trimmed(t) == "1"@,
                _ => false,
            })
            &&& match g(r, 0) {
                Val::Empty => c.seq is Null,
                Val::Text(t) => c.seq == SeqVal::Text(t),
                Val::Date(_, t) => c.seq == SeqVal::Text(t),
                Val::Time(b) => c.seq == SeqVal::Text(clock_text(b)),
                Val::Num(n) => {
                    let whole = forall|i: int| 0 <= i < n.len() ==> #[trigger] n[i] != '.';
                    if n == "NaN"@ || n == "inf"@ || n == "-inf"@ {
                        c.seq is Null
                    } else if whole {
                        c.seq == SeqVal::Int(whole_part(n))
                    } else {
                        c.seq == SeqVal::Real(n)
                    }
                },
            }
        }),
{
    assert(is_text_of(g(r, 1), shown_text(g(r, 1))));
    if let Val::Num(n) = g(r, 0) {
        if forall|i: int| 0 <= i < n.len() ==> #[trigger] n[i] != '.' {
            lemma_no_point(n);
        } else {
            lemma_point(n);
        }
    }
}

proof fn lemma_point(t: Seq<char>)
    requires
        !(forall|i: int| 0 <= i < t.len() ==> #[trigger] t[i] != '.'),
    ensures
        before_point(t).len() < t.len(),
    decreases t.len(),
{
    if t[0] != '.' {
        let r = t.drop_first();
        let i = choose|i: int| 0 <= i < t.len() && #[trigger] t[i] == '.';
        assert(r[i - 1] == '.');
        lemma_point(r);
    }
}

/// The ledger of a workbook lists every member in the rows 2 to 504 of the one worksheet and every
/// class in the rows 2 to 1001 of the other, and says whether the heading of the refunds is there.
pub proof fn law_ledger_lists_all(bytes: Seq<u8>)
    ensures
        ledger_of(bytes) matches Ok(l) ==> {
            let archive = book_values(bytes, "会员档案"@);
            let records = book_values(bytes, "上课记录"@);
            &&& forall|q: int|
                1 <= q < 504 ==> (#[trigger] member_at(archive, q).id.len() > 0)
                    == l.members.contains(member_at(archive, q))
            &&& forall|q: int|
                1 <= q < 1001 ==> (#[trigger] class_at(records, q).member_id.len() > 0)
                    == l.classes.contains(class_at(records, q))
            &&& exists|t: Seq<char>| #[trigger]
                is_text_of(archive(0, 21), t) && l.refund_header == !is_all_white(t)
        },
        ledger_of(bytes) is Ok == (has_cells(bytes, "会员档案"@) && has_cells(
            bytes,
            "上课记录"@,
        )),
{
    let archive = book_values(bytes, "会员档案"@);
    let records = book_values(bytes, "上课记录"@);
    law_listed_members(archive, 504);
    law_listed_classes(records, 1001);
    let t = shown_text(archive(0, 21));
    lemma_all_white(t);
    assert(is_text_of(archive(0, 21), t));
}

} // verus!
