//! What a request that succeeds does to the workbook: which row it is for, and what is read of that row
//! afterwards.
use vstd::prelude::*;
use crate::columns::{
    day_named, formula_for, is_new_class, is_new_member, law_change_is_read_back,
    law_deleted_class_is_gone, law_new_class_is_read_back, law_new_member_is_read_back,
    member_follows, reads_as, row_follows, says, says_or_empty, sheet_follows, value_in,
};
use crate::model::{
    before_point, date_value, shown_text, whole_part, ClassRow, FieldVal, Fields, MemberRow, SeqVal,
};
use crate::store::{
    asked_base, change_put, class_added, class_deleted, class_places, class_put, day_cell,
    day_change, day_put, delete_put, formula_of, formulas_of, free_from, header_put, largest_seq,
    law_first_empty_row, loaded, member_added, member_changed, member_from, member_places,
    member_put, new_id, num_cell, num_change, num_put, one, seq_int, seq_left, sheet_patched,
    text_cell, text_change, text_put, Book, Fault,
};
use crate::text::{signed_decimal, signed_value, trimmed};
use crate::xlsx::read::{class_at, ledger_in, member_at, Values};
use crate::xlsx::reload::data_of;
use crate::xlsx::surgery::{CellPut, CellValue, RowPut};
use crate::xlsx::xmlscan::{row_templates_of, sheet_paths_of, Template};
use crate::xlsx::zipio::Part;

verus! {

// ----------------------------------------------------------------------- styles
/// Cells that have the style of the template in their column.
pub open spec fn are_styled(tpl: Map<u32, Template>, cells: Seq<CellPut>) -> bool {
    forall|k: int|
        0 <= k < cells.len() ==> (#[trigger] cells[k]).style == (if tpl.contains_key(
            cells[k].col,
        ) {
            tpl[cells[k].col].style
        } else {
            None
        })
}

proof fn lemma_styled_concat(tpl: Map<u32, Template>, a: Seq<CellPut>, b: Seq<CellPut>)
    requires
        are_styled(tpl, a),
        are_styled(tpl, b),
    ensures
        are_styled(tpl, a + b),
{
    let w = a + b;
    assert forall|k: int| 0 <= k < w.len() implies (#[trigger] w[k]).style == (
    if tpl.contains_key(w[k].col) {
        tpl[w[k].col].style
    } else {
        None
    }) by {
        if k < a.len() {
            assert(w[k] == a[k]);
        } else {
            assert(w[k] == b[k - a.len()]);
        }
    }
}

proof fn lemma_formulas_styled(tpl: Map<u32, Template>, from: int, to: int, row: u32)
    ensures
        are_styled(tpl, formulas_of(tpl, from, to, row)),
    decreases to + 1 - from,
{
    if from <= to {
        lemma_formulas_styled(tpl, from, to - 1, row);
    }
}

/// Every cell that is written has the style of its column in the row of the templates.
pub proof fn law_cells_are_styled(
    tpl: Map<u32, Template>,
    row: u32,
    id: Seq<char>,
    body: Fields,
    today: (int, Seq<char>),
    number: int,
    time: Seq<char>,
)
    ensures
        are_styled(tpl, member_put(tpl, row, id, body, today).cells),
        are_styled(tpl, member_put(tpl, row, id, body, today).formulas),
        are_styled(tpl, class_put(tpl, row, number, id, today, time, body).cells),
        are_styled(tpl, class_put(tpl, row, number, id, today, time, body).formulas),
        are_styled(tpl, change_put(tpl, row, body).cells),
        are_styled(tpl, header_put(tpl).cells),
{
    lemma_member_styled(tpl, row, id, body, today);
    lemma_change_styled(tpl, row, body);
    lemma_formulas_styled(tpl, 3, 11, row);
    let a = seq![
        num_put(tpl, 1, signed_decimal(number)),
        text_put(tpl, 2, id),
        day_put(tpl, 4, today),
        num_put(tpl, 5, time),
    ];
    let b = text_cell(tpl, 12, body.text("course"@));
    let c = if body.flag("effect"@) {
        seq![text_put(tpl, 13, "1"@)]
    } else {
        Seq::empty()
    };
    let d = text_cell(tpl, 14, body.text("remark"@));
    lemma_styled_concat(tpl, a, b);
    lemma_styled_concat(tpl, a + b, c);
    lemma_styled_concat(tpl, a + b + c, d);
}

proof fn lemma_member_styled(
    tpl: Map<u32, Template>,
    row: u32,
    id: Seq<char>,
    body: Fields,
    today: (int, Seq<char>),
)
    ensures
        are_styled(tpl, member_put(tpl, row, id, body, today).cells),
        are_styled(tpl, member_put(tpl, row, id, body, today).formulas),
{
    let bought = match date_value(body.text("purchase_date"@)) {
        Some(d) => d,
        None => today,
    };
    let total = if body.text("card_type"@) == "次卡"@ {
        match body.number("total_sessions"@) {
            Some(n) => Some(before_point(n)),
            None => None,
        }
    } else {
        None
    };
    let a = seq![
        text_put(tpl, 1, id),
        text_put(tpl, 2, body.text("name"@)),
        text_put(tpl, 3, body.text("phone"@)),
        text_put(tpl, 4, body.text("teacher"@)),
        text_put(tpl, 5, body.text("member_type"@)),
        text_put(tpl, 6, body.text("card_type"@)),
        day_put(tpl, 7, bought),
    ];
    let b = day_cell(tpl, 8, body.text("activation_date"@));
    let c = day_cell(tpl, 9, body.text("expiry_date"@));
    let d = num_cell(tpl, 10, body.number("amount"@));
    let e = num_cell(tpl, 11, body.number("receivable"@));
    let f = num_cell(tpl, 13, total);
    let g = text_cell(tpl, 23, body.text("remark"@));
    lemma_styled_concat(tpl, a, b);
    lemma_styled_concat(tpl, a + b, c);
    lemma_styled_concat(tpl, a + b + c, d);
    lemma_styled_concat(tpl, a + b + c + d, e);
    lemma_styled_concat(tpl, a + b + c + d + e, f);
    lemma_styled_concat(tpl, a + b + c + d + e + f, g);
    lemma_formulas_styled(tpl, 14, 21, row);
    lemma_styled_concat(tpl, one(formula_of(tpl, 12, row)), formulas_of(tpl, 14, 21, row));
}

proof fn lemma_change_styled(tpl: Map<u32, Template>, row: u32, fields: Fields)
    ensures
        are_styled(tpl, change_put(tpl, row, fields).cells),
{
    let a1 = text_change(tpl, fields, "name"@, 2);
    let a2 = text_change(tpl, fields, "phone"@, 3);
    let a3 = text_change(tpl, fields, "teacher"@, 4);
    let a4 = text_change(tpl, fields, "member_type"@, 5);
    let a5 = text_change(tpl, fields, "card_type"@, 6);
    let a6 = day_change(tpl, fields, "purchase_date"@, 7);
    let a7 = day_change(tpl, fields, "activation_date"@, 8);
    let a8 = day_change(tpl, fields, "expiry_date"@, 9);
    let a9 = num_change(tpl, fields, "amount"@, 10, false);
    let a10 = num_change(tpl, fields, "receivable"@, 11, false);
    let a11 = num_change(tpl, fields, "total_sessions"@, 13, true);
    let a12 = text_cell(tpl, 23, fields.text("remark"@));
    let a13 = if fields.value("refund"@) is Some && fields.flag("refund"@) {
        seq![text_put(tpl, 22, "是"@)]
    } else {
        Seq::empty()
    };
    lemma_styled_concat(tpl, a1, a2);
    lemma_styled_concat(tpl, a1 + a2, a3);
    lemma_styled_concat(tpl, a1 + a2 + a3, a4);
    lemma_styled_concat(tpl, a1 + a2 + a3 + a4, a5);
    lemma_styled_concat(tpl, a1 + a2 + a3 + a4 + a5, a6);
    lemma_styled_concat(tpl, a1 + a2 + a3 + a4 + a5 + a6, a7);
    lemma_styled_concat(tpl, a1 + a2 + a3 + a4 + a5 + a6 + a7, a8);
    lemma_styled_concat(tpl, a1 + a2 + a3 + a4 + a5 + a6 + a7 + a8, a9);
    lemma_styled_concat(tpl, a1 + a2 + a3 + a4 + a5 + a6 + a7 + a8 + a9, a10);
    lemma_styled_concat(tpl, a1 + a2 + a3 + a4 + a5 + a6 + a7 + a8 + a9 + a10, a11);
    lemma_styled_concat(tpl, a1 + a2 + a3 + a4 + a5 + a6 + a7 + a8 + a9 + a10 + a11, a12);
    lemma_styled_concat(tpl, a1 + a2 + a3 + a4 + a5 + a6 + a7 + a8 + a9 + a10 + a11 + a12, a13);
}

// ---------------------------------------------------------------------- members
/// Whether a row is one that members can be in, is no member's, and comes behind none that is free.
pub open spec fn is_first_free_row(members: Seq<MemberRow>, row: int) -> bool {
    &&& 2 <= row <= 504
    &&& !holds_member(members, row)
    &&& forall|q: int| 2 <= q < row ==> #[trigger] holds_member(members, q)
}

/// Whether a member stands in a row.
pub open spec fn holds_member(members: Seq<MemberRow>, row: int) -> bool {
    exists|j: int| 0 <= j < members.len() && (#[trigger] members[j]).row == row
}

proof fn lemma_free_member_row(members: Seq<MemberRow>)
    ensures
        match free_from(member_places(members), 2, 504) {
            Some(row) => is_first_free_row(members, row),
            None => forall|q: int| 2 <= q <= 504 ==> #[trigger] holds_member(members, q),
        },
{
    let used = member_places(members);
    law_first_empty_row(used, 2, 504);
    assert forall|q: int| 0 <= q <= 504 implies #[trigger] holds_member(members, q)
        == used.contains(q as u32) by {
        if used.contains(q as u32) {
            let j = choose|j: int| 0 <= j < used.len() && used[j] == q as u32;
            assert(members[j].row == q);
        }
        if holds_member(members, q) {
            let j = choose|j: int| 0 <= j < members.len() && (#[trigger] members[j]).row == q;
            assert(used[j] == q as u32);
        }
    }
}

/// A member that was added has the number which is told, the next one for the phone and the card that
/// the request names, stands in the first free row, and is read
/// there with all that the request says. No other row is touched, and where no row is free nothing
/// happens.
#[verifier::spinoff_prover]
#[verifier::rlimit(60)]
pub proof fn law_member_is_added(s: Book, body: Fields, today: (int, Seq<char>))
    ensures
        member_added(s, body, today).1 matches Ok(id) ==> exists|put: RowPut|
            {
                &&& #[trigger] sheet_patched(s, s.sheet_archive, seq![put]) == (
                    member_added(s, body, today).0,
                    Ok::<(), Fault>(()),
                )
                &&& id == new_id(
                    s.members,
                    says_or_empty(body.value("phone"@)),
                    says(body.value("base_member_id"@)),
                )
                &&& put.insert && is_first_free_row(s.members, put.row as int)
                &&& are_styled(s.tpl_archive, put.cells) && are_styled(s.tpl_archive, put.formulas)
                &&& forall|g: Values, h: Values| #[trigger]
                    row_follows(g, h, put) ==> is_new_member(
                        body,
                        today.0,
                        id,
                        member_at(g, put.row - 1),
                        member_at(h, put.row - 1),
                        h,
                    )
            },
        (forall|q: int| 2 <= q <= 504 ==> #[trigger] holds_member(s.members, q)) <==> (
        member_added(s, body, today).1 matches Err(Fault::Biz(_))),
{
    lemma_free_member_row(s.members);
    match free_from(member_places(s.members), 2, 504) {
        Some(row) => {
            let id = new_id(s.members, body.text("phone"@), asked_base(body));
            let put = member_put(s.tpl_archive, row as u32, id, body, today);
            law_cells_are_styled(s.tpl_archive, row as u32, id, body, today, 1, id);
            assert forall|g: Values, h: Values| #[trigger] row_follows(g, h, put) implies
                is_new_member(
                body,
                today.0,
                id,
                member_at(g, put.row - 1),
                member_at(h, put.row - 1),
                h,
            ) by {
                law_new_member_is_read_back(s.tpl_archive, row as u32, id, body, today, g, h);
            }
            if member_added(s, body, today).1 is Ok {
                assert(sheet_patched(s, s.sheet_archive, seq![put]) == (
                    member_added(s, body, today).0,
                    Ok::<(), Fault>(()),
                ));
            }
            assert(!holds_member(s.members, row));
            lemma_no_biz(s, s.sheet_archive, seq![put]);
        },
        None => {},
    }
}

/// Changing a worksheet is never refused because the request does not fit the ledger.
proof fn lemma_no_biz(s: Book, sheet: Seq<char>, ws: Seq<RowPut>)
    ensures
        !(sheet_patched(s, sheet, ws).1 matches Err(Fault::Biz(_))),
{
}

proof fn lemma_member_from(members: Seq<MemberRow>, i: int, id: Seq<char>)
    requires
        0 <= i,
    ensures
        match member_from(members, i, id) {
            Some(k) => i <= k < members.len() && members[k].id == id && forall|j: int|
                i <= j < k ==> (#[trigger] members[j]).id != id,
            None => forall|j: int| i <= j < members.len() ==> (#[trigger] members[j]).id != id,
        },
    decreases members.len() - i,
{
    if i < members.len() && members[i].id != id {
        lemma_member_from(members, i + 1, id);
    }
}

/// A member that was changed is the first one with the number, and is read in its row with what the
/// request says of each field and with all else as it was. The only other row that is touched is the
/// heading, which gets the one of the refunds with the first of them. A number that no member has is
/// refused.
#[verifier::spinoff_prover]
#[verifier::rlimit(60)]
pub proof fn law_member_is_changed(s: Book, id: Seq<char>, fields: Fields)
    requires
        forall|j: int| 0 <= j < s.members.len() ==> (#[trigger] s.members[j]).row >= 2,
    ensures
        member_changed(s, id, fields).1 is Ok ==> exists|i: int, ws: Seq<RowPut>|
            #![trigger s.members[i], sheet_patched(s, s.sheet_archive, ws)]
            {
                let row = s.members[i].row;
                let first_refund = fields.value("refund"@) == Some(FieldVal::Bool(true))
                    && !s.refund_header;
                &&& 0 <= i < s.members.len() && s.members[i].id == id
                &&& forall|j: int| 0 <= j < i ==> (#[trigger] s.members[j]).id != id
                &&& sheet_patched(s, s.sheet_archive, ws) == (
                    member_changed(s, id, fields).0,
                    Ok::<(), Fault>(()),
                )
                &&& forall|k: int|
                    0 <= k < ws.len() ==> (#[trigger] ws[k]).row == row || (ws[k].row == 1
                        && first_refund)
                &&& forall|k: int|
                    0 <= k < ws.len() ==> are_styled(s.tpl_archive, (#[trigger] ws[k]).cells)
                        && !ws[k].insert && ws[k].formulas.len() == 0
                &&& forall|g: Values, h: Values| #[trigger]
                    sheet_follows(g, h, ws) ==> member_follows(
                        fields,
                        member_at(g, row - 1),
                        member_at(h, row - 1),
                        h,
                    ) && (first_refund ==> shown_text(h(0, 21)) == "退卡"@)
            },
        (member_changed(s, id, fields).1 matches Err(Fault::Biz(_))) <==> (forall|j: int|
            0 <= j < s.members.len() ==> (#[trigger] s.members[j]).id != id),
        member_changed(s, id, fields).1 matches Err(Fault::Biz(e)) ==> e == "会员不存在: "@ + id,
{
    lemma_member_from(s.members, 0, id);
    if let Some(i) = member_from(s.members, 0, id) {
        let row = s.members[i].row;
        let first_refund = fields.flag("refund"@) && !s.refund_header;
        let ws = change_requests(s, row, fields);
        assert(s.members[i].id == id);
        lemma_changed_by(s, id, fields, i);
        lemma_no_biz(s, s.sheet_archive, ws);
        lemma_change_requests(s, row, fields);
    }
}

spec fn change_requests(s: Book, row: u32, fields: Fields) -> Seq<RowPut> {
    let put = change_put(s.tpl_archive, row, fields);
    if fields.flag("refund"@) && !s.refund_header {
        seq![put, header_put(s.tpl_archive)]
    } else {
        seq![put]
    }
}

proof fn lemma_changed_by(s: Book, id: Seq<char>, fields: Fields, i: int)
    requires
        member_from(s.members, 0, id) == Some(i),
    ensures
        ({
            let done = sheet_patched(
                s,
                s.sheet_archive,
                change_requests(s, s.members[i].row, fields),
            );
            &&& member_changed(s, id, fields).1 == done.1
            &&& done.1 is Ok ==> member_changed(s, id, fields).0 == done.0
        }),
{
    let ws = change_requests(s, s.members[i].row, fields);
    lemma_heading_is_read(s, s.sheet_archive, ws);
}

/// Whether the heading is there is read anew with every change.
proof fn lemma_heading_is_read(s: Book, sheet: Seq<char>, ws: Seq<RowPut>)
    ensures
        ({
            let a = sheet_patched(s, sheet, ws);
            let b = sheet_patched(Book { refund_header: true, ..s }, sheet, ws);
            a.1 == b.1 && (a.1 is Ok ==> a.0 == b.0)
        }),
{
}

proof fn lemma_change_requests(s: Book, row: u32, fields: Fields)
    requires
        row >= 2,
    ensures
        ({
            let ws = change_requests(s, row, fields);
            let first_refund = fields.value("refund"@) == Some(FieldVal::Bool(true))
                && !s.refund_header;
            &&& forall|k: int|
                0 <= k < ws.len() ==> (#[trigger] ws[k]).row == row || (ws[k].row == 1
                    && first_refund)
            &&& forall|k: int|
                0 <= k < ws.len() ==> are_styled(s.tpl_archive, (#[trigger] ws[k]).cells)
                    && !ws[k].insert && ws[k].formulas.len() == 0
            &&& forall|g: Values, h: Values| #[trigger]
                sheet_follows(g, h, ws) ==> member_follows(
                    fields,
                    member_at(g, row - 1),
                    member_at(h, row - 1),
                    h,
                ) && (first_refund ==> shown_text(h(0, 21)) == "退卡"@)
        }),
{
    let put = change_put(s.tpl_archive, row, fields);
    let head = header_put(s.tpl_archive);
    let ws = change_requests(s, row, fields);
    let first_refund = fields.flag("refund"@) && !s.refund_header;
    let none = Seq::<char>::empty();
    law_cells_are_styled(s.tpl_archive, row, none, fields, (0, none), 1, none);
    assert(ws[0] == put);
    assert forall|g: Values, h: Values| #[trigger] sheet_follows(g, h, ws) implies member_follows(
        fields,
        member_at(g, row - 1),
        member_at(h, row - 1),
        h,
    ) && (first_refund ==> shown_text(h(0, 21)) == "退卡"@) by {
        assert(row_follows(g, h, ws[0]));
        law_change_is_read_back(s.tpl_archive, row, fields, g, h);
        if first_refund {
            assert(ws[1] == head);
            assert(row_follows(g, h, ws[1]));
            lemma_header_read(s.tpl_archive, g, h);
        }
    }
}

proof fn lemma_header_read(tpl: Map<u32, Template>, g: Values, h: Values)
    requires
        row_follows(g, h, header_put(tpl)),
    ensures
        shown_text(h(0, 21)) == "退卡"@,
{
    let put = header_put(tpl);
    reveal_strlit("退卡");
    assert(put.cells.last() == text_put(tpl, 22, "退卡"@));
    assert(value_in(put.cells, 22) == Some(CellValue::Text("退卡"@)));
    assert(value_in(put.formulas, 22) is None);
    assert(put.row == 1);
    assert(reads_as(CellValue::Text("退卡"@), h(put.row - 1, 21)));
    assert(h(put.row - 1, 21) == h(0, 21));
    assert("退卡"@.len() == 2);
}

// ---------------------------------------------------------------------- classes
/// Whether a row is one that classes can be in, is no class's, and comes behind none that is free.
pub open spec fn is_first_free_class_row(classes: Seq<ClassRow>, row: int) -> bool {
    &&& 2 <= row <= 1001
    &&& !holds_class(classes, row)
    &&& forall|q: int| 2 <= q < row ==> #[trigger] holds_class(classes, q)
}

/// Whether a class stands in a row.
pub open spec fn holds_class(classes: Seq<ClassRow>, row: int) -> bool {
    exists|j: int| 0 <= j < classes.len() && (#[trigger] classes[j]).row == row
}

/// Whether every row that classes can be in is used.
pub open spec fn are_class_rows_used(classes: Seq<ClassRow>) -> bool {
    forall|q: int| 2 <= q <= 1001 ==> #[trigger] holds_class(classes, q)
}

proof fn lemma_free_class_row(classes: Seq<ClassRow>)
    ensures
        match free_from(class_places(classes), 2, 1001) {
            Some(row) => is_first_free_class_row(classes, row) && !are_class_rows_used(classes),
            None => are_class_rows_used(classes),
        },
{
    let used = class_places(classes);
    law_first_empty_row(used, 2, 1001);
    assert forall|q: int| 0 <= q <= 1001 implies #[trigger] holds_class(classes, q)
        == used.contains(q as u32) by {
        if used.contains(q as u32) {
            let j = choose|j: int| 0 <= j < used.len() && used[j] == q as u32;
            assert(classes[j].row == q);
        }
        if holds_class(classes, q) {
            let j = choose|j: int| 0 <= j < classes.len() && (#[trigger] classes[j]).row == q;
            assert(used[j] == q as u32);
        }
    }
    if let Some(row) = free_from(used, 2, 1001) {
        assert(!holds_class(classes, row));
    }
}

/// The number that a class has as its running number: the number itself without its fraction, or the
/// one that a text writes.
pub open spec fn running_number(q: SeqVal) -> Option<int> {
    match q {
        SeqVal::Int(i) => Some(i),
        SeqVal::Real(n) => Some(whole_part(n)),
        SeqVal::Text(t) => signed_value(trimmed(t)),
        SeqVal::Null => None,
    }
}

/// Whether a number is the next running number: above zero and above all that are there, and directly
/// behind the largest of them.
pub open spec fn is_next_number(classes: Seq<ClassRow>, number: int) -> bool {
    &&& number >= 1
    &&& forall|j: int|
        0 <= j < classes.len() ==> (running_number((#[trigger] classes[j]).seq) matches Some(x) ==> x
            < number)
    &&& number == 1 || exists|j: int|
        0 <= j < classes.len() && running_number((#[trigger] classes[j]).seq) == Some(number - 1)
}

proof fn lemma_next_number(classes: Seq<ClassRow>)
    ensures
        is_next_number(classes, largest_seq(classes) + 1),
    decreases classes.len(),
{
    if classes.len() > 0 {
        let front = classes.drop_last();
        let n = classes.len() - 1;
        lemma_next_number(front);
        assert forall|j: int| 0 <= j < n implies #[trigger] classes[j] == front[j] by {}
        assert(classes[n] == classes.last());
        assert(running_number(classes.last().seq) == seq_int(classes.last().seq));
        let number = largest_seq(classes) + 1;
        assert forall|j: int| 0 <= j < classes.len() implies (running_number(
            (#[trigger] classes[j]).seq,
        ) matches Some(x) ==> x < number) by {
            if j < n {
                assert(running_number(front[j].seq) matches Some(x) ==> x < largest_seq(front) + 1);
            }
        }
        if largest_seq(classes) != largest_seq(front) {
            assert(running_number(classes[n].seq) == Some(number - 1));
        } else if number != 1 {
            let j = choose|j: int|
                0 <= j < front.len() && running_number((#[trigger] front[j]).seq) == Some(
                    number - 1,
                );
            assert(running_number(classes[j].seq) == Some(number - 1));
        }
    }
}

/// There is a running number left as long as none of those that are there is the largest of all.
pub proof fn law_number_is_left(s: Book, body: Fields)
    requires
        forall|j: int|
            0 <= j < s.classes.len() ==> (running_number((#[trigger] s.classes[j]).seq) matches Some(
                x,
            ) ==> x < i64::MAX),
    ensures
        seq_left(s, body),
        largest_seq(s.classes) < i64::MAX,
{
    lemma_next_number(s.classes);
}

/// A class that was added is one of a member that is there, stands in the first free row, has the next
/// running number, and is read there with the day, the time and all that the request says. It is
/// refused exactly where there is no such member, no such day, or no free row.
#[verifier::spinoff_prover]
#[verifier::rlimit(60)]
pub proof fn law_class_is_added(s: Book, body: Fields, time: Seq<char>)
    requires
        largest_seq(s.classes) < i64::MAX,
    ensures
        class_added(s, body, time).1 is Ok ==> exists|put: RowPut, number: int|
            #![trigger sheet_patched(s, s.sheet_class, seq![put]), is_next_number(s.classes, number)]
            {
                let id = says_or_empty(body.value("member_id"@));
                let day = day_named(says_or_empty(body.value("date"@)))->0;
                &&& sheet_patched(s, s.sheet_class, seq![put]) == (
                    class_added(s, body, time).0,
                    Ok::<(), Fault>(()),
                )
                &&& is_next_number(s.classes, number)
                &&& put.insert && is_first_free_class_row(s.classes, put.row as int)
                &&& are_styled(s.tpl_class, put.cells) && are_styled(s.tpl_class, put.formulas)
                &&& forall|g: Values, h: Values| #[trigger]
                    row_follows(g, h, put) && formula_for(s.tpl_class, 4, put.row) is None
                        && formula_for(s.tpl_class, 5, put.row) is None ==> is_new_class(
                        body,
                        number,
                        id,
                        day,
                        class_at(g, put.row - 1),
                        class_at(h, put.row - 1),
                        h,
                    ) && reads_as(CellValue::Num(time), class_at(h, put.row - 1).time)
            },
        (class_added(s, body, time).1 matches Err(Fault::Biz(_))) <==> {
            ||| forall|j: int|
                0 <= j < s.members.len() ==> (#[trigger] s.members[j]).id != says_or_empty(
                    body.value("member_id"@),
                )
            ||| day_named(says_or_empty(body.value("date"@))) is None
            ||| are_class_rows_used(s.classes)
        },
        class_added(s, body, time).1 matches Err(Fault::Biz(e)) ==> {
            let id = says_or_empty(body.value("member_id"@));
            let known = exists|j: int| 0 <= j < s.members.len() && (#[trigger] s.members[j]).id == id;
            e == (if !known {
                "会员编号不存在: "@ + id
            } else if day_named(says_or_empty(body.value("date"@))) is None {
                "上课日期无效"@
            } else {
                "上课记录已满（1000 行）"@
            })
        },
{
    let id = body.text("member_id"@);
    assert(id == says_or_empty(body.value("member_id"@)));
    assert(body.text("date"@) == says_or_empty(body.value("date"@)));
    lemma_member_from(s.members, 0, id);
    lemma_free_class_row(s.classes);
    lemma_next_number(s.classes);
    if member_from(s.members, 0, id) is Some && date_value(body.text("date"@)) is Some && free_from(
        class_places(s.classes),
        2,
        1001,
    ) is Some {
        let day = date_value(body.text("date"@))->0;
        let row = free_from(class_places(s.classes), 2, 1001)->0;
        let number = largest_seq(s.classes) + 1;
        let put = class_put(s.tpl_class, row as u32, number, id, day, time, body);
        lemma_no_biz(s, s.sheet_class, seq![put]);
        law_cells_are_styled(s.tpl_class, row as u32, id, body, day, number, time);
        assert forall|g: Values, h: Values| #[trigger]
            row_follows(g, h, put) && formula_for(s.tpl_class, 4, put.row) is None && formula_for(
                s.tpl_class,
                5,
                put.row,
            ) is None implies is_new_class(
            body,
            number,
            id,
            day.0,
            class_at(g, put.row - 1),
            class_at(h, put.row - 1),
            h,
        ) && reads_as(CellValue::Num(time), class_at(h, put.row - 1).time) by {
            law_new_class_is_read_back(
                s.tpl_class,
                row as u32,
                number,
                id,
                day,
                time,
                body,
                g,
                h,
            );
        }
        assert(class_added(s, body, time) == sheet_patched(s, s.sheet_class, seq![put]));
        assert(is_next_number(s.classes, number));
    }
}

/// A class that was deleted was one in the row that was asked for, and that row names no member
/// afterwards and holds nothing of the class, while its formulas stay. It is refused exactly where no
/// class stands in the row.
pub proof fn law_class_is_deleted(s: Book, row: u32)
    ensures
        class_deleted(s, row).1 is Ok ==> exists|put: RowPut|
            {
                &&& #[trigger] sheet_patched(s, s.sheet_class, seq![put]) == class_deleted(s, row)
                &&& put.row == row && !put.insert
                &&& forall|g: Values, h: Values| #[trigger]
                    row_follows(g, h, put) ==> {
                        let c = class_at(h, row - 1);
                        &&& c.member_id.len() == 0 && c.seq is Null && c.date is Empty
                        &&& c.time is Empty && c.course.len() == 0 && !c.effect
                        &&& c.remark.len() == 0
                        &&& forall|k: int|
                            k == 2 || 5 <= k <= 10 || k >= 14 ==> #[trigger] h(row - 1, k) == g(
                                row - 1,
                                k,
                            )
                    }
            },
        (class_deleted(s, row).1 matches Err(Fault::Biz(_))) <==> !(2 <= row <= 1001
            && holds_class(s.classes, row as int)),
{
    let used = class_places(s.classes);
    let put = delete_put(row);
    lemma_no_biz(s, s.sheet_class, seq![put]);
    if used.contains(row) {
        let j = choose|j: int| 0 <= j < used.len() && used[j] == row;
        assert(s.classes[j].row == row);
    }
    if holds_class(s.classes, row as int) {
        let j = choose|j: int| 0 <= j < s.classes.len() && (#[trigger] s.classes[j]).row == row;
        assert(used[j] == row);
        assert(used.contains(row));
    }
    if class_deleted(s, row).1 is Ok {
        assert forall|g: Values, h: Values| #[trigger] row_follows(g, h, put) implies ({
            let c = class_at(h, row - 1);
            &&& c.member_id.len() == 0 && c.seq is Null && c.date is Empty
            &&& c.time is Empty && c.course.len() == 0 && !c.effect
            &&& c.remark.len() == 0
            &&& forall|k: int|
                k == 2 || 5 <= k <= 10 || k >= 14 ==> #[trigger] h(row - 1, k) == g(row - 1, k)
        }) by {
            law_deleted_class_is_gone(row, g, h);
        }
        assert(sheet_patched(s, s.sheet_class, seq![put]) == class_deleted(s, row));
    }
}

// --------------------------------------------------------------------- workbook
/// A workbook that is loaded holds the parts that were read, the members and classes of its ledger,
/// and the templates of row 2 of each of its two worksheets; nothing is waited for.
pub proof fn law_loaded_workbook(bytes: Seq<u8>, p: Seq<Part>, recoverable: Option<Seq<char>>)
    ensures
        loaded(bytes, p, recoverable) matches Ok(b) ==> {
            &&& b.parts == p && !b.pending && b.pending_reason is None && b.last_saved is None
            &&& b.recoverable == recoverable
            &&& ledger_in(bytes) matches Ok(l) && b.members == l.members && b.classes == l.classes
                && b.refund_header == l.refund_header
            &&& sheet_paths_of(p) matches Ok(paths) && paths.contains_key("会员档案"@)
                && paths.contains_key("上课记录"@) && paths["会员档案"@] == b.sheet_archive
                && paths["上课记录"@] == b.sheet_class
            &&& data_of(p, b.sheet_archive) matches Some(d) && b.tpl_archive == row_templates_of(d, 2)
            &&& data_of(p, b.sheet_class) matches Some(d) && b.tpl_class == row_templates_of(d, 2)
        },
{
}

} // verus!
