//! The figures that follow from members and classes.
use vstd::prelude::*;
use crate::model::{
    class_rows, copy_number, date_view, day_of, is_blank_val, is_nonzero, is_positive, member_rows,
    number_view, shown, whole_part, ClassRow, Date, MemberRow, Number, RawClass, RawMember, SeqNo,
    SeqVal,
};
use crate::text::{chars_of, has_prefix, is_before, same_text, text_before, text_of, text_view};

verus! {

/// A card of sessions that are counted.
pub const CARD_SESSIONS: &'static str = "次卡";

/// A card that is valid for a period.
pub const CARD_PERIOD: &'static str = "期限卡";

/// The card is used up or out of date.
pub const STATUS_EXPIRED: &'static str = "已到期";

/// No class for ten days or more.
pub const STATUS_SLEEP: &'static str = "沉睡客户";

/// No class for seven days or more.
pub const STATUS_WARN: &'static str = "预警客户";

/// A member who comes.
pub const STATUS_NORMAL: &'static str = "正常";

/// A card that was not activated yet.
pub const STATUS_PENDING: &'static str = "待开卡";

/// The card was given back.
pub const STATUS_REFUNDED: &'static str = "退卡";

/// What an amount is divided by to give the price of one class.
pub enum Divisor {
    Sessions(Number),
    Days(i64),
}

/// The price of one class, as the quotient of the receivable amount and a number.
pub struct UnitPrice {
    pub receivable: Number,
    pub divisor: Divisor,
}

/// What an amount is divided by, by its text.
pub ghost enum DivisorVal {
    Sessions(Seq<char>),
    Days(int),
}

/// The price of one class by its texts.
pub ghost struct Price {
    pub receivable: Seq<char>,
    pub divisor: DivisorVal,
}

impl View for UnitPrice {
    type V = Price;

    open spec fn view(&self) -> Price {
        Price {
            receivable: self.receivable@,
            divisor: match self.divisor {
                Divisor::Sessions(n) => DivisorVal::Sessions(n@),
                Divisor::Days(d) => DivisorVal::Days(d as int),
            },
        }
    }
}

/// An optional price.
pub open spec fn price_view(p: Option<UnitPrice>) -> Option<Price> {
    match p {
        Some(x) => Some(x@),
        None => None,
    }
}

/// A member with the figures that follow.
pub struct MemberOut {
    pub row: u32,
    pub id: String,
    pub name: String,
    pub phone: String,
    pub teacher: String,
    pub member_type: String,
    pub card_type: String,
    pub purchase_date: Option<String>,
    pub activation_date: Option<String>,
    pub expiry_date: Option<String>,
    pub amount: Option<Number>,
    pub receivable: Option<Number>,
    pub total_sessions: Option<Number>,
    pub consumed: usize,
    pub remaining_sessions: Option<i64>,
    pub remaining_days: Option<i64>,
    pub unit_price: Option<UnitPrice>,
    /// How many times the price of a class is left on the card.
    pub remaining_units: i64,
    pub last_class: Option<String>,
    pub days_absent: i64,
    pub status: String,
    pub refund: bool,
    pub remark: String,
}

/// A member with the figures that follow, by their texts.
pub ghost struct MemberFigures {
    pub row: u32,
    pub id: Seq<char>,
    pub name: Seq<char>,
    pub phone: Seq<char>,
    pub teacher: Seq<char>,
    pub member_type: Seq<char>,
    pub card_type: Seq<char>,
    pub purchase_date: Option<Seq<char>>,
    pub activation_date: Option<Seq<char>>,
    pub expiry_date: Option<Seq<char>>,
    pub amount: Option<Seq<char>>,
    pub receivable: Option<Seq<char>>,
    pub total_sessions: Option<Seq<char>>,
    pub consumed: int,
    pub remaining_sessions: Option<int>,
    pub remaining_days: Option<int>,
    pub unit_price: Option<Price>,
    pub remaining_units: int,
    pub last_class: Option<Seq<char>>,
    pub days_absent: int,
    pub status: Seq<char>,
    pub refund: bool,
    pub remark: Seq<char>,
}

/// An optional integer.
pub open spec fn int_view(n: Option<i64>) -> Option<int> {
    match n {
        Some(x) => Some(x as int),
        None => None,
    }
}

impl View for MemberOut {
    type V = MemberFigures;

    open spec fn view(&self) -> MemberFigures {
        MemberFigures {
            row: self.row,
            id: self.id@,
            name: self.name@,
            phone: self.phone@,
            teacher: self.teacher@,
            member_type: self.member_type@,
            card_type: self.card_type@,
            purchase_date: text_view(self.purchase_date),
            activation_date: text_view(self.activation_date),
            expiry_date: text_view(self.expiry_date),
            amount: number_view(self.amount),
            receivable: number_view(self.receivable),
            total_sessions: number_view(self.total_sessions),
            consumed: self.consumed as int,
            remaining_sessions: int_view(self.remaining_sessions),
            remaining_days: int_view(self.remaining_days),
            unit_price: price_view(self.unit_price),
            remaining_units: self.remaining_units as int,
            last_class: text_view(self.last_class),
            days_absent: self.days_absent as int,
            status: self.status@,
            refund: self.refund,
            remark: self.remark@,
        }
    }
}

// --------------------------------------------------------------------- members
/// How many classes a member took.
pub open spec fn consumed_by(classes: Seq<ClassRow>, id: Seq<char>) -> nat
    decreases classes.len(),
{
    if classes.len() == 0 {
        0
    } else if classes.last().member_id == id {
        consumed_by(classes.drop_last(), id) + 1
    } else {
        consumed_by(classes.drop_last(), id)
    }
}

/// The latest day of a member's classes.
pub open spec fn latest_class(classes: Seq<ClassRow>, id: Seq<char>) -> Option<(int, Seq<char>)>
    decreases classes.len(),
{
    if classes.len() == 0 {
        None
    } else {
        let before = latest_class(classes.drop_last(), id);
        let c = classes.last();
        match (day_of(c.date), before) {
            (Some(d), Some(b)) if c.member_id == id && d.0 > b.0 => Some(d),
            (Some(d), None) if c.member_id == id => Some(d),
            _ => before,
        }
    }
}

/// An integer that is not below zero.
pub open spec fn floored(n: int) -> int {
    if n < 0 {
        0
    } else {
        n
    }
}

/// The sessions that are left on a card of sessions.
pub open spec fn sessions_left(m: MemberRow, consumed: int) -> Option<int> {
    if m.card_type == CARD_SESSIONS@ {
        let total = match m.total {
            Some(t) => whole_part(t),
            None => 0,
        };
        Some(floored(total - consumed))
    } else {
        None
    }
}

/// The days that are left on a card for a period.
pub open spec fn days_left(m: MemberRow, today: int) -> Option<int> {
    if m.card_type == CARD_PERIOD@ {
        match day_of(m.expiry) {
            Some(e) => Some(floored(e.0 - today)),
            None => Some(0),
        }
    } else {
        None
    }
}

/// The price of one class: the receivable amount over the number of sessions, or over the days from
/// activation to expiry.
pub open spec fn price_of(m: MemberRow) -> Option<Price> {
    if m.card_type == CARD_SESSIONS@ {
        match (m.receivable, m.total) {
            (Some(r), Some(t)) if is_positive(t) && is_nonzero(r) => Some(
                Price { receivable: r, divisor: DivisorVal::Sessions(t) },
            ),
            _ => None,
        }
    } else if m.card_type == CARD_PERIOD@ {
        match (m.receivable, day_of(m.activation), day_of(m.expiry)) {
            (Some(r), Some(a), Some(e)) if is_nonzero(r) && e.0 > a.0 => Some(
                Price { receivable: r, divisor: DivisorVal::Days(e.0 - a.0) },
            ),
            _ => None,
        }
    } else {
        None
    }
}

/// The day a member was last seen: that of the latest class, or that of the activation.
pub open spec fn last_seen(m: MemberRow, classes: Seq<ClassRow>) -> Option<(int, Seq<char>)> {
    match latest_class(classes, m.id) {
        Some(d) => Some(d),
        None => day_of(m.activation),
    }
}

/// The days since a member was last seen.
pub open spec fn absence(m: MemberRow, classes: Seq<ClassRow>, today: int) -> int {
    match last_seen(m, classes) {
        Some(d) => today - d.0,
        None => 0,
    }
}

/// The status of a member.
pub open spec fn status_of(
    refund: bool,
    exhausted: bool,
    never_activated: bool,
    days_absent: int,
) -> Seq<char> {
    if refund {
        STATUS_REFUNDED@
    } else if exhausted {
        if never_activated {
            STATUS_PENDING@
        } else {
            STATUS_EXPIRED@
        }
    } else if days_absent >= 10 {
        STATUS_SLEEP@
    } else if days_absent >= 7 {
        STATUS_WARN@
    } else {
        STATUS_NORMAL@
    }
}

/// The figures of a member.
pub open spec fn figures_of(m: MemberRow, classes: Seq<ClassRow>, today: int) -> MemberFigures {
    let consumed = consumed_by(classes, m.id) as int;
    let sessions = sessions_left(m, consumed);
    let days = days_left(m, today);
    MemberFigures {
        row: m.row,
        id: m.id,
        name: m.name,
        phone: m.phone,
        teacher: m.teacher,
        member_type: m.member_type,
        card_type: m.card_type,
        purchase_date: shown(m.purchase),
        activation_date: shown(m.activation),
        expiry_date: shown(m.expiry),
        amount: m.amount,
        receivable: m.receivable,
        total_sessions: m.total,
        consumed,
        remaining_sessions: sessions,
        remaining_days: days,
        unit_price: price_of(m),
        remaining_units: match (sessions, days) {
            (Some(n), _) => n,
            (None, Some(n)) => n,
            _ => 0,
        },
        last_class: match last_seen(m, classes) {
            Some(d) => Some(d.1),
            None => None,
        },
        days_absent: absence(m, classes, today),
        status: status_of(
            m.refund,
            sessions == Some(0int) || days == Some(0int),
            is_blank_val(m.activation),
            absence(m, classes, today),
        ),
        refund: m.refund,
        remark: m.remark,
    }
}

/// Counts a member's classes and finds the latest of their days.
fn class_history(classes: &[RawClass], id: &str) -> (r: (usize, Option<Date>))
    ensures
        r.0 == consumed_by(class_rows(classes@), id@),
        r.0 <= classes@.len(),
        date_view(r.1) == latest_class(class_rows(classes@), id@),
{
    let ghost all = class_rows(classes@);
    let mut count: usize = 0;
    let mut last: Option<Date> = None;
    let mut i: usize = 0;
    assert(all.take(0) =~= Seq::<ClassRow>::empty());
    while i < classes.len()
        invariant
            i <= classes@.len(),
            all == class_rows(classes@),
            count <= i,
            count == consumed_by(all.take(i as int), id@),
            date_view(last) == latest_class(all.take(i as int), id@),
        decreases classes@.len() - i,
    {
        assert(all.take(i + 1).drop_last() =~= all.take(i as int));
        assert(all[i as int] == classes@[i as int]@);
        if same_text(classes[i].member_id.as_str(), id) {
            count = count + 1;
            if let Some(d) = classes[i].date.date() {
                let later = match &last {
                    Some(b) => d.days > b.days,
                    None => true,
                };
                if later {
                    last = Some(d);
                }
            }
        }
        i = i + 1;
    }
    assert(all.take(i as int) =~= all);
    (count, last)
}

/// The price of one class.
fn unit_price(m: &RawMember) -> (r: Option<UnitPrice>)
    ensures
        price_view(r) == price_of(m@),
{
    if same_text(m.card_type.as_str(), CARD_SESSIONS) {
        match (&m.receivable, &m.total) {
            (Some(r), Some(t)) => {
                if t.positive() && r.nonzero() {
                    Some(UnitPrice { receivable: r.copy(), divisor: Divisor::Sessions(t.copy()) })
                } else {
                    None
                }
            },
            _ => None,
        }
    } else if same_text(m.card_type.as_str(), CARD_PERIOD) {
        match (&m.receivable, m.activation.date(), m.expiry.date()) {
            (Some(r), Some(a), Some(e)) => {
                if r.nonzero() && e.days > a.days {
                    Some(
                        UnitPrice {
                            receivable: r.copy(),
                            divisor: Divisor::Days(e.days as i64 - a.days as i64),
                        },
                    )
                } else {
                    None
                }
            },
            _ => None,
        }
    } else {
        None
    }
}

/// The sessions that are left on a card of sessions.
fn remaining_sessions(m: &RawMember, consumed: usize) -> (r: Option<i64>)
    ensures
        int_view(r) == sessions_left(m@, consumed as int),
{
    if same_text(m.card_type.as_str(), CARD_SESSIONS) {
        let total: i64 = match &m.total {
            Some(t) => t.to_i64(),
            None => 0,
        };
        let left: i128 = total as i128 - consumed as i128;
        if left < 0 {
            Some(0)
        } else {
            Some(left as i64)
        }
    } else {
        None
    }
}

/// The days that are left on a card for a period.
fn remaining_days(m: &RawMember, today: i32) -> (r: Option<i64>)
    ensures
        int_view(r) == days_left(m@, today as int),
{
    if same_text(m.card_type.as_str(), CARD_PERIOD) {
        match m.expiry.date() {
            Some(e) => {
                let left: i64 = e.days as i64 - today as i64;
                if left < 0 {
                    Some(0)
                } else {
                    Some(left)
                }
            },
            None => Some(0),
        }
    } else {
        None
    }
}

/// The status of a member.
pub fn member_status(refund: bool, exhausted: bool, never_activated: bool, days_absent: i64) -> (r:
    String)
    ensures
        r@ == status_of(refund, exhausted, never_activated, days_absent as int),
{
    if refund {
        String::from_str(STATUS_REFUNDED)
    } else if exhausted {
        if never_activated {
            String::from_str(STATUS_PENDING)
        } else {
            String::from_str(STATUS_EXPIRED)
        }
    } else if days_absent >= 10 {
        String::from_str(STATUS_SLEEP)
    } else if days_absent >= 7 {
        String::from_str(STATUS_WARN)
    } else {
        String::from_str(STATUS_NORMAL)
    }
}

/// The figures of a member.
pub fn member_figures(m: &RawMember, classes: &[RawClass], today: i32) -> (r: MemberOut)
    ensures
        r@ == figures_of(m@, class_rows(classes@), today as int),
{
    let (consumed, latest) = class_history(classes, m.id.as_str());
    let sessions = remaining_sessions(m, consumed);
    let days = remaining_days(m, today);
    let last = match latest {
        Some(d) => Some(d),
        None => m.activation.date(),
    };
    let days_absent: i64 = match &last {
        Some(d) => today as i64 - d.days as i64,
        None => 0,
    };
    let no_sessions = match sessions {
        Some(n) => n == 0,
        None => false,
    };
    let no_days = match days {
        Some(n) => n == 0,
        None => false,
    };
    let status = member_status(
        m.refund,
        no_sessions || no_days,
        m.activation.is_empty(),
        days_absent,
    );
    MemberOut {
        row: m.row,
        id: m.id.clone(),
        name: m.name.clone(),
        phone: m.phone.clone(),
        teacher: m.teacher.clone(),
        member_type: m.member_type.clone(),
        card_type: m.card_type.clone(),
        purchase_date: m.purchase.to_display(),
        activation_date: m.activation.to_display(),
        expiry_date: m.expiry.to_display(),
        amount: copy_number(&m.amount),
        receivable: copy_number(&m.receivable),
        total_sessions: copy_number(&m.total),
        consumed,
        remaining_sessions: sessions,
        remaining_days: days,
        unit_price: unit_price(m),
        remaining_units: match (sessions, days) {
            (Some(n), _) => n,
            (None, Some(n)) => n,
            _ => 0,
        },
        last_class: match last {
            Some(d) => Some(d.text),
            None => None,
        },
        days_absent,
        status,
        refund: m.refund,
        remark: m.remark.clone(),
    }
}

// --------------------------------------------------------------------- classes
/// A class with what follows from its member.
pub struct ClassOut {
    pub row: u32,
    pub seq: SeqNo,
    pub member_id: String,
    pub member_name: String,
    pub teacher: String,
    pub member_type: String,
    pub card_type: String,
    pub date: Option<String>,
    pub time: Option<String>,
    pub unit_price: Option<UnitPrice>,
    pub valid: bool,
    pub course: String,
    pub effect: bool,
    pub remark: String,
}

/// A class with what follows from its member, by its texts.
pub ghost struct ClassFigures {
    pub row: u32,
    pub seq: SeqVal,
    pub member_id: Seq<char>,
    pub member_name: Seq<char>,
    pub teacher: Seq<char>,
    pub member_type: Seq<char>,
    pub card_type: Seq<char>,
    pub date: Option<Seq<char>>,
    pub time: Option<Seq<char>>,
    pub unit_price: Option<Price>,
    pub valid: bool,
    pub course: Seq<char>,
    pub effect: bool,
    pub remark: Seq<char>,
}

impl View for ClassOut {
    type V = ClassFigures;

    open spec fn view(&self) -> ClassFigures {
        ClassFigures {
            row: self.row,
            seq: self.seq@,
            member_id: self.member_id@,
            member_name: self.member_name@,
            teacher: self.teacher@,
            member_type: self.member_type@,
            card_type: self.card_type@,
            date: text_view(self.date),
            time: text_view(self.time),
            unit_price: price_view(self.unit_price),
            valid: self.valid,
            course: self.course@,
            effect: self.effect,
            remark: self.remark@,
        }
    }
}

/// The last member with a number.
pub open spec fn member_for(members: Seq<MemberRow>, id: Seq<char>) -> Option<MemberRow>
    decreases members.len(),
{
    if members.len() == 0 {
        None
    } else if members.last().id == id {
        Some(members.last())
    } else {
        member_for(members.drop_last(), id)
    }
}

/// What follows for a class from its member; a class whose member is not there has no card.
pub open spec fn class_figures(c: ClassRow, members: Seq<MemberRow>) -> ClassFigures {
    let none = Seq::<char>::empty();
    let m = member_for(members, c.member_id);
    let card = match m {
        Some(x) => x.card_type,
        None => none,
    };
    ClassFigures {
        row: c.row,
        seq: c.seq,
        member_id: c.member_id,
        member_name: match m {
            Some(x) => x.name,
            None => none,
        },
        teacher: match m {
            Some(x) => x.teacher,
            None => none,
        },
        member_type: match m {
            Some(x) => x.member_type,
            None => none,
        },
        card_type: card,
        date: shown(c.date),
        time: shown(c.time),
        unit_price: match m {
            Some(x) => price_of(x),
            None => None,
        },
        valid: card == CARD_SESSIONS@ || card == CARD_PERIOD@,
        course: c.course,
        effect: c.effect,
        remark: c.remark,
    }
}

/// The place of the last member with a number.
fn find_member(members: &[RawMember], id: &str) -> (r: Option<usize>)
    ensures
        match member_for(member_rows(members@), id@) {
            Some(m) => r matches Some(i) && i < members@.len() && members@[i as int]@ == m,
            None => r is None,
        },
{
    let ghost all = member_rows(members@);
    let mut i: usize = members.len();
    assert(all.take(i as int) =~= all);
    while i > 0
        invariant
            i <= members@.len(),
            all == member_rows(members@),
            member_for(all, id@) == member_for(all.take(i as int), id@),
        decreases i,
    {
        assert(all.take(i as int).drop_last() =~= all.take(i - 1));
        if same_text(members[i - 1].id.as_str(), id) {
            return Some(i - 1);
        }
        i = i - 1;
    }
    None
}

/// What follows for a class from its member.
fn class_out(c: &RawClass, members: &[RawMember]) -> (r: ClassOut)
    ensures
        r@ == class_figures(c@, member_rows(members@)),
{
    let found = find_member(members, c.member_id.as_str());
    let (member_name, teacher, member_type, card_type, price) = match found {
        Some(i) => (
            members[i].name.clone(),
            members[i].teacher.clone(),
            members[i].member_type.clone(),
            members[i].card_type.clone(),
            unit_price(&members[i]),
        ),
        None => (String::new(), String::new(), String::new(), String::new(), None),
    };
    let valid = same_text(card_type.as_str(), CARD_SESSIONS) || same_text(
        card_type.as_str(),
        CARD_PERIOD,
    );
    ClassOut {
        row: c.row,
        seq: c.seq.copy(),
        member_id: c.member_id.clone(),
        member_name,
        teacher,
        member_type,
        card_type,
        date: c.date.to_display(),
        time: c.time.to_display(),
        unit_price: price,
        valid,
        course: c.course.clone(),
        effect: c.effect,
        remark: c.remark.clone(),
    }
}

// ------------------------------------------------------------------- dashboard
/// What members are counted by. All but the first count only members whose card was not given
/// back.
#[derive(Clone, Copy)]
pub enum MemberKind {
    Refunded,
    ValidToday,
    PeriodCard,
    SessionCard,
    Normal,
    Pending,
    Warning,
    Sleeping,
    Expired,
}

/// Whether a member counts.
pub open spec fn is_of_kind(m: MemberFigures, kind: MemberKind, today: Seq<char>) -> bool {
    match kind {
        MemberKind::Refunded => m.refund,
        MemberKind::ValidToday => !m.refund && (m.expiry_date matches Some(e) && !text_before(
            e,
            today,
        )),
        MemberKind::PeriodCard => !m.refund && m.card_type == CARD_PERIOD@,
        MemberKind::SessionCard => !m.refund && m.card_type == CARD_SESSIONS@,
        MemberKind::Normal => !m.refund && m.status == STATUS_NORMAL@,
        MemberKind::Pending => !m.refund && m.status == STATUS_PENDING@,
        MemberKind::Warning => !m.refund && m.status == STATUS_WARN@,
        MemberKind::Sleeping => !m.refund && m.status == STATUS_SLEEP@,
        MemberKind::Expired => !m.refund && m.status == STATUS_EXPIRED@,
    }
}

/// How many members count.
pub open spec fn count_kind(ms: Seq<MemberFigures>, kind: MemberKind, today: Seq<char>) -> nat
    decreases ms.len(),
{
    if ms.len() == 0 {
        0
    } else {
        count_kind(ms.drop_last(), kind, today) + if is_of_kind(ms.last(), kind, today) {
            1nat
        } else {
            0nat
        }
    }
}

/// The month of a day by the front of its text.
pub open spec fn month_of(today: Seq<char>) -> Seq<char> {
    if today.len() < 7 {
        today
    } else {
        today.take(7)
    }
}

/// The members whose amounts came in on a day or in a month.
pub open spec fn paid_in(ms: Seq<MemberFigures>, front: Seq<char>, whole: bool) -> Seq<int>
    decreases ms.len(),
{
    if ms.len() == 0 {
        Seq::empty()
    } else {
        let before = paid_in(ms.drop_last(), front, whole);
        let m = ms.last();
        if m.amount is Some && is_dated(m.purchase_date, front, whole) {
            before.push(ms.len() - 1)
        } else {
            before
        }
    }
}

/// Whether a text is the day, or starts with the month.
pub open spec fn is_dated(date: Option<Seq<char>>, front: Seq<char>, whole: bool) -> bool {
    match date {
        Some(d) => if whole {
            d == front
        } else {
            front.is_prefix_of(d)
        },
        None => false,
    }
}

/// The classes on a valid card that have a price and were held on a day or in a month.
pub open spec fn earned_in(cs: Seq<ClassFigures>, front: Seq<char>, whole: bool) -> Seq<int>
    decreases cs.len(),
{
    if cs.len() == 0 {
        Seq::empty()
    } else {
        let before = earned_in(cs.drop_last(), front, whole);
        let c = cs.last();
        if c.valid && c.unit_price is Some && is_dated(c.date, front, whole) {
            before.push(cs.len() - 1)
        } else {
            before
        }
    }
}

/// The members whose cards were not given back.
pub open spec fn active_members(ms: Seq<MemberFigures>) -> Seq<int>
    decreases ms.len(),
{
    if ms.len() == 0 {
        Seq::empty()
    } else {
        let before = active_members(ms.drop_last());
        if ms.last().refund {
            before
        } else {
            before.push(ms.len() - 1)
        }
    }
}

/// How many classes on a valid card were held on a day, or how many of them with an effect.
pub open spec fn classes_on(cs: Seq<ClassFigures>, today: Seq<char>, effect: bool) -> nat
    decreases cs.len(),
{
    if cs.len() == 0 {
        0
    } else {
        let c = cs.last();
        classes_on(cs.drop_last(), today, effect) + if c.valid && c.date == Some(today) && (!effect
            || c.effect) {
            1nat
        } else {
            0nat
        }
    }
}

/// The figures of the day. The amounts are given by the places of the rows that they are the sums
/// of: the prices of classes, the amounts of members, and what is left on the members' cards.
pub struct Dashboard {
    pub today: String,
    pub total: usize,
    pub valid_period: usize,
    pub period_card: usize,
    pub session_card: usize,
    pub refunded: usize,
    pub normal: usize,
    pub pending: usize,
    pub warning: usize,
    pub sleeping: usize,
    pub expired: usize,
    pub today_revenue: Vec<usize>,
    pub month_revenue: Vec<usize>,
    pub today_income: Vec<usize>,
    pub month_income: Vec<usize>,
    pub liability: Vec<usize>,
    pub today_classes: usize,
    pub today_effect: usize,
}

/// Places as mathematical integers.
pub open spec fn places(v: Seq<usize>) -> Seq<int> {
    v.map_values(|i: usize| i as int)
}

/// The figures of the day by their values.
pub ghost struct DayFigures {
    pub today: Seq<char>,
    pub total: nat,
    pub valid_period: nat,
    pub period_card: nat,
    pub session_card: nat,
    pub refunded: nat,
    pub normal: nat,
    pub pending: nat,
    pub warning: nat,
    pub sleeping: nat,
    pub expired: nat,
    pub today_revenue: Seq<int>,
    pub month_revenue: Seq<int>,
    pub today_income: Seq<int>,
    pub month_income: Seq<int>,
    pub liability: Seq<int>,
    pub today_classes: nat,
    pub today_effect: nat,
}

impl View for Dashboard {
    type V = DayFigures;

    open spec fn view(&self) -> DayFigures {
        DayFigures {
            today: self.today@,
            total: self.total as nat,
            valid_period: self.valid_period as nat,
            period_card: self.period_card as nat,
            session_card: self.session_card as nat,
            refunded: self.refunded as nat,
            normal: self.normal as nat,
            pending: self.pending as nat,
            warning: self.warning as nat,
            sleeping: self.sleeping as nat,
            expired: self.expired as nat,
            today_revenue: places(self.today_revenue@),
            month_revenue: places(self.month_revenue@),
            today_income: places(self.today_income@),
            month_income: places(self.month_income@),
            liability: places(self.liability@),
            today_classes: self.today_classes as nat,
            today_effect: self.today_effect as nat,
        }
    }
}

/// The figures of the day `today` from the figures of members and classes.
pub open spec fn day_figures(
    today: Seq<char>,
    ms: Seq<MemberFigures>,
    cs: Seq<ClassFigures>,
) -> DayFigures {
    let month = month_of(today);
    DayFigures {
        today,
        total: ms.len(),
        valid_period: count_kind(ms, MemberKind::ValidToday, today),
        period_card: count_kind(ms, MemberKind::PeriodCard, today),
        session_card: count_kind(ms, MemberKind::SessionCard, today),
        refunded: count_kind(ms, MemberKind::Refunded, today),
        normal: count_kind(ms, MemberKind::Normal, today),
        pending: count_kind(ms, MemberKind::Pending, today),
        warning: count_kind(ms, MemberKind::Warning, today),
        sleeping: count_kind(ms, MemberKind::Sleeping, today),
        expired: count_kind(ms, MemberKind::Expired, today),
        today_revenue: earned_in(cs, today, true),
        month_revenue: earned_in(cs, month, false),
        today_income: paid_in(ms, today, true),
        month_income: paid_in(ms, month, false),
        liability: active_members(ms),
        today_classes: classes_on(cs, today, false),
        today_effect: classes_on(cs, today, true),
    }
}

/// Figures of members by their values.
pub open spec fn members_out(v: Seq<MemberOut>) -> Seq<MemberFigures> {
    v.map_values(|m: MemberOut| m@)
}

/// Figures of classes by their values.
pub open spec fn classes_out(v: Seq<ClassOut>) -> Seq<ClassFigures> {
    v.map_values(|c: ClassOut| c@)
}

/// Whether a member counts.
fn of_kind(m: &MemberOut, kind: MemberKind, today: &str) -> (r: bool)
    ensures
        r == is_of_kind(m@, kind, today@),
{
    match kind {
        MemberKind::Refunded => m.refund,
        MemberKind::ValidToday => !m.refund && (match &m.expiry_date {
            Some(e) => !is_before(e.as_str(), today),
            None => false,
        }),
        MemberKind::PeriodCard => !m.refund && same_text(m.card_type.as_str(), CARD_PERIOD),
        MemberKind::SessionCard => !m.refund && same_text(m.card_type.as_str(), CARD_SESSIONS),
        MemberKind::Normal => !m.refund && same_text(m.status.as_str(), STATUS_NORMAL),
        MemberKind::Pending => !m.refund && same_text(m.status.as_str(), STATUS_PENDING),
        MemberKind::Warning => !m.refund && same_text(m.status.as_str(), STATUS_WARN),
        MemberKind::Sleeping => !m.refund && same_text(m.status.as_str(), STATUS_SLEEP),
        MemberKind::Expired => !m.refund && same_text(m.status.as_str(), STATUS_EXPIRED),
    }
}

/// Counts members.
fn count_members(ms: &[MemberOut], kind: MemberKind, today: &str) -> (r: usize)
    ensures
        r == count_kind(members_out(ms@), kind, today@),
{
    let ghost all = members_out(ms@);
    let mut n: usize = 0;
    let mut i: usize = 0;
    assert(all.take(0) =~= Seq::<MemberFigures>::empty());
    while i < ms.len()
        invariant
            i <= ms@.len(),
            all == members_out(ms@),
            n <= i,
            n == count_kind(all.take(i as int), kind, today@),
        decreases ms@.len() - i,
    {
        assert(all.take(i + 1).drop_last() =~= all.take(i as int));
        if of_kind(&ms[i], kind, today) {
            n = n + 1;
        }
        i = i + 1;
    }
    assert(all.take(i as int) =~= all);
    n
}

/// Whether a text is the day, or starts with the month.
fn dated(date: &Option<String>, front: &str, whole: bool) -> (r: bool)
    ensures
        r == is_dated(text_view(*date), front@, whole),
{
    match date {
        Some(d) => if whole {
            same_text(d.as_str(), front)
        } else {
            has_prefix(d.as_str(), front)
        },
        None => false,
    }
}

/// The members whose amounts came in on a day or in a month.
fn income_rows(ms: &[MemberOut], front: &str, whole: bool) -> (r: Vec<usize>)
    ensures
        places(r@) == paid_in(members_out(ms@), front@, whole),
{
    let ghost all = members_out(ms@);
    let mut out: Vec<usize> = Vec::new();
    let mut i: usize = 0;
    assert(all.take(0) =~= Seq::<MemberFigures>::empty());
    assert(places(out@) =~= Seq::<int>::empty());
    while i < ms.len()
        invariant
            i <= ms@.len(),
            all == members_out(ms@),
            places(out@) == paid_in(all.take(i as int), front@, whole),
        decreases ms@.len() - i,
    {
        let ghost before = out@;
        assert(all.take(i + 1).drop_last() =~= all.take(i as int));
        if ms[i].amount.is_some() && dated(&ms[i].purchase_date, front, whole) {
            out.push(i);
            assert(places(out@) =~= places(before).push(i as int));
        }
        i = i + 1;
    }
    assert(all.take(i as int) =~= all);
    out
}

/// The classes that earned on a day or in a month.
fn revenue_rows(cs: &[ClassOut], front: &str, whole: bool) -> (r: Vec<usize>)
    ensures
        places(r@) == earned_in(classes_out(cs@), front@, whole),
{
    let ghost all = classes_out(cs@);
    let mut out: Vec<usize> = Vec::new();
    let mut i: usize = 0;
    assert(all.take(0) =~= Seq::<ClassFigures>::empty());
    assert(places(out@) =~= Seq::<int>::empty());
    while i < cs.len()
        invariant
            i <= cs@.len(),
            all == classes_out(cs@),
            places(out@) == earned_in(all.take(i as int), front@, whole),
        decreases cs@.len() - i,
    {
        let ghost before = out@;
        assert(all.take(i + 1).drop_last() =~= all.take(i as int));
        if cs[i].valid && cs[i].unit_price.is_some() && dated(&cs[i].date, front, whole) {
            out.push(i);
            assert(places(out@) =~= places(before).push(i as int));
        }
        i = i + 1;
    }
    assert(all.take(i as int) =~= all);
    out
}

/// The members whose cards were not given back.
fn active_rows(ms: &[MemberOut]) -> (r: Vec<usize>)
    ensures
        places(r@) == active_members(members_out(ms@)),
{
    let ghost all = members_out(ms@);
    let mut out: Vec<usize> = Vec::new();
    let mut i: usize = 0;
    assert(all.take(0) =~= Seq::<MemberFigures>::empty());
    assert(places(out@) =~= Seq::<int>::empty());
    while i < ms.len()
        invariant
            i <= ms@.len(),
            all == members_out(ms@),
            places(out@) == active_members(all.take(i as int)),
        decreases ms@.len() - i,
    {
        let ghost before = out@;
        assert(all.take(i + 1).drop_last() =~= all.take(i as int));
        if !ms[i].refund {
            out.push(i);
            assert(places(out@) =~= places(before).push(i as int));
        }
        i = i + 1;
    }
    assert(all.take(i as int) =~= all);
    out
}

/// Counts classes on a valid card on a day.
fn count_classes(cs: &[ClassOut], today: &str, effect: bool) -> (r: usize)
    ensures
        r == classes_on(classes_out(cs@), today@, effect),
{
    let ghost all = classes_out(cs@);
    let mut n: usize = 0;
    let mut i: usize = 0;
    assert(all.take(0) =~= Seq::<ClassFigures>::empty());
    while i < cs.len()
        invariant
            i <= cs@.len(),
            all == classes_out(cs@),
            n <= i,
            n == classes_on(all.take(i as int), today@, effect),
        decreases cs@.len() - i,
    {
        assert(all.take(i + 1).drop_last() =~= all.take(i as int));
        if cs[i].valid && dated(&cs[i].date, today, true) && (!effect || cs[i].effect) {
            n = n + 1;
        }
        i = i + 1;
    }
    assert(all.take(i as int) =~= all);
    n
}

/// The figures of the day from the figures of members and classes.
pub fn dashboard(today: &str, ms: &[MemberOut], cs: &[ClassOut]) -> (r: Dashboard)
    ensures
        r@ == day_figures(today@, members_out(ms@), classes_out(cs@)),
{
    let c = chars_of(today);
    let upto: usize = if c.len() < 7 {
        c.len()
    } else {
        7
    };
    let month = text_of(&c, 0, upto);
    assert(month@ =~= month_of(today@));
    Dashboard {
        today: String::from_str(today),
        total: ms.len(),
        valid_period: count_members(ms, MemberKind::ValidToday, today),
        period_card: count_members(ms, MemberKind::PeriodCard, today),
        session_card: count_members(ms, MemberKind::SessionCard, today),
        refunded: count_members(ms, MemberKind::Refunded, today),
        normal: count_members(ms, MemberKind::Normal, today),
        pending: count_members(ms, MemberKind::Pending, today),
        warning: count_members(ms, MemberKind::Warning, today),
        sleeping: count_members(ms, MemberKind::Sleeping, today),
        expired: count_members(ms, MemberKind::Expired, today),
        today_revenue: revenue_rows(cs, today, true),
        month_revenue: revenue_rows(cs, month.as_str(), false),
        today_income: income_rows(ms, today, true),
        month_income: income_rows(ms, month.as_str(), false),
        liability: active_rows(ms),
        today_classes: count_classes(cs, today, false),
        today_effect: count_classes(cs, today, true),
    }
}

/// The figures of all members.
pub open spec fn all_figures(
    members: Seq<MemberRow>,
    classes: Seq<ClassRow>,
    today: int,
) -> Seq<MemberFigures> {
    members.map_values(|m: MemberRow| figures_of(m, classes, today))
}

/// The figures of all classes.
pub open spec fn all_class_figures(members: Seq<MemberRow>, classes: Seq<ClassRow>) -> Seq<
    ClassFigures,
> {
    classes.map_values(|c: ClassRow| class_figures(c, members))
}

/// The figures that follow from members and classes on the day `today`.
pub fn compute(today: &Date, members: &[RawMember], classes: &[RawClass]) -> (r: (
    Vec<MemberOut>,
    Vec<ClassOut>,
    Dashboard,
))
    ensures
        members_out(r.0@) == all_figures(member_rows(members@), class_rows(classes@), today@.0),
        classes_out(r.1@) == all_class_figures(member_rows(members@), class_rows(classes@)),
        r.2@ == day_figures(
            today@.1,
            all_figures(member_rows(members@), class_rows(classes@), today@.0),
            all_class_figures(member_rows(members@), class_rows(classes@)),
        ),
{
    let ghost all = all_figures(member_rows(members@), class_rows(classes@), today@.0);
    let ghost all_classes = all_class_figures(member_rows(members@), class_rows(classes@));
    let mut ms: Vec<MemberOut> = Vec::new();
    let mut i: usize = 0;
    assert(members_out(ms@) =~= all.take(0));
    while i < members.len()
        invariant
            i <= members@.len(),
            all == all_figures(member_rows(members@), class_rows(classes@), today@.0),
            members_out(ms@) == all.take(i as int),
        decreases members@.len() - i,
    {
        let ghost before = ms@;
        let m = member_figures(&members[i], classes, today.days);
        ms.push(m);
        assert(members_out(ms@) =~= members_out(before).push(m@));
        assert(all.take(i + 1) =~= all.take(i as int).push(all[i as int]));
        i = i + 1;
    }
    let mut cs: Vec<ClassOut> = Vec::new();
    let mut j: usize = 0;
    assert(classes_out(cs@) =~= all_classes.take(0));
    while j < classes.len()
        invariant
            j <= classes@.len(),
            all_classes == all_class_figures(member_rows(members@), class_rows(classes@)),
            classes_out(cs@) == all_classes.take(j as int),
        decreases classes@.len() - j,
    {
        let ghost before = cs@;
        let c = class_out(&classes[j], members);
        cs.push(c);
        assert(classes_out(cs@) =~= classes_out(before).push(c@));
        assert(all_classes.take(j + 1) =~= all_classes.take(j as int).push(all_classes[j as int]));
        j = j + 1;
    }
    assert(all.take(i as int) =~= all);
    assert(all_classes.take(j as int) =~= all_classes);
    let d = dashboard(today.text.as_str(), ms.as_slice(), cs.as_slice());
    (ms, cs, d)
}

// ------------------------------------------------------------------------ laws
/// Every member is counted once: by the refund, or by one of the five other statuses.
pub proof fn law_every_member_counted_once(
    members: Seq<MemberRow>,
    classes: Seq<ClassRow>,
    today: int,
    text: Seq<char>,
)
    ensures
        ({
            let d = day_figures(
                text,
                all_figures(members, classes, today),
                all_class_figures(members, classes),
            );
            d.normal + d.pending + d.warning + d.sleeping + d.expired + d.refunded == d.total
        }),
{
    lemma_counted_once(members, classes, today, text);
}

proof fn lemma_counted_once(
    members: Seq<MemberRow>,
    classes: Seq<ClassRow>,
    today: int,
    text: Seq<char>,
)
    ensures
        ({
            let ms = all_figures(members, classes, today);
            count_kind(ms, MemberKind::Normal, text) + count_kind(ms, MemberKind::Pending, text)
                + count_kind(ms, MemberKind::Warning, text) + count_kind(
                ms,
                MemberKind::Sleeping,
                text,
            ) + count_kind(ms, MemberKind::Expired, text) + count_kind(
                ms,
                MemberKind::Refunded,
                text,
            ) == ms.len()
        }),
    decreases members.len(),
{
    let ms = all_figures(members, classes, today);
    if members.len() > 0 {
        lemma_counted_once(members.drop_last(), classes, today, text);
        assert(ms.drop_last() =~= all_figures(members.drop_last(), classes, today));
        assert(ms.last() == figures_of(members.last(), classes, today));
        lemma_statuses_differ();
    }
}

/// The statuses are different texts.
proof fn lemma_statuses_differ()
    ensures
        STATUS_NORMAL@ != STATUS_PENDING@,
        STATUS_NORMAL@ != STATUS_WARN@,
        STATUS_NORMAL@ != STATUS_SLEEP@,
        STATUS_NORMAL@ != STATUS_EXPIRED@,
        STATUS_PENDING@ != STATUS_WARN@,
        STATUS_PENDING@ != STATUS_SLEEP@,
        STATUS_PENDING@ != STATUS_EXPIRED@,
        STATUS_WARN@ != STATUS_SLEEP@,
        STATUS_WARN@ != STATUS_EXPIRED@,
        STATUS_SLEEP@ != STATUS_EXPIRED@,
{
    reveal_strlit("正常");
    reveal_strlit("待开卡");
    reveal_strlit("预警客户");
    reveal_strlit("沉睡客户");
    reveal_strlit("已到期");
    assert("待开卡"@[0] != "已到期"@[0]);
    assert("预警客户"@[0] != "沉睡客户"@[0]);
}

/// The longer of two absences never has the milder status: where it counts as normal so does the
/// shorter, and where the shorter counts as asleep so does the longer.
pub proof fn law_absence_orders_status(refund: bool, exhausted: bool, never: bool, a: int, b: int)
    requires
        a <= b,
    ensures
        status_of(refund, exhausted, never, b) == STATUS_NORMAL@ ==> status_of(
            refund,
            exhausted,
            never,
            a,
        ) == STATUS_NORMAL@,
        status_of(refund, exhausted, never, a) == STATUS_SLEEP@ ==> status_of(
            refund,
            exhausted,
            never,
            b,
        ) == STATUS_SLEEP@,
{
    lemma_statuses_differ();
    reveal_strlit("退卡");
    reveal_strlit("正常");
    reveal_strlit("待开卡");
    reveal_strlit("预警客户");
    reveal_strlit("沉睡客户");
    reveal_strlit("已到期");
    assert("退卡"@[0] != "正常"@[0]);
}

} // verus!
