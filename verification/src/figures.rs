//! What the figures of members, of classes and of the day say of the rows that they follow from.
use vstd::prelude::*;
use crate::compute::{
    active_members, all_class_figures, all_figures, class_figures, consumed_by, count_kind,
    day_figures, earned_in, figures_of, is_of_kind, latest_class, member_for, paid_in, ClassFigures,
    DivisorVal, MemberFigures, MemberKind,
};
use crate::model::{clock_text, number_text, whole_part, ClassRow, MemberRow, Val};
use crate::text::{is_white, text_before, trimmed, trimmed_back, trimmed_front};

verus! {

// --------------------------------------------------------------------- history
/// The day of a class, where it is one of the member with the number `id`.
pub open spec fn day_of_class(c: ClassRow, id: Seq<char>) -> Option<(int, Seq<char>)> {
    match c.date {
        Val::Date(d, t) if c.member_id == id => Some((d, t)),
        _ => None,
    }
}

/// Whether the class at `k` is one of the member, and has a day.
pub open spec fn is_dated_class(classes: Seq<ClassRow>, k: int, id: Seq<char>) -> bool {
    0 <= k < classes.len() && day_of_class(classes[k], id) is Some
}

proof fn lemma_latest(classes: Seq<ClassRow>, id: Seq<char>)
    ensures
        match latest_class(classes, id) {
            Some(d) => (exists|k: int|
                is_dated_class(classes, k, id) && #[trigger] day_of_class(classes[k], id) == Some(d))
                && forall|j: int| #[trigger]
                is_dated_class(classes, j, id) ==> (day_of_class(classes[j], id)->0).0 <= d.0,
            None => forall|j: int| !#[trigger] is_dated_class(classes, j, id),
        },
    decreases classes.len(),
{
    if classes.len() > 0 {
        let front = classes.drop_last();
        let n = classes.len() - 1;
        lemma_latest(front, id);
        assert forall|j: int| is_dated_class(front, j, id) implies #[trigger] is_dated_class(
            classes,
            j,
            id,
        ) && classes[j] == front[j] by {}
        assert forall|j: int| #[trigger] is_dated_class(classes, j, id) && j < n implies (
        is_dated_class(front, j, id) && classes[j] == front[j]) by {}
        if latest_class(front, id) is Some && latest_class(classes, id) == latest_class(front, id) {
            let d = latest_class(front, id)->0;
            let k = choose|k: int|
                is_dated_class(front, k, id) && #[trigger] day_of_class(front[k], id) == Some(d);
            assert(is_dated_class(classes, k, id) && day_of_class(classes[k], id) == Some(d));
        } else if latest_class(classes, id) is Some {
            let d = latest_class(classes, id)->0;
            assert(is_dated_class(classes, n, id) && day_of_class(classes[n], id) == Some(d));
        }
    }
}

/// The last class of a member is one of the member's classes, and none of them has a later day; where
/// the member has none with a day, the day of the activation stands in for it. The absence is the
/// number of days from that day to today.
pub proof fn law_last_class_is_latest(m: MemberRow, classes: Seq<ClassRow>, today: int)
    ensures
        ({
            let f = figures_of(m, classes, today);
            if exists|j: int| is_dated_class(classes, j, m.id) {
                exists|k: int|
                    {
                        &&& #[trigger] is_dated_class(classes, k, m.id)
                        &&& f.last_class == Some((day_of_class(classes[k], m.id)->0).1)
                        &&& f.days_absent == today - (day_of_class(classes[k], m.id)->0).0
                        &&& forall|j: int| #[trigger]
                            is_dated_class(classes, j, m.id) ==> (day_of_class(
                                classes[j],
                                m.id,
                            )->0).0 <= (day_of_class(classes[k], m.id)->0).0
                    }
            } else {
                match m.activation {
                    Val::Date(d, t) => f.last_class == Some(t) && f.days_absent == today - d,
                    _ => f.last_class is None && f.days_absent == 0,
                }
            }
        }),
{
    lemma_latest(classes, m.id);
    if let Some(d) = latest_class(classes, m.id) {
        let k = choose|k: int|
            is_dated_class(classes, k, m.id) && #[trigger] day_of_class(classes[k], m.id) == Some(d);
        assert(is_dated_class(classes, k, m.id));
    }
}

/// The absence does not depend on the order of the classes: no class of the member is nearer to today
/// than the absence says, in whatever row it stands.
pub proof fn law_absence_is_the_shortest(m: MemberRow, classes: Seq<ClassRow>, today: int, j: int)
    requires
        is_dated_class(classes, j, m.id),
    ensures
        figures_of(m, classes, today).days_absent <= today - (day_of_class(classes[j], m.id)->0).0,
{
    law_last_class_is_latest(m, classes, today);
}

proof fn lemma_consumed(classes: Seq<ClassRow>, id: Seq<char>)
    ensures
        consumed_by(classes, id) == classes.filter(|c: ClassRow| c.member_id == id).len(),
    decreases classes.len(),
{
    reveal(Seq::filter);
    if classes.len() > 0 {
        lemma_consumed(classes.drop_last(), id);
    }
}

/// A member has taken as many classes as there are with the member's number.
pub proof fn law_classes_are_counted(m: MemberRow, classes: Seq<ClassRow>, today: int)
    ensures
        figures_of(m, classes, today).consumed == classes.filter(
            |c: ClassRow| c.member_id == m.id,
        ).len(),
{
    lemma_consumed(classes, m.id);
}

/// A further class of the member uses one session, as long as there is one left; a class of another
/// member changes nothing.
pub proof fn law_class_uses_a_session(
    m: MemberRow,
    classes: Seq<ClassRow>,
    c: ClassRow,
    today: int,
)
    ensures
        ({
            let before = figures_of(m, classes, today);
            let after = figures_of(m, classes.push(c), today);
            &&& c.member_id != m.id ==> after == before
            &&& c.member_id == m.id ==> after.consumed == before.consumed + 1
            &&& c.member_id == m.id ==> (before.remaining_sessions matches Some(n) ==> {
                &&& n > 0 ==> after.remaining_sessions == Some(n - 1)
                &&& n == 0 ==> after.remaining_sessions == Some(0int)
            })
            &&& after.remaining_days == before.remaining_days
            &&& after.unit_price == before.unit_price
        }),
{
    assert(classes.push(c).drop_last() =~= classes);
}

// ----------------------------------------------------------------------- cards
/// A card of sessions has as many left as its number is above the classes that were taken, and never
/// fewer than none; a card for a period has the days up to its expiry left; other cards have neither.
/// What is left on the card in units of its price is the one or the other.
pub proof fn law_what_is_left(m: MemberRow, classes: Seq<ClassRow>, today: int)
    ensures
        ({
            let f = figures_of(m, classes, today);
            let total = match m.total {
                Some(t) => whole_part(t),
                None => 0,
            };
            &&& m.card_type == "次卡"@ ==> f.remaining_days is None && (
            f.remaining_sessions matches Some(n) && n >= 0 && n >= total - f.consumed && (n == 0
                || n == total - f.consumed) && f.remaining_units == n)
            &&& m.card_type == "期限卡"@ ==> f.remaining_sessions is None && (
            f.remaining_days matches Some(n) && f.remaining_units == n && (match m.expiry {
                Val::Date(e, _) => n >= 0 && n >= e - today && (n == 0 || n == e - today),
                _ => n == 0,
            }))
            &&& m.card_type != "次卡"@ && m.card_type != "期限卡"@ ==> f.remaining_sessions is None
                && f.remaining_days is None && f.remaining_units == 0 && f.unit_price is None
        }),
{
    reveal_strlit("次卡");
    reveal_strlit("期限卡");
    assert("次卡"@.len() != "期限卡"@.len());
}

/// A class on a card of sessions costs the receivable amount over the number of sessions, where the
/// amount is not zero and the number is above it; one on a card for a period costs the amount over
/// the days from the activation to the expiry, where the expiry is the later day.
pub proof fn law_price_of_a_class(m: MemberRow, classes: Seq<ClassRow>, today: int)
    ensures
        ({
            let p = figures_of(m, classes, today).unit_price;
            let owed = m.receivable matches Some(r) && r != "0"@ && r != "-0"@;
            &&& p matches Some(x) ==> m.receivable == Some(x.receivable)
            &&& m.card_type == "次卡"@ ==> {
                &&& p is Some == (owed && (m.total matches Some(t) && t != "0"@ && t != "NaN"@ && (
                t.len() == 0 || t[0] != '-')))
                &&& p matches Some(x) ==> m.total is Some && x.divisor == DivisorVal::Sessions(
                    m.total->0,
                )
            }
            &&& m.card_type == "期限卡"@ ==> match (m.activation, m.expiry) {
                (Val::Date(a, _), Val::Date(e, _)) => {
                    &&& p is Some == (owed && a < e)
                    &&& p matches Some(x) ==> x.divisor == DivisorVal::Days(e - a)
                },
                _ => p is None,
            }
        }),
{
    reveal_strlit("次卡");
    reveal_strlit("期限卡");
    assert("次卡"@.len() != "期限卡"@.len());
}

/// Nothing but white space.
pub open spec fn is_all_white(t: Seq<char>) -> bool {
    forall|i: int| 0 <= i < t.len() ==> is_white(#[trigger] t[i])
}

pub proof fn lemma_all_white(t: Seq<char>)
    ensures
        (trimmed(t).len() == 0) == is_all_white(t),
{
    lemma_front_white(t);
    let u = trimmed_front(t);
    lemma_back_white(u);
    if is_all_white(t) {
        assert(u.len() == 0);
    } else {
        assert(!is_white(u[0]));
        assert(!is_all_white(u));
    }
}

proof fn lemma_front_white(t: Seq<char>)
    ensures
        is_all_white(t) ==> trimmed_front(t).len() == 0,
        !is_all_white(t) ==> trimmed_front(t).len() > 0 && !is_white(trimmed_front(t)[0]),
    decreases t.len(),
{
    if t.len() > 0 && is_white(t[0]) {
        let r = t.drop_first();
        lemma_front_white(r);
        if is_all_white(r) {
            assert forall|i: int| 0 <= i < t.len() implies is_white(#[trigger] t[i]) by {
                if i > 0 {
                    assert(r[i - 1] == t[i]);
                }
            }
        } else {
            let i = choose|i: int| 0 <= i < r.len() && !is_white(r[i]);
            assert(t[i + 1] == r[i]);
        }
    }
}

proof fn lemma_back_white(t: Seq<char>)
    ensures
        is_all_white(t) ==> trimmed_back(t).len() == 0,
        !is_all_white(t) ==> trimmed_back(t).len() > 0,
    decreases t.len(),
{
    if t.len() > 0 && is_white(t.last()) {
        let r = t.drop_last();
        lemma_back_white(r);
        if is_all_white(r) {
            assert forall|i: int| 0 <= i < t.len() implies is_white(#[trigger] t[i]) by {
                if i < r.len() {
                    assert(r[i] == t[i]);
                }
            }
        } else {
            let i = choose|i: int| 0 <= i < r.len() && !is_white(r[i]);
            assert(t[i] == r[i]);
        }
    }
}

/// The status of a member says first whether the card was given back, then whether it is used up,
/// and last how long the member stayed away: from the tenth day on the member is asleep, from the
/// seventh on there is a warning.
pub proof fn law_status(m: MemberRow, classes: Seq<ClassRow>, today: int)
    ensures
        ({
            let f = figures_of(m, classes, today);
            let used_up = f.remaining_sessions == Some(0int) || f.remaining_days == Some(0int);
            let never = m.activation is Empty || (m.activation matches Val::Text(t) && is_all_white(
                t,
            ));
            &&& m.refund ==> f.status == "退卡"@
            &&& !m.refund && used_up && never ==> f.status == "待开卡"@
            &&& !m.refund && used_up && !never ==> f.status == "已到期"@
            &&& !m.refund && !used_up && f.days_absent >= 10 ==> f.status == "沉睡客户"@
            &&& !m.refund && !used_up && 7 <= f.days_absent <= 9 ==> f.status == "预警客户"@
            &&& !m.refund && !used_up && f.days_absent <= 6 ==> f.status == "正常"@
        }),
{
    if let Val::Text(t) = m.activation {
        lemma_all_white(t);
    }
}

/// How a value is shown: a text as it is, a day by its text, a number by its own, a time of day by
/// hours and minutes, and an empty cell not at all.
pub open spec fn is_shown_as(v: Val, t: Option<Seq<char>>) -> bool {
    match v {
        Val::Empty => t is None,
        Val::Text(x) => t == Some(x),
        Val::Date(_, x) => t == Some(x),
        Val::Num(n) => t == Some(number_text(n)),
        Val::Time(b) => t == Some(clock_text(b)),
    }
}

/// The figures repeat what is known of the member.
pub proof fn law_figures_repeat_member(m: MemberRow, classes: Seq<ClassRow>, today: int)
    ensures
        ({
            let f = figures_of(m, classes, today);
            &&& f.row == m.row && f.id == m.id && f.name == m.name && f.phone == m.phone
            &&& f.teacher == m.teacher && f.member_type == m.member_type
            &&& f.card_type == m.card_type && f.refund == m.refund && f.remark == m.remark
            &&& f.amount == m.amount && f.receivable == m.receivable && f.total_sessions == m.total
            &&& is_shown_as(m.purchase, f.purchase_date)
            &&& is_shown_as(m.activation, f.activation_date)
            &&& is_shown_as(m.expiry, f.expiry_date)
        }),
{
}

// --------------------------------------------------------------------- classes
proof fn lemma_member_for(members: Seq<MemberRow>, id: Seq<char>)
    ensures
        match member_for(members, id) {
            Some(m) => exists|i: int|
                {
                    &&& 0 <= i < members.len() && #[trigger] members[i] == m && m.id == id
                    &&& forall|j: int| i < j < members.len() ==> (#[trigger] members[j]).id != id
                },
            None => forall|j: int| 0 <= j < members.len() ==> (#[trigger] members[j]).id != id,
        },
    decreases members.len(),
{
    if members.len() > 0 {
        let front = members.drop_last();
        let n = members.len() - 1;
        if members.last().id == id {
            assert(members[n] == members.last());
        } else {
            lemma_member_for(front, id);
            assert forall|j: int| 0 <= j < n implies #[trigger] members[j] == front[j] by {}
            if let Some(m) = member_for(front, id) {
                let i = choose|i: int|
                    {
                        &&& 0 <= i < front.len() && #[trigger] front[i] == m && m.id == id
                        &&& forall|j: int| i < j < front.len() ==> (#[trigger] front[j]).id != id
                    };
                assert(members[i] == m);
                assert forall|j: int| i < j < members.len() implies (#[trigger] members[j]).id
                    != id by {
                    if j < n {
                        assert(front[j].id != id);
                    }
                }
            }
        }
    }
}

/// A class shows what its row holds, and the name, the teacher, the kinds and the price of the member
/// with its number, the last one where there are several; without such a member it shows none of
/// these. It counts where the card is one of sessions or for a period.
pub proof fn law_class_follows_member(
    members: Seq<MemberRow>,
    classes: Seq<ClassRow>,
    today: int,
    k: int,
)
    requires
        0 <= k < classes.len(),
    ensures
        ({
            let c = classes[k];
            let f = all_class_figures(members, classes)[k];
            &&& f.row == c.row && f.seq == c.seq && f.member_id == c.member_id
            &&& f.course == c.course && f.effect == c.effect && f.remark == c.remark
            &&& is_shown_as(c.date, f.date) && is_shown_as(c.time, f.time)
            &&& f.valid == (f.card_type == "次卡"@ || f.card_type == "期限卡"@)
            &&& if exists|j: int| 0 <= j < members.len() && (#[trigger] members[j]).id == c.member_id {
                exists|i: int|
                    {
                        &&& 0 <= i < members.len() && (#[trigger] members[i]).id == c.member_id
                        &&& forall|j: int|
                            i < j < members.len() ==> (#[trigger] members[j]).id != c.member_id
                        &&& f.member_name == members[i].name && f.teacher == members[i].teacher
                        &&& f.member_type == members[i].member_type
                        &&& f.card_type == members[i].card_type
                        &&& f.unit_price == all_figures(members, classes, today)[i].unit_price
                    }
            } else {
                &&& f.member_name.len() == 0 && f.teacher.len() == 0 && f.member_type.len() == 0
                &&& f.card_type.len() == 0 && f.unit_price is None && !f.valid
            }
        }),
{
    let c = classes[k];
    let f = all_class_figures(members, classes)[k];
    lemma_member_for(members, c.member_id);
    assert(f == class_figures(c, members));
    reveal_strlit("次卡");
    reveal_strlit("期限卡");
    assert("次卡"@.len() == 2 && "期限卡"@.len() == 3);
    if let Some(m) = member_for(members, c.member_id) {
        let i = choose|i: int|
            {
                &&& 0 <= i < members.len() && #[trigger] members[i] == m && m.id == c.member_id
                &&& forall|j: int|
                    i < j < members.len() ==> (#[trigger] members[j]).id != c.member_id
            };
        assert(members[i].id == c.member_id);
        assert(all_figures(members, classes, today)[i] == figures_of(members[i], classes, today));
        assert(f.unit_price == all_figures(members, classes, today)[i].unit_price);
    } else {
        assert(f.card_type.len() == 0);
        assert(!(exists|j: int| 0 <= j < members.len() && (#[trigger] members[j]).id == c.member_id));
    }
}

// ------------------------------------------------------------------------- day
/// The places below `n` for which something holds, one behind the other, each once.
pub open spec fn are_places(v: Seq<int>, n: int, holds: spec_fn(int) -> bool) -> bool {
    &&& forall|i: int, j: int| 0 <= i < j < v.len() ==> v[i] < v[j]
    &&& forall|i: int| 0 <= i < v.len() ==> 0 <= #[trigger] v[i] < n && holds(v[i])
    &&& forall|k: int| 0 <= k < n && #[trigger] holds(k) ==> v.contains(k)
}

proof fn lemma_places_grow(v: Seq<int>, n: int, holds: spec_fn(int) -> bool, more: spec_fn(int) -> bool)
    requires
        0 <= n,
        are_places(v, n, holds),
        forall|k: int| 0 <= k < n ==> #[trigger] more(k) == holds(k),
    ensures
        more(n) ==> are_places(v.push(n), n + 1, more),
        !more(n) ==> are_places(v, n + 1, more),
{
    let w = v.push(n);
    assert forall|i: int| 0 <= i < v.len() implies 0 <= #[trigger] v[i] < n && more(v[i]) by {
        assert(holds(v[i]));
    }
    assert forall|k: int| 0 <= k < n && #[trigger] more(k) implies v.contains(k) && w.contains(
        k,
    ) by {
        assert(holds(k));
        let i = choose|i: int| 0 <= i < v.len() && v[i] == k;
        assert(w[i] == k);
    }
    assert(w[v.len() as int] == n);
    assert(w.contains(n));
}

/// Whether a text is a day of the month of another day: both start with the same year and month.
pub open spec fn is_same_month(d: Option<Seq<char>>, today: Seq<char>) -> bool {
    d matches Some(t) && t.len() >= 7 && t.take(7) == today.take(7)
}

proof fn lemma_paid(ms: Seq<MemberFigures>, today: Seq<char>)
    requires
        today.len() >= 7,
    ensures
        are_places(
            paid_in(ms, today, true),
            ms.len() as int,
            |k: int| ms[k].amount is Some && ms[k].purchase_date == Some(today),
        ),
        are_places(
            paid_in(ms, today.take(7), false),
            ms.len() as int,
            |k: int| ms[k].amount is Some && is_same_month(ms[k].purchase_date, today),
        ),
    decreases ms.len(),
{
    if ms.len() > 0 {
        let front = ms.drop_last();
        let n = ms.len() - 1;
        lemma_paid(front, today);
        assert forall|k: int| 0 <= k < n implies #[trigger] ms[k] == front[k] by {}
        if let Some(t) = ms.last().purchase_date {
            lemma_prefix(t, today);
        }
        lemma_places_grow(
            paid_in(front, today, true),
            n as int,
            |k: int| front[k].amount is Some && front[k].purchase_date == Some(today),
            |k: int| ms[k].amount is Some && ms[k].purchase_date == Some(today),
        );
        lemma_places_grow(
            paid_in(front, today.take(7), false),
            n as int,
            |k: int| front[k].amount is Some && is_same_month(front[k].purchase_date, today),
            |k: int| ms[k].amount is Some && is_same_month(ms[k].purchase_date, today),
        );
    }
}

proof fn lemma_prefix(t: Seq<char>, today: Seq<char>)
    requires
        today.len() >= 7,
    ensures
        today.take(7).is_prefix_of(t) == (t.len() >= 7 && t.take(7) == today.take(7)),
{
    if t.len() >= 7 {
        assert(t.subrange(0, 7) =~= t.take(7));
    }
}

proof fn lemma_earned(cs: Seq<ClassFigures>, today: Seq<char>)
    requires
        today.len() >= 7,
    ensures
        are_places(
            earned_in(cs, today, true),
            cs.len() as int,
            |k: int| cs[k].valid && cs[k].unit_price is Some && cs[k].date == Some(today),
        ),
        are_places(
            earned_in(cs, today.take(7), false),
            cs.len() as int,
            |k: int| cs[k].valid && cs[k].unit_price is Some && is_same_month(cs[k].date, today),
        ),
    decreases cs.len(),
{
    if cs.len() > 0 {
        let front = cs.drop_last();
        let n = cs.len() - 1;
        lemma_earned(front, today);
        assert forall|k: int| 0 <= k < n implies #[trigger] cs[k] == front[k] by {}
        if let Some(t) = cs.last().date {
            lemma_prefix(t, today);
        }
        lemma_places_grow(
            earned_in(front, today, true),
            n as int,
            |k: int| front[k].valid && front[k].unit_price is Some && front[k].date == Some(today),
            |k: int| cs[k].valid && cs[k].unit_price is Some && cs[k].date == Some(today),
        );
        lemma_places_grow(
            earned_in(front, today.take(7), false),
            n as int,
            |k: int|
                front[k].valid && front[k].unit_price is Some && is_same_month(
                    front[k].date,
                    today,
                ),
            |k: int| cs[k].valid && cs[k].unit_price is Some && is_same_month(cs[k].date, today),
        );
    }
}

proof fn lemma_active(ms: Seq<MemberFigures>)
    ensures
        are_places(active_members(ms), ms.len() as int, |k: int| !ms[k].refund),
    decreases ms.len(),
{
    if ms.len() > 0 {
        let front = ms.drop_last();
        let n = ms.len() - 1;
        lemma_active(front);
        assert forall|k: int| 0 <= k < n implies #[trigger] ms[k] == front[k] by {}
        lemma_places_grow(
            active_members(front),
            n as int,
            |k: int| !front[k].refund,
            |k: int| !ms[k].refund,
        );
    }
}

/// What came in and what was earned: today's income are the members with an amount who bought today,
/// and that of the month those who bought in the year and month of today; today's revenue are the
/// classes that count, have a price and were held today, and that of the month those held in the year
/// and month of today. What is owed to members is what is left on the cards that were not given back.
pub proof fn law_income_and_revenue(
    today: (int, Seq<char>),
    members: Seq<MemberRow>,
    classes: Seq<ClassRow>,
)
    requires
        today.1.len() >= 7,
    ensures
        ({
            let ms = all_figures(members, classes, today.0);
            let cs = all_class_figures(members, classes);
            let d = day_figures(today.1, ms, cs);
            let n = members.len() as int;
            let c = classes.len() as int;
            &&& d.today == today.1 && d.total == members.len()
            &&& are_places(
                d.today_income,
                n,
                |k: int| members[k].amount is Some && ms[k].purchase_date == Some(today.1),
            )
            &&& are_places(
                d.month_income,
                n,
                |k: int| members[k].amount is Some && is_same_month(ms[k].purchase_date, today.1),
            )
            &&& are_places(
                d.today_revenue,
                c,
                |k: int| cs[k].valid && cs[k].unit_price is Some && cs[k].date == Some(today.1),
            )
            &&& are_places(
                d.month_revenue,
                c,
                |k: int|
                    cs[k].valid && cs[k].unit_price is Some && is_same_month(cs[k].date, today.1),
            )
            &&& are_places(d.liability, n, |k: int| !members[k].refund)
        }),
{
    let ms = all_figures(members, classes, today.0);
    let cs = all_class_figures(members, classes);
    let d = day_figures(today.1, ms, cs);
    let n = members.len() as int;
    lemma_paid(ms, today.1);
    lemma_earned(cs, today.1);
    lemma_active(ms);
    assert forall|k: int| 0 <= k < n implies (#[trigger] ms[k]).amount == members[k].amount
        && ms[k].refund == members[k].refund by {
        assert(ms[k] == figures_of(members[k], classes, today.0));
    }
    lemma_same_places(
        d.today_income,
        n,
        |k: int| ms[k].amount is Some && ms[k].purchase_date == Some(today.1),
        |k: int| members[k].amount is Some && ms[k].purchase_date == Some(today.1),
    );
    lemma_same_places(
        d.month_income,
        n,
        |k: int| ms[k].amount is Some && is_same_month(ms[k].purchase_date, today.1),
        |k: int| members[k].amount is Some && is_same_month(ms[k].purchase_date, today.1),
    );
    lemma_same_places(d.liability, n, |k: int| !ms[k].refund, |k: int| !members[k].refund);
}

proof fn lemma_same_places(v: Seq<int>, n: int, a: spec_fn(int) -> bool, b: spec_fn(int) -> bool)
    requires
        are_places(v, n, a),
        forall|k: int| 0 <= k < n ==> a(k) == #[trigger] b(k),
    ensures
        are_places(v, n, b),
{
    assert forall|i: int| 0 <= i < v.len() implies 0 <= #[trigger] v[i] < n && b(v[i]) by {
        assert(a(v[i]));
        assert(a(v[i]) == b(v[i]));
    }
}

/// Whether a text does not stand in front of another in the order of texts: the first difference
/// decides, and a text stands behind those that it starts with.
pub open spec fn is_not_before(a: Seq<char>, b: Seq<char>) -> bool {
    exists|k: int|
        0 <= k <= a.len() && k <= b.len() && #[trigger] a.take(k) == b.take(k) && (k == b.len() || (
        k < a.len() && a[k] > b[k]))
}

proof fn lemma_not_before(a: Seq<char>, b: Seq<char>)
    ensures
        is_not_before(a, b) == !text_before(a, b),
    decreases a.len(),
{
    if b.len() == 0 {
        assert(a.take(0) =~= b.take(0));
    } else if a.len() == 0 {
        assert(!is_not_before(a, b));
    } else if a[0] != b[0] {
        assert(a.take(0) =~= b.take(0));
        if is_not_before(a, b) {
            let k = choose|k: int|
                0 <= k <= a.len() && k <= b.len() && #[trigger] a.take(k) == b.take(k) && (k
                    == b.len() || (k < a.len() && a[k] > b[k]));
            if k > 0 {
                assert(a.take(k)[0] == b.take(k)[0]);
            }
        }
    } else {
        let x = a.drop_first();
        let y = b.drop_first();
        lemma_not_before(x, y);
        if is_not_before(a, b) {
            let k = choose|k: int|
                0 <= k <= a.len() && k <= b.len() && #[trigger] a.take(k) == b.take(k) && (k
                    == b.len() || (k < a.len() && a[k] > b[k]));
            assert(k > 0);
            assert(x.take(k - 1) =~= a.take(k).drop_first());
            assert(y.take(k - 1) =~= b.take(k).drop_first());
            assert(x.take(k - 1) == y.take(k - 1));
        }
        if is_not_before(x, y) {
            let k = choose|k: int|
                0 <= k <= x.len() && k <= y.len() && #[trigger] x.take(k) == y.take(k) && (k
                    == y.len() || (k < x.len() && x[k] > y[k]));
            assert(a.take(k + 1) =~= seq![a[0]] + x.take(k));
            assert(b.take(k + 1) =~= seq![b[0]] + y.take(k));
            assert(a.take(k + 1) == b.take(k + 1));
        }
    }
}

proof fn lemma_count(
    ms: Seq<MemberFigures>,
    kind: MemberKind,
    today: Seq<char>,
    holds: spec_fn(MemberFigures) -> bool,
)
    requires
        forall|m: MemberFigures| #[trigger] holds(m) == is_of_kind(m, kind, today),
    ensures
        count_kind(ms, kind, today) == ms.filter(holds).len(),
    decreases ms.len(),
{
    reveal(Seq::filter);
    if ms.len() > 0 {
        lemma_count(ms.drop_last(), kind, today, holds);
        assert(holds(ms.last()) == is_of_kind(ms.last(), kind, today));
    }
}

/// The members are counted by the refund and, where the card was not given back, by the card, by the
/// status, and by an expiry that does not lie in front of today.
pub proof fn law_members_are_counted(
    today: Seq<char>,
    ms: Seq<MemberFigures>,
    cs: Seq<ClassFigures>,
)
    ensures
        ({
            let d = day_figures(today, ms, cs);
            &&& d.refunded == ms.filter(|m: MemberFigures| m.refund).len()
            &&& d.period_card == ms.filter(
                |m: MemberFigures| !m.refund && m.card_type == "期限卡"@,
            ).len()
            &&& d.session_card == ms.filter(
                |m: MemberFigures| !m.refund && m.card_type == "次卡"@,
            ).len()
            &&& d.normal == ms.filter(|m: MemberFigures| !m.refund && m.status == "正常"@).len()
            &&& d.pending == ms.filter(
                |m: MemberFigures| !m.refund && m.status == "待开卡"@,
            ).len()
            &&& d.warning == ms.filter(
                |m: MemberFigures| !m.refund && m.status == "预警客户"@,
            ).len()
            &&& d.sleeping == ms.filter(
                |m: MemberFigures| !m.refund && m.status == "沉睡客户"@,
            ).len()
            &&& d.expired == ms.filter(
                |m: MemberFigures| !m.refund && m.status == "已到期"@,
            ).len()
            &&& d.valid_period == ms.filter(
                |m: MemberFigures|
                    !m.refund && (m.expiry_date matches Some(e) && is_not_before(e, today)),
            ).len()
        }),
{
    assert forall|e: Seq<char>| #[trigger] is_not_before(e, today) == !text_before(e, today) by {
        lemma_not_before(e, today);
    }
    lemma_count(ms, MemberKind::Refunded, today, |m: MemberFigures| m.refund);
    lemma_count(
        ms,
        MemberKind::PeriodCard,
        today,
        |m: MemberFigures| !m.refund && m.card_type == "期限卡"@,
    );
    lemma_count(
        ms,
        MemberKind::SessionCard,
        today,
        |m: MemberFigures| !m.refund && m.card_type == "次卡"@,
    );
    lemma_count(
        ms,
        MemberKind::Normal,
        today,
        |m: MemberFigures| !m.refund && m.status == "正常"@,
    );
    lemma_count(
        ms,
        MemberKind::Pending,
        today,
        |m: MemberFigures| !m.refund && m.status == "待开卡"@,
    );
    lemma_count(
        ms,
        MemberKind::Warning,
        today,
        |m: MemberFigures| !m.refund && m.status == "预警客户"@,
    );
    lemma_count(
        ms,
        MemberKind::Sleeping,
        today,
        |m: MemberFigures| !m.refund && m.status == "沉睡客户"@,
    );
    lemma_count(
        ms,
        MemberKind::Expired,
        today,
        |m: MemberFigures| !m.refund && m.status == "已到期"@,
    );
    lemma_count(
        ms,
        MemberKind::ValidToday,
        today,
        |m: MemberFigures|
            !m.refund && (m.expiry_date matches Some(e) && is_not_before(e, today)),
    );
}

/// The classes of the day are those that count and have its date, and those with an effect are some
/// of them.
pub proof fn law_classes_of_the_day(
    today: Seq<char>,
    ms: Seq<MemberFigures>,
    cs: Seq<ClassFigures>,
)
    ensures
        ({
            let d = day_figures(today, ms, cs);
            &&& d.today_classes == cs.filter(
                |c: ClassFigures| c.valid && c.date == Some(today),
            ).len()
            &&& d.today_effect == cs.filter(
                |c: ClassFigures| c.valid && c.date == Some(today) && c.effect,
            ).len()
        }),
    decreases cs.len(),
{
    reveal(Seq::filter);
    if cs.len() > 0 {
        law_classes_of_the_day(today, ms, cs.drop_last());
    }
}

} // verus!
