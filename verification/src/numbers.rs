//! What the numbers of members, the names of versions and what is kept of them are.
use vstd::prelude::*;
use crate::config::{default_name, first_default, is_default_name};
use crate::model::{digits_only, MemberRow};
use crate::snapshot::{
    by_time, latest_first, placed_by_time, placed_latest, surplus, version_base, version_file,
};
use crate::store::{
    card_base, front_part, id_left, id_prefix, largest_behind, lemma_zeros_in_front, new_id,
    number_behind, phone_from,
};
use crate::text::{
    all_digits, decimal, digits_value, is_digit, lemma_decimal, lemma_text_before_irreflexive,
    lemma_text_before_transitive, numeral_value, text_before,
};

verus! {

// ---------------------------------------------------------------------- members
/// What stands in front of the first hyphen of a number, or the whole number where it has none.
pub open spec fn is_front_of(x: Seq<char>, id: Seq<char>) -> bool {
    &&& x.len() <= id.len() && id.take(x.len() as int) == x
    &&& forall|i: int| 0 <= i < x.len() ==> #[trigger] x[i] != '-'
    &&& x.len() == id.len() || id[x.len() as int] == '-'
}

/// Whether `k` stands behind `prefix` in the number of a member, in digits.
pub open spec fn is_numbered(id: Seq<char>, prefix: Seq<char>, k: int) -> bool {
    &&& prefix.len() < id.len() && id.take(prefix.len() as int) == prefix
    &&& forall|i: int|
        prefix.len() <= i < id.len() ==> '0' <= #[trigger] id[i] && id[i] <= '9'
    &&& digits_value(id.skip(prefix.len() as int)) == k && k <= i64::MAX
}

/// Whether `n` is the next number behind a prefix: above all that members have there, and directly
/// behind the largest of them.
pub open spec fn is_next_behind(members: Seq<MemberRow>, prefix: Seq<char>, n: int) -> bool {
    &&& n >= 1
    &&& forall|j: int, k: int|
        0 <= j < members.len() && #[trigger] is_numbered(members[j].id, prefix, k) ==> k < n
    &&& n == 1 || exists|j: int|
        0 <= j < members.len() && #[trigger] is_numbered(members[j].id, prefix, n - 1)
}

proof fn lemma_numbered(id: Seq<char>, prefix: Seq<char>, k: int)
    ensures
        is_numbered(id, prefix, k) == (number_behind(id, prefix) == Some(k)),
{
    let rest = id.skip(prefix.len() as int);
    if prefix.len() <= id.len() {
        assert(id.subrange(0, prefix.len() as int) =~= id.take(prefix.len() as int));
        assert forall|i: int| prefix.len() <= i < id.len() implies #[trigger] id[i] == rest[i
            - prefix.len()] by {}
        if all_digits(rest) {
            assert forall|i: int| prefix.len() <= i < id.len() implies '0' <= #[trigger] id[i]
                && id[i] <= '9' by {
                assert(is_digit(rest[i - prefix.len()]));
            }
        }
        if is_numbered(id, prefix, k) {
            assert forall|i: int| 0 <= i < rest.len() implies is_digit(#[trigger] rest[i]) by {
                assert(id[i + prefix.len()] == rest[i]);
            }
        }
    }
}

proof fn lemma_next_behind(members: Seq<MemberRow>, prefix: Seq<char>)
    ensures
        is_next_behind(members, prefix, largest_behind(members, prefix) + 1),
    decreases members.len(),
{
    if members.len() > 0 {
        let front = members.drop_last();
        let n = members.len() - 1;
        let old_max = largest_behind(front, prefix);
        let max = largest_behind(members, prefix);
        lemma_next_behind(front, prefix);
        assert forall|j: int| 0 <= j < n implies #[trigger] members[j] == front[j] by {}
        assert forall|j: int, k: int|
            0 <= j < members.len() && #[trigger] is_numbered(
                members[j].id,
                prefix,
                k,
            ) implies k < max + 1 by {
            lemma_numbered(members[j].id, prefix, k);
            if j < n {
                assert(is_numbered(front[j].id, prefix, k));
            }
        }
        if max != old_max {
            lemma_numbered(members[n].id, prefix, max);
            assert(is_numbered(members[n].id, prefix, max + 1 - 1));
        } else if max != 0 {
            let j = choose|j: int|
                0 <= j < front.len() && #[trigger] is_numbered(
                    front[j].id,
                    prefix,
                    old_max + 1 - 1,
                );
            assert(is_numbered(members[j].id, prefix, max + 1 - 1));
        }
    }
}

proof fn lemma_front_part(id: Seq<char>)
    ensures
        is_front_of(front_part(id), id),
    decreases id.len(),
{
    if id.len() > 0 && id[0] != '-' {
        let rest = id.drop_first();
        let x = front_part(rest);
        let y = front_part(id);
        lemma_front_part(rest);
        assert(y =~= seq![id[0]] + x);
        assert(id.take(y.len() as int) =~= seq![id[0]] + rest.take(x.len() as int));
        assert forall|i: int| 0 <= i < y.len() implies #[trigger] y[i] != '-' by {
            if i > 0 {
                assert(y[i] == x[i - 1]);
            }
        }
        if y.len() < id.len() {
            assert(id[y.len() as int] == rest[x.len() as int]);
        }
    } else {
        assert(id.take(0) =~= front_part(id));
    }
}

/// Whether two phones have the same digits, and have any.
pub open spec fn is_same_phone(a: Seq<char>, b: Seq<char>) -> bool {
    let digits = |c: char| '0' <= c && c <= '9';
    a.filter(digits) == b.filter(digits) && a.filter(digits).len() > 0
}

proof fn lemma_phone_digits(s: Seq<char>)
    ensures
        digits_only(s) == s.filter(|c: char| '0' <= c && c <= '9'),
{
    let a = |c: char| is_digit(c);
    let b = |c: char| '0' <= c && c <= '9';
    assert(a =~= b);
}

proof fn lemma_phone_from(members: Seq<MemberRow>, i: int, phone: Seq<char>)
    requires
        0 <= i,
    ensures
        match phone_from(members, i, digits_only(phone)) {
            Some(k) => i <= k < members.len() && is_same_phone(members[k].phone, phone) && forall|
                j: int,
            |
                i <= j < k ==> !is_same_phone((#[trigger] members[j]).phone, phone),
            None => forall|j: int|
                i <= j < members.len() ==> !is_same_phone((#[trigger] members[j]).phone, phone),
        },
    decreases members.len() - i,
{
    if i < members.len() {
        lemma_phone_digits(members[i].phone);
        lemma_phone_digits(phone);
        lemma_phone_from(members, i + 1, phone);
    }
}

/// Whether a number is the next card of the member with the number `owner`: what stands in front of
/// the first hyphen of that number, a hyphen, and the next number behind these.
pub open spec fn is_next_card(members: Seq<MemberRow>, owner: Seq<char>, id: Seq<char>) -> bool {
    exists|x: Seq<char>, n: int|
        #![trigger is_front_of(x, owner), is_next_behind(members, x + "-"@, n)]
        is_front_of(x, owner) && is_next_behind(members, x + "-"@, n) && id == x + "-"@ + decimal(
            n as nat,
        )
}

/// Whether a number is that of a new member: an `M` and the next number behind it, with zeros in front
/// where it has fewer than three digits.
pub open spec fn is_next_member(members: Seq<MemberRow>, id: Seq<char>) -> bool {
    exists|n: int, zeros: Seq<char>|
        #![trigger is_next_behind(members, "M"@, n), are_zeros(zeros)]
        is_next_behind(members, "M"@, n) && are_zeros(zeros) && id == "M"@ + zeros + decimal(
            n as nat,
        ) && (zeros + decimal(n as nat)).len() >= 3 && (zeros.len() > 0 ==> (zeros + decimal(
            n as nat,
        )).len() == 3)
}

/// Nothing but zeros.
pub open spec fn are_zeros(zeros: Seq<char>) -> bool {
    forall|i: int| 0 <= i < zeros.len() ==> #[trigger] zeros[i] == '0'
}

/// A new number is the next card of the member whose number is given, and otherwise of the first
/// member with the same phone, and otherwise the number of a new member.
pub proof fn law_new_number(
    members: Seq<MemberRow>,
    phone: Seq<char>,
    base_id: Option<Seq<char>>,
)
    ensures
        ({
            let id = new_id(members, phone, base_id);
            match base_id {
                Some(b) => is_next_card(members, b, id),
                None => if exists|j: int|
                    0 <= j < members.len() && is_same_phone((#[trigger] members[j]).phone, phone) {
                    exists|j: int|
                        {
                            &&& 0 <= j < members.len()
                            &&& is_same_phone((#[trigger] members[j]).phone, phone)
                            &&& forall|k: int|
                                0 <= k < j ==> !is_same_phone((#[trigger] members[k]).phone, phone)
                            &&& is_next_card(members, members[j].id, id)
                        }
                } else {
                    is_next_member(members, id)
                },
            }
        }),
{
    let id = new_id(members, phone, base_id);
    let base = card_base(members, phone, base_id);
    lemma_phone_from(members, 0, phone);
    lemma_next_behind(members, id_prefix(base));
    let n = largest_behind(members, id_prefix(base)) + 1;
    match base_id {
        Some(b) => {
            lemma_front_part(b);
            assert(is_front_of(front_part(b), b) && is_next_behind(
                members,
                front_part(b) + "-"@,
                n,
            ));
        },
        None => match phone_from(members, 0, digits_only(phone)) {
            Some(i) => {
                let b = members[i].id;
                lemma_front_part(b);
                assert(is_front_of(front_part(b), b) && is_next_behind(
                    members,
                    front_part(b) + "-"@,
                    n,
                ));
                assert(is_next_card(members, members[i].id, id));
            },
            None => {
                lemma_decimal(n as nat);
                lemma_decimal_len(n as nat);
                reveal_strlit("00");
                reveal_strlit("0");
                let zeros = if n < 10 {
                    "00"@
                } else if n < 100 {
                    "0"@
                } else {
                    Seq::empty()
                };
                assert(are_zeros(zeros));
                assert(id =~= "M"@ + zeros + decimal(n as nat));
                assert(is_next_behind(members, "M"@, n));
            },
        },
    }
}

/// There is a number left as long as no member has the largest of all behind any prefix.
pub proof fn law_id_is_left(
    members: Seq<MemberRow>,
    phone: Seq<char>,
    base_id: Option<Seq<char>>,
)
    requires
        forall|j: int, prefix: Seq<char>, k: int|
            0 <= j < members.len() && #[trigger] is_numbered(members[j].id, prefix, k) ==> k
                < i64::MAX,
    ensures
        id_left(members, phone, base_id),
{
    lemma_next_behind(members, id_prefix(card_base(members, phone, base_id)));
}

proof fn lemma_decimal_len(n: nat)
    ensures
        n < 10 ==> decimal(n).len() == 1,
        10 <= n < 100 ==> decimal(n).len() == 2,
        100 <= n ==> decimal(n).len() >= 3,
    decreases n,
{
    if n >= 10 {
        lemma_decimal_len(n / 10);
    }
}

// --------------------------------------------------------------------- versions
/// The name of a version is the time, a number of at least two digits and the short name of the
/// action, with a low line between each of them; its file is that of a workbook.
pub proof fn law_version_name(ts: Seq<char>, n: nat, short: Seq<char>)
    ensures
        exists|digits: Seq<char>| #[trigger]
            numeral_value(digits) == Some(n) && digits.len() >= 2 && version_base(ts, n, short)
                == ts + "_"@ + digits + "_"@ + short && version_file(ts, n, short) == ts + "_"@
                + digits + "_"@ + short + ".xlsx"@,
{
    lemma_decimal(n);
    lemma_decimal_len(n);
    reveal_strlit("0");
    let digits = if n < 10 {
        "0"@ + decimal(n)
    } else {
        decimal(n)
    };
    lemma_zeros_in_front("0"@, decimal(n));
    assert(numeral_value(digits) == Some(n));
}

proof fn lemma_by_time_len(times: Seq<i128>, n: int)
    requires
        0 <= n,
    ensures
        by_time(times, n).len() == n,
    decreases n,
{
    if n > 0 {
        lemma_by_time_len(times, n - 1);
        lemma_placed_len(by_time(times, n - 1), times, n - 1);
    }
}

proof fn lemma_placed_len(order: Seq<int>, times: Seq<i128>, i: int)
    ensures
        placed_by_time(order, times, i).len() == order.len() + 1,
    decreases order.len(),
{
    if order.len() > 0 {
        lemma_placed_len(order.drop_last(), times, i);
    }
}

/// No version goes as long as there are no more than a hundred, and of more than a hundred just as
/// many go as leave a hundred.
pub proof fn law_a_hundred_versions_stay(times: Seq<i128>)
    ensures
        times.len() <= 100 ==> surplus(times).len() == 0,
        times.len() > 100 ==> times.len() - surplus(times).len() == 100,
{
    lemma_by_time_len(times, times.len() as int);
}

proof fn lemma_latest_holds(order: Seq<int>, keys: Seq<Seq<char>>, i: int, k: int)
    requires
        order.contains(k) || k == i,
    ensures
        placed_latest(order, keys, i).contains(k),
    decreases order.len(),
{
    let all = placed_latest(order, keys, i);
    if order.len() == 0 || !text_before(keys[order.last()], keys[i]) {
        if k == i {
            assert(all[order.len() as int] == i);
        } else {
            let j = choose|j: int| 0 <= j < order.len() && order[j] == k;
            assert(all[j] == k);
        }
    } else {
        let front = order.drop_last();
        let rest = placed_latest(front, keys, i);
        assert(all == rest.push(order.last()));
        if order.contains(k) && k == order.last() {
            assert(all[rest.len() as int] == k);
        } else {
            if k != i {
                let j = choose|j: int| 0 <= j < order.len() && order[j] == k;
                assert(front[j] == k);
            }
            lemma_latest_holds(front, keys, i, k);
            let j = choose|j: int| 0 <= j < rest.len() && rest[j] == k;
            assert(all[j] == k);
        }
    }
}

/// Every version is listed.
pub proof fn law_every_version_is_listed(keys: Seq<Seq<char>>, n: int, k: int)
    requires
        0 <= k < n,
    ensures
        latest_first(keys, n).contains(k),
    decreases n,
{
    if k < n - 1 {
        law_every_version_is_listed(keys, n - 1, k);
    }
    lemma_latest_holds(latest_first(keys, n - 1), keys, n - 1, k);
}

// ------------------------------------------------------------- default workbook
/// Whether a name is that of a workbook of the ledger: it starts with the name of the system and has
/// one of the two endings.
pub open spec fn is_ledger_name(name: Seq<char>) -> bool {
    "莱·梵壹会员实时跟踪管理系统"@.is_prefix_of(name) && (".xlsx"@.is_suffix_of(name)
        || ".xlsm"@.is_suffix_of(name))
}

proof fn lemma_first_default(names: Seq<String>, n: int)
    requires
        0 <= n <= names.len(),
    ensures
        match first_default(names, n) {
            Some(x) => is_ledger_name(x) && (exists|i: int|
                0 <= i < n && (#[trigger] names[i])@ == x) && forall|i: int|
                0 <= i < n && is_ledger_name((#[trigger] names[i])@) ==> !text_before(names[i]@, x),
            None => forall|i: int| 0 <= i < n ==> !is_ledger_name((#[trigger] names[i])@),
        },
    decreases n,
{
    if n > 0 {
        lemma_first_default(names, n - 1);
        let name = names[n - 1]@;
        assert(is_ledger_name(name) == is_default_name(name));
        lemma_text_before_irreflexive(name);
        if let Some(b) = first_default(names, n - 1) {
            assert forall|i: int|
                0 <= i < n && is_ledger_name((#[trigger] names[i])@) && first_default(names, n)
                    == Some(name) && is_ledger_name(name) implies !text_before(
                names[i]@,
                name,
            ) by {
                if i < n - 1 && text_before(names[i]@, name) && text_before(name, b) {
                    lemma_text_before_transitive(names[i]@, name, b);
                }
            }
        }
    }
}

/// The default workbook is one of the files and has the name of a workbook of the ledger; none of the
/// files that have one stands in front of it in the order of texts, unless it is called by the name of
/// the system alone. There is none only where no file has such a name.
pub proof fn law_default_workbook(names: Seq<String>)
    ensures
        match default_name(names) {
            Some(x) => {
                &&& is_ledger_name(x)
                &&& exists|i: int| 0 <= i < names.len() && (#[trigger] names[i])@ == x
                &&& x == "莱·梵壹会员实时跟踪管理系统"@ + ".xlsx"@ || forall|i: int|
                    0 <= i < names.len() && is_ledger_name((#[trigger] names[i])@) ==> !text_before(
                        names[i]@,
                        x,
                    ) && names[i]@ != "莱·梵壹会员实时跟踪管理系统"@ + ".xlsx"@
            },
            None => forall|i: int| 0 <= i < names.len() ==> !is_ledger_name((#[trigger] names[i])@),
        },
{
    let stem = "莱·梵壹会员实时跟踪管理系统"@;
    let exact = stem + ".xlsx"@;
    lemma_first_default(names, names.len() as int);
    assert(exact.subrange(0, stem.len() as int) =~= stem);
    assert(exact.subrange(exact.len() - ".xlsx"@.len(), exact.len() as int) =~= ".xlsx"@);
    assert(is_ledger_name(exact));
}

} // verus!
