//! What requests are read as and checked for: texts, times of day, numbers, and what is refused.
use vstd::arithmetic::power2::{lemma_pow2_pos, pow2};
use vstd::prelude::*;
use crate::api::{
    base64_value, change_action_text, change_note_text, is_same_file, key_list, lower_case,
    member_fault, missing_sheets, row_of, sheets_fault, studio_name, upload_content, version_of,
};
use crate::columns::{counts, day_named, says_or_empty};
use crate::config::{settings, text_setting, Setting};
use crate::figures::{is_all_white, lemma_all_white};
use crate::model::{
    before_point, clock_text, date_value, digit_run, exponent_field, fraction_field, is_negative,
    parsed_date, rounded53, second_of_day, time_value, two_digits, whole_part, Field, FieldVal,
    Fields, Val,
};
use crate::snapshot::slug;
use crate::store::{class_time, saved, Book, Fault, SaveOutcome};
use crate::text::{
    decimal, digit_of, digits_value, is_digit, is_white, lemma_decimal, replace_from, replaced,
    trimmed, trimmed_back, trimmed_front,
};
use crate::xlsx::limits::book_fits;
use crate::xlsx::read::{book_error, book_sheets, raw_value, CellContent};
use crate::xlsx::reload::lemma_base_name;
use crate::xlsx::zipio::base_name;

verus! {

// ------------------------------------------------------------------------ texts
/// A text without the white space around it is what is left of the text when white space is taken
/// away from both ends, and it neither starts nor ends with any.
pub proof fn law_trimmed(s: Seq<char>)
    ensures
        exists|a: Seq<char>, b: Seq<char>|
            #![trigger is_all_white(a), is_all_white(b)]
            is_all_white(a) && is_all_white(b) && s == a + trimmed(s) + b,
        trimmed(s).len() > 0 ==> !is_white(trimmed(s)[0]) && !is_white(trimmed(s).last()),
{
    let t = trimmed_front(s);
    let u = trimmed_back(t);
    lemma_front(s);
    lemma_back(t);
    let a = s.take(s.len() - t.len());
    let b = t.skip(u.len() as int);
    assert(s =~= a + t);
    assert(t =~= u + b);
    assert(s =~= a + u + b);
    assert(is_all_white(a) && is_all_white(b));
    if u.len() > 0 {
        assert(u[0] == t[0]);
    }
}

proof fn lemma_front(s: Seq<char>)
    ensures
        trimmed_front(s).len() <= s.len(),
        s.skip(s.len() - trimmed_front(s).len()) == trimmed_front(s),
        is_all_white(s.take(s.len() - trimmed_front(s).len())),
        trimmed_front(s).len() > 0 ==> !is_white(trimmed_front(s)[0]),
    decreases s.len(),
{
    if s.len() > 0 && is_white(s[0]) {
        let r = s.drop_first();
        let t = trimmed_front(s);
        lemma_front(r);
        assert(s.skip(s.len() - t.len()) =~= r.skip(r.len() - t.len()));
        assert(s.take(s.len() - t.len()) =~= seq![s[0]] + r.take(r.len() - t.len()));
        let w = s.take(s.len() - t.len());
        let v = r.take(r.len() - t.len());
        assert forall|i: int| 0 <= i < w.len() implies is_white(#[trigger] w[i]) by {
            if i > 0 {
                assert(w[i] == v[i - 1]);
            }
        }
    } else {
        assert(s.skip(0) =~= s);
        assert(s.take(0).len() == 0);
    }
}

proof fn lemma_back(s: Seq<char>)
    ensures
        trimmed_back(s).len() <= s.len(),
        s.take(trimmed_back(s).len() as int) == trimmed_back(s),
        is_all_white(s.skip(trimmed_back(s).len() as int)),
        trimmed_back(s).len() > 0 ==> !is_white(trimmed_back(s).last()),
    decreases s.len(),
{
    if s.len() > 0 && is_white(s.last()) {
        let r = s.drop_last();
        let t = trimmed_back(s);
        lemma_back(r);
        assert(s.take(t.len() as int) =~= r.take(t.len() as int));
        let w = s.skip(t.len() as int);
        let v = r.skip(t.len() as int);
        assert forall|i: int| 0 <= i < w.len() implies is_white(#[trigger] w[i]) by {
            if i < v.len() {
                assert(w[i] == v[i]);
            } else {
                assert(w[i] == s.last());
            }
        }
    } else {
        assert(s.take(s.len() as int) =~= s);
        assert(s.skip(s.len() as int).len() == 0);
    }
}

proof fn lemma_not_trimmed(s: Seq<char>)
    requires
        s.len() > 0,
        !is_white(s[0]),
        !is_white(s.last()),
    ensures
        trimmed(s) == s,
{
}

// ------------------------------------------------------------------------ times
proof fn lemma_run_is(s: Seq<char>, i: int, k: int)
    requires
        0 <= i <= k < s.len(),
        forall|j: int| i <= j < k ==> is_digit(#[trigger] s[j]),
        !is_digit(s[k]),
    ensures
        digit_run(s, i) == k - i,
    decreases k - i,
{
    if i < k {
        assert(is_digit(s[i]));
        lemma_run_is(s, i + 1, k);
    }
}

/// One or two digits, a colon and two digits are read as hours and minutes, whatever follows them:
/// hours beyond the day start again, and sixty minutes or more are refused.
pub proof fn law_time_of_day(a: Seq<char>, x: char, y: char, rest: Seq<char>)
    requires
        a.len() == 1 || a.len() == 2,
        forall|i: int| 0 <= i < a.len() ==> '0' <= #[trigger] a[i] && a[i] <= '9',
        '0' <= x <= '9',
        '0' <= y <= '9',
        rest.len() == 0 || !is_white(rest.last()),
    ensures
        ({
            let minutes = (x as int - '0' as int) * 10 + (y as int - '0' as int);
            time_value(a + seq![':', x, y] + rest) == (if minutes < 60 {
                Some((digits_value(a) as int % 24) * 3600 + minutes * 60)
            } else {
                None
            })
        }),
{
    let s = a + seq![':', x, y] + rest;
    let h = a.len() as int;
    assert(s[0] == a[0]);
    assert(is_digit(s[0]));
    assert(s[h] == ':' && s[h + 1] == x && s[h + 2] == y);
    assert(s.last() == (if rest.len() > 0 {
        rest.last()
    } else {
        y
    }));
    lemma_not_trimmed(s);
    assert forall|j: int| 0 <= j < h implies is_digit(#[trigger] s[j]) by {
        assert(s[j] == a[j]);
    }
    lemma_run_is(s, 0, h);
    reveal_with_fuel(digit_run, 3);
    assert(digit_run(s, h + 1) >= 2);
    assert(s.take(h) =~= a);
    let m = s.subrange(h + 1, h + 3);
    assert(m =~= seq![x, y]);
    reveal_with_fuel(digits_value, 3);
    assert(m.drop_last() =~= seq![x]);
    assert(seq![x].drop_last() =~= Seq::<char>::empty());
    assert(digits_value(m) == (x as int - '0' as int) * 10 + (y as int - '0' as int));
}

/// A time that is read is a whole minute of the day.
pub proof fn law_time_lies_in_the_day(s: Seq<char>)
    ensures
        time_value(s) matches Some(v) ==> 0 <= v < 86400 && v % 60 == 0,
{
    let t = trimmed(s);
    let run = digit_run(t, 0) as int;
    let h = if run > 2 {
        2
    } else {
        run
    };
    if let Some(v) = time_value(s) {
        let hours = digits_value(t.take(h));
        let minutes = digits_value(t.subrange(h + 1, h + 3));
        assert(v == 60 * ((hours as int % 24) * 60 + minutes));
    }
}

/// A class is held at the time that its request names, and now where it names none.
pub proof fn law_class_time(body: Fields, now: int)
    ensures
        match time_value(says_or_empty(body.value("time"@))) {
            Some(v) => class_time(body, now) == v,
            None => class_time(body, now) == now,
        },
{
}

proof fn lemma_second_in_day(bits: u64)
    ensures
        0 <= second_of_day(bits) <= 86399,
{
    let e = exponent_field(bits);
    if !(e == 2047 && fraction_field(bits) != 0) && !is_negative(bits) && e != 0 && e < 1023 {
        let p = (0x10_0000_0000_0000 + fraction_field(bits)) * 86400;
        let product = rounded53(p);
        let scale = pow2((1075 - e) as nat) as int;
        lemma_pow2_pos((1075 - e) as nat);
        lemma_rounded(p);
        assert((2 * product + scale) / (2 * scale) >= 0) by (nonlinear_arith)
            requires
                product >= 0,
                scale > 0,
        ;
    }
}

proof fn lemma_rounded(p: int)
    requires
        p >= 0,
    ensures
        rounded53(p) >= 0,
        -0x1_0000 <= rounded53(p) - p <= 0x1_0000,
{
    let unit: int = if p < 0x20_0000_0000_0000_0000int {
        0x1_0000
    } else {
        0x2_0000
    };
    let q = p / unit;
    let r = p % unit;
    assert(p == q * unit + r && 0 <= r < unit && q >= 0) by (nonlinear_arith)
        requires
            p >= 0,
            unit > 0,
            q == p / unit,
            r == p % unit,
    ;
    assert((q + 1) * unit == q * unit + unit && q * unit >= 0) by (nonlinear_arith)
        requires
            q >= 0,
            unit > 0,
    ;
}

/// The second of the day is the one nearest to the fraction of the day, but for what the product with
/// 86400 loses to the 53 digits it is held in, and never beyond the last of the day. The fraction is
/// `m` over `scale`.
pub proof fn law_nearest_second(bits: u64)
    requires
        bits < 0x8000_0000_0000_0000,
        0 < exponent_field(bits) < 1023,
    ensures
        ({
            let s = second_of_day(bits);
            let m = 0x10_0000_0000_0000 + fraction_field(bits);
            let scale = pow2((1075 - exponent_field(bits)) as nat) as int;
            &&& 0 <= s <= 86399
            &&& 2 * (s * scale - m * 86400) <= scale + 0x2_0000
            &&& s == 86399 || 2 * (m * 86400 - s * scale) <= scale + 0x2_0000
        }),
{
    let e = exponent_field(bits);
    let m = 0x10_0000_0000_0000 + fraction_field(bits);
    let p = m * 86400;
    let product = rounded53(p);
    let scale = pow2((1075 - e) as nat) as int;
    let s = second_of_day(bits);
    lemma_pow2_pos((1075 - e) as nat);
    lemma_rounded(p);
    lemma_second_in_day(bits);
    let secs = (2 * product + scale) / (2 * scale);
    assert(secs * (2 * scale) <= 2 * product + scale && 2 * product + scale < (secs + 1) * (2
        * scale)) by (nonlinear_arith)
        requires
            scale > 0,
            secs == (2 * product + scale) / (2 * scale),
    ;
    assert(secs * (2 * scale) == 2 * (secs * scale)) by (nonlinear_arith);
    assert((secs + 1) * (2 * scale) == 2 * (secs * scale) + 2 * scale) by (nonlinear_arith);
    if s != secs {
        assert(s == 86399 && secs > s);
        assert(s * scale <= secs * scale) by (nonlinear_arith)
            requires
                s < secs,
                scale > 0,
        ;
    }
}

/// A time that is shown in hours and minutes is read as the same minute of the day.
pub proof fn law_shown_time_is_read_back(bits: u64)
    ensures
        time_value(clock_text(bits)) == Some(second_of_day(bits) - second_of_day(bits) % 60),
{
    let s = second_of_day(bits);
    lemma_second_in_day(bits);
    let h = s / 3600;
    let m = (s % 3600) / 60;
    let a = two_digits(h);
    let x = digit_of((m / 10) as nat);
    let y = digit_of((m % 10) as nat);
    let none = Seq::<char>::empty();
    assert(0 <= h <= 23 && 0 <= m <= 59);
    assert('0' <= digit_of((h / 10) as nat) && digit_of((h / 10) as nat) <= '9');
    assert('0' <= digit_of((h % 10) as nat) && digit_of((h % 10) as nat) <= '9');
    law_time_of_day(a, x, y, none);
    reveal_strlit(":");
    assert(clock_text(bits) =~= a + seq![':', x, y] + none);
    reveal_with_fuel(digits_value, 3);
    assert(a.drop_last() =~= seq![a[0]]);
    assert(a.drop_last().drop_last() =~= none);
    assert(digits_value(a) == h);
    assert((m / 10) * 10 + m % 10 == m);
}

// ---------------------------------------------------------------------- numbers
/// A number is read without its fraction, towards zero, and kept in the range of 64 bits.
pub proof fn law_whole_part(n: nat, fraction: Seq<char>)
    ensures
        ({
            let at_most = if n <= i64::MAX {
                n as int
            } else {
                i64::MAX as int
            };
            let at_least = if -n >= i64::MIN {
                -n
            } else {
                i64::MIN as int
            };
            &&& whole_part(decimal(n)) == at_most
            &&& whole_part(decimal(n) + "."@ + fraction) == at_most
            &&& whole_part("-"@ + decimal(n)) == at_least
            &&& whole_part("-"@ + decimal(n) + "."@ + fraction) == at_least
        }),
{
    let t = decimal(n);
    let none = Seq::<char>::empty();
    let m = "-"@ + t;
    lemma_decimal(n);
    reveal_strlit("-");
    reveal_strlit(".");
    reveal_strlit("inf");
    reveal_strlit("-inf");
    assert(is_digit(t[0]));
    assert forall|i: int| 0 <= i < m.len() implies #[trigger] m[i] != '.' by {
        if i > 0 {
            assert(is_digit(t[i - 1]));
        }
    }
    lemma_up_to_point(t, none);
    lemma_up_to_point(t, "."@ + fraction);
    lemma_up_to_point(m, none);
    lemma_up_to_point(m, "."@ + fraction);
    assert(t + none =~= t);
    assert(m + none =~= m);
    assert(t + ("."@ + fraction) =~= t + "."@ + fraction);
    assert(m + ("."@ + fraction) =~= m + "."@ + fraction);
    assert(m.drop_first() =~= t);
    assert("inf"@[0] == 'i' && "-inf"@[0] == '-' && "-inf"@[1] == 'i');
    assert((t + "."@ + fraction)[0] == t[0]);
    assert((m + "."@ + fraction)[1] == t[0]);
    assert(m[1] == t[0]);
}

proof fn lemma_up_to_point(t: Seq<char>, rest: Seq<char>)
    requires
        forall|i: int| 0 <= i < t.len() ==> #[trigger] t[i] != '.',
        rest.len() == 0 || rest[0] == '.',
    ensures
        before_point(t + rest) == t,
    decreases t.len(),
{
    let s = t + rest;
    if t.len() > 0 {
        let r = t.drop_first();
        assert forall|i: int| 0 <= i < r.len() implies #[trigger] r[i] != '.' by {
            assert(r[i] == t[i + 1]);
        }
        lemma_up_to_point(r, rest);
        assert(s.drop_first() =~= r + rest);
        assert(seq![t[0]] + r =~= t);
    } else {
        assert(s =~= rest);
        assert(before_point(s) =~= t);
    }
}

// --------------------------------------------------------------------- requests
/// The text of a field, where it is a text and not only white space.
pub open spec fn is_filled_in(v: Option<FieldVal>) -> bool {
    v matches Some(FieldVal::Text(t, _)) && !is_all_white(t)
}

/// Whether a field is the given text, but for white space around it.
pub open spec fn is_text(v: Option<FieldVal>, t: Seq<char>) -> bool {
    v matches Some(FieldVal::Text(x, _)) && trimmed(x) == t
}

/// A request for a new member is accepted exactly where the name and the card are filled in, a card of
/// sessions has a number of them above zero, and a card for a period has a day on which it ends.
pub proof fn law_new_member_is_checked(body: Fields)
    ensures
        member_fault(body) is None <==> {
            &&& is_filled_in(body.value("name"@))
            &&& is_filled_in(body.value("card_type"@))
            &&& is_text(body.value("card_type"@), "次卡"@) ==> (counts(
                body.value("total_sessions"@),
            ) matches Some(n) && n != "0"@ && n != "NaN"@ && (n.len() == 0 || n[0] != '-'))
            &&& is_text(body.value("card_type"@), "期限卡"@) ==> (
            body.value("expiry_date"@) matches Some(FieldVal::Text(t, _)) && day_named(t) is Some)
        },
        !is_filled_in(body.value("name"@)) ==> member_fault(body) == Some("会员姓名必填"@),
        is_filled_in(body.value("name"@)) && !is_filled_in(body.value("card_type"@))
            ==> member_fault(body) == Some("卡种必填"@),
        is_text(body.value("card_type"@), "次卡"@) && is_filled_in(body.value("name"@))
            && member_fault(body) is Some ==> member_fault(body) == Some(
            "次卡必须填写大于 0 的总次数"@,
        ),
        is_text(body.value("card_type"@), "期限卡"@) && is_filled_in(body.value("name"@))
            && member_fault(body) is Some ==> member_fault(body) == Some(
            "期限卡必须填写有效期至"@,
        ),
{
    reveal_strlit("次卡");
    reveal_strlit("期限卡");
    assert("次卡"@.len() == 2 && "期限卡"@.len() == 3);
    lemma_all_white(Seq::<char>::empty());
    if let Some(FieldVal::Text(t, _)) = body.value("name"@) {
        lemma_all_white(t);
    }
    if let Some(FieldVal::Text(t, _)) = body.value("card_type"@) {
        lemma_all_white(t);
    }
}

/// A change that gives a card back is kept as a version of that name, one that takes it in again as
/// one of the other, and a change without a word on it as an edit.
pub proof fn law_change_is_named(fields: Fields)
    ensures
        slug(change_action_text(fields)) == (match fields.value("refund"@) {
            Some(v) => if v == FieldVal::Bool(true) {
                "refund"@
            } else {
                "unrefund"@
            },
            None => "edit_member"@,
        }),
{
    lemma_actions_differ();
}

proof fn lemma_actions_differ()
    ensures
        "标记退卡"@ != "新增会员"@,
        "标记退卡"@ != "编辑会员"@,
        "恢复会员"@ != "新增会员"@,
        "恢复会员"@ != "编辑会员"@,
        "恢复会员"@ != "标记退卡"@,
        "编辑会员"@ != "新增会员"@,
{
    reveal_strlit("标记退卡");
    reveal_strlit("新增会员");
    reveal_strlit("编辑会员");
    reveal_strlit("恢复会员");
    assert("标记退卡"@[0] != "新增会员"@[0]);
    assert("标记退卡"@[0] != "编辑会员"@[0]);
    assert("恢复会员"@[0] != "新增会员"@[0]);
    assert("恢复会员"@[0] != "编辑会员"@[0]);
    assert("恢复会员"@[0] != "标记退卡"@[0]);
    assert("编辑会员"@[0] != "新增会员"@[0]);
}

/// A row that is asked for is that row, and none where the number is negative or missing.
pub proof fn law_row_is_read(v: i64)
    ensures
        0 <= v <= u32::MAX ==> row_of(Some(v)) == Some(v as int),
        v < 0 ==> row_of(Some(v)) is None,
        row_of(None) is None,
{
}

/// A workbook is taken for one of the ledger exactly where it has both worksheets, and what is said of
/// one that has not names what is missing.
pub proof fn law_both_worksheets_are_needed(names: Seq<Seq<char>>)
    ensures
        sheets_fault(names) is None <==> names.contains("会员档案"@) && names.contains(
            "上课记录"@,
        ),
        !names.contains("会员档案"@) ==> "会员档案"@.is_prefix_of(missing_sheets(names)),
        !names.contains("上课记录"@) ==> "上课记录"@.is_suffix_of(missing_sheets(names)),
{
    let both = "会员档案"@ + "、"@ + "上课记录"@;
    let a = "会员档案"@;
    let b = "上课记录"@;
    assert(both.subrange(0, a.len() as int) =~= a);
    assert(both.subrange(both.len() - b.len(), both.len() as int) =~= b);
    assert(a.subrange(0, a.len() as int) =~= a);
    assert(b.subrange(b.len() - b.len(), b.len() as int) =~= b);
}

/// An upload is accepted exactly where it has the name of a workbook, and its content is not empty,
/// can be opened, and has both worksheets; what is accepted is that content.
pub proof fn law_accepted_upload(name: Seq<char>, data: Seq<char>)
    ensures
        upload_content(name, data) matches Ok(raw) ==> base64_value(data) == Some(raw),
        upload_content(name, data) is Ok <==> {
            &&& name.len() > 0
            &&& ".xlsx"@.is_suffix_of(lower_case(name)) || ".xlsm"@.is_suffix_of(lower_case(name))
            &&& base64_value(data) matches Some(raw) && raw.len() > 0 && book_fits(raw) && (
            book_error(raw) is None) && book_sheets(raw).contains("会员档案"@) && book_sheets(
                raw,
            ).contains("上课记录"@)
        },
{
}

/// Files whose places are known are the same where the places are; otherwise a path is the same as
/// itself with the slashes of the other kind.
pub proof fn law_same_file(x: Seq<char>, y: Seq<char>, a: Seq<char>, b: Seq<char>)
    ensures
        is_same_file(Some(x), Some(y), a, b) == (x == y),
        is_same_file(None, None, a, a),
        is_same_file(None, Some(y), a, b) == is_same_file(Some(x), None, a, b),
        is_same_file(None, None, a, b) == is_same_file(None, None, b, a),
        is_same_file(None, None, a, replaced(a, "/"@, "\\"@)),
{
    let w = replaced(a, "/"@, "\\"@);
    lemma_slashes(a, 0);
    lemma_no_slash(w, 0);
    assert(w.skip(0) =~= w);
}

proof fn lemma_slashes(a: Seq<char>, i: int)
    requires
        0 <= i,
    ensures
        forall|k: int|
            0 <= k < replace_from(a, i, "/"@, "\\"@).len() ==> #[trigger] replace_from(
                a,
                i,
                "/"@,
                "\\"@,
            )[k] != '/',
    decreases a.len() - i,
{
    reveal_strlit("/");
    reveal_strlit("\\");
    if i < a.len() {
        lemma_slashes(a, i + 1);
        let rest = replace_from(a, i + 1, "/"@, "\\"@);
        let all = replace_from(a, i, "/"@, "\\"@);
        let c = if a[i] == '/' {
            '\\'
        } else {
            a[i]
        };
        if a[i] == '/' {
            assert(a.subrange(i, i + 1) =~= "/"@);
        } else {
            assert(a.subrange(i, i + 1)[0] != "/"@[0]);
        }
        assert(all =~= seq![c] + rest);
        assert forall|k: int| 0 <= k < all.len() implies #[trigger] all[k] != '/' by {
            if k > 0 {
                assert(all[k] == rest[k - 1]);
            }
        }
    }
}

proof fn lemma_no_slash(w: Seq<char>, i: int)
    requires
        0 <= i <= w.len(),
        forall|k: int| 0 <= k < w.len() ==> #[trigger] w[k] != '/',
    ensures
        replace_from(w, i, "/"@, "\\"@) == w.skip(i),
    decreases w.len() - i,
{
    reveal_strlit("/");
    if i < w.len() {
        lemma_no_slash(w, i + 1);
        assert(w.subrange(i, i + 1)[0] != "/"@[0]);
        assert(seq![w[i]] + w.skip(i + 1) =~= w.skip(i));
    } else {
        assert(replace_from(w, i, "/"@, "\\"@) =~= w.skip(i));
    }
}

/// The name of the studio has at most twenty characters and no white space around it.
pub proof fn law_studio_name(t: Seq<char>)
    ensures
        studio_name(t) is Ok == (trimmed(t).len() <= 20),
        studio_name(t) matches Ok(name) ==> name == trimmed(t),
{
}

// ----------------------------------------------------------------------- saving
/// A workbook that another program holds is waited for, with all that was changed still in memory, and
/// the next save that succeeds ends the wait. A save that fails otherwise changes nothing.
pub proof fn law_held_workbook_is_waited_for(s: Book, ts: String, e: String)
    ensures
        ({
            let (held, r) = saved(s, SaveOutcome::Denied);
            let (after, again) = saved(held, SaveOutcome::Written(ts));
            &&& r == Ok::<bool, Fault>(false) && held.pending && held.pending_reason is Some
            &&& held.doc == s.doc && held.members == s.members && held.classes == s.classes
            &&& held.last_saved == s.last_saved && held.recoverable == s.recoverable
            &&& again == Ok::<bool, Fault>(true) && !after.pending && after.pending_reason is None
            &&& after.last_saved == Some(ts@) && after.doc == s.doc
        }),
        saved(s, SaveOutcome::Failed(e)).0 == s,
        saved(s, SaveOutcome::Failed(e)).1 matches Err(Fault::Sys(_)),
{
}

/// A day is read where it is written with hyphens, with slashes or with points, whatever white space
/// stands around it, and not otherwise.
pub proof fn law_day_is_read(s: Seq<char>)
    ensures
        ({
            let t = trimmed(s);
            let a = parsed_date(t, "%Y-%m-%d"@);
            let b = parsed_date(t, "%Y/%m/%d"@);
            let c = parsed_date(t, "%Y.%m.%d"@);
            &&& date_value(s) is Some == (a is Some || b is Some || c is Some)
            &&& date_value(s) is Some ==> date_value(s) == a || date_value(s) == b || date_value(s)
                == c
            &&& a is Some ==> date_value(s) == a
            &&& a is None && b is Some ==> date_value(s) == b
        }),
{
}

/// No two actions share a short name, but for those that have none of their own.
pub proof fn law_short_names_differ(a: Seq<char>, b: Seq<char>)
    requires
        slug(a) == slug(b),
        slug(a) != "edit"@,
    ensures
        a == b,
{
    reveal_strlit("add_member");
    reveal_strlit("edit_member");
    reveal_strlit("refund");
    reveal_strlit("unrefund");
    reveal_strlit("add_class");
    reveal_strlit("del_class");
    reveal_strlit("manual");
    reveal_strlit("pre_restore");
    reveal_strlit("pre_swap");
    reveal_strlit("retry");
    reveal_strlit("edit");
    assert("add_member"@.len() == 10 && "edit_member"@.len() == 11 && "pre_restore"@.len() == 11);
    assert("refund"@.len() == 6 && "manual"@.len() == 6 && "unrefund"@.len() == 8);
    assert("pre_swap"@.len() == 8 && "add_class"@.len() == 9 && "del_class"@.len() == 9);
    assert("retry"@.len() == 5 && "edit"@.len() == 4);
    assert("refund"@[0] != "manual"@[0]);
    assert("unrefund"@[0] != "pre_swap"@[0]);
    assert("add_class"@[0] != "del_class"@[0]);
    assert("edit_member"@[0] != "pre_restore"@[0]);
}

proof fn lemma_no_backslash(w: Seq<char>, i: int)
    requires
        0 <= i <= w.len(),
        forall|k: int| 0 <= k < w.len() ==> #[trigger] w[k] != '\\',
    ensures
        replace_from(w, i, "\\"@, "/"@) == w.skip(i),
    decreases w.len() - i,
{
    reveal_strlit("\\");
    if i < w.len() {
        lemma_no_backslash(w, i + 1);
        assert(w.subrange(i, i + 1)[0] != "\\"@[0]);
        assert(seq![w[i]] + w.skip(i + 1) =~= w.skip(i));
    } else {
        assert(replace_from(w, i, "\\"@, "/"@) =~= w.skip(i));
    }
}

/// The version that a request names is the file of this name, whatever folder stands in front of it,
/// where it is a workbook, and none otherwise.
pub proof fn law_version_is_named(dir: Seq<char>, name: Seq<char>)
    requires
        forall|k: int| 0 <= k < name.len() ==> #[trigger] name[k] != '/' && name[k] != '\\',
        forall|k: int| 0 <= k < dir.len() ==> #[trigger] dir[k] != '\\',
    ensures
        version_of(name) == (if ".xlsx"@.is_suffix_of(name) {
            Some(name)
        } else {
            None
        }),
        version_of(dir + "/"@ + name) == version_of(name),
{
    let path = dir + "/"@ + name;
    reveal_strlit("/");
    assert forall|k: int| 0 <= k < path.len() implies #[trigger] path[k] != '\\' by {
        if k < dir.len() {
            assert(path[k] == dir[k]);
        } else if k > dir.len() {
            assert(path[k] == name[k - dir.len() - 1]);
        }
    }
    lemma_no_backslash(path, 0);
    lemma_no_backslash(name, 0);
    assert(path.skip(0) =~= path);
    assert(name.skip(0) =~= name);
    lemma_base_name(dir, name);
    lemma_whole_name(name);
}

proof fn lemma_whole_name(name: Seq<char>)
    requires
        forall|k: int| 0 <= k < name.len() ==> #[trigger] name[k] != '/',
    ensures
        base_name(name) == name,
    decreases name.len(),
{
    if name.len() > 0 {
        let front = name.drop_last();
        assert forall|k: int| 0 <= k < front.len() implies #[trigger] front[k] != '/' by {
            assert(front[k] == name[k]);
        }
        lemma_whole_name(front);
        assert(name[name.len() - 1] != '/');
        assert(front.push(name.last()) =~= name);
    } else {
        assert(base_name(name) =~= name);
    }
}

// ------------------------------------------------------------------------ cells
/// The content of a cell is kept: texts and numbers as they are, truth values by their names, and
/// errors as nothing. A number with the format of a date is a time of day where it is less than a day
/// and no length of time, and otherwise the day that it stands for, or the number where it stands for
/// none.
pub proof fn law_content_is_kept(c: CellContent, day: Option<(int, Seq<char>)>)
    ensures
        match c {
            CellContent::Empty => raw_value(c, day) is Empty,
            CellContent::Error => raw_value(c, day) is Empty,
            CellContent::Text(t) => raw_value(c, day) == Val::Text(t),
            CellContent::Num(n) => raw_value(c, day) == Val::Num(n),
            CellContent::Bool(b) => raw_value(c, day) == Val::Text(
                if b {
                    "true"@
                } else {
                    "false"@
                },
            ),
            CellContent::DurationIso(t) => raw_value(c, day) == Val::Text(t),
            CellContent::DateTimeIso(t) => match parsed_date(t, "%Y-%m-%dT%H:%M:%S"@) {
                Some(d) => raw_value(c, day) == Val::Date(d.0, d.1),
                None => raw_value(c, day) == Val::Text(t),
            },
            CellContent::DateTime(bits, n, duration) => {
                let below_a_day = exponent_field(bits) < 1023;
                &&& below_a_day && !duration ==> raw_value(c, day) == Val::Time(bits)
                &&& !(below_a_day && !duration) && bits < 0x8000_0000_0000_0000 ==> raw_value(c, day)
                    == (match day {
                    Some(d) => Val::Date(d.0, d.1),
                    None => Val::Num(n),
                })
                &&& day is None && !(below_a_day && !duration) ==> raw_value(c, day) == Val::Num(n)
            },
        },
{
}

// --------------------------------------------------------------------- settings
/// What is read under a name is the last text that was noted under it, and nothing where the last that
/// was noted is no text.
pub proof fn law_last_setting_counts(items: Seq<(String, Setting)>, key: Seq<char>)
    ensures
        if exists|i: int| 0 <= i < items.len() && (#[trigger] items[i]).0@ == key {
            exists|i: int|
                {
                    &&& 0 <= i < items.len() && (#[trigger] items[i]).0@ == key
                    &&& forall|j: int| i < j < items.len() ==> (#[trigger] items[j]).0@ != key
                    &&& text_setting(settings(items), key) == (match items[i].1 {
                        Setting::Text(t) => Some(t@),
                        Setting::Other(_) => None,
                    })
                }
        } else {
            text_setting(settings(items), key) is None
        },
    decreases items.len(),
{
    if items.len() > 0 {
        let front = items.drop_last();
        let k = items.len() - 1;
        assert forall|j: int| 0 <= j < k implies #[trigger] items[j] == front[j] by {}
        assert(items[k] == items.last());
        if items.last().0@ != key {
            law_last_setting_counts(front, key);
            if exists|i: int| 0 <= i < front.len() && (#[trigger] front[i]).0@ == key {
                let i = choose|i: int|
                    {
                        &&& 0 <= i < front.len() && (#[trigger] front[i]).0@ == key
                        &&& forall|j: int| i < j < front.len() ==> (#[trigger] front[j]).0@ != key
                        &&& text_setting(settings(front), key) == (match front[i].1 {
                            Setting::Text(t) => Some(t@),
                            Setting::Other(_) => None,
                        })
                    };
                assert(items[i].0@ == key);
                assert forall|j: int| i < j < items.len() implies (#[trigger] items[j]).0@
                    != key by {
                    if j < k {
                        assert(front[j].0@ != key);
                    }
                }
            }
        }
    }
}

/// The note on a change names the member and every field of the request.
pub proof fn law_change_note_names_fields(id: Seq<char>, fields: Fields, i: int)
    requires
        0 <= i < fields.items@.len(),
    ensures
        exists|x: Seq<char>, z: Seq<char>|
            change_note_text(id, fields) == #[trigger] (id + x + fields.items@[i].0@ + z),
{
    let items = fields.items@;
    let n = items.len() as int;
    lemma_key_is_listed(items, n, i);
    let name = items[i].0@;
    let (x, z) = choose|x: Seq<char>, z: Seq<char>| key_list(items, n) == #[trigger] (x + name + z);
    assert(change_note_text(id, fields) =~= id + ("："@ + x) + name + z);
}

proof fn lemma_key_is_listed(items: Seq<(String, Field)>, n: int, i: int)
    requires
        0 <= i < n <= items.len(),
    ensures
        exists|x: Seq<char>, z: Seq<char>|
            key_list(items, n) == #[trigger] (x + items[i].0@ + z),
    decreases n,
{
    let none = Seq::<char>::empty();
    let name = items[i].0@;
    if i == n - 1 {
        let x = if n == 1 {
            none
        } else {
            key_list(items, n - 1) + "、"@
        };
        assert(key_list(items, n) =~= x + name + none);
    } else {
        lemma_key_is_listed(items, n - 1, i);
        let (x, z) = choose|x: Seq<char>, z: Seq<char>|
            key_list(items, n - 1) == #[trigger] (x + name + z);
        assert(key_list(items, n) =~= x + name + (z + "、"@ + items[n - 1].0@));
    }
}

} // verus!
