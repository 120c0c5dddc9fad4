//! The versions of the workbook that are kept: how they are called, which of them go, and in which
//! order they are shown.
use vstd::prelude::*;
use vstd::set_lib::lemma_len_subset;
use crate::text::{
    decimal, decimal_text, is_before, join2, lemma_decimal, lemma_text_before_irreflexive,
    lemma_text_before_total, lemma_text_before_transitive, numeral_value, same_text, text_before,
};
use crate::store::lemma_zeros_in_front;
use crate::MAX_VERSIONS;

verus! {

// ------------------------------------------------------------------------ names
/// The short name of an action.
pub open spec fn slug(action: Seq<char>) -> Seq<char> {
    if action == "新增会员"@ {
        "add_member"@
    } else if action == "编辑会员"@ {
        "edit_member"@
    } else if action == "标记退卡"@ {
        "refund"@
    } else if action == "恢复会员"@ {
        "unrefund"@
    } else if action == "添加上课"@ {
        "add_class"@
    } else if action == "删除上课"@ {
        "del_class"@
    } else if action == "手动备份"@ {
        "manual"@
    } else if action == "恢复前自动备份"@ {
        "pre_restore"@
    } else if action == "更换表格前备份"@ {
        "pre_swap"@
    } else if action == "重试保存"@ {
        "retry"@
    } else {
        "edit"@
    }
}

/// The short name of an action.
pub fn slug_of(action: &str) -> (r: &'static str)
    ensures
        r@ == slug(action@),
{
    if same_text(action, "新增会员") {
        "add_member"
    } else if same_text(action, "编辑会员") {
        "edit_member"
    } else if same_text(action, "标记退卡") {
        "refund"
    } else if same_text(action, "恢复会员") {
        "unrefund"
    } else if same_text(action, "添加上课") {
        "add_class"
    } else if same_text(action, "删除上课") {
        "del_class"
    } else if same_text(action, "手动备份") {
        "manual"
    } else if same_text(action, "恢复前自动备份") {
        "pre_restore"
    } else if same_text(action, "更换表格前备份") {
        "pre_swap"
    } else if same_text(action, "重试保存") {
        "retry"
    } else {
        "edit"
    }
}

/// A number with at least two digits.
pub open spec fn padded(n: nat) -> Seq<char> {
    if n < 10 {
        "0"@ + decimal(n)
    } else {
        decimal(n)
    }
}

/// The name of a version without its ending.
pub open spec fn version_base(ts: Seq<char>, n: nat, short: Seq<char>) -> Seq<char> {
    ts + "_"@ + padded(n) + "_"@ + short
}

/// The name of the file of a version.
pub open spec fn version_file(ts: Seq<char>, n: nat, short: Seq<char>) -> Seq<char> {
    version_base(ts, n, short) + ".xlsx"@
}

/// Whether a name is among those that are there.
pub open spec fn is_taken(taken: Seq<String>, name: Seq<char>) -> bool {
    exists|i: int| 0 <= i < taken.len() && (#[trigger] taken[i])@ == name
}

/// Whether a name is among those that are there.
fn name_taken(taken: &Vec<String>, name: &str) -> (r: bool)
    ensures
        r == is_taken(taken@, name@),
{
    let mut i: usize = 0;
    while i < taken.len()
        invariant
            i <= taken@.len(),
            forall|k: int| 0 <= k < i ==> (#[trigger] taken@[k])@ != name@,
        decreases taken@.len() - i,
    {
        if same_text(taken[i].as_str(), name) {
            return true;
        }
        i = i + 1;
    }
    false
}

/// The number that is written with at least two digits is read back.
proof fn lemma_padded(n: nat)
    ensures
        numeral_value(padded(n)) == Some(n),
{
    lemma_decimal(n);
    reveal_strlit("0");
    if n < 10 {
        lemma_zeros_in_front("0"@, decimal(n));
    }
}

/// Versions of one time and action that have different numbers have different names.
proof fn lemma_files_differ(ts: Seq<char>, a: nat, b: nat, short: Seq<char>)
    requires
        version_file(ts, a, short) == version_file(ts, b, short),
    ensures
        a == b,
{
    lemma_padded(a);
    lemma_padded(b);
    let x = version_file(ts, a, short);
    let y = version_file(ts, b, short);
    let front = ts + "_"@;
    let back = "_"@ + short + ".xlsx"@;
    assert(x =~= front + padded(a) + back);
    assert(y =~= front + padded(b) + back);
    assert(padded(a).len() == padded(b).len());
    let k = front.len() as int;
    assert(x.subrange(k, k + padded(a).len()) =~= padded(a));
    assert(y.subrange(k, k + padded(a).len()) =~= padded(b));
}

/// Of one name more than there are, one is not taken.
proof fn lemma_one_is_free(ts: Seq<char>, short: Seq<char>, taken: Seq<String>)
    ensures
        exists|n: nat|
            1 <= n <= taken.len() + 1 && !is_taken(taken, #[trigger] version_file(ts, n, short)),
{
    let names = Seq::new(taken.len() + 1, |i: int| version_file(ts, (i + 1) as nat, short));
    let there = taken.map_values(|s: String| s@);
    assert forall|i: int, j: int| 0 <= i < names.len() && 0 <= j < names.len() && i != j implies
        names[i] != names[j] by {
        if names[i] == names[j] {
            lemma_files_differ(ts, (i + 1) as nat, (j + 1) as nat, short);
        }
    }
    assert(names.no_duplicates());
    names.unique_seq_to_set();
    there.lemma_cardinality_of_set();
    if forall|n: nat|
        1 <= n <= taken.len() + 1 ==> is_taken(taken, #[trigger] version_file(ts, n, short)) {
        assert forall|x: Seq<char>| names.to_set().contains(x) implies #[trigger] there.to_set().contains(
            x,
        ) by {
            let i = choose|i: int| 0 <= i < names.len() && names[i] == x;
            assert(is_taken(taken, version_file(ts, (i + 1) as nat, short)));
            let k = choose|k: int| 0 <= k < taken.len() && (#[trigger] taken[k])@ == x;
            assert(there[k] == x);
        }
        assert(names.to_set().subset_of(there.to_set()));
        lemma_len_subset(names.to_set(), there.to_set());
    }
}

/// The name of a version, without its ending, from its time and its action: the number in it is the
/// first from one on whose file is not there.
pub fn version_name(ts: &str, action: &str, taken: &Vec<String>) -> (r: String)
    requires
        taken@.len() < u64::MAX,
    ensures
        exists|n: nat|
            {
                &&& 1 <= n
                &&& r@ == #[trigger] version_base(ts@, n, slug(action@))
                &&& !is_taken(taken@, version_file(ts@, n, slug(action@)))
                &&& forall|k: nat|
                    1 <= k < n ==> is_taken(
                        taken@,
                        #[trigger] version_file(ts@, k, slug(action@)),
                    )
            },
{
    let short = slug_of(action);
    let mut n: u64 = 1;
    loop
        invariant
            1 <= n <= taken@.len() + 1,
            taken@.len() < u64::MAX,
            short@ == slug(action@),
            forall|k: nat|
                1 <= k < n ==> is_taken(taken@, #[trigger] version_file(ts@, k, slug(action@))),
        decreases taken@.len() + 2 - n,
    {
        let digits = decimal_text(n);
        let mut base = join2(ts, "_");
        if n < 10 {
            base.append("0");
        }
        base.append(digits.as_str());
        base.append("_");
        base.append(short);
        proof {
            assert(base@ =~= version_base(ts@, n as nat, slug(action@)));
        }
        let file = join2(base.as_str(), ".xlsx");
        if !name_taken(taken, file.as_str()) {
            return base;
        }
        proof {
            lemma_one_is_free(ts@, slug(action@), taken@);
        }
        n = n + 1;
    }
}

// ------------------------------------------------------------------- which to go
/// Places in the order of their times with one more put in, behind those of the same time.
pub open spec fn placed_by_time(order: Seq<int>, times: Seq<i128>, i: int) -> Seq<int>
    decreases order.len(),
{
    if order.len() == 0 || times[order.last()] <= times[i] {
        order.push(i)
    } else {
        placed_by_time(order.drop_last(), times, i).push(order.last())
    }
}

/// The places of the first `n` times, the oldest first; those of one time keep their order.
pub open spec fn by_time(times: Seq<i128>, n: int) -> Seq<int>
    decreases n,
{
    if n <= 0 {
        Seq::empty()
    } else {
        placed_by_time(by_time(times, n - 1), times, n - 1)
    }
}

/// Which versions go: as many of the oldest as there are too many.
pub open spec fn surplus(times: Seq<i128>) -> Seq<int> {
    if times.len() <= MAX_VERSIONS {
        Seq::empty()
    } else {
        by_time(times, times.len() as int).take(times.len() - MAX_VERSIONS)
    }
}

/// Places as mathematical integers.
pub open spec fn ints(v: Seq<usize>) -> Seq<int> {
    v.map_values(|i: usize| i as int)
}

/// All places lie below a bound.
pub open spec fn below(order: Seq<int>, n: int) -> bool {
    forall|k: int| 0 <= k < order.len() ==> 0 <= #[trigger] order[k] < n
}

/// The places afterwards are those before and the new one.
proof fn lemma_placed_contains(order: Seq<int>, times: Seq<i128>, i: int, x: int)
    ensures
        placed_by_time(order, times, i).contains(x) == (x == i || order.contains(x)),
    decreases order.len(),
{
    let r = placed_by_time(order, times, i);
    let (p, last) = if order.len() == 0 || times[order.last()] <= times[i] {
        (order, i)
    } else {
        (placed_by_time(order.drop_last(), times, i), order.last())
    };
    assert(r == p.push(last));
    assert(r.contains(x) == (p.contains(x) || x == last)) by {
        assert(r[p.len() as int] == last);
        if p.contains(x) {
            let k = choose|k: int| 0 <= k < p.len() && p[k] == x;
            assert(r[k] == x);
        }
        if r.contains(x) {
            let k = choose|k: int| 0 <= k < r.len() && r[k] == x;
            if k < p.len() {
                assert(p[k] == x);
            }
        }
    }
    if !(order.len() == 0 || times[order.last()] <= times[i]) {
        let t = order.drop_last();
        lemma_placed_contains(t, times, i, x);
        assert(order.contains(x) == (t.contains(x) || x == last)) by {
            assert(order[order.len() - 1] == last);
            if t.contains(x) {
                let k = choose|k: int| 0 <= k < t.len() && t[k] == x;
                assert(order[k] == x);
            }
            if order.contains(x) {
                let k = choose|k: int| 0 <= k < order.len() && order[k] == x;
                if k < t.len() {
                    assert(t[k] == x);
                }
            }
        }
    }
}

proof fn lemma_placed_by_time(order: Seq<int>, times: Seq<i128>, i: int)
    requires
        0 <= i < times.len(),
        below(order, i),
        order.no_duplicates(),
        forall|a: int, b: int|
            0 <= a < b < order.len() ==> times[#[trigger] order[a]] <= times[#[trigger] order[b]],
    ensures
        placed_by_time(order, times, i).len() == order.len() + 1,
        below(placed_by_time(order, times, i), i + 1),
        placed_by_time(order, times, i).no_duplicates(),
        forall|a: int, b: int|
            0 <= a < b < order.len() + 1 ==> times[#[trigger] placed_by_time(
                order,
                times,
                i,
            )[a]] <= times[#[trigger] placed_by_time(order, times, i)[b]],
    decreases order.len(),
{
    let r = placed_by_time(order, times, i);
    if order.len() > 0 && times[order.last()] > times[i] {
        let t = order.drop_last();
        assert forall|k: int| 0 <= k < t.len() implies 0 <= #[trigger] t[k] < i by {
            assert(order[k] == t[k]);
        }
        assert forall|a: int, b: int| 0 <= a < b < t.len() implies times[#[trigger] t[a]]
            <= times[#[trigger] t[b]] by {
            assert(order[a] == t[a] && order[b] == t[b]);
        }
        lemma_placed_by_time(t, times, i);
        let p = placed_by_time(t, times, i);
        let last = order.last();
        assert(order[order.len() - 1] == last);
        assert(!t.contains(last)) by {
            if t.contains(last) {
                let k = choose|k: int| 0 <= k < t.len() && t[k] == last;
                assert(order[k] == last);
            }
        }
        assert forall|k: int| 0 <= k < r.len() implies 0 <= #[trigger] r[k] < i + 1 by {
            if k < p.len() {
                assert(r[k] == p[k]);
            }
        }
        lemma_placed_contains(t, times, i, last);
        assert(r.no_duplicates()) by {
            assert forall|a: int, b: int| 0 <= a < r.len() && 0 <= b < r.len() && a != b implies r[a]
                != r[b] by {
                if a < p.len() {
                    assert(p.contains(p[a]));
                }
                if b < p.len() {
                    assert(p.contains(p[b]));
                }
            }
        }
        assert forall|a: int, b: int| 0 <= a < b < r.len() implies times[#[trigger] r[a]]
            <= times[#[trigger] r[b]] by {
            if b < p.len() {
                assert(r[a] == p[a] && r[b] == p[b]);
            } else {
                assert(r[a] == p[a]);
                assert(p.contains(p[a]));
                lemma_placed_contains(t, times, i, p[a]);
                if p[a] != i {
                    let k = choose|k: int| 0 <= k < t.len() && t[k] == p[a];
                    assert(order[k] == p[a] && order[order.len() - 1] == last);
                }
            }
        }
    } else {
        assert forall|a: int, b: int| 0 <= a < b < r.len() implies times[#[trigger] r[a]]
            <= times[#[trigger] r[b]] by {
            if b < order.len() {
                assert(r[a] == order[a] && r[b] == order[b]);
            } else if order.len() > 0 {
                assert(r[a] == order[a]);
                if a < order.len() - 1 {
                    assert(times[order[a]] <= times[order[order.len() - 1]]);
                }
            }
        }
    }
}

/// The order of times has each place once, and the times ascend.
proof fn lemma_by_time(times: Seq<i128>, n: int)
    requires
        0 <= n <= times.len(),
    ensures
        by_time(times, n).len() == n,
        below(by_time(times, n), n),
        by_time(times, n).no_duplicates(),
        forall|a: int, b: int|
            0 <= a < b < n ==> times[#[trigger] by_time(times, n)[a]] <= times[#[trigger] by_time(
                times,
                n,
            )[b]],
    decreases n,
{
    if n > 0 {
        lemma_by_time(times, n - 1);
        lemma_placed_by_time(by_time(times, n - 1), times, n - 1);
    }
}

/// After the surplus is gone no more versions are left than are to be kept; none that goes is there
/// twice, and none that stays is older than one that goes.
pub proof fn law_surplus(times: Seq<i128>)
    ensures
        times.len() - surplus(times).len() <= MAX_VERSIONS,
        surplus(times).no_duplicates(),
        below(surplus(times), times.len() as int),
        forall|gone: int, kept: int|
            surplus(times).contains(gone) && 0 <= kept < times.len() && !surplus(times).contains(
                kept,
            ) ==> #[trigger] times[gone] <= #[trigger] times[kept],
{
    let n = times.len() as int;
    let all = by_time(times, n);
    let s = surplus(times);
    lemma_by_time(times, n);
    if times.len() > MAX_VERSIONS {
        let k = n - MAX_VERSIONS;
        assert forall|i: int| 0 <= i < s.len() implies 0 <= #[trigger] s[i] < n by {
            assert(s[i] == all[i]);
        }
        assert(s.no_duplicates()) by {
            assert forall|a: int, b: int| 0 <= a < s.len() && 0 <= b < s.len() && a != b implies s[a]
                != s[b] by {
                assert(s[a] == all[a] && s[b] == all[b]);
            }
        }
        assert forall|gone: int, kept: int|
            s.contains(gone) && 0 <= kept < n && !s.contains(kept) implies #[trigger] times[gone]
            <= #[trigger] times[kept] by {
            let a = choose|a: int| 0 <= a < s.len() && s[a] == gone;
            assert(all[a] == gone);
            lemma_all_places(all, n, kept);
            let b = choose|b: int| 0 <= b < all.len() && all[b] == kept;
            if b < k {
                assert(s[b] == kept);
            }
        }
    }
}

/// A sequence of `n` different places below `n` has every place.
proof fn lemma_all_places(order: Seq<int>, n: int, x: int)
    requires
        order.len() == n,
        below(order, n),
        order.no_duplicates(),
        0 <= x < n,
    ensures
        order.contains(x),
{
    if !order.contains(x) {
        let more = order.push(x);
        assert(more.no_duplicates()) by {
            assert forall|a: int, b: int| 0 <= a < more.len() && 0 <= b < more.len() && a
                != b implies more[a] != more[b] by {
                if a < n && b < n {
                    assert(more[a] == order[a] && more[b] == order[b]);
                } else if a < n {
                    assert(order.contains(order[a]));
                } else {
                    assert(order.contains(order[b]));
                }
            }
        }
        more.unique_seq_to_set();
        let all = vstd::set_lib::set_int_range(0, n);
        vstd::set_lib::lemma_int_range(0, n);
        assert forall|y: int| more.to_set().contains(y) implies #[trigger] all.contains(y) by {
            let k = choose|k: int| 0 <= k < more.len() && more[k] == y;
            if k < n {
                assert(order[k] == y);
            }
        }
        assert(more.to_set().subset_of(all));
        lemma_len_subset(more.to_set(), all);
    }
}

/// The places of the versions that go.
pub fn prune(times: &Vec<i128>) -> (r: Vec<usize>)
    ensures
        ints(r@) == surplus(times@),
        times@.len() - r@.len() <= MAX_VERSIONS,
{
    proof {
        law_surplus(times@);
    }
    let mut order: Vec<usize> = Vec::new();
    if times.len() <= MAX_VERSIONS {
        assert(ints(order@) =~= surplus(times@));
        return order;
    }
    let mut i: usize = 0;
    assert(ints(order@) =~= by_time(times@, 0));
    while i < times.len()
        invariant
            i <= times@.len(),
            ints(order@) == by_time(times@, i as int),
            order@.len() == i,
            forall|k: int| 0 <= k < order@.len() ==> #[trigger] order@[k] < times@.len(),
        decreases times@.len() - i,
    {
        let ghost before = order@;
        let ghost s = ints(order@);
        let mut k: usize = order.len();
        assert(s.take(k as int) =~= s);
        assert(placed_by_time(s, times@, i as int) + s.skip(k as int) =~= placed_by_time(
            s,
            times@,
            i as int,
        ));
        while k > 0 && times[order[k - 1]] > times[i]
            invariant
                k <= order@.len(),
                i < times@.len(),
                order@ == before,
                s == ints(order@),
                forall|k: int| 0 <= k < order@.len() ==> #[trigger] order@[k] < times@.len(),
                placed_by_time(s, times@, i as int) == placed_by_time(
                    s.take(k as int),
                    times@,
                    i as int,
                ) + s.skip(k as int),
            decreases k,
        {
            proof {
                let t = s.take(k as int);
                assert(t.drop_last() =~= s.take(k - 1));
                assert(t.last() == order@[k - 1] as int);
                assert(s.skip(k - 1) =~= seq![s[k - 1]] + s.skip(k as int));
                assert(placed_by_time(t.drop_last(), times@, i as int).push(t.last()) + s.skip(
                    k as int,
                ) =~= placed_by_time(s.take(k - 1), times@, i as int) + s.skip(k - 1));
            }
            k = k - 1;
        }
        proof {
            if k > 0 {
                assert(s.take(k as int).last() == order@[k - 1] as int);
            }
            assert(placed_by_time(s.take(k as int), times@, i as int) == s.take(k as int).push(
                i as int,
            ));
        }
        order.insert(k, i);
        proof {
            assert(order@ =~= before.insert(k as int, i));
            assert(ints(order@) =~= s.take(k as int).push(i as int) + s.skip(k as int));
            assert forall|j: int| 0 <= j < order@.len() implies #[trigger] order@[j]
                < times@.len() by {
                if j < k {
                    assert(order@[j] == before[j]);
                } else if j > k {
                    assert(order@[j] == before[j - 1]);
                }
            }
        }
        i = i + 1;
    }
    let ghost all = order@;
    order.truncate(times.len() - MAX_VERSIONS);
    assert(ints(order@) =~= ints(all).take(times@.len() - MAX_VERSIONS));
    order
}

// ------------------------------------------------------------------ how they show
/// Places in the order of their times, the latest first, with one more put in, behind those of the
/// same time.
pub open spec fn placed_latest(order: Seq<int>, keys: Seq<Seq<char>>, i: int) -> Seq<int>
    decreases order.len(),
{
    if order.len() == 0 || !text_before(keys[order.last()], keys[i]) {
        order.push(i)
    } else {
        placed_latest(order.drop_last(), keys, i).push(order.last())
    }
}

/// The places of the first `n` times by their texts, the latest first; those of one time keep their
/// order.
pub open spec fn latest_first(keys: Seq<Seq<char>>, n: int) -> Seq<int>
    decreases n,
{
    if n <= 0 {
        Seq::empty()
    } else {
        placed_latest(latest_first(keys, n - 1), keys, n - 1)
    }
}

/// Texts by their characters.
pub open spec fn texts(v: Seq<String>) -> Seq<Seq<char>> {
    v.map_values(|s: String| s@)
}

/// The places of versions in the order in which they are shown, the latest first.
pub fn list_order(keys: &Vec<String>) -> (r: Vec<usize>)
    ensures
        ints(r@) == latest_first(texts(keys@), keys@.len() as int),
{
    let ghost ks = texts(keys@);
    let mut order: Vec<usize> = Vec::new();
    let mut i: usize = 0;
    assert(ints(order@) =~= latest_first(ks, 0));
    while i < keys.len()
        invariant
            i <= keys@.len(),
            ks == texts(keys@),
            ints(order@) == latest_first(ks, i as int),
            forall|k: int| 0 <= k < order@.len() ==> #[trigger] order@[k] < keys@.len(),
        decreases keys@.len() - i,
    {
        let ghost before = order@;
        let ghost s = ints(order@);
        let mut k: usize = order.len();
        assert(s.take(k as int) =~= s);
        assert(placed_latest(s, ks, i as int) + s.skip(k as int) =~= placed_latest(
            s,
            ks,
            i as int,
        ));
        while k > 0 && is_before(keys[order[k - 1]].as_str(), keys[i].as_str())
            invariant
                k <= order@.len(),
                i < keys@.len(),
                ks == texts(keys@),
                order@ == before,
                s == ints(order@),
                forall|k: int| 0 <= k < order@.len() ==> #[trigger] order@[k] < keys@.len(),
                placed_latest(s, ks, i as int) == placed_latest(s.take(k as int), ks, i as int)
                    + s.skip(k as int),
            decreases k,
        {
            proof {
                let t = s.take(k as int);
                assert(t.drop_last() =~= s.take(k - 1));
                assert(t.last() == order@[k - 1] as int);
                assert(s.skip(k - 1) =~= seq![s[k - 1]] + s.skip(k as int));
                assert(placed_latest(t.drop_last(), ks, i as int).push(t.last()) + s.skip(k as int)
                    =~= placed_latest(s.take(k - 1), ks, i as int) + s.skip(k - 1));
            }
            k = k - 1;
        }
        proof {
            if k > 0 {
                assert(s.take(k as int).last() == order@[k - 1] as int);
            }
            assert(placed_latest(s.take(k as int), ks, i as int) == s.take(k as int).push(i as int));
        }
        order.insert(k, i);
        proof {
            assert(order@ =~= before.insert(k as int, i));
            assert(ints(order@) =~= s.take(k as int).push(i as int) + s.skip(k as int));
            assert forall|j: int| 0 <= j < order@.len() implies #[trigger] order@[j]
                < keys@.len() by {
                if j < k {
                    assert(order@[j] == before[j]);
                } else if j > k {
                    assert(order@[j] == before[j - 1]);
                }
            }
        }
        i = i + 1;
    }
    order
}

/// What is shown first is not older than what is shown later.
pub proof fn law_latest_first(keys: Seq<Seq<char>>, n: int)
    requires
        0 <= n <= keys.len(),
    ensures
        latest_first(keys, n).len() == n,
        below(latest_first(keys, n), n),
        forall|a: int, b: int|
            0 <= a < b < n ==> !text_before(
                keys[#[trigger] latest_first(keys, n)[a]],
                keys[#[trigger] latest_first(keys, n)[b]],
            ),
    decreases n,
{
    if n > 0 {
        law_latest_first(keys, n - 1);
        lemma_placed_latest(latest_first(keys, n - 1), keys, n - 1);
    }
}

proof fn lemma_placed_latest(order: Seq<int>, keys: Seq<Seq<char>>, i: int)
    requires
        0 <= i < keys.len(),
        below(order, i),
        forall|a: int, b: int|
            0 <= a < b < order.len() ==> !text_before(
                keys[#[trigger] order[a]],
                keys[#[trigger] order[b]],
            ),
    ensures
        placed_latest(order, keys, i).len() == order.len() + 1,
        below(placed_latest(order, keys, i), i + 1),
        forall|a: int, b: int|
            0 <= a < b < order.len() + 1 ==> !text_before(
                keys[#[trigger] placed_latest(order, keys, i)[a]],
                keys[#[trigger] placed_latest(order, keys, i)[b]],
            ),
        forall|a: int|
            0 <= a < order.len() + 1 ==> !text_before(
                keys[#[trigger] placed_latest(order, keys, i)[a]],
                keys[i],
            ) || (order.len() > 0 && !text_before(
                keys[placed_latest(order, keys, i)[a]],
                keys[order.last()],
            )),
    decreases order.len(),
{
    let r = placed_latest(order, keys, i);
    if order.len() > 0 && text_before(keys[order.last()], keys[i]) {
        let t = order.drop_last();
        let last = order.last();
        assert(order[order.len() - 1] == last);
        assert forall|k: int| 0 <= k < t.len() implies 0 <= #[trigger] t[k] < i by {
            assert(order[k] == t[k]);
        }
        assert forall|a: int, b: int| 0 <= a < b < t.len() implies !text_before(
            keys[#[trigger] t[a]],
            keys[#[trigger] t[b]],
        ) by {
            assert(order[a] == t[a] && order[b] == t[b]);
        }
        lemma_placed_latest(t, keys, i);
        let p = placed_latest(t, keys, i);
        assert forall|k: int| 0 <= k < r.len() implies 0 <= #[trigger] r[k] < i + 1 by {
            if k < p.len() {
                assert(r[k] == p[k]);
            }
        }
        assert forall|a: int| 0 <= a < p.len() implies !text_before(
            keys[#[trigger] p[a]],
            keys[last],
        ) by {
            if text_before(keys[p[a]], keys[last]) {
                lemma_text_before_transitive(keys[p[a]], keys[last], keys[i]);
                assert(t.len() > 0 && !text_before(keys[p[a]], keys[t.last()]));
                assert(order[t.len() - 1] == t.last());
                assert(!text_before(keys[t.last()], keys[last]));
                lemma_text_before_total(keys[p[a]], keys[t.last()]);
                if keys[p[a]] != keys[t.last()] {
                    lemma_text_before_transitive(keys[t.last()], keys[p[a]], keys[last]);
                }
            }
        }
        assert forall|a: int, b: int| 0 <= a < b < r.len() implies !text_before(
            keys[#[trigger] r[a]],
            keys[#[trigger] r[b]],
        ) by {
            assert(r[a] == p[a]);
            if b < p.len() {
                assert(r[b] == p[b]);
            }
        }
        assert forall|a: int| 0 <= a < r.len() implies !text_before(
            keys[#[trigger] r[a]],
            keys[last],
        ) by {
            if a < p.len() {
                assert(r[a] == p[a]);
            } else {
                lemma_text_before_irreflexive(keys[last]);
            }
        }
    } else {
        assert forall|a: int| 0 <= a < r.len() implies !text_before(keys[#[trigger] r[a]], keys[i])
            || (order.len() > 0 && !text_before(keys[r[a]], keys[order.last()])) by {
            if a == order.len() {
                lemma_text_before_irreflexive(keys[i]);
            } else if a == order.len() - 1 {
                lemma_text_before_irreflexive(keys[order.last()]);
            } else {
                assert(order[order.len() - 1] == order.last());
                assert(r[a] == order[a]);
            }
        }
        assert forall|a: int, b: int| 0 <= a < b < r.len() implies !text_before(
            keys[#[trigger] r[a]],
            keys[#[trigger] r[b]],
        ) by {
            assert(r[a] == order[a]);
            if b < order.len() {
                assert(r[b] == order[b]);
            } else if a < order.len() - 1 {
                assert(order[order.len() - 1] == order.last());
                assert(!text_before(keys[order[a]], keys[order.last()]));
                if text_before(keys[order[a]], keys[i]) {
                    lemma_text_before_total(keys[order[a]], keys[order.last()]);
                    if keys[order[a]] != keys[order.last()] {
                        lemma_text_before_transitive(keys[order.last()], keys[order[a]], keys[i]);
                    }
                }
            }
        }
    }
}

} // verus!
