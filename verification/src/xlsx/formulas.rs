//! What moving a formula to another row does to the references in it.
use vstd::prelude::*;
use crate::text::{decimal, is_digit, lemma_decimal};
use crate::xlsx::surgery::{is_ref_at, renumbered, renumbered_from};

verus! {

/// A letter or a digit, as they stand in names.
pub open spec fn is_word_char(c: char) -> bool {
    '0' <= c <= '9' || 'A' <= c <= 'Z' || 'a' <= c <= 'z'
}

/// One or two capital letters.
pub open spec fn is_column(x: Seq<char>) -> bool {
    (x.len() == 1 || x.len() == 2) && forall|i: int|
        0 <= i < x.len() ==> 'A' <= #[trigger] x[i] && x[i] <= 'Z'
}

/// A text that a relative reference can stand behind: it ends with nothing that the reference would
/// be a part of, and with no sign that makes it absolute.
pub open spec fn may_precede(a: Seq<char>) -> bool {
    a.len() == 0 || !(is_word_char(a.last()) || a.last() == '$' || a.last() == '.')
}

/// A text that a reference can stand in front of: it starts with nothing that would be a part of the
/// reference.
pub open spec fn may_follow(z: Seq<char>) -> bool {
    z.len() == 0 || !(is_word_char(z[0]) || z[0] == '_')
}

/// In front of a reference every text is moved as if it stood alone.
proof fn lemma_front_alone(a: Seq<char>, t: Seq<char>, i: int, from: nat, to: nat)
    requires
        may_precede(a),
        0 <= i <= a.len(),
    ensures
        renumbered_from(a + t, i, decimal(from), decimal(to)) == renumbered_from(
            a,
            i,
            decimal(from),
            decimal(to),
        ) + renumbered_from(a + t, a.len() as int, decimal(from), decimal(to)),
    decreases a.len() - i,
{
    let s = a + t;
    let f = decimal(from);
    let g = decimal(to);
    let rest = renumbered_from(s, a.len() as int, f, g);
    lemma_decimal(from);
    if i == a.len() {
        assert(renumbered_from(a, i, f, g) + rest =~= rest);
    } else {
        lemma_front_ref(a, t, i, 2, f);
        lemma_front_ref(a, t, i, 1, f);
        if is_ref_at(s, i, 2, f) {
            let k = i + 2 + f.len();
            lemma_front_alone(a, t, k as int, from, to);
            assert(s.subrange(i, i + 2) =~= a.subrange(i, i + 2));
            assert(renumbered_from(s, i, f, g) =~= renumbered_from(a, i, f, g) + rest);
        } else if is_ref_at(s, i, 1, f) {
            let k = i + 1 + f.len();
            lemma_front_alone(a, t, k as int, from, to);
            assert(s.subrange(i, i + 1) =~= a.subrange(i, i + 1));
            assert(renumbered_from(s, i, f, g) =~= renumbered_from(a, i, f, g) + rest);
        } else {
            lemma_front_alone(a, t, i + 1, from, to);
            assert(s[i] == a[i]);
            assert(renumbered_from(s, i, f, g) =~= renumbered_from(a, i, f, g) + rest);
        }
    }
}

proof fn lemma_front_ref(a: Seq<char>, t: Seq<char>, i: int, n: int, f: Seq<char>)
    requires
        may_precede(a),
        0 <= i < a.len(),
        n == 1 || n == 2,
        f.len() > 0,
        forall|j: int| 0 <= j < f.len() ==> is_digit(#[trigger] f[j]),
    ensures
        is_ref_at(a + t, i, n, f) == is_ref_at(a, i, n, f),
{
    let s = a + t;
    let k = i + n + f.len();
    let last = a.len() - 1;
    if k < a.len() {
        assert(s.subrange(i + n, k as int) =~= a.subrange(i + n, k as int));
        assert(s[k as int] == a[k as int]);
        if i > 0 {
            assert(s[i - 1] == a[i - 1]);
        }
        if is_ref_at(s, i, n, f) {
            assert forall|j: int| i <= j < i + n implies 'A' <= #[trigger] a[j] && a[j]
                <= 'Z' by {
                assert(s[j] == a[j]);
            }
        }
        if is_ref_at(a, i, n, f) {
            assert forall|j: int| i <= j < i + n implies 'A' <= #[trigger] s[j] && s[j]
                <= 'Z' by {
                assert(s[j] == a[j]);
            }
        }
    } else {
        assert(s[last] == a[last]);
        if is_ref_at(s, i, n, f) {
            if last >= i + n {
                assert(s.subrange(i + n, k as int)[last - i - n] == s[last]);
                assert(is_digit(f[last - i - n]));
            }
            assert(false);
        }
        if is_ref_at(a, i, n, f) {
            assert(a.subrange(i + n, k as int)[last - i - n] == a[last]);
            assert(is_digit(f[last - i - n]));
            assert(false);
        }
    }
}

/// Behind a reference every text is moved as if it stood alone.
proof fn lemma_rest_alone(u: Seq<char>, z: Seq<char>, j: int, from: Seq<char>, to: Seq<char>)
    requires
        may_follow(z),
        0 <= j <= z.len(),
    ensures
        renumbered_from(u + z, u.len() + j, from, to) == renumbered_from(z, j, from, to),
    decreases z.len() - j,
{
    let s = u + z;
    let p = u.len() + j;
    if j < z.len() {
        assert(s[p] == z[j]);
        if j > 0 {
            lemma_rest_ref(u, z, j, 2, from);
            lemma_rest_ref(u, z, j, 1, from);
        } else {
            assert(!is_ref_at(s, p, 2, from) && !is_ref_at(s, p, 1, from));
            assert(!is_ref_at(z, j, 2, from) && !is_ref_at(z, j, 1, from));
        }
        if is_ref_at(z, j, 2, from) {
            lemma_rest_alone(u, z, j + 2 + from.len(), from, to);
            assert(s.subrange(p, p + 2) =~= z.subrange(j, j + 2));
        } else if is_ref_at(z, j, 1, from) {
            lemma_rest_alone(u, z, j + 1 + from.len(), from, to);
            assert(s.subrange(p, p + 1) =~= z.subrange(j, j + 1));
        } else {
            lemma_rest_alone(u, z, j + 1, from, to);
        }
    }
}

proof fn lemma_rest_ref(u: Seq<char>, z: Seq<char>, j: int, n: int, f: Seq<char>)
    requires
        0 < j < z.len(),
        n == 1 || n == 2,
    ensures
        is_ref_at(u + z, u.len() + j, n, f) == is_ref_at(z, j, n, f),
{
    let s = u + z;
    let p = u.len() + j;
    let k = j + n + f.len();
    if k <= z.len() {
        assert(s.subrange(p + n, u.len() + k) =~= z.subrange(j + n, k as int));
        assert(s[p - 1] == z[j - 1]);
        if k < z.len() {
            assert(s[u.len() + k] == z[k as int]);
        }
        assert forall|q: int| j <= q < j + n implies #[trigger] z[q] == s[u.len() + q] by {}
        if is_ref_at(s, p, n, f) {
            assert forall|q: int| j <= q < j + n implies 'A' <= #[trigger] z[q] && z[q]
                <= 'Z' by {
                assert(z[q] == s[u.len() + q]);
            }
        }
        if is_ref_at(z, j, n, f) {
            assert forall|q: int| p <= q < p + n implies 'A' <= #[trigger] s[q] && s[q]
                <= 'Z' by {
                assert(z[q - u.len()] == s[q]);
            }
        }
    }
}

/// A relative reference to the row is moved to the other row, whatever stands around it, and what
/// stands in front of it and behind it is moved as if it stood alone. A reference is one or two
/// capital letters and the number of the row, behind anything but a letter, a digit, `$` or `.`, and
/// in front of anything but a letter, a digit or `_`.
pub proof fn law_reference_moves(a: Seq<char>, x: Seq<char>, z: Seq<char>, from: nat, to: nat)
    requires
        is_column(x),
        may_precede(a),
        may_follow(z),
    ensures
        renumbered(a + x + decimal(from) + z, from, to) == renumbered(a, from, to) + x + decimal(to)
            + renumbered(z, from, to),
{
    let f = decimal(from);
    let g = decimal(to);
    let s = a + x + f + z;
    let t = x + f + z;
    let u = a + x + f;
    let p = a.len() as int;
    let n = x.len() as int;
    let k = p + n + f.len();
    lemma_decimal(from);
    assert(s =~= a + t);
    assert(s =~= u + z);
    lemma_front_alone(a, t, 0, from, to);
    lemma_rest_alone(u, z, 0, f, g);
    assert(s.subrange(p + n, k as int) =~= f);
    assert(s.subrange(p, p + n) =~= x);
    assert forall|j: int| p <= j < p + n implies 'A' <= #[trigger] s[j] && s[j] <= 'Z' by {
        assert(s[j] == x[j - p]);
    }
    if p > 0 {
        assert(s[p - 1] == a.last());
    }
    if k < s.len() {
        assert(s[k as int] == z[0]);
    }
    assert(is_ref_at(s, p, n, f));
    if n == 1 {
        assert(s[p + 1] == f[0]);
        assert(is_digit(f[0]));
        assert(!is_ref_at(s, p, 2, f));
    }
    assert(renumbered_from(s, p, f, g) == x + g + renumbered_from(s, k as int, f, g));
    assert(renumbered(s, from, to) =~= renumbered(a, from, to) + x + g + renumbered(z, from, to));
}

/// Both operands of an operator are moved, whatever the operator is.
pub proof fn law_operands_move(x: Seq<char>, op: char, y: Seq<char>, from: nat, to: nat)
    requires
        is_column(x),
        is_column(y),
        !is_word_char(op) && op != '$' && op != '.' && op != '_',
    ensures
        renumbered(x + decimal(from) + seq![op] + y + decimal(from), from, to) == x + decimal(to)
            + seq![op] + y + decimal(to),
{
    let none = Seq::<char>::empty();
    let z = seq![op] + y + decimal(from);
    law_reference_moves(none, x, z, from, to);
    assert(none + x + decimal(from) + z =~= x + decimal(from) + seq![op] + y + decimal(from));
    law_reference_moves(seq![op], y, none, from, to);
    assert(seq![op] + y + decimal(from) + none =~= z);
    law_nothing_else_moves(none, from, to);
    lemma_decimal(from);
    assert forall|i: int| 0 <= i < 1 implies !#[trigger] refers_at(seq![op], i, from) by {
    }
    law_nothing_else_moves(seq![op], from, to);
    assert(renumbered(x + decimal(from) + seq![op] + y + decimal(from), from, to) =~= x + decimal(to)
        + seq![op] + y + decimal(to));
}

/// Whether at `i` a reference to the row stands.
pub open spec fn refers_at(s: Seq<char>, i: int, row: nat) -> bool {
    exists|n: int|
        {
            &&& 1 <= n <= 2 && 0 <= i && i + n + decimal(row).len() <= s.len()
            &&& is_column(#[trigger] s.subrange(i, i + n))
            &&& s.subrange(i + n, i + n + decimal(row).len()) == decimal(row)
            &&& may_precede(s.take(i))
            &&& may_follow(s.skip(i + n + decimal(row).len()))
        }
}

/// A formula in which no reference to the row stands stays as it is: absolute references, references
/// to other rows, names and numbers are not touched.
pub proof fn law_nothing_else_moves(s: Seq<char>, from: nat, to: nat)
    requires
        forall|i: int| 0 <= i < s.len() ==> !#[trigger] refers_at(s, i, from),
    ensures
        renumbered(s, from, to) == s,
{
    lemma_nothing_moves(s, 0, from, to);
    assert(s.skip(0) =~= s);
}

proof fn lemma_nothing_moves(s: Seq<char>, i: int, from: nat, to: nat)
    requires
        0 <= i <= s.len(),
        forall|j: int| 0 <= j < s.len() ==> !#[trigger] refers_at(s, j, from),
    ensures
        renumbered_from(s, i, decimal(from), decimal(to)) == s.skip(i),
    decreases s.len() - i,
{
    let f = decimal(from);
    let g = decimal(to);
    if i < s.len() {
        if is_ref_at(s, i, 2, f) {
            lemma_refers(s, i, 2, from);
        }
        if is_ref_at(s, i, 1, f) {
            lemma_refers(s, i, 1, from);
        }
        assert(!refers_at(s, i, from));
        lemma_nothing_moves(s, i + 1, from, to);
        assert(seq![s[i]] + s.skip(i + 1) =~= s.skip(i));
    } else {
        assert(renumbered_from(s, i, f, g) =~= s.skip(i));
    }
}

proof fn lemma_refers(s: Seq<char>, i: int, n: int, row: nat)
    requires
        0 <= i < s.len(),
        n == 1 || n == 2,
        is_ref_at(s, i, n, decimal(row)),
    ensures
        refers_at(s, i, row),
{
    let x = s.subrange(i, i + n);
    let k = i + n + decimal(row).len();
    assert forall|j: int| 0 <= j < x.len() implies 'A' <= #[trigger] x[j] && x[j] <= 'Z' by {
        assert(x[j] == s[i + j]);
    }
    assert(is_column(s.subrange(i, i + n)));
    if i > 0 {
        assert(s.take(i).last() == s[i - 1]);
    }
    if k < s.len() {
        assert(s.skip(k as int)[0] == s[k as int]);
    }
}

} // verus!
