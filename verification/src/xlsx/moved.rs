//! Bytes that stand somewhere else again, and tags of a simple form: what is found in them is the
//! same, moved.
use vstd::prelude::*;
use crate::text::{
    find_from, lemma_encode_ascii, lemma_encode_concat, lemma_encode_nonempty, lemma_find_from,
    lemma_lossy_encode,
};
use crate::xlsx::laws::{lemma_gt_plain, lemma_gt_quoted, lemma_no_byte, lemma_unescape_plain};
use crate::xlsx::xmlscan::{
    attr_of, bytes, close_mark, gt_from, inside, is_at, is_blank, lemma_gt_from, lemma_marks,
    lemma_span_of, lemma_tag_from, span_of, tag_between, tag_bounds, tag_from, word_end, Tag,
};

verus! {

/// The bytes of `b` from `i` to `j` stand in `r` too, `d` positions further on.
pub open spec fn moved(b: Seq<u8>, i: int, j: int, r: Seq<u8>, d: int) -> bool {
    &&& 0 <= i <= j <= b.len()
    &&& 0 <= i + d && j + d <= r.len()
    &&& forall|k: int| i <= k < j ==> #[trigger] b[k] == r[k + d]
}

/// A tag that stands `d` positions further on.
pub open spec fn moved_tag(t: Tag, d: int) -> Tag {
    Tag {
        at: t.at + d,
        name: t.name,
        closing: t.closing,
        self_closing: t.self_closing,
        inner: (t.inner.0 + d, t.inner.1 + d),
        after: t.after + d,
    }
}

pub proof fn lemma_gt_moved(b: Seq<u8>, i: int, quote: Option<u8>, g: int, r: Seq<u8>, d: int)
    requires
        gt_from(b, i, quote) == Some(g),
        moved(b, i, g + 1, r, d),
    ensures
        gt_from(r, i + d, quote) == Some(g + d),
    decreases g - i,
{
    lemma_gt_from(b, i, quote);
    assert(b[i] == r[i + d]);
    let next: Option<u8> = match quote {
        Some(q) => if b[i] == q {
            None
        } else {
            quote
        },
        None => if b[i] == 34 || b[i] == 39 {
            Some(b[i])
        } else {
            None
        },
    };
    if !(quote is None && b[i] == 62) {
        lemma_gt_from(b, i + 1, next);
        lemma_gt_moved(b, i + 1, next, g, r, d);
    }
}

pub proof fn lemma_word_moved(b: Seq<u8>, i: int, end: int, r: Seq<u8>, d: int)
    requires
        moved(b, i, end, r, d),
    ensures
        word_end(r, i + d, end + d) == word_end(b, i, end) + d,
        i <= word_end(b, i, end) <= end,
    decreases end - i,
{
    if i < end {
        assert(b[i] == r[i + d]);
        if !is_blank(b[i]) {
            lemma_word_moved(b, i + 1, end, r, d);
        }
    }
}

pub proof fn lemma_sub_moved(b: Seq<u8>, i: int, j: int, r: Seq<u8>, d: int)
    requires
        moved(b, i, j, r, d),
    ensures
        b.subrange(i, j) == r.subrange(i + d, j + d),
{
    assert forall|k: int| 0 <= k < j - i implies b.subrange(i, j)[k] == #[trigger] r.subrange(
        i + d,
        j + d,
    )[k] by {
        assert(b[i + k] == r[i + k + d]);
    }
    assert(b.subrange(i, j) =~= r.subrange(i + d, j + d));
}

pub proof fn lemma_find_moved(b: Seq<u8>, from: int, pat: Seq<u8>, p: int, r: Seq<u8>, d: int)
    requires
        0 <= from,
        find_from(b, from, pat) == Some(p),
        moved(b, from, p + pat.len(), r, d),
    ensures
        find_from(r, from + d, pat) == Some(p + d),
    decreases p - from,
{
    lemma_find_from(b, from, pat);
    lemma_sub_moved(b, from, from + pat.len(), r, d);
    if from < p {
        assert(b.subrange(from, from + pat.len()) != pat);
        lemma_find_moved(b, from + 1, pat, p, r, d);
    }
}

/// An element that is no comment is the same element where its bytes stand again.
pub proof fn lemma_element_moved(b: Seq<u8>, t: Tag, s: (int, int), r: Seq<u8>, d: int)
    requires
        tag_bounds(b, 0, t),
        span_of(b, t) == Some(s),
        b[t.at + 1] != 33,
        moved(b, s.0, s.1, r, d),
    ensures
        tag_from(r, t.at + d) == Some(moved_tag(t, d)),
        span_of(r, moved_tag(t, d)) == Some((s.0 + d, s.1 + d)),
        inside(r, moved_tag(t, d)) == inside(b, t),
{
    lemma_span_of(b, t);
    let g = t.after - 1;
    let lt = t.at;
    lemma_gt_moved(b, lt, None, g, r, d);
    lemma_tag_here_again(r, lt + d, g + d);
    let inner_end = t.inner.1;
    let name_start = if t.closing {
        lt + 2
    } else {
        lt + 1
    };
    assert(b[g - 1] == r[g - 1 + d]);
    assert(b[lt + 1] == r[lt + 1 + d]);
    lemma_word_moved(b, name_start, inner_end, r, d);
    lemma_sub_moved(b, name_start, word_end(b, name_start, inner_end), r, d);
    lemma_sub_moved(b, t.inner.0, t.inner.1, r, d);
    if !t.self_closing {
        lemma_find_from(b, t.after, close_mark(t.name));
        let p = s.1 - close_mark(t.name).len();
        lemma_find_moved(b, t.after, close_mark(t.name), p, r, d);
    }
}

/// The tag at a `<` that starts no comment.
pub proof fn lemma_tag_here_again(r: Seq<u8>, lt: int, g: int)
    requires
        0 <= lt,
        lt + 1 < r.len(),
        r[lt] == 60,
        r[lt + 1] != 33,
        gt_from(r, lt, None) == Some(g),
    ensures
        tag_from(r, lt) == Some(tag_between(r, lt, g)),
{
    lemma_marks();
    assert(r.subrange(lt, lt + 1) =~= seq![60u8]);
    assert(find_from(r, lt, seq![60u8]) == Some(lt));
    reveal_strlit("<!--");
    reveal_strlit("<![CDATA[");
    lemma_encode_ascii("<!--"@);
    lemma_encode_ascii("<![CDATA["@);
    assert(bytes("<!--"@)[1] == 33);
    assert(bytes("<![CDATA["@)[1] == 33);
    if is_at(r, lt, bytes("<!--"@)) {
        assert(r.subrange(lt, lt + 4)[1] == r[lt + 1]);
    }
    if is_at(r, lt, bytes("<![CDATA["@)) {
        assert(r.subrange(lt, lt + 9)[1] == r[lt + 1]);
    }
}

/// Nothing but letters.
pub open spec fn are_letters(n: Seq<u8>) -> bool {
    forall|k: int| 0 <= k < n.len() ==> (65 <= #[trigger] n[k] <= 90 || 97 <= n[k] <= 122)
}

/// A tag with one attribute, with blanks behind it.
pub open spec fn simple_tag(
    name: Seq<u8>,
    key: Seq<u8>,
    value: Seq<u8>,
    tail: Seq<u8>,
    closed: bool,
) -> Seq<u8> {
    seq![60u8] + simple_inside(name, key, value, tail) + (if closed {
        seq![47u8, 62u8]
    } else {
        seq![62u8]
    })
}

/// What stands in such a tag.
pub open spec fn simple_inside(
    name: Seq<u8>,
    key: Seq<u8>,
    value: Seq<u8>,
    tail: Seq<u8>,
) -> Seq<u8> {
    name + seq![32u8] + key + seq![61u8, 34u8] + value + seq![34u8] + tail
}

/// Blanks and nothing else.
pub open spec fn are_blanks(x: Seq<u8>) -> bool {
    forall|k: int| 0 <= k < x.len() ==> is_blank(#[trigger] x[k])
}

/// A text that is read from an attribute as it is written.
pub open spec fn is_value(v: Seq<char>) -> bool {
    forall|j: int| 0 <= j < v.len() ==> #[trigger] v[j] != '"' && v[j] != '<' && v[j] != '&'
}

pub proof fn lemma_word_here(r: Seq<u8>, i: int, j: int, end: int)
    requires
        i <= j < end,
        is_blank(r[j]),
        forall|k: int| i <= k < j ==> !is_blank(#[trigger] r[k]),
    ensures
        word_end(r, i, end) == j,
    decreases j - i,
{
    if i < j {
        assert(!is_blank(r[i]));
        lemma_word_here(r, i + 1, j, end);
    }
}

/// The attribute of a simple tag.
#[verifier::spinoff_prover]
#[verifier::rlimit(60)]
pub proof fn lemma_simple_attr(name: Seq<u8>, key: Seq<char>, value: Seq<char>, tail: Seq<u8>)
    requires
        are_letters(name),
        are_letters(bytes(key)),
        is_value(value),
    ensures
        attr_of(simple_inside(name, bytes(key), bytes(value), tail), key) == Some(value),
{
    let k = bytes(key);
    let v = bytes(value);
    let x = simple_inside(name, k, v, tail);
    let needle = bytes(key + "="@);
    reveal_strlit("=");
    lemma_encode_concat(key, "="@);
    lemma_encode_ascii("="@);
    assert(bytes("="@) =~= seq![61u8]);
    let at = name.len() as int + 1;
    let n = needle.len() as int;
    assert(needle == k + seq![61u8]);
    assert(x.subrange(at as int, at + n) =~= needle);
    assert forall|q: int| 0 <= q < at implies !#[trigger] is_at(x, q, needle) by {
        if is_at(x, q, needle) {
            let w = x.subrange(q, q + n);
            assert(w[n - 1] == needle[n - 1]);
            let j = q + n - 1;
            assert(x[j] == 61);
            if j < name.len() {
                assert(x[j] == name[j]);
            } else if j > name.len() {
                assert(x[j] == k[j - name.len() - 1]);
            }
        }
    }
    lemma_first_place(x, 0, at as int, needle);
    let q = at + n;
    assert(x[at - 1] == 32);
    assert(x[q as int] == 34);
    lemma_no_byte(value, 34);
    let quote = seq![34u8];
    let stop = q + 1 + v.len();
    assert(x.subrange(stop as int, stop + 1) =~= quote);
    assert forall|j: int| q + 1 <= j < stop implies !#[trigger] is_at(x, j, quote) by {
        if is_at(x, j, quote) {
            assert(x.subrange(j, j + 1)[0] == x[j]);
            assert(x[j] == v[j - q - 1]);
        }
    }
    lemma_first_place(x, q + 1, stop as int, quote);
    assert(x.subrange(q + 1, stop as int) =~= v);
    lemma_lossy_encode(value);
    lemma_unescape_plain(value);
}

/// A simple tag is found where it stands.
#[verifier::spinoff_prover]
#[verifier::rlimit(60)]
pub proof fn lemma_simple_tag(
    name: Seq<char>,
    key: Seq<char>,
    value: Seq<char>,
    tail: Seq<u8>,
    closed: bool,
    r: Seq<u8>,
    p: int,
)
    requires
        name.len() > 0,
        are_letters(bytes(name)),
        are_letters(bytes(key)),
        is_value(value),
        are_blanks(tail),
        0 <= p,
        ({
            let w = simple_tag(bytes(name), bytes(key), bytes(value), tail, closed);
            p + w.len() <= r.len() && r.subrange(p, p + w.len()) == w
        }),
    ensures
        ({
            let x = simple_inside(bytes(name), bytes(key), bytes(value), tail);
            let w = simple_tag(bytes(name), bytes(key), bytes(value), tail, closed);
            tag_from(r, p) matches Some(t) && {
                &&& t.at == p && t.name == name && !t.closing && t.self_closing == closed
                &&& t.inner == (p + 1, p + 1 + x.len() as int)
                &&& t.after == p + w.len()
                &&& inside(r, t) == x
                &&& attr_of(inside(r, t), key) == Some(value)
                &&& no_lt(x) && x.len() > 0 && x.last() != 47
                &&& x[0] == bytes(name)[0]
            }
        }),
{
    let n = bytes(name);
    let k = bytes(key);
    let v = bytes(value);
    let x = simple_inside(n, k, v, tail);
    let w = simple_tag(n, k, v, tail, closed);
    let u = r.subrange(p, p + w.len());
    lemma_encode_nonempty(name);
    lemma_no_byte(value, 34);
    lemma_no_byte(value, 60);
    assert forall|j: int| 0 <= j < w.len() implies #[trigger] w[j] == r[p + j] by {
        assert(u[j] == r[p + j]);
    }
    let a = p + 1 + n.len() + 1 + k.len() + 1;
    let g = p + w.len() - 1;
    let end = p + 1 + x.len();
    assert forall|j: int| 0 <= j < x.len() implies #[trigger] x[j] == r[p + 1 + j] by {
        assert(w[1 + j] == x[j]);
    }
    assert(w[0] == 60);
    assert(r[p] == 60);
    assert forall|j: int| p <= j < a implies #[trigger] r[j] != 34 && r[j] != 39 && r[j]
        != 62 by {
        if j > p {
            let m = j - p - 1;
            assert(x[m] == r[j]);
            if m < n.len() {
                assert(x[m] == n[m]);
            } else if n.len() < m <= n.len() + k.len() {
                assert(x[m] == k[m - n.len() - 1]);
            }
        }
    }
    lemma_gt_plain(r, p, a as int);
    assert(x[n.len() as int + 1 + k.len() + 1] == 34);
    assert(r[a as int] == 34);
    assert(gt_from(r, a as int, None) == gt_from(r, a + 1, Some(34u8)));
    let z = a + 1 + v.len();
    let base = n.len() as int + k.len() + 3;
    assert forall|j: int| a + 1 <= j < z implies #[trigger] r[j] != 34 by {
        let m = j - p - 1;
        assert(x[m] == r[j]);
        assert(x[m] == v[m - base]);
    }
    assert(x[(base + v.len()) as int] == 34);
    assert(r[z as int] == 34);
    lemma_gt_quoted(r, a + 1, z as int);
    assert forall|j: int| z + 1 <= j < g implies #[trigger] r[j] != 34 && r[j] != 39 && r[j] != 62
        && (j < end ==> is_blank(r[j])) by {
        let m = j - p - 1;
        if m < x.len() {
            assert(x[m] == r[j]);
            assert(x[m] == tail[m - base - v.len() - 1]);
        } else {
            assert(w[j - p] == 47);
        }
    }
    lemma_gt_plain(r, z + 1, g as int);
    assert(w[w.len() - 1] == 62);
    assert(r[g as int] == 62);
    assert(gt_from(r, p, None) == Some(g as int));
    assert(x[0] == n[0]);
    assert(r[p + 1] == n[0]);
    lemma_tag_here_again(r, p, g as int);
    if closed {
        assert(w[w.len() - 2] == 47);
        assert(r[g - 1] == 47);
    } else {
        if tail.len() > 0 {
            assert(x[x.len() - 1] == tail[tail.len() - 1]);
        } else {
            assert(x[x.len() - 1] == 34);
        }
        assert(r[g - 1] == x[x.len() - 1]);
    }
    assert(x[n.len() as int] == 32);
    assert(r[p + 1 + n.len()] == 32);
    assert forall|j: int| p + 1 <= j < p + 1 + n.len() implies !is_blank(#[trigger] r[j]) by {
        let m = j - p - 1;
        assert(x[m] == r[j]);
        assert(x[m] == n[m]);
    }
    lemma_word_here(r, p + 1, p + 1 + n.len(), end as int);
    assert(r.subrange(p + 1, p + 1 + n.len()) =~= n) by {
        assert forall|j: int| 0 <= j < n.len() implies #[trigger] r.subrange(
            p + 1,
            p + 1 + n.len(),
        )[j] == n[j] by {
            assert(x[j] == r[p + 1 + j]);
            assert(x[j] == n[j]);
        }
    }
    lemma_lossy_encode(name);
    assert(r.subrange(p + 1, end as int) =~= x) by {
        assert forall|j: int| 0 <= j < x.len() implies #[trigger] r.subrange(
            p + 1,
            end as int,
        )[j] == x[j] by {
            assert(x[j] == r[p + 1 + j]);
        }
    }
    lemma_simple_attr(n, key, value, tail);
    assert forall|j: int| 0 <= j < x.len() implies #[trigger] x[j] != 60 by {
        if j < n.len() {
            assert(x[j] == n[j]);
        } else if n.len() < j <= n.len() + k.len() {
            assert(x[j] == k[j - n.len() - 1]);
        } else if base <= j < base + v.len() {
            assert(x[j] == v[j - base]);
        } else if j > base + v.len() {
            assert(x[j] == tail[j - base - v.len() - 1]);
        }
    }
    if tail.len() > 0 {
        assert(x.last() == tail[tail.len() - 1]);
    } else {
        assert(x.last() == 34);
    }
}

/// Bytes that hold no tag.
pub open spec fn no_lt(x: Seq<u8>) -> bool {
    forall|k: int| 0 <= k < x.len() ==> #[trigger] x[k] != 60
}

/// A part of bytes that stand in others stands there too.
pub proof fn lemma_middle(r: Seq<u8>, p: int, w: Seq<u8>, x: Seq<u8>, y: Seq<u8>, z: Seq<u8>)
    requires
        0 <= p,
        p + w.len() <= r.len(),
        r.subrange(p, p + w.len()) == w,
        w == x + y + z,
    ensures
        r.subrange(p + x.len(), p + x.len() + y.len()) == y,
{
    let v = r.subrange(p, p + w.len());
    assert forall|k: int| 0 <= k < y.len() implies #[trigger] r.subrange(
        p + x.len(),
        p + x.len() + y.len(),
    )[k] == y[k] by {
        assert(v[x.len() + k] == r[p + x.len() + k]);
        assert(w[x.len() + k] == y[k]);
    }
    assert(r.subrange(p + x.len(), p + x.len() + y.len()) =~= y);
}

/// A tag whose slash is left out ends where the slash stood.
#[verifier::spinoff_prover]
#[verifier::rlimit(60)]
pub proof fn lemma_gt_cut(
    b: Seq<u8>,
    i: int,
    quote: Option<u8>,
    g: int,
    m: int,
    r: Seq<u8>,
    d: int,
)
    requires
        gt_from(b, i, quote) == Some(g),
        quote matches Some(q) ==> q == 34 || q == 39,
        m == g || (m == g - 1 && b[m] == 47),
        i <= m,
        moved(b, i, m, r, d),
        m + d < r.len(),
        r[m + d] == 62,
    ensures
        gt_from(r, i + d, quote) == Some(m + d),
    decreases m - i,
{
    lemma_gt_from(b, i, quote);
    let next: Option<u8> = match quote {
        Some(q) => if b[i] == q {
            None
        } else {
            quote
        },
        None => if b[i] == 34 || b[i] == 39 {
            Some(b[i])
        } else {
            None
        },
    };
    lemma_gt_from(b, i + 1, next);
    if i == m {
        if quote is Some {
            if m == g - 1 {
                assert(next == quote);
                assert(gt_from(b, i + 1, next) == Some(g));
                lemma_gt_from(b, i + 2, None);
                lemma_gt_from(b, i + 2, quote);
            }
        }
    } else {
        assert(b[i] == r[i + d]);
        lemma_gt_cut(b, i + 1, next, g, m, r, d);
    }
}

/// The first place of a pattern that stands nowhere in front of it.
pub proof fn lemma_first_place(r: Seq<u8>, from: int, p: int, pat: Seq<u8>)
    requires
        0 <= from <= p,
        is_at(r, p, pat),
        forall|q: int| from <= q < p ==> !#[trigger] is_at(r, q, pat),
    ensures
        find_from(r, from, pat) == Some(p),
    decreases p - from,
{
    if from < p {
        assert(!is_at(r, from, pat));
        lemma_first_place(r, from + 1, p, pat);
    }
}

/// A tag is found again where the bytes up to its end stand again, `d` positions further on.
#[verifier::spinoff_prover]
#[verifier::rlimit(60)]
pub proof fn lemma_tag_moved(b: Seq<u8>, pos: int, t: Tag, y: Seq<u8>, d: int)
    requires
        0 <= pos,
        tag_from(b, pos) == Some(t),
        moved(b, pos, t.after, y, d),
    ensures
        tag_from(y, pos + d) == Some(moved_tag(t, d)),
        inside(y, moved_tag(t, d)) == inside(b, t),
    decreases b.len() - pos,
{
    lemma_tag_from(b, pos);
    lemma_marks();
    lemma_find_from(b, pos, seq![60u8]);
    let lt = find_from(b, pos, seq![60u8])->0;
    lemma_find_from(b, lt + 4, bytes("-->"@));
    lemma_find_from(b, lt + 9, bytes("]]>"@));
    lemma_sub_moved(b, t.inner.0, t.inner.1, y, d);
    if is_at(b, lt, bytes("<!--"@)) {
        let p = find_from(b, lt + 4, bytes("-->"@))->0;
        lemma_tag_from(b, p + 3);
        lemma_find_moved(b, pos, seq![60u8], lt, y, d);
        lemma_sub_moved(b, lt, lt + 4, y, d);
        lemma_find_moved(b, lt + 4, bytes("-->"@), p, y, d);
        lemma_tag_moved(b, p + 3, t, y, d);
    } else if is_at(b, lt, bytes("<![CDATA["@)) {
        let p = find_from(b, lt + 9, bytes("]]>"@))->0;
        lemma_tag_from(b, p + 3);
        lemma_find_moved(b, pos, seq![60u8], lt, y, d);
        lemma_sub_moved(b, lt, lt + 9, y, d);
        lemma_find_moved(b, lt + 9, bytes("]]>"@), p, y, d);
        assert(!is_at(y, lt + d, bytes("<!--"@))) by {
            assert(b.subrange(lt, lt + 9) == y.subrange(lt + d, lt + d + 9));
            if is_at(y, lt + d, bytes("<!--"@)) {
                assert(y.subrange(lt + d, lt + d + 4) =~= y.subrange(lt + d, lt + d + 9).take(4));
                assert(b.subrange(lt, lt + 4) =~= b.subrange(lt, lt + 9).take(4));
            }
        }
        lemma_tag_moved(b, p + 3, t, y, d);
    } else {
        lemma_find_moved(b, pos, seq![60u8], lt, y, d);
        lemma_gt_moved(b, lt, None, t.after - 1, y, d);
        lemma_mark_bytes();
        lemma_no_mark_here(b, lt, t.after, y, d, bytes("<!--"@));
        lemma_no_mark_here(b, lt, t.after, y, d, bytes("<![CDATA["@));
        let name_start = if t.closing {
            lt + 2
        } else {
            lt + 1
        };
        let g = t.after - 1;
        assert(b[g - 1] == y[g - 1 + d]);
        if lt + 1 < t.inner.1 {
            assert(b[lt + 1] == y[lt + 1 + d]);
        }
        lemma_word_moved(b, name_start, t.inner.1, y, d);
        lemma_sub_moved(b, name_start, word_end(b, name_start, t.inner.1), y, d);
    }
}

/// A tag is the same where the bytes up to its end are.
pub proof fn lemma_tag_same(b: Seq<u8>, pos: int, t: Tag, y: Seq<u8>)
    requires
        0 <= pos,
        tag_from(b, pos) == Some(t),
        moved(b, 0, t.after, y, 0),
    ensures
        tag_from(y, pos) == Some(t),
        inside(y, t) == inside(b, t),
{
    lemma_tag_from(b, pos);
    lemma_tag_moved(b, pos, t, y, 0);
}

/// The search for a tag comes to its place where the bytes up to there are the same.
pub proof fn lemma_tag_reached(b: Seq<u8>, pos: int, t: Tag, y: Seq<u8>)
    requires
        0 <= pos,
        tag_from(b, pos) == Some(t),
        moved(b, 0, t.at + 2, y, 0),
        b[t.at + 1] != 33,
    ensures
        tag_from(y, pos) == tag_from(y, t.at),
    decreases b.len() - pos,
{
    lemma_tag_from(b, pos);
    lemma_marks();
    lemma_find_from(b, pos, seq![60u8]);
    let lt = find_from(b, pos, seq![60u8])->0;
    lemma_find_from(b, lt + 4, bytes("-->"@));
    lemma_find_from(b, lt + 9, bytes("]]>"@));
    if is_at(b, lt, bytes("<!--"@)) {
        let p = find_from(b, lt + 4, bytes("-->"@))->0;
        lemma_tag_from(b, p + 3);
        lemma_find_moved(b, pos, seq![60u8], lt, y, 0);
        lemma_sub_moved(b, lt, lt + 4, y, 0);
        lemma_find_moved(b, lt + 4, bytes("-->"@), p, y, 0);
        lemma_tag_reached(b, p + 3, t, y);
    } else if is_at(b, lt, bytes("<![CDATA["@)) {
        let p = find_from(b, lt + 9, bytes("]]>"@))->0;
        lemma_tag_from(b, p + 3);
        lemma_find_moved(b, pos, seq![60u8], lt, y, 0);
        lemma_sub_moved(b, lt, lt + 9, y, 0);
        lemma_find_moved(b, lt + 9, bytes("]]>"@), p, y, 0);
        assert(!is_at(y, lt, bytes("<!--"@))) by {
            assert(b.subrange(lt, lt + 9) == y.subrange(lt, lt + 9));
            if is_at(y, lt, bytes("<!--"@)) {
                assert(y.subrange(lt, lt + 4) =~= y.subrange(lt, lt + 9).take(4));
                assert(b.subrange(lt, lt + 4) =~= b.subrange(lt, lt + 9).take(4));
            }
        }
        lemma_tag_reached(b, p + 3, t, y);
    } else {
        assert(lt == t.at);
        lemma_find_moved(b, pos, seq![60u8], lt, y, 0);
        assert(b[lt] == y[lt + 0]);
        assert(y.subrange(lt, lt + 1) =~= seq![60u8]);
        assert(find_from(y, lt, seq![60u8]) == Some(lt));
    }
}

/// Where a tag holds no other, the next one stands behind it.
pub proof fn lemma_tag_behind(b: Seq<u8>, t: Tag)
    requires
        tag_bounds(b, 0, t),
        no_lt(inside(b, t)),
    ensures
        tag_from(b, t.at + 1) == tag_from(b, t.after),
{
    lemma_marks();
    let x = inside(b, t);
    assert forall|q: int| t.at + 1 <= q < t.after implies !#[trigger] is_at(b, q, seq![60u8]) by {
        if is_at(b, q, seq![60u8]) {
            assert(b.subrange(q, q + 1)[0] == b[q]);
            if q < t.inner.1 {
                assert(x[q - t.inner.0] == b[q]);
            } else if q < t.after - 1 {
                assert(b[q] == 47);
            }
        }
    }
    lemma_found_later(b, t.at + 1, t.after);
}

pub proof fn lemma_found_later(b: Seq<u8>, i: int, j: int)
    requires
        0 <= i <= j <= b.len(),
        forall|q: int| i <= q < j ==> !#[trigger] is_at(b, q, seq![60u8]),
    ensures
        find_from(b, i, seq![60u8]) == find_from(b, j, seq![60u8]),
        tag_from(b, i) == tag_from(b, j),
    decreases j - i,
{
    if i < j {
        assert(!is_at(b, i, seq![60u8]));
        lemma_found_later(b, i + 1, j);
    }
}

/// The marks of comments and of character data hold no angle bracket that ends a tag.
pub proof fn lemma_mark_bytes()
    ensures
        forall|k: int| 0 <= k < bytes("<!--"@).len() ==> #[trigger] bytes("<!--"@)[k] != 62,
        forall|k: int|
            0 <= k < bytes("<![CDATA["@).len() ==> #[trigger] bytes("<![CDATA["@)[k] != 62,
{
    reveal_strlit("<!--");
    reveal_strlit("<![CDATA[");
    lemma_encode_ascii("<!--"@);
    lemma_encode_ascii("<![CDATA["@);
}

pub proof fn lemma_no_mark_here(b: Seq<u8>, lt: int, after: int, y: Seq<u8>, d: int, mark: Seq<u8>)
    requires
        0 <= lt < after,
        moved(b, lt, after, y, d),
        b[after - 1] == 62,
        forall|k: int| 0 <= k < mark.len() ==> #[trigger] mark[k] != 62,
        !is_at(b, lt, mark),
    ensures
        !is_at(y, lt + d, mark),
{
    if is_at(y, lt + d, mark) {
        let v = y.subrange(lt + d, lt + d + mark.len());
        if after < lt + mark.len() {
            assert(v[after - 1 - lt] == y[after - 1 + d]);
            assert(b[after - 1] == y[after - 1 + d]);
            assert(mark[after - 1 - lt] != 62);
        } else {
            lemma_sub_moved(b, lt, lt + mark.len(), y, d);
        }
    }
}

} // verus!
