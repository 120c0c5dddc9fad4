//! What the parts of a workbook have to keep to so that `calamine` reads them without running out of
//! its bounds: places of cells that are in range, a dimension that is in order, shared texts that are
//! there, and formats of numbers with few brackets. Every `<` is looked at as if it were the start of
//! a tag, whatever it stands in, so that no tag of the worksheet is passed over.
use vstd::prelude::*;
use vstd::slice::slice_subrange;
use crate::text::{
    chars_of, digit, find_from, is_digit, join2, lemma_find_from, lossy, lossy_text, numeral_value,
    push_bytes, read_digits, same_bytes,
};
use crate::xlsx::xmlscan::{
    blank, bytes, bytes_at, find_byte, find_gt, gt_from, is_at, is_blank, lemma_gt_from,
    lemma_marks, parse_ref, place, ref_value, word_end,
};
use crate::xlsx::zipio::{
    archive_len, archive_bytes, member, member_count, member_view, open_archive, open_error,
    read_member, Member,
};

verus! {

/// The last row that a worksheet can have.
pub const LAST_ROW: u32 = 1048576;

/// The last column that a worksheet can have.
pub const LAST_COL: u32 = 16384;

// ------------------------------------------------------------------------- tags
/// What stands at a `<` where it starts an element: the end of the name, the end of the attributes,
/// the position behind the tag, and whether the tag closes itself. A tag without an end goes on to
/// the end of the bytes.
pub open spec fn opening(b: Seq<u8>, i: int) -> Option<(int, int, int, bool)> {
    if i < 0 || i + 1 >= b.len() || b[i] != 60 || b[i + 1] == 33 || b[i + 1] == 47 || b[i + 1]
        == 63 {
        None
    } else {
        let (gt, after) = match gt_from(b, i + 1, None) {
            Some(g) => (g, g + 1),
            None => (b.len() as int, b.len() as int),
        };
        let closed = b[gt - 1] == 47;
        let end = if closed {
            gt - 1
        } else {
            gt
        };
        Some((word_end(b, i + 1, end), end, after, closed))
    }
}

/// What stands at a `<` where it starts an element.
struct Opening {
    name_end: usize,
    end: usize,
    after: usize,
    closed: bool,
}

spec fn opening_view(r: Option<Opening>) -> Option<(int, int, int, bool)> {
    match r {
        Some(o) => Some((o.name_end as int, o.end as int, o.after as int, o.closed)),
        None => None,
    }
}

proof fn lemma_word_end(b: Seq<u8>, i: int, end: int)
    requires
        i <= end,
    ensures
        i <= word_end(b, i, end) <= end,
    decreases end - i,
{
    if i < end && !is_blank(b[i]) {
        lemma_word_end(b, i + 1, end);
    }
}

/// An opening lies behind its `<` and inside the bytes.
pub proof fn lemma_opening(b: Seq<u8>, i: int)
    ensures
        opening(b, i) matches Some((n, e, a, _)) ==> 0 <= i && i + 1 <= n <= e <= a <= b.len(),
{
    if let Some((n, e, a, c)) = opening(b, i) {
        lemma_gt_from(b, i + 1, None);
        lemma_word_end(b, i + 1, e);
    }
}

fn read_opening(b: &[u8], i: usize) -> (r: Option<Opening>)
    requires
        i < b@.len(),
    ensures
        opening_view(r) == opening(b@, i as int),
        r matches Some(o) ==> i + 1 <= o.name_end <= o.end <= o.after <= b@.len(),
{
    let total: usize = b.len();
    if i + 1 >= total || b[i] != 60 || b[i + 1] == 33 || b[i + 1] == 47 || b[i + 1] == 63 {
        return None;
    }
    proof {
        lemma_opening(b@, i as int);
    }
    let (gt, after): (usize, usize) = match find_gt(b, i + 1) {
        Some(g) => (g, g + 1),
        None => (total, total),
    };
    let closed = b[gt - 1] == 47;
    let end: usize = if closed {
        gt - 1
    } else {
        gt
    };
    let mut k: usize = i + 1;
    while k < end && !blank(b[k])
        invariant
            i + 1 <= k <= end <= b@.len(),
            word_end(b@, i + 1, end as int) == word_end(b@, k as int, end as int),
        decreases end - k,
    {
        k = k + 1;
    }
    Some(Opening { name_end: k, end, after, closed })
}

/// The first position from `i` on and in front of `end` that holds `c`.
pub open spec fn byte_from(b: Seq<u8>, i: int, end: int, c: u8) -> Option<int>
    decreases end - i,
{
    if i >= end {
        None
    } else if b[i] == c {
        Some(i)
    } else {
        byte_from(b, i + 1, end, c)
    }
}

pub proof fn lemma_byte_from(b: Seq<u8>, i: int, end: int, c: u8)
    ensures
        byte_from(b, i, end, c) matches Some(k) ==> i <= k < end && b[k] == c,
    decreases end - i,
{
    if i < end && b[i] != c {
        lemma_byte_from(b, i + 1, end, c);
    }
}

fn read_byte_from(b: &[u8], i: usize, end: usize, c: u8) -> (r: Option<usize>)
    requires
        end <= b@.len(),
    ensures
        place(r) == byte_from(b@, i as int, end as int, c),
        r matches Some(k) ==> i <= k < end && b@[k as int] == c,
{
    let mut k: usize = i;
    while k < end
        invariant
            i <= k,
            end <= b@.len(),
            byte_from(b@, i as int, end as int, c) == byte_from(b@, k as int, end as int, c),
        decreases end - k,
    {
        if b[k] == c {
            return Some(k);
        }
        k = k + 1;
    }
    None
}

/// Whether the name from `from` to `to` is `name`, behind the prefix that ends with its first colon
/// where it has one.
pub open spec fn is_named_so(b: Seq<u8>, from: int, to: int, name: Seq<u8>) -> bool {
    match byte_from(b, from, to, 58) {
        Some(k) => b.subrange(k + 1, to) == name,
        None => b.subrange(from, to) == name,
    }
}

fn named_so(b: &[u8], from: usize, to: usize, name: &[u8]) -> (r: bool)
    requires
        from <= to <= b@.len(),
    ensures
        r == is_named_so(b@, from as int, to as int, name@),
{
    match read_byte_from(b, from, to, 58) {
        Some(k) => same_bytes(slice_subrange(b, k + 1, to), name),
        None => same_bytes(slice_subrange(b, from, to), name),
    }
}

/// The next `<`.
pub open spec fn lt_from(b: Seq<u8>, i: int) -> Option<int> {
    find_from(b, i, seq![60u8])
}

fn next_lt(b: &[u8], i: usize) -> (r: Option<usize>)
    ensures
        place(r) == lt_from(b@, i as int),
        r matches Some(p) ==> i <= p < b@.len() && b@[p as int] == 60,
{
    proof {
        lemma_marks();
        lemma_find_from(b@, i as int, seq![60u8]);
    }
    match find_byte(b, i, "<".as_bytes()) {
        Some(p) => {
            assert(b@.subrange(p as int, p + 1)[0] == b@[p as int]);
            Some(p)
        },
        None => None,
    }
}

/// The end of what stands from `from` to `to`, without the blanks behind it.
pub open spec fn without_blanks(b: Seq<u8>, from: int, to: int) -> int
    decreases to - from,
{
    if from < to && is_blank(b[to - 1]) {
        without_blanks(b, from, to - 1)
    } else {
        to
    }
}

/// The `>` from `g` on behind two bytes `c`.
pub open spec fn gt_behind(b: Seq<u8>, g: int, c: u8) -> Option<int>
    decreases b.len() - g,
{
    if g >= b.len() {
        None
    } else if b[g] == 62 && b[g - 1] == c && b[g - 2] == c {
        Some(g)
    } else {
        gt_behind(b, g + 1, c)
    }
}

pub proof fn lemma_gt_behind(b: Seq<u8>, g: int, c: u8)
    ensures
        gt_behind(b, g, c) matches Some(k) ==> g <= k < b.len(),
    decreases b.len() - g,
{
    if g < b.len() {
        lemma_gt_behind(b, g + 1, c);
    }
}

fn read_gt_behind(b: &[u8], from: usize, c: u8) -> (r: Option<usize>)
    requires
        2 <= from,
    ensures
        place(r) == gt_behind(b@, from as int, c),
        r matches Some(k) ==> from <= k < b@.len(),
{
    let mut g: usize = from;
    while g < b.len()
        invariant
            2 <= from <= g,
            gt_behind(b@, from as int, c) == gt_behind(b@, g as int, c),
        decreases b@.len() - g,
    {
        if b[g] == 62 && b[g - 1] == c && b[g - 2] == c {
            return Some(g);
        }
        g = g + 1;
    }
    None
}

/// The position behind the tag, the comment or the character data at `p`; nothing where it has no
/// end, or where it is a declaration of another kind.
pub open spec fn tag_end(b: Seq<u8>, p: int) -> Option<int> {
    if p < 0 || p + 1 >= b.len() {
        None
    } else if b[p + 1] == 33 {
        let gt = if p + 2 < b.len() && b[p + 2] == 45 {
            gt_behind(b, p + 6, 45)
        } else if p + 2 < b.len() && b[p + 2] == 91 {
            gt_behind(b, p + 4, 93)
        } else {
            None
        };
        match gt {
            Some(g) => Some(g + 1),
            None => None,
        }
    } else if b[p + 1] == 47 || b[p + 1] == 63 {
        match byte_from(b, p + 2, b.len() as int, 62) {
            Some(g) => Some(g + 1),
            None => None,
        }
    } else {
        match opening(b, p) {
            Some((_, _, after, _)) => Some(after),
            None => None,
        }
    }
}

pub proof fn lemma_tag_end(b: Seq<u8>, p: int)
    ensures
        tag_end(b, p) matches Some(e) ==> 0 <= p && p + 1 <= e <= b.len(),
        tag_end(b, p) matches Some(e) ==> (b[p + 1] == 47 ==> p + 3 <= e),
{
    lemma_opening(b, p);
    lemma_byte_from(b, p + 2, b.len() as int, 62);
    lemma_gt_behind(b, p + 6, 45);
    lemma_gt_behind(b, p + 4, 93);
}

fn read_tag_end(b: &[u8], p: usize) -> (r: Option<usize>)
    requires
        p < b@.len(),
        b@[p as int] == 60,
    ensures
        place(r) == tag_end(b@, p as int),
        r matches Some(e) ==> p < e <= b@.len() && p + 1 < b@.len() && (b@[p + 1] == 47 ==> p + 3
            <= e),
{
    let total: usize = b.len();
    proof {
        lemma_tag_end(b@, p as int);
    }
    if p + 1 >= total {
        return None;
    }
    if b[p + 1] == 33 {
        if total - p <= 2 {
            return None;
        }
        let gt = if b[p + 2] == 45 {
            if total - p <= 6 {
                None
            } else {
                read_gt_behind(b, p + 6, 45)
            }
        } else if b[p + 2] == 91 {
            if total - p <= 4 {
                None
            } else {
                read_gt_behind(b, p + 4, 93)
            }
        } else {
            None
        };
        return match gt {
            Some(g) => Some(g + 1),
            None => None,
        };
    }
    if b[p + 1] == 47 || b[p + 1] == 63 {
        if total - p <= 2 {
            return None;
        }
        return match read_byte_from(b, p + 2, total, 62) {
            Some(g) => Some(g + 1),
            None => None,
        };
    }
    match read_opening(b, p) {
        Some(o) => Some(o.after),
        None => None,
    }
}

/// Whether the tag at `p`, which ends in front of `e`, closes something called `name`, whatever its
/// prefix is.
pub open spec fn closes_so(b: Seq<u8>, p: int, e: int, name: Seq<u8>) -> bool {
    b[p + 1] == 47 && is_named_so(b, p + 2, without_blanks(b, p + 2, e - 1), name)
}

/// Whether the tag at `p`, which ends in front of `e`, closes an element with the name from `from` to
/// `to`.
pub open spec fn closes_name(b: Seq<u8>, p: int, e: int, from: int, to: int) -> bool {
    b[p + 1] == 47 && b.subrange(p + 2, without_blanks(b, p + 2, e - 1)) == b.subrange(from, to)
}

fn read_without_blanks(b: &[u8], from: usize, to: usize) -> (r: usize)
    requires
        from <= to <= b@.len(),
    ensures
        r == without_blanks(b@, from as int, to as int),
        from <= r <= to,
{
    let mut k: usize = to;
    while k > from && blank(b[k - 1])
        invariant
            from <= k <= to <= b@.len(),
            without_blanks(b@, from as int, to as int) == without_blanks(
                b@,
                from as int,
                k as int,
            ),
        decreases k - from,
    {
        k = k - 1;
    }
    k
}

fn is_close_so(b: &[u8], p: usize, e: usize, name: &[u8]) -> (r: bool)
    requires
        p + 1 < b@.len(),
        e <= b@.len(),
        b@[p + 1] == 47 ==> p + 3 <= e,
    ensures
        r == closes_so(b@, p as int, e as int, name@),
{
    let total: usize = b.len();
    assert(p < total);
    if b[p + 1] != 47 {
        return false;
    }
    let k = read_without_blanks(b, p + 2, e - 1);
    named_so(b, p + 2, k, name)
}

fn is_close_name(b: &[u8], p: usize, e: usize, from: usize, to: usize) -> (r: bool)
    requires
        p + 1 < b@.len(),
        e <= b@.len(),
        b@[p + 1] == 47 ==> p + 3 <= e,
        from <= to <= b@.len(),
    ensures
        r == closes_name(b@, p as int, e as int, from as int, to as int),
{
    let total: usize = b.len();
    assert(p < total);
    if b[p + 1] != 47 {
        return false;
    }
    let k = read_without_blanks(b, p + 2, e - 1);
    same_bytes(slice_subrange(b, p + 2, k), slice_subrange(b, from, to))
}

// --------------------------------------------------------------------- elements
/// Whether an element that closes itself stands at `p`, with the name from `from` to `to`.
pub open spec fn is_empty_so(b: Seq<u8>, p: int, from: int, to: int) -> bool {
    opening(b, p) matches Some((n, _, _, true)) && b.subrange(p + 1, n) == b.subrange(from, to)
}

fn is_empty_named(b: &[u8], p: usize, from: usize, to: usize) -> (r: bool)
    requires
        p < b@.len(),
        from <= to <= b@.len(),
    ensures
        r == is_empty_so(b@, p as int, from as int, to as int),
{
    match read_opening(b, p) {
        Some(o) => o.closed && same_bytes(
            slice_subrange(b, p + 1, o.name_end),
            slice_subrange(b, from, to),
        ),
        None => false,
    }
}

/// The text of an element from `i` on, piece by piece up to its closing tag, and the position behind
/// that; `from` and `to` are the bounds of its name. An element of the same name that closes itself is
/// taken for its end too.
pub open spec fn text_until(b: Seq<u8>, i: int, from: int, to: int) -> Option<(Seq<u8>, int)>
    decreases b.len() - i,
{
    match lt_from(b, i) {
        None => None,
        Some(p) => {
            proof {
                if 0 <= i {
                    lemma_find_from(b, i, seq![60u8]);
                }
                lemma_tag_end(b, p);
            }
            match tag_end(b, p) {
                None => None,
                Some(e) => if closes_name(b, p, e, from, to) || is_empty_so(b, p, from, to) {
                    Some((b.subrange(i, p), e))
                } else {
                    match text_until(b, e, from, to) {
                        Some((t, z)) => Some((b.subrange(i, p) + t, z)),
                        None => None,
                    }
                },
            }
        },
    }
}

pub proof fn lemma_text_until(b: Seq<u8>, i: int, from: int, to: int)
    ensures
        text_until(b, i, from, to) matches Some((_, z)) ==> 0 <= i < z <= b.len(),
    decreases b.len() - i,
{
    if let Some(p) = lt_from(b, i) {
        if 0 <= i {
            lemma_find_from(b, i, seq![60u8]);
        }
        lemma_tag_end(b, p);
        if let Some(e) = tag_end(b, p) {
            lemma_text_until(b, e, from, to);
        }
    }
}

spec fn text_view_of(r: Option<(Vec<u8>, usize)>) -> Option<(Seq<u8>, int)> {
    match r {
        Some((v, z)) => Some((v@, z as int)),
        None => None,
    }
}

fn read_text_until(b: &[u8], i: usize, from: usize, to: usize) -> (r: Option<(Vec<u8>, usize)>)
    requires
        from <= to <= b@.len(),
    ensures
        text_view_of(r) == text_until(b@, i as int, from as int, to as int),
        r matches Some((_, z)) ==> i < z <= b@.len(),
{
    proof {
        lemma_text_until(b@, i as int, from as int, to as int);
    }
    let mut out: Vec<u8> = Vec::new();
    let mut k: usize = i;
    let ghost all = text_until(b@, i as int, from as int, to as int);
    proof {
        if let Some((t, z)) = all {
            assert(out@ + t =~= t);
        }
    }
    loop
        invariant
            from <= to <= b@.len(),
            all == text_until(b@, i as int, from as int, to as int),
            all matches Some((_, z)) ==> i < z <= b@.len(),
            match text_until(b@, k as int, from as int, to as int) {
                Some((t, z)) => all == Some((out@ + t, z)),
                None => all is None,
            },
        decreases b@.len() - k,
    {
        let p: usize = match next_lt(b, k) {
            Some(p) => p,
            None => {
                return None;
            },
        };
        let e: usize = match read_tag_end(b, p) {
            Some(e) => e,
            None => {
                return None;
            },
        };
        let ghost before = out@;
        let ghost piece = b@.subrange(k as int, p as int);
        push_bytes(&mut out, slice_subrange(b, k, p));
        if is_close_name(b, p, e, from, to) || is_empty_named(b, p, from, to) {
            return Some((out, e));
        }
        proof {
            if let Some((t, z)) = text_until(b@, e as int, from as int, to as int) {
                assert(before + (piece + t) =~= out@ + t);
            }
        }
        k = e;
    }
}

/// The position behind the closing tag of an element, searched from `i` on, where elements of the
/// same name stand in it, `depth` of which are open.
pub open spec fn past_element(b: Seq<u8>, i: int, from: int, to: int, depth: nat) -> Option<int>
    decreases b.len() - i,
{
    match lt_from(b, i) {
        None => None,
        Some(p) => {
            proof {
                if 0 <= i {
                    lemma_find_from(b, i, seq![60u8]);
                }
                lemma_tag_end(b, p);
            }
            match tag_end(b, p) {
                None => None,
                Some(e) => if closes_name(b, p, e, from, to) {
                    if depth == 0 {
                        Some(e)
                    } else {
                        past_element(b, e, from, to, (depth - 1) as nat)
                    }
                } else {
                    match opening(b, p) {
                        Some((n, _, _, false)) if b.subrange(p + 1, n) == b.subrange(
                            from,
                            to,
                        ) => past_element(b, e, from, to, depth + 1),
                        _ => past_element(b, e, from, to, depth),
                    }
                },
            }
        },
    }
}

pub proof fn lemma_past_element(b: Seq<u8>, i: int, from: int, to: int, depth: nat)
    ensures
        past_element(b, i, from, to, depth) matches Some(z) ==> 0 <= i < z <= b.len(),
    decreases b.len() - i,
{
    if let Some(p) = lt_from(b, i) {
        if 0 <= i {
            lemma_find_from(b, i, seq![60u8]);
        }
        lemma_tag_end(b, p);
        if let Some(e) = tag_end(b, p) {
            if depth > 0 {
                lemma_past_element(b, e, from, to, (depth - 1) as nat);
            }
            lemma_past_element(b, e, from, to, depth + 1);
            lemma_past_element(b, e, from, to, depth);
        }
    }
}

fn read_past_element(b: &[u8], i: usize, from: usize, to: usize) -> (r: Option<usize>)
    requires
        from <= to <= b@.len(),
    ensures
        place(r) == past_element(b@, i as int, from as int, to as int, 0),
        r matches Some(z) ==> i < z <= b@.len(),
{
    proof {
        lemma_past_element(b@, i as int, from as int, to as int, 0);
    }
    let total: usize = b.len();
    if i >= total {
        return None;
    }
    let mut k: usize = i;
    let mut depth: usize = 0;
    let ghost all = past_element(b@, i as int, from as int, to as int, 0);
    loop
        invariant
            total == b@.len(),
            k <= total,
            depth <= k,
            from <= to <= b@.len(),
            all == past_element(b@, i as int, from as int, to as int, 0),
            all matches Some(z) ==> i < z <= b@.len(),
            all == past_element(b@, k as int, from as int, to as int, depth as nat),
        decreases b@.len() - k,
    {
        let p: usize = match next_lt(b, k) {
            Some(p) => p,
            None => {
                return None;
            },
        };
        let e: usize = match read_tag_end(b, p) {
            Some(e) => e,
            None => {
                return None;
            },
        };
        if is_close_name(b, p, e, from, to) {
            if depth == 0 {
                return Some(e);
            }
            depth = depth - 1;
        } else if let Some(o) = read_opening(b, p) {
            if !o.closed && same_bytes(
                slice_subrange(b, p + 1, o.name_end),
                slice_subrange(b, from, to),
            ) {
                depth = depth + 1;
            }
        }
        k = e;
    }
}

/// Whether a string is there from `i` on, and the position behind it; `from` and `to` are the bounds
/// of the name of its element. The text of the first element `t` is the string, or that of all of them
/// where a run of formatted text stands in front of it (`rich`); those in phonetic runs (`aside`) do
/// not count. A string with formatted text ends with a closing tag of which only the part behind the
/// prefix is looked at.
pub open spec fn string_from(
    b: Seq<u8>,
    i: int,
    from: int,
    to: int,
    rich: bool,
    aside: bool,
) -> Option<(bool, int)>
    decreases b.len() - i,
{
    match lt_from(b, i) {
        None => None,
        Some(p) => {
            proof {
                if 0 <= i {
                    lemma_find_from(b, i, seq![60u8]);
                }
                lemma_tag_end(b, p);
            }
            match (tag_end(b, p), opening(b, p)) {
                (None, _) => None,
                (Some(e), None) => if closes_so(b, p, e, b.subrange(from, to)) {
                    Some((rich, e))
                } else {
                    string_from(
                        b,
                        e,
                        from,
                        to,
                        rich,
                        aside && !closes_so(b, p, e, bytes("rPh"@)),
                    )
                },
                (Some(e), Some((n, _, _, closed))) => if is_named_so(b, p + 1, n, seq![114u8]) {
                    if closed && seq![114u8] == b.subrange(from, to) {
                        None
                    } else {
                        string_from(b, e, from, to, true, aside)
                    }
                } else if is_named_so(b, p + 1, n, bytes("rPh"@)) {
                    if closed {
                        string_from(b, e, from, to, rich, false)
                    } else {
                        string_from(b, e, from, to, rich, true)
                    }
                } else if closed && is_named_so(b, p + 1, n, b.subrange(from, to)) {
                    None
                } else if !aside && is_named_so(b, p + 1, n, seq![116u8]) {
                    proof {
                        lemma_text_until(b, e, p + 1, n);
                    }
                    let behind = if closed {
                        Some(e)
                    } else {
                        match text_until(b, e, p + 1, n) {
                            Some((_, z)) => Some(z),
                            None => None,
                        }
                    };
                    match behind {
                        None => None,
                        Some(z) => if rich {
                            string_from(b, z, from, to, rich, aside)
                        } else {
                            match past_element(b, z, from, to, 0) {
                                Some(w) => Some((true, w)),
                                None => None,
                            }
                        },
                    }
                } else {
                    string_from(b, e, from, to, rich, aside)
                },
            }
        },
    }
}

pub proof fn lemma_string_from(b: Seq<u8>, i: int, from: int, to: int, rich: bool, aside: bool)
    ensures
        string_from(b, i, from, to, rich, aside) matches Some((_, z)) ==> 0 <= i < z <= b.len(),
    decreases b.len() - i,
{
    if let Some(p) = lt_from(b, i) {
        if 0 <= i {
            lemma_find_from(b, i, seq![60u8]);
        }
        lemma_tag_end(b, p);
        if let Some(e) = tag_end(b, p) {
            lemma_string_from(b, e, from, to, rich, aside);
            lemma_string_from(b, e, from, to, rich, true);
            lemma_string_from(b, e, from, to, rich, false);
            lemma_string_from(b, e, from, to, true, aside);
            lemma_past_element(b, e, from, to, 0);
            if let Some((n, _, _, _)) = opening(b, p) {
                lemma_text_until(b, e, p + 1, n);
                if let Some((_, z)) = text_until(b, e, p + 1, n) {
                    lemma_string_from(b, z, from, to, rich, aside);
                    lemma_past_element(b, z, from, to, 0);
                }
            }
        }
    }
}

spec fn string_view(r: Option<(bool, usize)>) -> Option<(bool, int)> {
    match r {
        Some((f, z)) => Some((f, z as int)),
        None => None,
    }
}

fn read_string_from(b: &[u8], i: usize, from: usize, to: usize) -> (r: Option<(bool, usize)>)
    requires
        from <= to <= b@.len(),
    ensures
        string_view(r) == string_from(b@, i as int, from as int, to as int, false, false),
        r matches Some((_, z)) ==> i < z <= b@.len(),
{
    let run: [u8; 1] = [114];
    let piece: [u8; 1] = [116];
    assert(run@ =~= seq![114u8]);
    assert(piece@ =~= seq![116u8]);
    proof {
        lemma_string_from(b@, i as int, from as int, to as int, false, false);
    }
    let mut k: usize = i;
    let mut rich = false;
    let mut aside = false;
    let ghost all = string_from(b@, i as int, from as int, to as int, false, false);
    loop
        invariant
            from <= to <= b@.len(),
            run@ == seq![114u8],
            piece@ == seq![116u8],
            all == string_from(b@, i as int, from as int, to as int, false, false),
            all matches Some((_, z)) ==> i < z <= b@.len(),
            all == string_from(b@, k as int, from as int, to as int, rich, aside),
        decreases b@.len() - k,
    {
        let p: usize = match next_lt(b, k) {
            Some(p) => p,
            None => {
                return None;
            },
        };
        let e: usize = match read_tag_end(b, p) {
            Some(e) => e,
            None => {
                return None;
            },
        };
        let name = slice_subrange(b, from, to);
        match read_opening(b, p) {
            None => {
                if is_close_so(b, p, e, name) {
                    return Some((rich, e));
                }
                if is_close_so(b, p, e, "rPh".as_bytes()) {
                    aside = false;
                }
                k = e;
            },
            Some(o) => {
                if named_so(b, p + 1, o.name_end, &run) {
                    if o.closed && same_bytes(&run, name) {
                        return None;
                    }
                    rich = true;
                    k = e;
                } else if named_so(b, p + 1, o.name_end, "rPh".as_bytes()) {
                    aside = !o.closed;
                    k = e;
                } else if o.closed && named_so(b, p + 1, o.name_end, name) {
                    return None;
                } else if !aside && named_so(b, p + 1, o.name_end, &piece) {
                    let z: usize = if o.closed {
                        e
                    } else {
                        match read_text_until(b, e, p + 1, o.name_end) {
                            Some((_, z)) => z,
                            None => {
                                return None;
                            },
                        }
                    };
                    if rich {
                        k = z;
                    } else {
                        return match read_past_element(b, z, from, to) {
                            Some(w) => Some((true, w)),
                            None => None,
                        };
                    }
                } else {
                    k = e;
                }
            },
        }
    }
}

// ------------------------------------------------------------------- attributes
/// The last byte between `from` and `p` that is no blank.
pub open spec fn last_before(b: Seq<u8>, from: int, p: int) -> Option<u8>
    decreases p - from,
{
    if p <= from {
        None
    } else if is_blank(b[p - 1]) {
        last_before(b, from, p - 1)
    } else {
        Some(b[p - 1])
    }
}

fn read_last_before(b: &[u8], from: usize, p: usize) -> (r: Option<u8>)
    requires
        from <= p <= b@.len(),
    ensures
        r == last_before(b@, from as int, p as int),
{
    let mut k: usize = p;
    while k > from
        invariant
            from <= k <= p <= b@.len(),
            last_before(b@, from as int, p as int) == last_before(b@, from as int, k as int),
        decreases k - from,
    {
        if !blank(b[k - 1]) {
            return Some(b[k - 1]);
        }
        k = k - 1;
    }
    None
}

/// The first position from `i` on that holds no blank, or `end`.
pub open spec fn past_blanks(b: Seq<u8>, i: int, end: int) -> int
    decreases end - i,
{
    if i < end && is_blank(b[i]) {
        past_blanks(b, i + 1, end)
    } else {
        i
    }
}

/// The value between quotation marks behind the `=` at `p`.
pub open spec fn value_behind(b: Seq<u8>, p: int, end: int) -> Option<(int, int)> {
    let v = past_blanks(b, p + 1, end);
    if v < end && (b[v] == 34 || b[v] == 39) {
        match byte_from(b, v + 1, end, b[v]) {
            Some(w) => Some((v + 1, w)),
            None => None,
        }
    } else {
        None
    }
}

spec fn span_view(r: Option<(usize, usize)>) -> Option<(int, int)> {
    match r {
        Some((x, y)) => Some((x as int, y as int)),
        None => None,
    }
}

fn read_value_behind(b: &[u8], p: usize, end: usize) -> (r: Option<(usize, usize)>)
    requires
        p < end <= b@.len(),
    ensures
        span_view(r) == value_behind(b@, p as int, end as int),
        r matches Some((x, y)) ==> x <= y <= b@.len(),
{
    let mut v: usize = p + 1;
    while v < end && blank(b[v])
        invariant
            p + 1 <= v <= end <= b@.len(),
            past_blanks(b@, p + 1, end as int) == past_blanks(b@, v as int, end as int),
        decreases end - v,
    {
        v = v + 1;
    }
    if v >= end || !(b[v] == 34 || b[v] == 39) {
        return None;
    }
    let c = b[v];
    let mut w: usize = v + 1;
    while w < end
        invariant
            p + 1 <= v < end,
            v == past_blanks(b@, p + 1, end as int),
            c == b@[v as int],
            c == 34 || c == 39,
            v + 1 <= w <= end <= b@.len(),
            byte_from(b@, v + 1, end as int, c) == byte_from(b@, w as int, end as int, c),
        decreases end - w,
    {
        if b[w] == c {
            return Some((v + 1, w));
        }
        w = w + 1;
    }
    None
}

/// How many digits stand in front of `k`.
pub open spec fn digits_before(t: Seq<u8>, k: int) -> nat
    decreases k,
{
    if 0 < k <= t.len() && 48 <= t[k - 1] <= 57 {
        1 + digits_before(t, k - 1)
    } else {
        0
    }
}

/// How many letters stand in front of `k`.
pub open spec fn letters_before(t: Seq<u8>, k: int) -> nat
    decreases k,
{
    if 0 < k <= t.len() && (65 <= t[k - 1] <= 90 || 97 <= t[k - 1] <= 122) {
        1 + letters_before(t, k - 1)
    } else {
        0
    }
}

/// The digits and the letters that a place ends with: these are what is counted up, from behind.
pub open spec fn place_parts(t: Seq<u8>) -> (nat, nat) {
    let d = digits_before(t, t.len() as int);
    (d, letters_before(t, t.len() - d))
}

fn read_place_parts(t: &[u8]) -> (r: (usize, usize))
    ensures
        (r.0 as nat, r.1 as nat) == place_parts(t@),
        r.0 + r.1 <= t@.len(),
{
    let end: usize = t.len();
    let mut k: usize = end;
    while k > 0 && 48 <= t[k - 1] && t[k - 1] <= 57
        invariant
            k <= end == t@.len(),
            digits_before(t@, end as int) == (end - k) + digits_before(t@, k as int),
        decreases k,
    {
        k = k - 1;
    }
    let mut m: usize = k;
    while m > 0 && (65 <= t[m - 1] && t[m - 1] <= 90 || 97 <= t[m - 1] && t[m - 1] <= 122)
        invariant
            m <= k <= end == t@.len(),
            letters_before(t@, k as int) == (k - m) + letters_before(t@, m as int),
        decreases m,
    {
        m = m - 1;
    }
    (end - k, k - m)
}

/// A place whose digits and letters can be counted up.
pub open spec fn is_countable(t: Seq<u8>) -> bool {
    let (d, l) = place_parts(t);
    d <= 9 && l <= 6
}

/// A place that is one: letters and then digits, and nothing else.
pub open spec fn is_place(t: Seq<u8>) -> bool {
    let (d, l) = place_parts(t);
    d > 0 && l > 0 && d + l == t.len()
}

/// The column and the row of a place that is in range.
pub open spec fn cell_place(t: Seq<u8>) -> Option<(nat, nat)> {
    match ref_value(lossy(t)) {
        Some((col, row)) if col <= LAST_COL && row <= LAST_ROW => Some((col, row)),
        _ => None,
    }
}

spec fn place_view(r: Option<(u32, u32)>) -> Option<(nat, nat)> {
    match r {
        Some((x, y)) => Some((x as nat, y as nat)),
        None => None,
    }
}

fn read_cell_place(t: &[u8]) -> (r: Option<(u32, u32)>)
    ensures
        place_view(r) == cell_place(t@),
{
    let text = lossy_text(t);
    match parse_ref(text.as_str()) {
        Some((col, row)) => {
            if col <= LAST_COL && row <= LAST_ROW {
                Some((col, row))
            } else {
                None
            }
        },
        None => None,
    }
}

/// What names a cell: it can be counted up, and it is in range where it is a place.
pub open spec fn place_fits(t: Seq<u8>) -> bool {
    is_countable(t) && (is_place(t) ==> cell_place(t) is Some)
}

fn is_place_fit(t: &[u8]) -> (r: bool)
    ensures
        r == place_fits(t@),
{
    let (d, l) = read_place_parts(t);
    d <= 9 && l <= 6 && (!(d > 0 && l > 0 && d + l == t.len()) || read_cell_place(t).is_some())
}

/// What numbers a row: it can be counted up, and it is in range where it is a number, with or without
/// letters in front of it.
pub open spec fn row_fits(t: Seq<u8>) -> bool {
    let (d, l) = place_parts(t);
    is_countable(t) && (d > 0 && d + l == t.len() ==> (match numeral_value(
        lossy(t.skip(t.len() - d)),
    ) {
        Some(n) => n <= LAST_ROW,
        None => false,
    }))
}

fn is_row_fit(t: &[u8]) -> (r: bool)
    ensures
        r == row_fits(t@),
{
    let (d, l) = read_place_parts(t);
    if d > 9 || l > 6 {
        return false;
    }
    if d == 0 || d + l != t.len() {
        return true;
    }
    let end: usize = t.len();
    let digits = slice_subrange(t, end - d, end);
    assert(digits@ =~= t@.skip(end - d));
    let text = lossy_text(digits);
    let c = chars_of(text.as_str());
    assert(c@.subrange(0, c@.len() as int) =~= c@);
    read_digits(&c, 0, LAST_ROW as u64).is_some()
}

/// A range of cells: the second corner is taken from the first where both are places, so they have to
/// be in range and in order.
pub open spec fn range_fits(t: Seq<u8>) -> bool {
    match byte_from(t, 0, t.len() as int, 58) {
        None => is_countable(t),
        Some(k) => {
            let a = t.take(k);
            let z = t.skip(k + 1);
            &&& is_countable(a)
            &&& is_place(a) ==> {
                &&& byte_from(z, 0, z.len() as int, 58) is None
                &&& is_countable(z)
                &&& is_place(z) ==> (match (cell_place(a), cell_place(z)) {
                    (Some(x), Some(y)) => x.0 <= y.0 && x.1 <= y.1,
                    _ => false,
                })
            }
        },
    }
}

fn is_range(t: &[u8]) -> (r: bool)
    ensures
        r == range_fits(t@),
{
    let end: usize = t.len();
    let k: usize = match read_byte_from(t, 0, end, 58) {
        Some(k) => k,
        None => {
            let (d, l) = read_place_parts(t);
            return d <= 9 && l <= 6;
        },
    };
    let a = slice_subrange(t, 0, k);
    let z = slice_subrange(t, k + 1, end);
    assert(a@ =~= t@.take(k as int));
    assert(z@ =~= t@.skip(k + 1));
    let (d, l) = read_place_parts(a);
    if d > 9 || l > 6 {
        return false;
    }
    if !(d > 0 && l > 0 && d + l == a.len()) {
        return true;
    }
    if read_byte_from(z, 0, z.len(), 58).is_some() {
        return false;
    }
    let (d, l) = read_place_parts(z);
    if d > 9 || l > 6 {
        return false;
    }
    if !(d > 0 && l > 0 && d + l == z.len()) {
        return true;
    }
    match (read_cell_place(a), read_cell_place(z)) {
        (Some(x), Some(y)) => x.0 <= y.0 && x.1 <= y.1,
        _ => false,
    }
}

/// What an attribute is held to.
#[derive(Clone, Copy, PartialEq, Eq, Structural)]
pub enum Held {
    /// The place of a cell, in an attribute whose name ends with `r`.
    Cell,
    /// The number of a row, in an attribute whose name ends with `r`.
    Row,
    /// A range, in an attribute whose name ends with `f`.
    Range,
}

/// Whether a value is what it has to be.
pub open spec fn value_fits(t: Seq<u8>, held: Held) -> bool {
    match held {
        Held::Cell => place_fits(t),
        Held::Row => row_fits(t),
        Held::Range => range_fits(t),
    }
}

/// The last letter of the attributes that are held to something.
pub open spec fn held_letter(held: Held) -> u8 {
    match held {
        Held::Range => 102,
        _ => 114,
    }
}

/// Whether the value behind the `=` at `p` is what it has to be.
pub open spec fn attribute_fits(b: Seq<u8>, from: int, p: int, end: int, held: Held) -> bool {
    b[p] == 61 && last_before(b, from, p) == Some(held_letter(held)) ==> (match value_behind(
        b,
        p,
        end,
    ) {
        Some((x, y)) => value_fits(b.subrange(x, y), held),
        None => true,
    })
}

/// Whether the attributes from `from` to `end` are what they have to be.
pub open spec fn attributes_fit(b: Seq<u8>, from: int, end: int, held: Held) -> bool {
    forall|p: int| from <= p < end ==> #[trigger] attribute_fits(b, from, p, end, held)
}

fn check_attributes(b: &[u8], from: usize, end: usize, held: Held) -> (r: bool)
    requires
        from <= end <= b@.len(),
    ensures
        r == attributes_fit(b@, from as int, end as int, held),
{
    let letter: u8 = match held {
        Held::Range => 102,
        _ => 114,
    };
    let mut p: usize = from;
    while p < end
        invariant
            from <= p <= end <= b@.len(),
            letter == held_letter(held),
            forall|k: int|
                from <= k < p ==> #[trigger] attribute_fits(
                    b@,
                    from as int,
                    k,
                    end as int,
                    held,
                ),
        decreases end - p,
    {
        let mut good = true;
        if b[p] == 61 {
            if let Some(c) = read_last_before(b, from, p) {
                if c == letter {
                    if let Some((x, y)) = read_value_behind(b, p, end) {
                        let t = slice_subrange(b, x, y);
                        good = match held {
                            Held::Cell => is_place_fit(t),
                            Held::Row => is_row_fit(t),
                            Held::Range => is_range(t),
                        };
                    }
                }
            }
        }
        assert(good == attribute_fits(b@, from as int, p as int, end as int, held));
        if !good {
            return false;
        }
        p = p + 1;
    }
    true
}

/// Whether one of the attributes from `from` to `end` has the value `s`, as it stands in the cells
/// of shared texts.
pub open spec fn has_value_s(b: Seq<u8>, from: int, end: int) -> bool {
    exists|p: int| from <= p && p + 2 < end && #[trigger] is_value_s(b, p)
}

/// Whether the value `s` stands at `p` between quotation marks.
pub open spec fn is_value_s(b: Seq<u8>, p: int) -> bool {
    (b[p] == 34 || b[p] == 39) && b[p + 1] == 115 && b[p + 2] == b[p]
}

fn holds_value_s(b: &[u8], from: usize, end: usize) -> (r: bool)
    requires
        from <= end <= b@.len(),
    ensures
        r == has_value_s(b@, from as int, end as int),
{
    let mut p: usize = from;
    while p < end && end - p > 2
        invariant
            from <= p <= end <= b@.len(),
            forall|k: int| from <= k < p ==> !#[trigger] is_value_s(b@, k),
        decreases end - p,
    {
        let found = (b[p] == 34 || b[p] == 39) && b[p + 1] == 115 && b[p + 2] == b[p];
        assert(found == is_value_s(b@, p as int));
        if found {
            return true;
        }
        p = p + 1;
    }
    false
}

// ------------------------------------------------------------------------ cells
/// The text without a plus sign in front of it.
pub open spec fn without_plus(t: Seq<u8>) -> Seq<u8> {
    if t.len() > 0 && t[0] == 43 {
        t.drop_first()
    } else {
        t
    }
}

/// Text that is what it looks like: printable, blanks included, and without entities.
pub open spec fn is_literal(t: Seq<u8>) -> bool {
    forall|k: int|
        0 <= k < t.len() ==> #[trigger] t[k] != 38 && (32 <= t[k] <= 126 || is_blank(t[k]))
}

/// The number that the value of a cell writes.
pub open spec fn index_value(t: Seq<u8>) -> Option<nat> {
    numeral_value(lossy(without_plus(t)))
}

/// The number that the value of a cell writes, where it is at most `max`.
fn read_index(t: &[u8], max: u64) -> (r: Option<u64>)
    ensures
        match index_value(t@) {
            Some(n) => r == (if n <= max {
                Some(n as u64)
            } else {
                None
            }),
            None => r is None,
        },
{
    let from: usize = if t.len() > 0 && t[0] == 43 {
        1
    } else {
        0
    };
    let rest = slice_subrange(t, from, t.len());
    assert(rest@ =~= without_plus(t@));
    let text = lossy_text(rest);
    let c = chars_of(text.as_str());
    assert(c@.subrange(0, c@.len() as int) =~= c@);
    read_digits(&c, 0, max)
}

fn literal(t: &[u8]) -> (r: bool)
    ensures
        r == is_literal(t@),
{
    let mut i: usize = 0;
    while i < t.len()
        invariant
            i <= t@.len(),
            forall|k: int|
                0 <= k < i ==> #[trigger] t@[k] != 38 && (32 <= t@[k] <= 126 || is_blank(t@[k])),
        decreases t@.len() - i,
    {
        if t[i] == 38 || !(32 <= t[i] && t[i] <= 126 || blank(t[i])) {
            return false;
        }
        i = i + 1;
    }
    true
}

/// Whether all values of a cell from `i` on are numbers of one of `n` shared texts, up to one that is
/// no number, at which the reading ends.
pub open spec fn shared_fits(b: Seq<u8>, i: int, n: nat) -> bool
    decreases b.len() - i,
{
    match lt_from(b, i) {
        None => true,
        Some(p) => {
            proof {
                if 0 <= i {
                    lemma_find_from(b, i, seq![60u8]);
                }
                lemma_tag_end(b, p);
            }
            match (tag_end(b, p), opening(b, p)) {
                (None, _) => p + 1 >= b.len() || b[p + 1] != 33,
                (Some(e), None) => closes_so(b, p, e, seq![99u8]) || shared_fits(b, e, n),
                (Some(e), Some((m, _, _, closed))) => if is_named_so(b, p + 1, m, seq![118u8]) {
                    proof {
                        lemma_text_until(b, e, p + 1, m);
                    }
                    closed || (match text_until(b, e, p + 1, m) {
                        None => false,
                        Some((t, z)) => match index_value(t) {
                            Some(k) => k < n && shared_fits(b, z, n),
                            None => is_literal(t),
                        },
                    })
                } else if is_named_so(b, p + 1, m, seq![102u8]) {
                    proof {
                        lemma_past_element(b, e, p + 1, m, 0);
                    }
                    if closed {
                        shared_fits(b, e, n)
                    } else {
                        match past_element(b, e, p + 1, m, 0) {
                            None => false,
                            Some(z) => shared_fits(b, z, n),
                        }
                    }
                } else if is_named_so(b, p + 1, m, bytes("is"@)) {
                    proof {
                        lemma_string_from(b, e, p + 1, m, false, false);
                    }
                    if closed {
                        byte_from(b, p + 1, m, 58) is None && shared_fits(b, e, n)
                    } else {
                        match string_from(b, e, p + 1, m, false, false) {
                            None => false,
                            Some((_, z)) => shared_fits(b, z, n),
                        }
                    }
                } else {
                    true
                },
            }
        },
    }
}

fn check_shared(b: &[u8], after: usize, n: u64) -> (r: bool)
    ensures
        r == shared_fits(b@, after as int, n as nat),
{
    let cell: [u8; 1] = [99];
    let value: [u8; 1] = [118];
    let formula: [u8; 1] = [102];
    assert(cell@ =~= seq![99u8]);
    assert(value@ =~= seq![118u8]);
    assert(formula@ =~= seq![102u8]);
    let mut i: usize = after;
    loop
        invariant
            cell@ == seq![99u8],
            value@ == seq![118u8],
            formula@ == seq![102u8],
            shared_fits(b@, after as int, n as nat) == shared_fits(b@, i as int, n as nat),
        decreases b@.len() - i,
    {
        let p: usize = match next_lt(b, i) {
            Some(p) => p,
            None => {
                return true;
            },
        };
        let e: usize = match read_tag_end(b, p) {
            Some(e) => e,
            None => {
                return b.len() - p <= 1 || b[p + 1] != 33;
            },
        };
        let o = match read_opening(b, p) {
            Some(o) => o,
            None => {
                if is_close_so(b, p, e, &cell) {
                    return true;
                }
                i = e;
                continue;
            },
        };
        if named_so(b, p + 1, o.name_end, &value) {
            if o.closed {
                return true;
            }
            match read_text_until(b, e, p + 1, o.name_end) {
                None => {
                    return false;
                },
                Some((t, z)) => {
                    let good = if n == 0 {
                        None
                    } else {
                        read_index(t.as_slice(), n - 1)
                    };
                    if good.is_none() {
                        return !is_numeral(t.as_slice()) && literal(t.as_slice());
                    }
                    i = z;
                },
            }
        } else if named_so(b, p + 1, o.name_end, &formula) {
            if o.closed {
                i = e;
            } else {
                match read_past_element(b, e, p + 1, o.name_end) {
                    None => {
                        return false;
                    },
                    Some(z) => {
                        i = z;
                    },
                }
            }
        } else if named_so(b, p + 1, o.name_end, "is".as_bytes()) {
            if o.closed {
                if read_byte_from(b, p + 1, o.name_end, 58).is_some() {
                    return false;
                }
                i = e;
            } else {
                match read_string_from(b, e, p + 1, o.name_end) {
                    None => {
                        return false;
                    },
                    Some((_, z)) => {
                        i = z;
                    },
                }
            }
        } else {
            return true;
        }
    }
}

/// Whether the value of a cell writes a number.
fn is_numeral(t: &[u8]) -> (r: bool)
    ensures
        r == (index_value(t@) is Some),
{
    let from: usize = if t.len() > 0 && t[0] == 43 {
        1
    } else {
        0
    };
    let rest = slice_subrange(t, from, t.len());
    assert(rest@ =~= without_plus(t@));
    let text = lossy_text(rest);
    let c = chars_of(text.as_str());
    let mut i: usize = 0;
    while i < c.len()
        invariant
            i <= c@.len(),
            c@ == lossy(without_plus(t@)),
            forall|k: int| 0 <= k < i ==> is_digit(#[trigger] c@[k]),
        decreases c@.len() - i,
    {
        if !digit(c[i]) {
            assert(!is_digit(c@[i as int]));
            return false;
        }
        i = i + 1;
    }
    c.len() > 0
}

/// Whether the tag at `i`, if it is one, can be read where there are `n` shared texts.
pub open spec fn tag_fits(b: Seq<u8>, i: int, n: nat) -> bool {
    match opening(b, i) {
        None => true,
        Some((name_end, end, after, closed)) => if is_named_so(b, i + 1, name_end, seq![99u8]) {
            attributes_fit(b, name_end, end, Held::Cell) && (!closed && has_value_s(
                b,
                name_end,
                end,
            ) ==> shared_fits(b, after, n))
        } else if is_named_so(b, i + 1, name_end, bytes("row"@)) {
            attributes_fit(b, name_end, end, Held::Row)
        } else if is_named_so(b, i + 1, name_end, bytes("dimension"@)) {
            attributes_fit(b, name_end, end, Held::Range)
        } else {
            true
        },
    }
}

fn check_tag(b: &[u8], i: usize, n: u64) -> (r: bool)
    requires
        i < b@.len(),
    ensures
        r == tag_fits(b@, i as int, n as nat),
{
    let name: [u8; 1] = [99];
    assert(name@ =~= seq![99u8]);
    match read_opening(b, i) {
        None => true,
        Some(o) => {
            if named_so(b, i + 1, o.name_end, &name) {
                check_attributes(b, o.name_end, o.end, Held::Cell) && (o.closed || !holds_value_s(
                    b,
                    o.name_end,
                    o.end,
                ) || check_shared(b, o.after, n))
            } else if named_so(b, i + 1, o.name_end, "row".as_bytes()) {
                check_attributes(b, o.name_end, o.end, Held::Row)
            } else if named_so(b, i + 1, o.name_end, "dimension".as_bytes()) {
                check_attributes(b, o.name_end, o.end, Held::Range)
            } else {
                true
            }
        },
    }
}

/// Whether a worksheet can be read where there are `n` shared texts.
pub open spec fn sheet_fits(b: Seq<u8>, n: nat) -> bool {
    b.len() <= 0xffff_ffff && forall|i: int| 0 <= i < b.len() ==> #[trigger] tag_fits(b, i, n)
}

/// Whether a worksheet can be read where there are `n` shared texts.
pub fn check_sheet(b: &[u8], n: u64) -> (r: bool)
    ensures
        r == sheet_fits(b@, n as nat),
{
    if b.len() > 0xffff_ffff {
        return false;
    }
    let mut i: usize = 0;
    while i < b.len()
        invariant
            i <= b@.len(),
            forall|k: int| 0 <= k < i ==> #[trigger] tag_fits(b@, k, n as nat),
        decreases b@.len() - i,
    {
        if b[i] == 60 && !check_tag(b, i, n) {
            return false;
        }
        assert(tag_fits(b@, i as int, n as nat));
        i = i + 1;
    }
    true
}

// ----------------------------------------------------------------- shared texts
/// How many shared texts are read from `i` on, up to the end of their list or to something that has no
/// end.
pub open spec fn texts_from(b: Seq<u8>, i: int) -> nat
    decreases b.len() - i,
{
    match lt_from(b, i) {
        None => 0,
        Some(p) => {
            proof {
                if 0 <= i {
                    lemma_find_from(b, i, seq![60u8]);
                }
                lemma_tag_end(b, p);
            }
            match (tag_end(b, p), opening(b, p)) {
                (None, _) => 0,
                (Some(e), None) => if closes_so(b, p, e, bytes("sst"@)) {
                    0
                } else {
                    texts_from(b, e)
                },
                (Some(e), Some((n, _, _, closed))) => if is_named_so(b, p + 1, n, bytes("si"@)) {
                    proof {
                        lemma_string_from(b, e, p + 1, n, false, false);
                    }
                    if closed {
                        if byte_from(b, p + 1, n, 58) is None {
                            texts_from(b, e)
                        } else {
                            0
                        }
                    } else {
                        match string_from(b, e, p + 1, n, false, false) {
                            Some((true, z)) => 1 + texts_from(b, z),
                            Some((false, z)) => texts_from(b, z),
                            None => 0,
                        }
                    }
                } else if closed && is_named_so(b, p + 1, n, bytes("sst"@)) {
                    0
                } else {
                    texts_from(b, e)
                },
            }
        },
    }
}

/// Counts the shared texts.
pub fn count_texts(b: &[u8]) -> (r: u64)
    ensures
        r == texts_from(b@, 0),
{
    let total: usize = b.len();
    let mut n: u64 = 0;
    let mut i: usize = 0;
    loop
        invariant
            total == b@.len(),
            i <= total,
            n <= i,
            texts_from(b@, 0) == n + texts_from(b@, i as int),
        decreases b@.len() - i,
    {
        let p: usize = match next_lt(b, i) {
            Some(p) => p,
            None => {
                return n;
            },
        };
        let e: usize = match read_tag_end(b, p) {
            Some(e) => e,
            None => {
                return n;
            },
        };
        match read_opening(b, p) {
            None => {
                if is_close_so(b, p, e, "sst".as_bytes()) {
                    return n;
                }
                i = e;
            },
            Some(o) => {
                if named_so(b, p + 1, o.name_end, "si".as_bytes()) {
                    if o.closed {
                        if read_byte_from(b, p + 1, o.name_end, 58).is_some() {
                            return n;
                        }
                        i = e;
                    } else {
                        match read_string_from(b, e, p + 1, o.name_end) {
                            Some((there, z)) => {
                                if there {
                                    n = n + 1;
                                }
                                i = z;
                            },
                            None => {
                                return n;
                            },
                        }
                    }
                } else if o.closed && named_so(b, p + 1, o.name_end, "sst".as_bytes()) {
                    return n;
                } else {
                    i = e;
                }
            },
        }
    }
}

// ---------------------------------------------------------------------- formats
/// How often `c` occurs from `i` to `end`.
pub open spec fn byte_count(b: Seq<u8>, i: int, end: int, c: u8) -> nat
    decreases end - i,
{
    if i >= end {
        0
    } else {
        byte_count(b, i + 1, end, c) + (if b[i] == c {
            1nat
        } else {
            0
        })
    }
}

/// Whether the tag at `i`, if it is that of the format of a number, has no more brackets than can be
/// counted in a byte.
pub open spec fn format_fits(b: Seq<u8>, i: int) -> bool {
    match opening(b, i) {
        None => true,
        Some((name_end, end, _, _)) => is_named_so(b, i + 1, name_end, bytes("numFmt"@))
            ==> byte_count(b, name_end, end, 91) <= 255,
    }
}

/// Whether the formats of numbers can be read.
pub open spec fn formats_fit(b: Seq<u8>) -> bool {
    forall|i: int| 0 <= i < b.len() ==> #[trigger] format_fits(b, i)
}

/// Whether the formats of numbers can be read.
pub fn check_formats(b: &[u8]) -> (r: bool)
    ensures
        r == formats_fit(b@),
{
    let mut i: usize = 0;
    while i < b.len()
        invariant
            i <= b@.len(),
            forall|k: int| 0 <= k < i ==> #[trigger] format_fits(b@, k),
        decreases b@.len() - i,
    {
        if b[i] == 60 {
            if let Some(o) = read_opening(b, i) {
                if named_so(b, i + 1, o.name_end, "numFmt".as_bytes()) {
                    let mut n: usize = 0;
                    let mut k: usize = o.end;
                    while k > o.name_end
                        invariant
                            o.name_end <= k <= o.end <= b@.len(),
                            n == byte_count(b@, k as int, o.end as int, 91),
                            n <= o.end - k,
                        decreases k - o.name_end,
                    {
                        k = k - 1;
                        if b[k] == 91 {
                            n = n + 1;
                        }
                    }
                    if n > 255 {
                        assert(!format_fits(b@, i as int));
                        return false;
                    }
                }
            }
        }
        assert(format_fits(b@, i as int));
        i = i + 1;
    }
    true
}

// --------------------------------------------------------------------- packages
/// A letter without its case.
pub open spec fn caseless(c: char) -> int {
    if 'A' <= c && c <= 'Z' {
        c as int + 32
    } else {
        c as int
    }
}

/// Whether two names are the same but for the case of their letters.
pub open spec fn same_caseless(a: Seq<char>, b: Seq<char>) -> bool {
    a.len() == b.len() && forall|i: int|
        0 <= i < a.len() ==> caseless(#[trigger] a[i]) == caseless(b[i])
}

/// Whether a name starts with another but for the case of their letters.
pub open spec fn starts_caseless(a: Seq<char>, b: Seq<char>) -> bool {
    b.len() <= a.len() && same_caseless(a.take(b.len() as int), b)
}

fn without_case(c: char) -> (r: u32)
    ensures
        r == caseless(c),
{
    if 'A' <= c && c <= 'Z' {
        c as u32 + 32
    } else {
        c as u32
    }
}

fn is_start_caseless(a: &str, b: &str) -> (r: bool)
    ensures
        r == starts_caseless(a@, b@),
{
    let x = chars_of(a);
    let y = chars_of(b);
    if y.len() > x.len() {
        return false;
    }
    let mut i: usize = 0;
    while i < y.len()
        invariant
            x@ == a@,
            y@ == b@,
            i <= y@.len() <= x@.len(),
            forall|k: int| 0 <= k < i ==> caseless(#[trigger] a@[k]) == caseless(b@[k]),
        decreases y@.len() - i,
    {
        if without_case(x[i]) != without_case(y[i]) {
            proof {
                let t = a@.take(b@.len() as int);
                assert(t[i as int] == a@[i as int]);
            }
            return false;
        }
        i = i + 1;
    }
    proof {
        let t = a@.take(b@.len() as int);
        assert forall|k: int| 0 <= k < t.len() implies caseless(#[trigger] t[k]) == caseless(
            b@[k],
        ) by {
            assert(t[k] == a@[k]);
        }
    }
    true
}

fn is_same_caseless(a: &str, b: &str) -> (r: bool)
    ensures
        r == same_caseless(a@, b@),
{
    proof {
        if a@.len() == b@.len() {
            assert(a@.take(b@.len() as int) =~= a@);
        }
    }
    chars_of(a).len() == chars_of(b).len() && is_start_caseless(a, b)
}

/// Whether a part may be one that a worksheet is read from.
pub open spec fn is_sheet_part(name: Seq<char>) -> bool {
    starts_caseless(name, "xl/worksheets"@) || starts_caseless(name, "xl/chartsheets"@)
        || starts_caseless(name, "xl/dialogsheets"@)
}

/// The first member from `i` on that has a name but for the case of its letters.
pub open spec fn member_named(bytes: Seq<u8>, i: nat, name: Seq<char>) -> Option<nat>
    decreases member_count(bytes) - i,
{
    if i >= member_count(bytes) {
        None
    } else {
        match member(bytes, i) {
            Ok((_, t, _)) if same_caseless(t, name) => Some(i),
            _ => member_named(bytes, i + 1, name),
        }
    }
}

/// The data of a member, where it can be read.
pub open spec fn member_data(bytes: Seq<u8>, i: nat) -> Option<Seq<u8>> {
    match member(bytes, i) {
        Ok((_, _, Ok(d))) => Some(d),
        _ => None,
    }
}

/// How many shared texts a workbook has at least; nothing where they cannot be read.
pub open spec fn texts_in(bytes: Seq<u8>) -> Option<nat> {
    match member_named(bytes, 0, "xl/sharedStrings.xml"@) {
        None => Some(0),
        Some(i) => match member_data(bytes, i) {
            Some(d) => Some(texts_from(d, 0)),
            None => None,
        },
    }
}

/// Whether a member, if a worksheet may be read from it, can be read where there are `n` shared
/// texts.
pub open spec fn member_fits(bytes: Seq<u8>, i: nat, n: nat) -> bool {
    match member(bytes, i) {
        Ok((_, name, d)) => is_sheet_part(name) ==> (match d {
            Ok(data) => sheet_fits(data, n),
            Err(_) => false,
        }),
        Err(_) => true,
    }
}

/// Whether all members that a worksheet may be read from can be read where there are `n` shared
/// texts.
pub open spec fn members_fit(bytes: Seq<u8>, n: nat) -> bool {
    forall|i: nat| i < member_count(bytes) ==> #[trigger] member_fits(bytes, i, n)
}

/// Whether the worksheets of a workbook can be read.
pub open spec fn sheets_fit(bytes: Seq<u8>) -> bool {
    open_error(bytes) is None && (match texts_in(bytes) {
        Some(n) => members_fit(bytes, n),
        None => false,
    })
}

/// Whether the formats of a workbook can be read.
pub open spec fn styles_fit(bytes: Seq<u8>) -> bool {
    open_error(bytes) is None ==> (match member_named(bytes, 0, "xl/styles.xml"@) {
        None => true,
        Some(i) => match member_data(bytes, i) {
            Some(d) => formats_fit(d),
            None => false,
        },
    })
}

/// The number in two bytes.
pub open spec fn word_at(b: Seq<u8>, i: int) -> int {
    b[i] + 256 * b[i + 1]
}

/// The header of a compound document, in which workbooks with a password are kept: its mark, and sizes
/// of its sectors that it can have.
pub open spec fn is_compound(bytes: Seq<u8>) -> bool {
    &&& bytes.len() >= 512
    &&& is_at(bytes, 0, seq![0xd0u8, 0xcf, 0x11, 0xe0, 0xa1, 0xb1, 0x1a, 0xe1])
    &&& word_at(bytes, 30) == 9 || (word_at(bytes, 30) == 12 && bytes.len() >= 4096)
    &&& word_at(bytes, 32) == 6
}

/// The name of what a workbook with a password is kept as.
pub open spec fn package_name() -> Seq<u8> {
    seq![
        69u8,
        0,
        110,
        0,
        99,
        0,
        114,
        0,
        121,
        0,
        112,
        0,
        116,
        0,
        101,
        0,
        100,
        0,
        80,
        0,
        97,
        0,
        99,
        0,
        107,
        0,
        97,
        0,
        103,
        0,
        101,
        0,
    ]
}

/// Why a compound document is no workbook that can be read: it has a password where it holds the name
/// of such a package, and otherwise it is no archive.
pub open spec fn compound_fault(bytes: Seq<u8>) -> Seq<char> {
    if find_from(bytes, 0, package_name()) is Some {
        "Workbook is password protected"@
    } else {
        match open_error(bytes) {
            Some(e) => "Zip error: "@ + e,
            None => "compound document"@,
        }
    }
}

/// Whether bytes can be opened as a workbook.
pub open spec fn book_fits(bytes: Seq<u8>) -> bool {
    !is_compound(bytes) && styles_fit(bytes)
}

/// Whether bytes start like a compound document.
pub fn compound(bytes: &[u8]) -> (r: bool)
    ensures
        r == is_compound(bytes@),
{
    if bytes.len() < 512 {
        return false;
    }
    let mark: [u8; 8] = [0xd0, 0xcf, 0x11, 0xe0, 0xa1, 0xb1, 0x1a, 0xe1];
    assert(mark@ =~= seq![0xd0u8, 0xcf, 0x11, 0xe0, 0xa1, 0xb1, 0x1a, 0xe1]);
    let large = bytes[30] == 12 && bytes[31] == 0 && bytes.len() >= 4096;
    bytes_at(bytes, 0, &mark) && (bytes[30] == 9 && bytes[31] == 0 || large) && bytes[32] == 6
        && bytes[33] == 0
}

/// Why a compound document is no workbook that can be read.
pub fn why_compound(bytes: &[u8]) -> (r: String)
    ensures
        r@ == compound_fault(bytes@),
{
    let name: [u8; 32] = [
        69,
        0,
        110,
        0,
        99,
        0,
        114,
        0,
        121,
        0,
        112,
        0,
        116,
        0,
        101,
        0,
        100,
        0,
        80,
        0,
        97,
        0,
        99,
        0,
        107,
        0,
        97,
        0,
        103,
        0,
        101,
        0,
    ];
    assert(name@ =~= package_name());
    if find_byte(bytes, 0, &name).is_some() {
        return String::from_str("Workbook is password protected");
    }
    match open_archive(bytes) {
        Err(e) => join2("Zip error: ", e.as_str()),
        Ok(_) => String::from_str("compound document"),
    }
}

/// Reads all members of an archive.
fn read_members(bytes: &[u8]) -> (r: Option<Vec<Result<Member, String>>>)
    ensures
        r is None == open_error(bytes@) is Some,
        r matches Some(v) ==> v@.len() == member_count(bytes@) && forall|i: int|
            0 <= i < v@.len() ==> member_view(#[trigger] v@[i]) == member(bytes@, i as nat),
{
    let mut a = match open_archive(bytes) {
        Ok(a) => a,
        Err(_) => {
            return None;
        },
    };
    let count: usize = archive_len(&a);
    let mut out: Vec<Result<Member, String>> = Vec::new();
    let mut i: usize = 0;
    while i < count
        invariant
            i <= count,
            count == member_count(bytes@),
            archive_bytes(a) == bytes@,
            out@.len() == i,
            forall|k: int|
                0 <= k < i ==> member_view(#[trigger] out@[k]) == member(bytes@, k as nat),
        decreases count - i,
    {
        out.push(read_member(&mut a, i));
        i = i + 1;
    }
    Some(out)
}

/// Finds the first member with a name but for the case of its letters.
fn find_member(bytes: Ghost<Seq<u8>>, v: &Vec<Result<Member, String>>, name: &str) -> (r: Option<
    usize,
>)
    requires
        v@.len() == member_count(bytes@),
        forall|i: int|
            0 <= i < v@.len() ==> member_view(#[trigger] v@[i]) == member(bytes@, i as nat),
    ensures
        match member_named(bytes@, 0, name@) {
            Some(i) => r matches Some(k) && k == i && k < v@.len(),
            None => r is None,
        },
{
    let mut i: usize = 0;
    while i < v.len()
        invariant
            i <= v@.len(),
            v@.len() == member_count(bytes@),
            forall|k: int|
                0 <= k < v@.len() ==> member_view(#[trigger] v@[k]) == member(bytes@, k as nat),
            member_named(bytes@, 0, name@) == member_named(bytes@, i as nat, name@),
        decreases v@.len() - i,
    {
        assert(member_view(v@[i as int]) == member(bytes@, i as nat));
        match &v[i] {
            Ok(m) => {
                if is_same_caseless(m.1.as_str(), name) {
                    return Some(i);
                }
            },
            Err(_) => {},
        }
        i = i + 1;
    }
    None
}

/// Whether bytes can be opened as a workbook.
pub fn check_book(bytes: &[u8]) -> (r: bool)
    ensures
        r == book_fits(bytes@),
{
    if compound(bytes) {
        return false;
    }
    let v = match read_members(bytes) {
        Some(v) => v,
        None => {
            return true;
        },
    };
    match find_member(Ghost(bytes@), &v, "xl/styles.xml") {
        None => true,
        Some(i) => {
            assert(member_view(v@[i as int]) == member(bytes@, i as nat));
            match &v[i] {
                Ok((_, _, Ok(d))) => check_formats(d.as_slice()),
                _ => false,
            }
        },
    }
}

/// Whether the worksheets of a workbook can be read.
pub fn check_sheets(bytes: &[u8]) -> (r: bool)
    ensures
        r == sheets_fit(bytes@),
{
    let v = match read_members(bytes) {
        Some(v) => v,
        None => {
            return false;
        },
    };
    let n: u64 = match find_member(Ghost(bytes@), &v, "xl/sharedStrings.xml") {
        None => 0,
        Some(i) => {
            assert(member_view(v@[i as int]) == member(bytes@, i as nat));
            match &v[i] {
                Ok((_, _, Ok(d))) => count_texts(d.as_slice()),
                _ => {
                    return false;
                },
            }
        },
    };
    let mut i: usize = 0;
    while i < v.len()
        invariant
            i <= v@.len(),
            v@.len() == member_count(bytes@),
            open_error(bytes@) is None,
            texts_in(bytes@) == Some(n as nat),
            forall|k: int|
                0 <= k < v@.len() ==> member_view(#[trigger] v@[k]) == member(bytes@, k as nat),
            forall|k: nat| k < i ==> #[trigger] member_fits(bytes@, k, n as nat),
        decreases v@.len() - i,
    {
        assert(member_view(v@[i as int]) == member(bytes@, i as nat));
        let good = match &v[i] {
            Ok(m) => {
                let name = m.1.as_str();
                if is_start_caseless(name, "xl/worksheets") || is_start_caseless(
                    name,
                    "xl/chartsheets",
                ) || is_start_caseless(name, "xl/dialogsheets") {
                    match &m.2 {
                        Ok(d) => check_sheet(d.as_slice(), n),
                        Err(_) => false,
                    }
                } else {
                    true
                }
            },
            Err(_) => true,
        };
        assert(good == member_fits(bytes@, i as nat, n as nat));
        if !good {
            assert(!members_fit(bytes@, n as nat));
            return false;
        }
        i = i + 1;
    }
    true
}

} // verus!
