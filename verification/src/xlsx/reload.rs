//! A workbook that was saved can be loaded again: packing it changes neither its worksheets nor
//! where they are found.
use vstd::prelude::*;
use vstd::utf8::encode_utf8;
use crate::text::{find_from, lemma_encode_ascii, lemma_find_from};
use crate::xlsx::laws::{lemma_gt_plain, lemma_gt_quoted};
use crate::xlsx::moved::{
    lemma_find_moved, lemma_found_later, lemma_simple_tag, lemma_sub_moved, lemma_tag_behind,
    lemma_tag_moved, lemma_tag_same, moved, no_lt, simple_tag,
};
use crate::xlsx::xmlscan::{
    attr_of, bytes, elements, gt_from, inside, is_at, is_blank, lemma_gt_from, lemma_marks,
    lemma_span_of, lemma_tag_from, part_path, rel_targets, sheet_paths_of, sheet_table, tag_between,
    tag_bounds, tag_from, without_front_slashes, word_end, Tag,
};
use crate::xlsx::zipio::{
    base_name, calc_attribute, calc_element, final_parts, law_final_parts, lemma_part_from,
    names_one, others, part_from, tag_called, unlisted, unlisted_data, unrelated_data, with_data,
    with_full_calc, without_elements, without_part, Part,
};

verus! {

// ------------------------------------------------------------------------- tags
/// XML as workbooks have it, from `pos` on: no tag holds another, and elements called `name` close
/// themselves.
pub open spec fn is_plain_xml(b: Seq<u8>, pos: int, name: Seq<char>) -> bool
    decreases b.len() - pos,
{
    match tag_from(b, pos) {
        None => true,
        Some(t) => {
            proof {
                lemma_tag_from(b, pos);
            }
            no_lt(inside(b, t)) && (t.name == name && !t.closing ==> t.self_closing) && is_plain_xml(
                b,
                t.after,
                name,
            )
        },
    }
}

/// What stands in the opening tags called `name`, from `pos` on.
pub open spec fn named_tags(b: Seq<u8>, pos: int, name: Seq<char>) -> Seq<Seq<u8>>
    decreases b.len() - pos,
{
    match tag_from(b, pos) {
        None => Seq::empty(),
        Some(t) => {
            proof {
                lemma_tag_from(b, pos);
            }
            let rest = named_tags(b, t.after, name);
            if t.name == name && !t.closing {
                seq![inside(b, t)] + rest
            } else {
                rest
            }
        },
    }
}

/// What stands in the tags of elements.
pub open spec fn insides(b: Seq<u8>, els: Seq<(Tag, (int, int))>) -> Seq<Seq<u8>> {
    els.map_values(|e: (Tag, (int, int))| inside(b, e.0))
}

/// The elements of plain XML are its tags.
proof fn lemma_elements(b: Seq<u8>, pos: int, name: Seq<char>)
    requires
        0 <= pos <= b.len(),
        is_plain_xml(b, pos, name),
    ensures
        insides(b, elements(b, pos, b.len() as int, name)) == named_tags(b, pos, name),
    decreases b.len() - pos,
{
    let end = b.len() as int;
    let els = elements(b, pos, end, name);
    lemma_tag_from(b, pos);
    lemma_marks();
    match tag_from(b, pos) {
        None => {
            assert(insides(b, els) =~= named_tags(b, pos, name));
        },
        Some(t) => {
            lemma_elements(b, t.after, name);
            let rest = elements(b, t.after, end, name);
            if t.name == name && !t.closing {
                assert(els == seq![(t, (t.at, t.after))] + rest);
                assert(insides(b, els) =~= seq![inside(b, t)] + insides(b, rest));
            } else {
                lemma_tag_behind(b, t);
                assert(elements(b, t.at + 1, end, name) == rest) by {
                    if t.after >= end {
                        assert(find_from(b, t.after, seq![60u8]) is None);
                    }
                }
            }
        },
    }
}

/// What no tag is found in has none where it stands again.
proof fn lemma_rest_moved(b: Seq<u8>, pos: int, y: Seq<u8>, d: int, name: Seq<char>)
    requires
        0 <= pos <= b.len(),
        0 <= pos + d,
        y.len() == b.len() + d,
        moved(b, pos, b.len() as int, y, d),
        is_plain_xml(b, pos, name),
    ensures
        named_tags(y, pos + d, name) == named_tags(b, pos, name),
        is_plain_xml(y, pos + d, name),
    decreases b.len() - pos,
{
    lemma_tag_from(b, pos);
    match tag_from(b, pos) {
        None => {
            lemma_tag_from(y, pos + d);
            if let Some(u) = tag_from(y, pos + d) {
                assert forall|k: int| pos + d <= k < u.after implies #[trigger] y[k] == b[k
                    + (-d)] by {
                    assert(b[k - d] == y[k - d + d]);
                }
                lemma_tag_moved(y, pos + d, u, b, -d);
            }
        },
        Some(t) => {
            lemma_tag_moved(b, pos, t, y, d);
            lemma_rest_moved(b, t.after, y, d, name);
        },
    }
}

/// What stands in front of a tag is passed over wherever it stands.
#[verifier::spinoff_prover]
#[verifier::rlimit(60)]
proof fn lemma_gap_passed(b: Seq<u8>, pos: int, t: Tag, y: Seq<u8>, d: int)
    requires
        0 <= pos,
        tag_from(b, pos) == Some(t),
        moved(b, pos, t.at, y, d),
    ensures
        tag_from(y, pos + d) == tag_from(y, t.at + d),
    decreases b.len() - pos,
{
    lemma_tag_from(b, pos);
    lemma_marks();
    lemma_find_from(b, pos, seq![60u8]);
    let lt = find_from(b, pos, seq![60u8])->0;
    lemma_find_from(b, lt + 4, bytes("-->"@));
    lemma_find_from(b, lt + 9, bytes("]]>"@));
    if is_at(b, lt, bytes("<!--"@)) {
        let p = find_from(b, lt + 4, bytes("-->"@))->0;
        lemma_tag_from(b, p + 3);
        lemma_find_moved(b, pos, seq![60u8], lt, y, d);
        lemma_sub_moved(b, lt, lt + 4, y, d);
        lemma_find_moved(b, lt + 4, bytes("-->"@), p, y, d);
        lemma_gap_passed(b, p + 3, t, y, d);
    } else if is_at(b, lt, bytes("<![CDATA["@)) {
        let p = find_from(b, lt + 9, bytes("]]>"@))->0;
        lemma_tag_from(b, p + 3);
        lemma_find_moved(b, pos, seq![60u8], lt, y, d);
        lemma_sub_moved(b, lt, lt + 9, y, d);
        lemma_find_moved(b, lt + 9, bytes("]]>"@), p, y, d);
        assert(!is_at(y, lt + d, bytes("<!--"@))) by {
            assert(b.subrange(lt, lt + 9) == y.subrange(lt + d, lt + d + 9));
            if is_at(y, lt + d, bytes("<!--"@)) {
                assert(y.subrange(lt + d, lt + d + 4) =~= y.subrange(lt + d, lt + d + 9).take(4));
                assert(b.subrange(lt, lt + 4) =~= b.subrange(lt, lt + 9).take(4));
            }
        }
        lemma_gap_passed(b, p + 3, t, y, d);
    } else {
        assert forall|q: int| pos + d <= q < t.at + d implies !#[trigger] is_at(
            y,
            q,
            seq![60u8],
        ) by {
            if is_at(y, q, seq![60u8]) {
                assert(y.subrange(q, q + 1)[0] == y[q]);
                assert(b[q - d] == y[q - d + d]);
                assert(b.subrange(q - d, q - d + 1) =~= seq![60u8]);
            }
        }
        lemma_found_later(y, pos + d, t.at + d);
    }
}

// ---------------------------------------------------------------- relationships
/// The targets that tags of relationships name, by their identifiers.
pub open spec fn targets_of(xs: Seq<Seq<u8>>) -> Map<Seq<char>, Seq<char>>
    decreases xs.len(),
{
    if xs.len() == 0 {
        Map::empty()
    } else {
        let before = targets_of(xs.drop_last());
        match (attr_of(xs.last(), "Id"@), attr_of(xs.last(), "Target"@)) {
            (Some(id), Some(target)) => before.insert(id, target),
            _ => before,
        }
    }
}

proof fn lemma_targets_of(b: Seq<u8>, els: Seq<(Tag, (int, int))>)
    ensures
        rel_targets(b, els) == targets_of(insides(b, els)),
    decreases els.len(),
{
    if els.len() > 0 {
        lemma_targets_of(b, els.drop_last());
        assert(insides(b, els).drop_last() =~= insides(b, els.drop_last()));
        assert(insides(b, els).last() == inside(b, els.last().0));
    }
}

/// Whether a tag names neither of two targets.
pub open spec fn is_kept(x: Seq<u8>, key: Seq<char>, u: Seq<char>, v: Seq<char>) -> bool {
    match attr_of(x, key) {
        Some(t) => t != u && t != v,
        None => true,
    }
}

/// The tags that name neither of two targets.
pub open spec fn kept_tags(
    xs: Seq<Seq<u8>>,
    key: Seq<char>,
    u: Seq<char>,
    v: Seq<char>,
) -> Seq<Seq<u8>>
    decreases xs.len(),
{
    if xs.len() == 0 {
        Seq::empty()
    } else {
        let rest = kept_tags(xs.drop_first(), key, u, v);
        if is_kept(xs[0], key, u, v) {
            seq![xs[0]] + rest
        } else {
            rest
        }
    }
}

/// The tags that are left when elements are taken out.
#[verifier::spinoff_prover]
#[verifier::rlimit(60)]
proof fn lemma_without_elements(
    b: Seq<u8>,
    pos: int,
    name: Seq<char>,
    key: Seq<char>,
    u: Seq<char>,
    v: Seq<char>,
    y: Seq<u8>,
    p: int,
)
    requires
        0 <= pos <= b.len(),
        0 <= p <= y.len(),
        is_plain_xml(b, pos, name),
        y.skip(p) == without_elements(b, pos, name, key, u, v),
    ensures
        named_tags(y, p, name) == kept_tags(named_tags(b, pos, name), key, u, v),
        is_plain_xml(y, p, name),
    decreases b.len() - pos,
{
    lemma_tag_from(b, pos);
    let d = p - pos;
    let rest = y.skip(p);
    match tag_from(b, pos) {
        None => {
            assert(rest.len() == b.len() - pos);
            assert forall|k: int| pos <= k < b.len() implies #[trigger] b[k] == y[k + d] by {
                assert(b.skip(pos)[k - pos] == b[k]);
                assert(rest[k - pos] == y[k + d]);
            }
            lemma_rest_moved(b, pos, y, d, name);
        },
        Some(t) => {
            lemma_span_of(b, t);
            let tags = named_tags(b, pos, name);
            let more = named_tags(b, t.after, name);
            if t.name == name && !t.closing {
                assert(tags.drop_first() =~= more);
                assert(tags[0] == inside(b, t));
            }
            if names_one(b, t, name, key, u, v) {
                let gap = b.subrange(pos, t.at);
                let behind = without_elements(b, t.after, name, key, u, v);
                assert(rest == gap + behind);
                assert forall|k: int| pos <= k < t.at implies #[trigger] b[k] == y[k + d] by {
                    assert(rest[k - pos] == gap[k - pos]);
                    assert(rest[k - pos] == y[k + d]);
                }
                lemma_gap_passed(b, pos, t, y, d);
                assert(y.skip(t.at + d) =~= behind) by {
                    assert(y.skip(t.at + d) =~= rest.skip(gap.len() as int));
                    assert((gap + behind).skip(gap.len() as int) =~= behind);
                }
                lemma_without_elements(b, t.after, name, key, u, v, y, t.at + d);
                lemma_same_tags(y, p, t.at + d, name);
            } else {
                let piece = b.subrange(pos, t.after);
                let behind = without_elements(b, t.after, name, key, u, v);
                assert(rest == piece + behind);
                assert forall|k: int| pos <= k < t.after implies #[trigger] b[k] == y[k + d] by {
                    assert(rest[k - pos] == piece[k - pos]);
                    assert(rest[k - pos] == y[k + d]);
                }
                lemma_tag_moved(b, pos, t, y, d);
                assert(y.skip(t.after + d) =~= behind) by {
                    assert(y.skip(t.after + d) =~= rest.skip(piece.len() as int));
                    assert((piece + behind).skip(piece.len() as int) =~= behind);
                }
                lemma_without_elements(b, t.after, name, key, u, v, y, t.after + d);
            }
        },
    }
}

/// The tags depend on the next one alone.
proof fn lemma_same_tags(b: Seq<u8>, i: int, j: int, name: Seq<char>)
    requires
        tag_from(b, i) == tag_from(b, j),
    ensures
        named_tags(b, i, name) == named_tags(b, j, name),
        is_plain_xml(b, i, name) == is_plain_xml(b, j, name),
{
}

/// Taking out the relationships to two targets leaves all others.
proof fn lemma_targets_left(xs: Seq<Seq<u8>>, u: Seq<char>, v: Seq<char>)
    ensures
        ({
            let all = targets_of(xs);
            let left = targets_of(kept_tags(xs, "Target"@, u, v));
            &&& forall|id: Seq<char>| #[trigger] left.contains_key(id) ==> all.contains_key(id)
            &&& forall|id: Seq<char>| #[trigger]
                all.contains_key(id) && all[id] != u && all[id] != v ==> left.contains_key(id)
                    && left[id] == all[id]
        }),
    decreases xs.len(),
{
    if xs.len() > 0 {
        let front = xs.drop_last();
        lemma_targets_left(front, u, v);
        lemma_kept_last(xs, "Target"@, u, v);
        let kept = kept_tags(xs, "Target"@, u, v);
        let before = kept_tags(front, "Target"@, u, v);
        if is_kept(xs.last(), "Target"@, u, v) {
            assert(kept.drop_last() =~= before);
            assert(kept.last() == xs.last());
        }
        let all = targets_of(xs);
        let left = targets_of(kept);
        let fall = targets_of(front);
        let fleft = targets_of(before);
        assert forall|id: Seq<char>| #[trigger] left.contains_key(id) implies all.contains_key(
            id,
        ) by {
            if fleft.contains_key(id) {
                assert(fall.contains_key(id));
            }
        }
        assert forall|id: Seq<char>| #[trigger]
            all.contains_key(id) && all[id] != u && all[id] != v implies left.contains_key(id)
            && left[id] == all[id] by {
            if fall.contains_key(id) && fall[id] != u && fall[id] != v {
                assert(fleft.contains_key(id) && fleft[id] == fall[id]);
            }
        }
    }
}

proof fn lemma_kept_last(xs: Seq<Seq<u8>>, key: Seq<char>, u: Seq<char>, v: Seq<char>)
    requires
        xs.len() > 0,
    ensures
        kept_tags(xs, key, u, v) == (if is_kept(xs.last(), key, u, v) {
            kept_tags(xs.drop_last(), key, u, v).push(xs.last())
        } else {
            kept_tags(xs.drop_last(), key, u, v)
        }),
    decreases xs.len(),
{
    let none = Seq::<Seq<u8>>::empty();
    let rest = xs.drop_first();
    if xs.len() == 1 {
        assert(rest =~= none);
        assert(xs.drop_last() =~= none);
        assert(seq![xs[0]] + none =~= none.push(xs[0]));
    } else {
        lemma_kept_last(rest, key, u, v);
        assert(rest.drop_last() =~= xs.drop_last().drop_first());
        assert(rest.last() == xs.last());
        assert(xs.drop_last()[0] == xs[0]);
        assert(kept_tags(xs, key, u, v) =~= (if is_kept(xs.last(), key, u, v) {
            kept_tags(xs.drop_last(), key, u, v).push(xs.last())
        } else {
            kept_tags(xs.drop_last(), key, u, v)
        }));
    }
}

// ------------------------------------------------------------------- worksheets
/// The parts of worksheets that tags name, by the worksheets' names.
pub open spec fn table_of(xs: Seq<Seq<u8>>, targets: Map<Seq<char>, Seq<char>>) -> Map<
    Seq<char>,
    Seq<char>,
>
    decreases xs.len(),
{
    if xs.len() == 0 {
        Map::empty()
    } else {
        let before = table_of(xs.drop_last(), targets);
        match (attr_of(xs.last(), "name"@), attr_of(xs.last(), "r:id"@)) {
            (Some(name), Some(id)) => if targets.contains_key(id) {
                before.insert(name, part_path(targets[id]))
            } else {
                before
            },
            _ => before,
        }
    }
}

proof fn lemma_table_of(
    b: Seq<u8>,
    els: Seq<(Tag, (int, int))>,
    targets: Map<Seq<char>, Seq<char>>,
)
    ensures
        sheet_table(b, els, targets) == table_of(insides(b, els), targets),
    decreases els.len(),
{
    if els.len() > 0 {
        lemma_table_of(b, els.drop_last(), targets);
        assert(insides(b, els).drop_last() =~= insides(b, els.drop_last()));
        assert(insides(b, els).last() == inside(b, els.last().0));
    }
}

/// A worksheet whose part is none of those that were taken out is found as before.
proof fn lemma_table_left(
    xs: Seq<Seq<u8>>,
    all: Map<Seq<char>, Seq<char>>,
    left: Map<Seq<char>, Seq<char>>,
    u: Seq<char>,
    v: Seq<char>,
    sheet: Seq<char>,
)
    requires
        forall|id: Seq<char>| #[trigger] left.contains_key(id) ==> all.contains_key(id),
        forall|id: Seq<char>| #[trigger]
            all.contains_key(id) && all[id] != u && all[id] != v ==> left.contains_key(id)
                && left[id] == all[id],
        table_of(xs, all).contains_key(sheet),
        table_of(xs, all)[sheet] != part_path(u),
        table_of(xs, all)[sheet] != part_path(v),
    ensures
        table_of(xs, left).contains_key(sheet),
        table_of(xs, left)[sheet] == table_of(xs, all)[sheet],
    decreases xs.len(),
{
    if xs.len() > 0 {
        match (attr_of(xs.last(), "name"@), attr_of(xs.last(), "r:id"@)) {
            (Some(name), Some(id)) if name == sheet && all.contains_key(id) => {},
            _ => {
                lemma_table_left(xs.drop_last(), all, left, u, v, sheet);
            },
        }
    }
}

// ------------------------------------------------------------------ calculation
/// A tag that is found starts no comment and no character data.
proof fn lemma_tag_no_mark(b: Seq<u8>, pos: int, t: Tag)
    requires
        tag_from(b, pos) == Some(t),
    ensures
        !is_at(b, t.at, bytes("<!--"@)),
        !is_at(b, t.at, bytes("<![CDATA["@)),
    decreases b.len() - pos,
{
    lemma_marks();
    lemma_find_from(b, pos, seq![60u8]);
    let lt = find_from(b, pos, seq![60u8])->0;
    lemma_find_from(b, lt + 4, bytes("-->"@));
    lemma_find_from(b, lt + 9, bytes("]]>"@));
    if is_at(b, lt, bytes("<!--"@)) {
        lemma_tag_no_mark(b, find_from(b, lt + 4, bytes("-->"@))->0 + 3, t);
    } else if is_at(b, lt, bytes("<![CDATA["@)) {
        lemma_tag_no_mark(b, find_from(b, lt + 9, bytes("]]>"@))->0 + 3, t);
    }
}

/// The search for the end of a tag comes to the place in front of its end outside of quotation marks.
#[verifier::spinoff_prover]
#[verifier::rlimit(60)]
proof fn lemma_gt_reached(
    b: Seq<u8>,
    i: int,
    quote: Option<u8>,
    g: int,
    m: int,
    y: Seq<u8>,
    d: int,
)
    requires
        gt_from(b, i, quote) == Some(g),
        quote matches Some(q) ==> q == 34 || q == 39,
        m == g || (m == g - 1 && b[m] == 47),
        i <= m,
        moved(b, i, m, y, d),
        m + d < y.len(),
    ensures
        gt_from(y, i + d, quote) == gt_from(y, m + d, None),
    decreases m - i,
{
    lemma_gt_from(b, i, quote);
    let next: Option<u8> = match quote {
        Some(q) => if b[i] == q {
            None
        } else {
            quote
        },
        None => if b[i] == 34 || b[i] == 39 {
            Some(b[i])
        } else {
            None
        },
    };
    lemma_gt_from(b, i + 1, next);
    if i == m {
        if quote is Some {
            if m == g - 1 {
                assert(next == quote);
                assert(gt_from(b, i + 1, next) == Some(g));
                lemma_gt_from(b, i + 2, None);
                lemma_gt_from(b, i + 2, quote);
            }
        }
    } else {
        assert(b[i] == y[i + d]);
        lemma_gt_reached(b, i + 1, next, g, m, y, d);
    }
}

/// The bytes of the request.
proof fn lemma_calc_bytes()
    ensures
        calc_attribute().len() == 19,
        calc_attribute()[0] == 32,
        calc_attribute()[16] == 34,
        calc_attribute()[17] == 49,
        calc_attribute()[18] == 34,
        forall|k: int|
            0 <= k < 16 ==> #[trigger] calc_attribute()[k] != 34 && calc_attribute()[k] != 39
                && calc_attribute()[k] != 62,
        forall|k: int| 0 <= k < 19 ==> #[trigger] calc_attribute()[k] != 60,
        encode_utf8("fullCalcOnLoad"@).len() == 14,
        calc_attribute().subrange(1, 15) == encode_utf8("fullCalcOnLoad"@),
        forall|k: int| 0 <= k < 4 ==> #[trigger] bytes("<!--"@)[k] != 32,
        forall|k: int| 0 <= k < 9 ==> #[trigger] bytes("<![CDATA["@)[k] != 32,
{
    reveal_strlit(" fullCalcOnLoad=\"1\"");
    reveal_strlit("fullCalcOnLoad");
    reveal_strlit("<!--");
    reveal_strlit("<![CDATA[");
    lemma_encode_ascii(" fullCalcOnLoad=\"1\""@);
    lemma_encode_ascii("fullCalcOnLoad"@);
    lemma_encode_ascii("<!--"@);
    lemma_encode_ascii("<![CDATA["@);
    assert(calc_attribute().subrange(1, 15) =~= encode_utf8("fullCalcOnLoad"@));
}

proof fn lemma_word_facts(b: Seq<u8>, i: int, end: int)
    requires
        i <= end,
    ensures
        i <= word_end(b, i, end) <= end,
        word_end(b, i, end) < end ==> is_blank(b[word_end(b, i, end)]),
        forall|k: int| i <= k < word_end(b, i, end) ==> !is_blank(#[trigger] b[k]),
    decreases end - i,
{
    if i < end && !is_blank(b[i]) {
        lemma_word_facts(b, i + 1, end);
    }
}

/// An opening tag with the request put in behind its attributes, `d` positions further on.
#[verifier::spinoff_prover]
#[verifier::rlimit(60)]
proof fn lemma_request_added(b: Seq<u8>, pos: int, t: Tag, y: Seq<u8>, d: int)
    requires
        0 <= pos,
        tag_from(b, pos) == Some(t),
        !t.closing,
        no_lt(inside(b, t)),
        moved(b, t.at, t.inner.1, y, d),
        t.inner.1 + d + 19 <= y.len(),
        y.subrange(t.inner.1 + d, t.inner.1 + d + 19) == calc_attribute(),
        moved(b, t.inner.1, t.after, y, d + 19),
    ensures
        tag_from(y, t.at + d) matches Some(u) && {
            &&& u.at == t.at + d && u.name == t.name && !u.closing
            &&& u.self_closing == t.self_closing
            &&& u.after == t.after + d + 19
            &&& no_lt(inside(y, u))
        },
{
    lemma_tag_from(b, pos);
    lemma_tag_no_mark(b, pos, t);
    lemma_calc_bytes();
    lemma_marks();
    let a = calc_attribute();
    let lt = t.at;
    let m = t.inner.1;
    let g = t.after - 1;
    let at = m + d;
    let v = y.subrange(at, at + 19);
    assert forall|k: int| 0 <= k < 19 implies #[trigger] a[k] == y[at + k] by {
        assert(v[k] == y[at + k]);
    }
    lemma_gt_reached(b, lt, None, g, m, y, d);
    assert forall|k: int| at <= k < at + 16 implies #[trigger] y[k] != 34 && y[k] != 39 && y[k]
        != 62 by {
        assert(a[k - at] == y[at + (k - at)]);
    }
    lemma_gt_plain(y, at, at + 16);
    assert(a[16] == y[at + 16] && a[17] == y[at + 17] && a[18] == y[at + 18]);
    assert(gt_from(y, at + 16, None) == gt_from(y, at + 17, Some(34u8)));
    lemma_gt_quoted(y, at + 17, at + 18);
    assert(b[m] == y[m + (d + 19)]);
    if t.self_closing {
        assert(b[m + 1] == y[m + 1 + (d + 19)]);
        assert(gt_from(y, at + 19, None) == gt_from(y, at + 20, None));
    }
    let gt = g + d + 19;
    assert(gt_from(y, lt + d, None) == Some(gt));
    assert(b[lt] == y[lt + d]);
    assert(y.subrange(lt + d, lt + d + 1) =~= seq![60u8]);
    assert(find_from(y, lt + d, seq![60u8]) == Some(lt + d));
    lemma_no_mark_before(b, lt, m, y, d, bytes("<!--"@));
    lemma_no_mark_before(b, lt, m, y, d, bytes("<![CDATA["@));
    assert(tag_from(y, lt + d) == Some(tag_between(y, lt + d, gt)));
    let u = tag_between(y, lt + d, gt);
    assert(a[0] == y[at]);
    if lt + 1 < m {
        assert(b[lt + 1] == y[lt + 1 + d]);
    }
    lemma_word_facts(b, lt + 1, m);
    let w = word_end(b, lt + 1, m);
    assert(w < m ==> is_blank(y[w + d])) by {
        if w < m {
            assert(b[w] == y[w + d]);
        }
    }
    assert forall|k: int| lt + 1 + d <= k < w + d implies !is_blank(#[trigger] y[k]) by {
        assert(b[k - d] == y[k - d + d]);
    }
    crate::xlsx::moved::lemma_word_here(y, lt + 1 + d, w + d, at + 19);
    lemma_sub_moved(b, lt + 1, w, y, d);
    assert(u.inner == (lt + 1 + d, at + 19));
    let x = inside(y, u);
    assert forall|k: int| 0 <= k < x.len() implies #[trigger] x[k] != 60 by {
        if k < m - lt - 1 {
            assert(b[lt + 1 + k] == y[lt + 1 + k + d]);
            assert(inside(b, t)[k] == b[lt + 1 + k]);
        } else {
            let j = k - (m - lt - 1);
            assert(a[j] == y[at + j]);
        }
    }
}

proof fn lemma_no_mark_before(b: Seq<u8>, lt: int, m: int, y: Seq<u8>, d: int, mark: Seq<u8>)
    requires
        0 <= lt < m,
        moved(b, lt, m, y, d),
        m + d < y.len(),
        y[m + d] == 32,
        forall|k: int| 0 <= k < mark.len() ==> #[trigger] mark[k] != 32,
        !is_at(b, lt, mark),
    ensures
        !is_at(y, lt + d, mark),
{
    if is_at(y, lt + d, mark) {
        let v = y.subrange(lt + d, lt + d + mark.len());
        if m < lt + mark.len() {
            assert(v[m - lt] == y[m + d]);
            assert(mark[m - lt] != 32);
        } else {
            lemma_sub_moved(b, lt, lt + mark.len(), y, d);
        }
    }
}

/// Whether going from tag to tag, from `pos` on, comes to one at `a`.
spec fn is_reached(b: Seq<u8>, pos: int, a: int) -> bool
    decreases b.len() - pos,
{
    match tag_from(b, pos) {
        None => false,
        Some(t) => {
            proof {
                lemma_tag_from(b, pos);
            }
            t.at == a || (t.after <= a && is_reached(b, t.after, a))
        },
    }
}

/// A tag that is searched for by its name is reached in plain XML.
proof fn lemma_called_reached(
    b: Seq<u8>,
    pos: int,
    name: Seq<char>,
    called: Seq<char>,
    closing: bool,
)
    requires
        0 <= pos,
        is_plain_xml(b, pos, name),
    ensures
        tag_called(b, pos, called, closing) matches Some(t) ==> {
            &&& is_reached(b, pos, t.at) && pos <= t.at
            &&& tag_bounds(b, 0, t) && tag_from(b, t.at) == Some(t)
            &&& t.name == called && t.closing == closing && no_lt(inside(b, t))
        },
    decreases b.len() - pos,
{
    lemma_tag_from(b, pos);
    if let Some(t) = tag_from(b, pos) {
        lemma_tag_behind(b, t);
        if t.name == called && t.closing == closing {
            lemma_gap_passed(b, pos, t, b, 0);
        } else {
            assert(tag_called(b, t.at + 1, called, closing) == tag_called(
                b,
                t.after,
                called,
                closing,
            ));
            lemma_called_reached(b, t.after, name, called, closing);
        }
    }
}

/// Where something in plain XML is exchanged for one tag, the tags called `name` stay, and the new tag
/// is found by its own name.
#[verifier::spinoff_prover]
#[verifier::rlimit(60)]
proof fn lemma_exchanged(
    b: Seq<u8>,
    pos: int,
    a: int,
    z: int,
    y: Seq<u8>,
    n: int,
    u: Tag,
    name: Seq<char>,
)
    requires
        0 <= pos <= a <= z <= b.len(),
        is_plain_xml(b, pos, name),
        is_reached(b, pos, a),
        a + n <= y.len(),
        y.len() == b.len() - (z - a) + n,
        moved(b, 0, a, y, 0),
        moved(b, z, b.len() as int, y, a + n - z),
        tag_from(y, a) == Some(u),
        u.at == a,
        u.after == a + n,
        no_lt(inside(y, u)),
        u.name != name,
        z == a || (tag_from(b, a) matches Some(t) && t.after == z && t.at == a && t.name != name),
    ensures
        named_tags(y, pos, name) == named_tags(b, pos, name),
        is_plain_xml(y, pos, name),
        tag_called(y, pos, u.name, u.closing) is Some,
    decreases b.len() - pos,
{
    lemma_tag_from(b, pos);
    let t = tag_from(b, pos)->0;
    if t.at == a {
        lemma_gap_passed(b, pos, t, y, 0);
        lemma_gap_passed(b, pos, t, b, 0);
        lemma_same_tags(y, pos, a, name);
        lemma_same_tags(b, pos, a, name);
        assert(is_plain_xml(b, z, name));
        lemma_rest_moved(b, z, y, a + n - z, name);
        lemma_tag_from(y, pos);
    } else {
        lemma_tag_same(b, pos, t, y);
        lemma_exchanged(b, t.after, a, z, y, n, u, name);
        lemma_tag_from(y, pos);
        lemma_tag_behind(y, t);
        if !(t.name == u.name && t.closing == u.closing) {
            assert(tag_called(y, t.at + 1, u.name, u.closing) == tag_called(
                y,
                t.after,
                u.name,
                u.closing,
            ));
        }
    }
}

proof fn lemma_names_differ()
    ensures
        "calcPr"@ != "sheet"@,
{
    reveal_strlit("sheet");
    reveal_strlit("calcPr");
    assert("calcPr"@.len() != "sheet"@.len());
}

/// The request as an attribute of the tag that is there.
#[verifier::rlimit(40)]
proof fn lemma_calc_by_attribute(b: Seq<u8>, t: Tag)
    requires
        is_plain_xml(b, 0, "sheet"@),
        tag_called(b, 0, "calcPr"@, false) == Some(t),
    ensures
        ({
            let y = b.take(t.inner.1) + calc_attribute() + b.skip(t.inner.1);
            &&& named_tags(y, 0, "sheet"@) == named_tags(b, 0, "sheet"@)
            &&& is_plain_xml(y, 0, "sheet"@)
            &&& tag_called(y, 0, "calcPr"@, false) is Some
            &&& find_from(y, 0, encode_utf8("fullCalcOnLoad"@)) is Some
        }),
{
    let m = t.inner.1;
    let attr = calc_attribute();
    let y = b.take(m) + attr + b.skip(m);
    let word = encode_utf8("fullCalcOnLoad"@);
    lemma_calc_bytes();
    lemma_names_differ();
    lemma_called_reached(b, 0, "sheet"@, "calcPr"@, false);
    assert forall|k: int| 0 <= k < m implies #[trigger] b[k] == y[k + 0] by {}
    assert forall|k: int| m <= k < b.len() implies #[trigger] b[k] == y[k + 19] by {}
    assert(y.subrange(m, m + 19) =~= attr);
    lemma_request_added(b, t.at, t, y, 0);
    let u = tag_from(y, t.at)->0;
    lemma_exchanged(b, 0, t.at, t.after, y, u.after - t.at, u, "sheet"@);
    assert(y.subrange(m + 1, m + 15) =~= word) by {
        assert(y.subrange(m + 1, m + 15) =~= y.subrange(m, m + 19).subrange(1, 15));
    }
    assert(y.subrange(m + 1, m + 1 + word.len()) == word);
    lemma_find_from(y, 0, word);
}

/// The request as an element in front of the closing tag.
proof fn lemma_calc_by_element(b: Seq<u8>, t: Tag)
    requires
        is_plain_xml(b, 0, "sheet"@),
        tag_called(b, 0, "workbook"@, true) == Some(t),
    ensures
        ({
            let y = b.take(t.at) + calc_element() + b.skip(t.at);
            &&& named_tags(y, 0, "sheet"@) == named_tags(b, 0, "sheet"@)
            &&& is_plain_xml(y, 0, "sheet"@)
            &&& tag_called(y, 0, "calcPr"@, false) is Some
            &&& find_from(y, 0, encode_utf8("fullCalcOnLoad"@)) is Some
        }),
{
    let a = t.at;
    let el = calc_element();
    let y = b.take(a) + el + b.skip(a);
    let word = encode_utf8("fullCalcOnLoad"@);
    lemma_calc_bytes();
    lemma_names_differ();
    lemma_called_reached(b, 0, "sheet"@, "workbook"@, true);
    assert(y.subrange(a, a + el.len()) =~= el);
    lemma_calc_element(y, a);
    let u = tag_from(y, a)->0;
    assert forall|k: int| 0 <= k < a implies #[trigger] b[k] == y[k + 0] by {}
    assert forall|k: int| a <= k < b.len() implies #[trigger] b[k] == y[k + el.len()] by {}
    lemma_exchanged(b, 0, a, a, y, el.len() as int, u, "sheet"@);
    lemma_find_from(y, 0, word);
}

/// Putting in the request changes no tag of a worksheet, and it is done once.
proof fn lemma_full_calc(b: Seq<u8>)
    requires
        is_plain_xml(b, 0, "sheet"@),
    ensures
        with_full_calc(b) matches Some(y) ==> {
            &&& named_tags(y, 0, "sheet"@) == named_tags(b, 0, "sheet"@)
            &&& is_plain_xml(y, 0, "sheet"@)
            &&& with_full_calc(y) is None
        },
{
    match tag_called(b, 0, "calcPr"@, false) {
        Some(t) => {
            lemma_calc_by_attribute(b, t);
        },
        None => {
            if let Some(t) = tag_called(b, 0, "workbook"@, true) {
                lemma_calc_by_element(b, t);
            }
        },
    }
}

/// The element that is put in is a tag, and it holds the request.
#[verifier::spinoff_prover]
#[verifier::rlimit(60)]
proof fn lemma_calc_element(y: Seq<u8>, a: int)
    requires
        0 <= a,
        a + calc_element().len() <= y.len(),
        y.subrange(a, a + calc_element().len()) == calc_element(),
    ensures
        tag_from(y, a) matches Some(u) && {
            &&& u.at == a && u.name == "calcPr"@ && !u.closing
            &&& u.after == a + calc_element().len()
            &&& no_lt(inside(y, u))
        },
        exists|q: int|
            0 <= q && q + 14 <= y.len() && #[trigger] y.subrange(q, q + 14) == encode_utf8(
                "fullCalcOnLoad"@,
            ),
{
    let el = calc_element();
    let attr = calc_attribute();
    let none = Seq::<u8>::empty();
    lemma_calc_bytes();
    reveal_strlit("<calcPr calcId=\"140000\" fullCalcOnLoad=\"1\"/>");
    reveal_strlit(" fullCalcOnLoad=\"1\"");
    reveal_strlit("calcPr");
    reveal_strlit("calcId");
    reveal_strlit("140000");
    lemma_encode_ascii("<calcPr calcId=\"140000\" fullCalcOnLoad=\"1\"/>"@);
    lemma_encode_ascii(" fullCalcOnLoad=\"1\""@);
    lemma_encode_ascii("calcPr"@);
    lemma_encode_ascii("calcId"@);
    lemma_encode_ascii("140000"@);
    let n = bytes("calcPr"@);
    let k = bytes("calcId"@);
    let v = bytes("140000"@);
    let e = simple_tag(n, k, v, none, true);
    assert(e.subrange(0, e.len() as int) =~= e);
    lemma_simple_tag("calcPr"@, "calcId"@, "140000"@, none, true, e, 0);
    let t = tag_from(e, 0)->0;
    let m = t.inner.1;
    assert(m == 23);
    assert(el =~= e.take(23) + attr + e.skip(23));
    let w = y.subrange(a, a + el.len());
    assert forall|j: int| 0 <= j < el.len() implies #[trigger] el[j] == y[a + j] by {
        assert(w[j] == y[a + j]);
    }
    assert forall|j: int| 0 <= j < 23 implies #[trigger] e[j] == y[j + a] by {
        assert(el[j] == e[j]);
    }
    assert forall|j: int| 23 <= j < e.len() implies #[trigger] e[j] == y[j + (a + 19)] by {
        assert(el[j + 19] == e[j]);
    }
    assert(y.subrange(23 + a, 23 + a + 19) =~= attr) by {
        assert forall|j: int| 0 <= j < 19 implies #[trigger] y.subrange(23 + a, 23 + a + 19)[j]
            == attr[j] by {
            assert(el[23 + j] == attr[j]);
            assert(el[23 + j] == y[a + (23 + j)]);
        }
    }
    lemma_request_added(e, 0, t, y, a);
    let q = 24 + a;
    assert(y.subrange(q, q + 14) =~= encode_utf8("fullCalcOnLoad"@)) by {
        assert(y.subrange(q, q + 14) =~= y.subrange(23 + a, 23 + a + 19).subrange(1, 15));
    }
}

// ------------------------------------------------------------------------ parts
/// The data of the first part with a name.
pub open spec fn data_of(p: Seq<Part>, name: Seq<char>) -> Option<Seq<u8>> {
    match part_from(p, 0, name) {
        Some(i) => Some(p[i].data),
        None => None,
    }
}

proof fn lemma_part_is(p: Seq<Part>, i: int, k: int, name: Seq<char>)
    requires
        0 <= i <= k < p.len(),
        p[k].name == name,
        forall|j: int| i <= j < k ==> (#[trigger] p[j]).name != name,
    ensures
        part_from(p, i, name) == Some(k),
    decreases k - i,
{
    if i < k {
        assert(p[i].name != name);
        lemma_part_is(p, i + 1, k, name);
    }
}

proof fn lemma_part_is_not(p: Seq<Part>, i: int, name: Seq<char>)
    requires
        0 <= i,
        forall|j: int| i <= j < p.len() ==> (#[trigger] p[j]).name != name,
    ensures
        part_from(p, i, name) is None,
    decreases p.len() - i,
{
    if i < p.len() {
        assert(p[i].name != name);
        lemma_part_is_not(p, i + 1, name);
    }
}

/// Parts of other names keep their data when those of one name are left out.
#[verifier::spinoff_prover]
#[verifier::rlimit(60)]
proof fn lemma_data_of_others(p: Seq<Part>, out: Seq<char>, name: Seq<char>)
    requires
        name != out,
    ensures
        data_of(others(p, out), name) == data_of(p, name),
    decreases p.len(),
{
    reveal(Seq::filter);
    let pred = |x: Part| x.name != out;
    if p.len() > 0 {
        let front = p.drop_last();
        let left = others(front, out);
        let all = others(p, out);
        lemma_data_of_others(front, out, name);
        lemma_part_from(front, 0, name);
        lemma_part_from(left, 0, name);
        assert(all == (if pred(p.last()) {
            left.push(p.last())
        } else {
            left
        }));
        match part_from(front, 0, name) {
            Some(i) => {
                assert forall|j: int| 0 <= j < i implies (#[trigger] p[j]).name != name by {
                    assert(front[j] == p[j]);
                }
                assert(p[i] == front[i]);
                lemma_part_is(p, 0, i, name);
                let k = part_from(left, 0, name)->0;
                assert forall|j: int| 0 <= j < k implies (#[trigger] all[j]).name != name by {
                    assert(left[j] == all[j]);
                }
                assert(all[k] == left[k]);
                lemma_part_is(all, 0, k, name);
            },
            None => {
                let last = p.len() - 1;
                assert forall|j: int| 0 <= j < last implies (#[trigger] p[j]).name != name by {
                    assert(front[j] == p[j]);
                }
                if p.last().name == name {
                    lemma_part_is(p, 0, last, name);
                    let k = left.len() as int;
                    assert forall|j: int| 0 <= j < k implies (#[trigger] all[j]).name != name by {
                        assert(left[j] == all[j]);
                    }
                    lemma_part_is(all, 0, k, name);
                } else {
                    lemma_part_is_not(p, 0, name);
                    assert forall|j: int| 0 <= j < all.len() implies (#[trigger] all[j]).name
                        != name by {
                        if j < left.len() {
                            assert(left[j] == all[j]);
                        }
                    }
                    lemma_part_is_not(all, 0, name);
                }
            },
        }
    } else {
        assert(others(p, out) =~= p);
    }
}

/// Exchanging the data of one part keeps that of all others.
pub proof fn lemma_data_of_with(p: Seq<Part>, name: Seq<char>, data: Seq<u8>, other: Seq<char>)
    ensures
        data_of(with_data(p, name, data), other) == (if other == name && data_of(p, name) is Some {
            Some(data)
        } else {
            data_of(p, other)
        }),
{
    let y = with_data(p, name, data);
    lemma_part_from(p, 0, name);
    lemma_part_from(p, 0, other);
    assert forall|j: int| 0 <= j < p.len() implies (#[trigger] y[j]).name == p[j].name by {}
    match part_from(p, 0, other) {
        Some(k) => {
            assert forall|j: int| 0 <= j < k implies (#[trigger] y[j]).name != other by {
                assert(y[j].name == p[j].name);
            }
            assert(y[k].name == p[k].name);
            lemma_part_is(y, 0, k, other);
        },
        None => {
            assert forall|j: int| 0 <= j < y.len() implies (#[trigger] y[j]).name != other by {
                assert(y[j].name == p[j].name);
            }
            lemma_part_is_not(y, 0, other);
        },
    }
}

/// The names of the parts that packing may change are different.
pub proof fn lemma_part_names()
    ensures
        "xl/workbook.xml"@ != "xl/calcChain.xml"@,
        "xl/workbook.xml"@ != "xl/_rels/workbook.xml.rels"@,
        "xl/workbook.xml"@ != "[Content_Types].xml"@,
        "xl/_rels/workbook.xml.rels"@ != "xl/calcChain.xml"@,
        "xl/_rels/workbook.xml.rels"@ != "[Content_Types].xml"@,
        "[Content_Types].xml"@ != "xl/calcChain.xml"@,
{
    reveal_strlit("xl/workbook.xml");
    reveal_strlit("xl/calcChain.xml");
    reveal_strlit("xl/_rels/workbook.xml.rels");
    reveal_strlit("[Content_Types].xml");
    assert("xl/workbook.xml"@.len() == 15);
    assert("xl/calcChain.xml"@.len() == 16);
    assert("xl/_rels/workbook.xml.rels"@.len() == 26);
    assert("[Content_Types].xml"@.len() == 19);
}

/// What packing makes of the data of a part.
#[verifier::spinoff_prover]
#[verifier::rlimit(60)]
pub proof fn lemma_data_of_final(p: Seq<Part>, name: Seq<char>)
    requires
        name != "xl/calcChain.xml"@,
        name != "[Content_Types].xml"@,
    ensures
        ({
            let chain = "xl/calcChain.xml"@;
            let has_chain = part_from(p, 0, chain) is Some;
            data_of(final_parts(p), name) == (match data_of(p, name) {
                None => None,
                Some(d) => Some(
                    if name == "xl/workbook.xml"@ {
                        match with_full_calc(d) {
                            Some(x) => x,
                            None => d,
                        }
                    } else if name == "xl/_rels/workbook.xml.rels"@ && has_chain {
                        unrelated_data(d, chain)
                    } else {
                        d
                    },
                ),
            })
        }),
{
    let chain = "xl/calcChain.xml"@;
    let types = "[Content_Types].xml"@;
    let rels = "xl/_rels/workbook.xml.rels"@;
    let book = "xl/workbook.xml"@;
    lemma_part_names();
    let cleaned = without_part(p, chain);
    if part_from(p, 0, chain) is Some {
        let kept = others(p, chain);
        let a = unlisted(kept, chain);
        lemma_data_of_others(p, chain, name);
        lemma_data_of_others(p, chain, rels);
        if let Some(i) = part_from(kept, 0, types) {
            lemma_data_of_with(kept, types, unlisted_data(kept[i].data, chain), name);
            lemma_data_of_with(kept, types, unlisted_data(kept[i].data, chain), rels);
        }
        if let Some(i) = part_from(a, 0, rels) {
            lemma_data_of_with(a, rels, unrelated_data(a[i].data, chain), name);
        }
    }
    if let Some(i) = part_from(cleaned, 0, book) {
        if let Some(x) = with_full_calc(cleaned[i].data) {
            lemma_data_of_with(cleaned, book, x, name);
        }
    }
}

/// The last piece of a path.
pub proof fn lemma_base_name(front: Seq<char>, last: Seq<char>)
    requires
        forall|k: int| 0 <= k < last.len() ==> #[trigger] last[k] != '/',
    ensures
        base_name(front + "/"@ + last) == last,
    decreases last.len(),
{
    reveal_strlit("/");
    let whole = front + "/"@ + last;
    if last.len() == 0 {
        assert(whole.last() == '/');
        assert(base_name(whole) =~= last);
    } else {
        let shorter = last.drop_last();
        assert forall|k: int| 0 <= k < shorter.len() implies #[trigger] shorter[k] != '/' by {
            assert(shorter[k] == last[k]);
        }
        lemma_base_name(front, shorter);
        assert(whole.drop_last() =~= front + "/"@ + shorter);
        assert(whole.last() == last.last());
        assert(last[last.len() - 1] != '/');
        assert(shorter.push(last.last()) =~= last);
    }
}

/// The targets by which the calculation chain is named lead to it.
proof fn lemma_chain_paths()
    ensures
        part_path(base_name("xl/calcChain.xml"@)) == "xl/calcChain.xml"@,
        part_path("/"@ + "xl/calcChain.xml"@) == "xl/calcChain.xml"@,
{
    reveal_strlit("xl/calcChain.xml");
    reveal_strlit("xl");
    reveal_strlit("xl/");
    reveal_strlit("/");
    reveal_strlit("calcChain.xml");
    let chain = "xl/calcChain.xml"@;
    assert(chain =~= "xl"@ + "/"@ + "calcChain.xml"@);
    lemma_base_name("xl"@, "calcChain.xml"@);
    let t = "calcChain.xml"@;
    assert(without_front_slashes(t) == t);
    assert(!"xl/"@.is_prefix_of(t)) by {
        assert(t[0] != "xl/"@[0]);
        if "xl/"@.is_prefix_of(t) {
            assert(t.subrange(0, 3)[0] == "xl/"@[0]);
        }
    }
    assert("xl/"@ + t =~= chain);
    let u = "/"@ + chain;
    assert(u[0] == '/');
    assert(u.drop_first() =~= chain);
    assert(without_front_slashes(chain) == chain);
    assert(without_front_slashes(u) == chain);
    assert("xl/"@.is_prefix_of(chain)) by {
        assert(chain.subrange(0, 3) =~= "xl/"@);
    }
}

/// A package whose workbook and whose relationships are XML as workbooks have it.
pub open spec fn is_plain_package(p: Seq<Part>) -> bool {
    &&& data_of(p, "xl/workbook.xml"@) matches Some(b) && is_plain_xml(b, 0, "sheet"@)
    &&& data_of(p, "xl/_rels/workbook.xml.rels"@) matches Some(r) && is_plain_xml(
        r,
        0,
        "Relationship"@,
    )
}

/// Packing a package leaves it as workbooks have it, and every worksheet where it was but for one that
/// stood for the calculation chain.
pub proof fn law_packing_keeps_worksheets(p: Seq<Part>, sheet: Seq<char>)
    requires
        is_plain_package(p),
    ensures
        is_plain_package(final_parts(p)),
        sheet_paths_of(p) matches Ok(paths) && sheet_paths_of(final_parts(p)) matches Ok(after) && (
        paths.contains_key(sheet) && paths[sheet] != "xl/calcChain.xml"@ ==> after.contains_key(
            sheet,
        ) && after[sheet] == paths[sheet]),
{
    let chain = "xl/calcChain.xml"@;
    let q = final_parts(p);
    let b = data_of(p, "xl/workbook.xml"@)->0;
    let r = data_of(p, "xl/_rels/workbook.xml.rels"@)->0;
    lemma_part_names();
    lemma_data_of_final(p, "xl/workbook.xml"@);
    lemma_data_of_final(p, "xl/_rels/workbook.xml.rels"@);
    let b2 = data_of(q, "xl/workbook.xml"@)->0;
    let r2 = data_of(q, "xl/_rels/workbook.xml.rels"@)->0;
    lemma_full_calc(b);
    lemma_elements(b, 0, "sheet"@);
    lemma_elements(b2, 0, "sheet"@);
    lemma_elements(r, 0, "Relationship"@);
    let u = base_name(chain);
    let v = "/"@ + chain;
    let xs = named_tags(b, 0, "sheet"@);
    let rs = named_tags(r, 0, "Relationship"@);
    let all = targets_of(rs);
    lemma_chain_paths();
    lemma_targets_of(r, elements(r, 0, r.len() as int, "Relationship"@));
    lemma_table_of(b, elements(b, 0, b.len() as int, "sheet"@), all);
    if part_from(p, 0, chain) is Some {
        assert(r2.skip(0) =~= r2);
        lemma_without_elements(r, 0, "Relationship"@, "Target"@, u, v, r2, 0);
        lemma_targets_left(rs, u, v);
    } else {
        assert(r2 == r);
    }
    lemma_elements(r2, 0, "Relationship"@);
    lemma_targets_of(r2, elements(r2, 0, r2.len() as int, "Relationship"@));
    let left = targets_of(named_tags(r2, 0, "Relationship"@));
    lemma_table_of(b2, elements(b2, 0, b2.len() as int, "sheet"@), left);
    if table_of(xs, all).contains_key(sheet) && table_of(xs, all)[sheet] != chain {
        lemma_table_left(xs, all, left, u, v, sheet);
    }
}

/// Packing what was packed changes nothing more.
pub proof fn law_packing_settles(p: Seq<Part>)
    requires
        is_plain_package(p),
    ensures
        final_parts(final_parts(p)) == final_parts(p),
{
    let q = final_parts(p);
    lemma_part_names();
    law_final_parts(p);
    lemma_data_of_final(p, "xl/workbook.xml"@);
    lemma_full_calc(data_of(p, "xl/workbook.xml"@)->0);
}

} // verus!
