//! Cells that are written are found again by the scanner.
use vstd::prelude::*;
use vstd::utf8::*;
use crate::model::{col_name, lemma_col_name, letter_place, number_text};
use crate::text::{
    decimal, find_from, is_digit, lemma_decimal, lemma_encode_ascii, lemma_encode_concat,
    lemma_lossy_encode, lossy, replace_from,
};
use crate::xlsx::surgery::{cell_text, CellValue};
use crate::xlsx::xmlscan::{
    attr_of, bytes, cell_ref, close_mark, escaped, escaped_char, formula_in, gt_from, is_at,
    law_reference_read_back, law_unescape_undoes_escape, lemma_marks, span_of, tag_between,
    tag_from, unescaped, word_end,
};

verus! {

// ----------------------------------------------------------------------- bytes
/// A byte below 128 in an encoding is that of a character.
proof fn lemma_ascii_byte(s: Seq<char>, i: int)
    requires
        0 <= i < encode_utf8(s).len(),
        encode_utf8(s)[i] < 128,
    ensures
        exists|j: int| 0 <= j < s.len() && #[trigger] s[j] as int == encode_utf8(s)[i] as int,
    decreases s.len(),
{
    let c = s[0] as u32;
    let head = encode_scalar(c);
    let rest = s.drop_first();
    char_is_scalar(s[0]);
    if i < head.len() {
        if has_width_1_encoding(c) {
            assert((c & 0x7F) as u8 == c) by (bit_vector)
                requires
                    c <= 0x7f,
            ;
            assert(encode_utf8(s) == head + encode_utf8(rest));
            assert(head[0] == leading_byte_width_1(c));
            assert(encode_utf8(s)[0] == head[0]);
            char_u32_cast(s[0], c);
            assert(c as char as int == c as int);
            assert(s[0] as int == encode_utf8(s)[i] as int);
        } else {
            lemma_wide_bytes(c);
        }
    } else {
        lemma_ascii_byte(rest, i - head.len());
        let j = choose|j: int|
            0 <= j < rest.len() && #[trigger] rest[j] as int == encode_utf8(rest)[i
                - head.len()] as int;
        assert(s[j + 1] == rest[j]);
    }
}

/// A character beyond ASCII is encoded by bytes from 128 on.
proof fn lemma_wide_bytes(c: u32)
    requires
        is_scalar(c),
        !has_width_1_encoding(c),
    ensures
        forall|i: int| 0 <= i < encode_scalar(c).len() ==> #[trigger] encode_scalar(c)[i] >= 128,
{
    assert(0xC0 | (((c >> 6) & 0x1F) as u8) >= 128) by (bit_vector);
    assert(0xE0 | (((c >> 12) & 0x0F) as u8) >= 128) by (bit_vector);
    assert(0xF0 | (((c >> 18) & 0x7) as u8) >= 128) by (bit_vector);
    assert(0x80 | ((c & 0x3F) as u8) >= 128) by (bit_vector);
    assert(0x80 | (((c >> 6) & 0x3F) as u8) >= 128) by (bit_vector);
    assert(0x80 | (((c >> 12) & 0x3F) as u8) >= 128) by (bit_vector);
}

/// A text without a character has no byte of that character.
pub proof fn lemma_no_byte(s: Seq<char>, x: u8)
    requires
        x < 128,
        forall|j: int| 0 <= j < s.len() ==> #[trigger] s[j] as int != x as int,
    ensures
        forall|i: int| 0 <= i < encode_utf8(s).len() ==> #[trigger] encode_utf8(s)[i] != x,
{
    assert forall|i: int| 0 <= i < encode_utf8(s).len() implies #[trigger] encode_utf8(s)[i]
        != x by {
        if encode_utf8(s)[i] == x {
            lemma_ascii_byte(s, i);
        }
    }
}

// --------------------------------------------------------------------- scanning
/// Positions where the pattern does not stand are passed over.
pub proof fn lemma_pass_over(b: Seq<u8>, from: int, to: int, pat: Seq<u8>)
    requires
        0 <= from <= to,
        to + pat.len() <= b.len(),
        forall|p: int| from <= p < to ==> #[trigger] b.subrange(p, p + pat.len()) != pat,
    ensures
        find_from(b, from, pat) == find_from(b, to, pat),
    decreases to - from,
{
    if from < to {
        assert(b.subrange(from, from + pat.len()) != pat);
        lemma_pass_over(b, from + 1, to, pat);
    }
}

/// Bytes that are neither quotation marks nor `>` are passed over.
pub proof fn lemma_gt_plain(b: Seq<u8>, i: int, j: int)
    requires
        0 <= i <= j <= b.len(),
        forall|k: int| i <= k < j ==> #[trigger] b[k] != 34 && b[k] != 39 && b[k] != 62,
    ensures
        gt_from(b, i, None) == gt_from(b, j, None),
    decreases j - i,
{
    if i < j {
        lemma_gt_plain(b, i + 1, j);
    }
}

/// Bytes between quotation marks are passed over.
pub proof fn lemma_gt_quoted(b: Seq<u8>, i: int, j: int)
    requires
        0 <= i <= j < b.len(),
        b[j] == 34,
        forall|k: int| i <= k < j ==> #[trigger] b[k] != 34,
    ensures
        gt_from(b, i, Some(34)) == gt_from(b, j + 1, None),
    decreases j - i,
{
    if i < j {
        lemma_gt_quoted(b, i + 1, j);
    }
}

/// Nothing is replaced in a text without the first character of the pattern.
proof fn lemma_replace_none(s: Seq<char>, i: int, pat: Seq<char>, to: Seq<char>)
    requires
        0 <= i <= s.len(),
        pat.len() > 0,
        forall|j: int| 0 <= j < s.len() ==> #[trigger] s[j] != pat[0],
    ensures
        replace_from(s, i, pat, to) == s.skip(i),
    decreases s.len() - i,
{
    if i < s.len() {
        if i + pat.len() <= s.len() {
            assert(s.subrange(i, i + pat.len())[0] == s[i]);
        }
        lemma_replace_none(s, i + 1, pat, to);
        assert(seq![s[i]] + s.skip(i + 1) =~= s.skip(i));
    } else {
        assert(replace_from(s, i, pat, to) =~= s.skip(i));
    }
}

/// A text without an ampersand is read as it is.
pub proof fn lemma_unescape_plain(s: Seq<char>)
    requires
        forall|j: int| 0 <= j < s.len() ==> #[trigger] s[j] != '&',
    ensures
        unescaped(s) == s,
{
    reveal_strlit("&lt;");
    reveal_strlit("&gt;");
    reveal_strlit("&quot;");
    reveal_strlit("&apos;");
    reveal_strlit("&#xA;");
    reveal_strlit("&#xa;");
    reveal_strlit("&amp;");
    assert(s.skip(0) =~= s);
    lemma_replace_none(s, 0, "&lt;"@, "<"@);
    lemma_replace_none(s, 0, "&gt;"@, ">"@);
    lemma_replace_none(s, 0, "&quot;"@, "\""@);
    lemma_replace_none(s, 0, "&apos;"@, "'"@);
    lemma_replace_none(s, 0, "&#xA;"@, "\n"@);
    lemma_replace_none(s, 0, "&#xa;"@, "\n"@);
    lemma_replace_none(s, 0, "&amp;"@, "&"@);
}

/// An escaped text has no angle brackets.
proof fn lemma_escaped_has_no_brackets(s: Seq<char>)
    ensures
        forall|j: int|
            0 <= j < escaped(s).len() ==> #[trigger] escaped(s)[j] != '<' && escaped(s)[j] != '>',
    decreases s.len(),
{
    if s.len() > 0 {
        lemma_escaped_has_no_brackets(s.drop_first());
        reveal_strlit("&lt;");
        reveal_strlit("&gt;");
        reveal_strlit("&amp;");
        let head = escaped_char(s[0]);
        let rest = escaped(s.drop_first());
        assert forall|j: int| 0 <= j < escaped(s).len() implies #[trigger] escaped(s)[j] != '<'
            && escaped(s)[j] != '>' by {
            if j < head.len() {
                assert(escaped(s)[j] == head[j]);
            } else {
                assert(escaped(s)[j] == rest[j - head.len()]);
            }
        }
    }
}

// ------------------------------------------------------------------------ cells
/// A text that can stand as an attribute as it is.
pub open spec fn is_plain(s: Seq<char>) -> bool {
    forall|j: int| 0 <= j < s.len() ==> #[trigger] s[j] != '"' && s[j] != '<'
}

/// A style that can stand in a tag as it is, or none.
pub open spec fn plain_style(style: Option<Seq<char>>) -> bool {
    match style {
        Some(s) => is_plain(s),
        None => true,
    }
}

/// A value whose text does not end its element: texts and formulas are escaped, and numbers hold no
/// angle bracket.
pub open spec fn plain_value(val: CellValue) -> bool {
    match val {
        CellValue::Num(n) => is_plain(n),
        _ => true,
    }
}

/// The attributes of a cell behind its place.
spec fn more_attrs(val: CellValue, style: Option<Seq<char>>) -> Seq<char> {
    (match style {
        Some(s) => " s=\""@ + s + "\""@,
        None => Seq::empty(),
    }) + (match val {
        CellValue::Text(_) => " t=\"inlineStr\""@,
        _ => Seq::empty(),
    })
}

/// What a cell holds between its tags.
spec fn cell_inner(val: CellValue) -> Seq<char> {
    match val {
        CellValue::Num(n) => "<v>"@ + number_text(n) + "</v>"@,
        CellValue::Text(t) => "<is><t xml:space=\"preserve\">"@ + escaped(t) + "</t></is>"@,
        CellValue::Formula(f) => "<f>"@ + escaped(f) + "</f>"@,
    }
}

/// The pieces that a cell is made of.
#[verifier::rlimit(40)]
proof fn lemma_cell_pieces(col: nat, row: nat, val: CellValue, style: Option<Seq<char>>)
    ensures
        cell_text(col, row, val, style) == "<c r=\""@ + (col_name(col) + decimal(row)) + "\""@
            + more_attrs(val, style) + ">"@ + cell_inner(val) + "</c>"@,
{
    reveal_strlit("><v>");
    reveal_strlit("</v></c>");
    reveal_strlit(" t=\"inlineStr\"><is><t xml:space=\"preserve\">");
    reveal_strlit("</t></is></c>");
    reveal_strlit("><f>");
    reveal_strlit("</f></c>");
    reveal_strlit(">");
    reveal_strlit("<v>");
    reveal_strlit("</v>");
    reveal_strlit("</c>");
    reveal_strlit("<f>");
    reveal_strlit("</f>");
    reveal_strlit(" t=\"inlineStr\"");
    reveal_strlit("<is><t xml:space=\"preserve\">");
    reveal_strlit("</t></is>");
    let a = cell_text(col, row, val, style);
    let b = "<c r=\""@ + (col_name(col) + decimal(row)) + "\""@ + more_attrs(val, style) + ">"@
        + cell_inner(val) + "</c>"@;
    match val {
        CellValue::Num(n) => {
            assert("><v>"@ =~= ">"@ + "<v>"@);
            assert("</v></c>"@ =~= "</v>"@ + "</c>"@);
        },
        CellValue::Text(t) => {
            assert(" t=\"inlineStr\"><is><t xml:space=\"preserve\">"@ =~= " t=\"inlineStr\""@ + ">"@
                + "<is><t xml:space=\"preserve\">"@);
            assert("</t></is></c>"@ =~= "</t></is>"@ + "</c>"@);
        },
        CellValue::Formula(f) => {
            assert("><f>"@ =~= ">"@ + "<f>"@);
            assert("</f></c>"@ =~= "</f>"@ + "</c>"@);
        },
    }
    assert(a =~= b);
}

/// An attribute of a one-letter name with a value between quotation marks is passed over.
proof fn lemma_gt_attr(b: Seq<u8>, at: int, n: int)
    requires
        0 <= at,
        0 <= n,
        at + 5 + n <= b.len(),
        b[at] == 32,
        b[at + 1] != 34 && b[at + 1] != 39 && b[at + 1] != 62,
        b[at + 2] == 61,
        b[at + 3] == 34,
        forall|k: int| at + 4 <= k < at + 4 + n ==> #[trigger] b[k] != 34,
        b[at + 4 + n] == 34,
    ensures
        gt_from(b, at, None) == gt_from(b, at + 5 + n, None),
{
    lemma_gt_plain(b, at, at + 3);
    assert(gt_from(b, at + 3, None) == gt_from(b, at + 4, Some(34u8)));
    lemma_gt_quoted(b, at + 4, at + 4 + n);
}

/// The bytes of the pieces that do not depend on the cell.
proof fn lemma_literals()
    ensures
        bytes("<c r=\""@) == seq![60u8, 99, 32, 114, 61, 34],
        bytes("\""@) == seq![34u8],
        bytes(">"@) == seq![62u8],
        bytes("</c>"@) == seq![60u8, 47, 99, 62],
        bytes(" s=\""@) == seq![32u8, 115, 61, 34],
        bytes("c"@) == seq![99u8],
        bytes("f"@) == seq![102u8],
        bytes("<f"@) == seq![60u8, 102],
        bytes("<f>"@) == seq![60u8, 102, 62],
        bytes("</f>"@) == seq![60u8, 47, 102, 62],
        bytes("<v>"@) == seq![60u8, 118, 62],
        bytes("</v>"@) == seq![60u8, 47, 118, 62],
        bytes("</t></is>"@) == seq![60u8, 47, 116, 62, 60, 47, 105, 115, 62],
{
    reveal_strlit("<c r=\"");
    reveal_strlit("\"");
    reveal_strlit(">");
    reveal_strlit("</c>");
    reveal_strlit(" s=\"");
    reveal_strlit("c");
    reveal_strlit("f");
    reveal_strlit("<f");
    reveal_strlit("<f>");
    reveal_strlit("</f>");
    reveal_strlit("<v>");
    reveal_strlit("</v>");
    reveal_strlit("</t></is>");
    lemma_encode_ascii("<c r=\""@);
    lemma_encode_ascii("\""@);
    lemma_encode_ascii(">"@);
    lemma_encode_ascii("</c>"@);
    lemma_encode_ascii(" s=\""@);
    lemma_encode_ascii("c"@);
    lemma_encode_ascii("f"@);
    lemma_encode_ascii("<f"@);
    lemma_encode_ascii("<f>"@);
    lemma_encode_ascii("</f>"@);
    lemma_encode_ascii("<v>"@);
    lemma_encode_ascii("</v>"@);
    lemma_encode_ascii("</t></is>"@);
    assert(bytes("<c r=\""@) =~= seq![60u8, 99, 32, 114, 61, 34]);
    assert(bytes("\""@) =~= seq![34u8]);
    assert(bytes(">"@) =~= seq![62u8]);
    assert(bytes("</c>"@) =~= seq![60u8, 47, 99, 62]);
    assert(bytes(" s=\""@) =~= seq![32u8, 115, 61, 34]);
    assert(bytes("c"@) =~= seq![99u8]);
    assert(bytes("f"@) =~= seq![102u8]);
    assert(bytes("<f"@) =~= seq![60u8, 102]);
    assert(bytes("<f>"@) =~= seq![60u8, 102, 62]);
    assert(bytes("</f>"@) =~= seq![60u8, 47, 102, 62]);
    assert(bytes("<v>"@) =~= seq![60u8, 118, 62]);
    assert(bytes("</v>"@) =~= seq![60u8, 47, 118, 62]);
    assert(bytes("</t></is>"@) =~= seq![60u8, 47, 116, 62, 60, 47, 105, 115, 62]);
}

/// The attribute that marks a text.
proof fn lemma_text_attr()
    ensures
        bytes(" t=\"inlineStr\""@).len() == 14,
        forall|k: int|
            4 <= k < 13 ==> #[trigger] bytes(" t=\"inlineStr\""@)[k] != 34 && bytes(
                " t=\"inlineStr\""@,
            )[k] != 60,
        bytes(" t=\"inlineStr\""@)[0] == 32,
        bytes(" t=\"inlineStr\""@)[1] == 116,
        bytes(" t=\"inlineStr\""@)[2] == 61,
        bytes(" t=\"inlineStr\""@)[3] == 34,
        bytes(" t=\"inlineStr\""@)[13] == 34,
{
    reveal_strlit(" t=\"inlineStr\"");
    lemma_encode_ascii(" t=\"inlineStr\""@);
}

/// The tags around a text hold no slash and end with `>`.
proof fn lemma_text_open()
    ensures
        bytes("<is><t xml:space=\"preserve\">"@).len() == 28,
        forall|k: int|
            0 <= k < 28 ==> #[trigger] bytes("<is><t xml:space=\"preserve\">"@)[k] != 47,
        bytes("<is><t xml:space=\"preserve\">"@)[27] == 62,
{
    reveal_strlit("<is><t xml:space=\"preserve\">");
    lemma_encode_ascii("<is><t xml:space=\"preserve\">"@);
}

/// The bytes of the attributes behind the place: how long they are, that the scan for `>` passes
/// over them, that they end with a quotation mark or are empty, and that they hold no `<`.
#[verifier::spinoff_prover]
#[verifier::rlimit(60)]
proof fn lemma_more_attrs(b: Seq<u8>, at: int, val: CellValue, style: Option<Seq<char>>)
    requires
        0 <= at,
        plain_style(style),
        at + bytes(more_attrs(val, style)).len() <= b.len(),
        b.subrange(at, at + bytes(more_attrs(val, style)).len()) == bytes(more_attrs(val, style)),
    ensures
        gt_from(b, at, None) == gt_from(b, at + bytes(more_attrs(val, style)).len(), None),
        bytes(more_attrs(val, style)).len() > 0 ==> bytes(more_attrs(val, style)).last() == 34,
        forall|k: int|
            0 <= k < bytes(more_attrs(val, style)).len() ==> #[trigger] bytes(
                more_attrs(val, style),
            )[k] != 60,
{
    lemma_literals();
    lemma_text_attr();
    let all = bytes(more_attrs(val, style));
    let first = match style {
        Some(s) => " s=\""@ + s + "\""@,
        None => Seq::empty(),
    };
    let second = match val {
        CellValue::Text(_) => " t=\"inlineStr\""@,
        _ => Seq::empty(),
    };
    lemma_encode_concat(first, second);
    let x = bytes(first);
    let y = bytes(second);
    assert(all == x + y);
    assert forall|k: int| 0 <= k < all.len() implies b[at + k] == #[trigger] all[k] by {
        assert(b.subrange(at, at + all.len())[k] == b[at + k]);
    }
    if let Some(s) = style {
        lemma_encode_concat(" s=\""@ + s, "\""@);
        lemma_encode_concat(" s=\""@, s);
        assert(x == bytes(" s=\""@) + bytes(s) + bytes("\""@));
        lemma_no_byte(s, 34);
        lemma_no_byte(s, 60);
        let n = bytes(s).len() as int;
        assert forall|k: int| 0 <= k < n implies #[trigger] x[k + 4] == bytes(s)[k] by {}
        assert(x.len() == n + 5);
        assert(x[0] == 32 && x[1] == 115 && x[2] == 61 && x[3] == 34 && x[n + 4] == 34);
        assert forall|k: int| 0 <= k < x.len() implies #[trigger] x[k] != 60 by {
            if 4 <= k < n + 4 {
                assert(x[k] == bytes(s)[k - 4]);
            }
        }
        assert(all[0] == x[0] && all[1] == x[1] && all[2] == x[2] && all[3] == x[3]);
        assert(all[n + 4] == x[n + 4]);
        assert forall|k: int| at + 4 <= k < at + 4 + n implies #[trigger] b[k] != 34 by {
            assert(b[at + (k - at)] == all[k - at]);
            assert(all[k - at] == x[k - at]);
            assert(x[k - at] == bytes(s)[k - at - 4]);
        }
        assert(b[at] == all[0] && b[at + 1] == all[1] && b[at + 2] == all[2] && b[at + 3] == all[3]
            && b[at + (n + 4)] == all[n + 4]);
        lemma_gt_attr(b, at, n);
    } else {
        assert(x =~= Seq::<u8>::empty());
    }
    let mid = at + x.len();
    if let CellValue::Text(_) = val {
        assert forall|k: int| 0 <= k < 14 implies b[mid + k] == #[trigger] y[k] by {
            assert(all[x.len() + k] == y[k]);
            assert(b[at + (x.len() + k)] == all[x.len() + k]);
        }
        assert forall|k: int| mid + 4 <= k < mid + 13 implies #[trigger] b[k] != 34 by {
            assert(b[mid + (k - mid)] == y[k - mid]);
        }
        assert(y[0] == 32 && y[1] == 116 && y[2] == 61 && y[3] == 34 && y[13] == 34);
        lemma_gt_attr(b, mid, 9);
    } else {
        assert(y =~= Seq::<u8>::empty());
    }
    assert forall|k: int| 0 <= k < all.len() implies #[trigger] all[k] != 60 by {
        if k < x.len() {
            assert(all[k] == x[k]);
        } else {
            assert(all[k] == y[k - x.len()]);
            if k - x.len() < 4 || k - x.len() == 13 {
            } else {
                assert(bytes(" t=\"inlineStr\""@)[k - x.len()] != 60);
            }
        }
    }
}

/// What stands between the tags of a cell: opening marks without a slash, a middle without `<`, and
/// closing marks of other elements.
proof fn lemma_inner(val: CellValue) -> (r: (Seq<u8>, Seq<u8>, Seq<u8>))
    requires
        plain_value(val),
    ensures
        bytes(cell_inner(val)) == r.0 + r.1 + r.2,
        r.0.len() > 0,
        r.0.last() == 62,
        forall|k: int| 0 <= k < r.0.len() ==> #[trigger] r.0[k] != 47,
        forall|k: int| 0 <= k < r.1.len() ==> #[trigger] r.1[k] != 60,
        forall|k: int|
            0 <= k < r.2.len() && #[trigger] r.2[k] == 60 ==> k + 2 < r.2.len() && r.2[k + 2] != 99
                && r.2[k + 2] != 114 && r.2[k + 2] != 115,
        val matches CellValue::Formula(f) ==> r == (
            bytes("<f>"@),
            bytes(escaped(f)),
            bytes("</f>"@),
        ),
{
    lemma_literals();
    lemma_text_open();
    let (x, m, y) = match val {
        CellValue::Num(n) => ("<v>"@, number_text(n), "</v>"@),
        CellValue::Text(t) => (
            "<is><t xml:space=\"preserve\">"@,
            escaped(t),
            "</t></is>"@,
        ),
        CellValue::Formula(f) => ("<f>"@, escaped(f), "</f>"@),
    };
    lemma_encode_concat(x + m, y);
    lemma_encode_concat(x, m);
    assert(cell_inner(val) =~= x + m + y);
    match val {
        CellValue::Num(n) => {
            reveal_strlit("0");
            assert forall|j: int| 0 <= j < m.len() implies #[trigger] m[j] as int != 60 by {}
        },
        CellValue::Text(t) => {
            lemma_escaped_has_no_brackets(t);
        },
        CellValue::Formula(f) => {
            lemma_escaped_has_no_brackets(f);
        },
    }
    assert forall|j: int| 0 <= j < m.len() implies #[trigger] m[j] as int != 60 by {}
    lemma_no_byte(m, 60);
    (bytes(x), bytes(m), bytes(y))
}

/// A place such as `AB12` is written with letters and digits only.
proof fn lemma_place_bytes(col: nat, row: nat)
    ensures
        forall|k: int|
            0 <= k < bytes(col_name(col) + decimal(row)).len() ==> #[trigger] bytes(
                col_name(col) + decimal(row),
            )[k] != 34 && bytes(col_name(col) + decimal(row))[k] != 60,
        unescaped(col_name(col) + decimal(row)) == col_name(col) + decimal(row),
{
    let s = col_name(col) + decimal(row);
    lemma_col_name(col);
    lemma_decimal(row);
    assert forall|j: int| 0 <= j < s.len() implies #[trigger] s[j] != '"' && s[j] != '<' && s[j]
        != '&' by {
        if j < col_name(col).len() {
            assert(letter_place(col_name(col)[j]) is Some);
        } else {
            assert(is_digit(decimal(row)[j - col_name(col).len()]));
        }
    }
    lemma_no_byte(s, 34);
    lemma_no_byte(s, 60);
    lemma_unescape_plain(s);
}

/// The pieces of a cell as bytes.
proof fn lemma_cell_bytes(col: nat, row: nat, val: CellValue, style: Option<Seq<char>>)
    ensures
        bytes(cell_text(col, row, val, style)) == bytes("<c r=\""@) + bytes(
            col_name(col) + decimal(row),
        ) + bytes("\""@) + bytes(more_attrs(val, style)) + bytes(">"@) + bytes(cell_inner(val))
            + bytes("</c>"@),
{
    lemma_cell_pieces(col, row, val, style);
    let place = col_name(col) + decimal(row);
    let a = "<c r=\""@ + place;
    let b = a + "\""@;
    let c = b + more_attrs(val, style);
    let d = c + ">"@;
    let e = d + cell_inner(val);
    lemma_encode_concat("<c r=\""@, place);
    lemma_encode_concat(a, "\""@);
    lemma_encode_concat(b, more_attrs(val, style));
    lemma_encode_concat(c, ">"@);
    lemma_encode_concat(d, cell_inner(val));
    lemma_encode_concat(e, "</c>"@);
}

/// What stands at a place still stands there when bytes are put behind.
proof fn lemma_extend(s: Seq<u8>, t: Seq<u8>, at: int, piece: Seq<u8>)
    requires
        0 <= at,
        is_at(s, at, piece),
    ensures
        is_at(s + t, at, piece),
{
    assert((s + t).subrange(at, at + piece.len()) =~= s.subrange(at, at + piece.len()));
}

/// What is put behind stands there.
proof fn lemma_append(s: Seq<u8>, piece: Seq<u8>)
    ensures
        is_at(s + piece, s.len() as int, piece),
{
    assert((s + piece).subrange(s.len() as int, (s.len() + piece.len()) as int) =~= piece);
}

/// The bytes of what stands at a place.
proof fn lemma_at_bytes(b: Seq<u8>, at: int, piece: Seq<u8>)
    requires
        0 <= at,
        is_at(b, at, piece),
    ensures
        at + piece.len() <= b.len(),
        forall|k: int| 0 <= k < piece.len() ==> b[at + k] == #[trigger] piece[k],
        at == 0 ==> forall|k: int| 0 <= k < piece.len() ==> b[k] == #[trigger] piece[k],
{
    assert forall|k: int| 0 <= k < piece.len() implies b[at + k] == #[trigger] piece[k] by {
        assert(b.subrange(at, at + piece.len())[k] == b[at + k]);
    }
}

/// The pieces of a cell stand one behind the other.
spec fn is_laid_out(b: Seq<u8>, place: Seq<u8>, attrs: Seq<u8>, inner: Seq<u8>) -> bool {
    let n = place.len() as int;
    let g = 7 + n + attrs.len();
    &&& is_at(b, 0, bytes("<c r=\""@))
    &&& is_at(b, 6, place)
    &&& is_at(b, 6 + n, bytes("\""@))
    &&& is_at(b, 7 + n, attrs)
    &&& is_at(b, g, bytes(">"@))
    &&& is_at(b, g + 1, inner)
    &&& is_at(b, g + 1 + inner.len(), bytes("</c>"@))
}

proof fn lemma_laid_out(
    col: nat,
    row: nat,
    val: CellValue,
    style: Option<Seq<char>>,
    rest: Seq<u8>,
)
    ensures
        is_laid_out(
            bytes(cell_text(col, row, val, style)) + rest,
            bytes(col_name(col) + decimal(row)),
            bytes(more_attrs(val, style)),
            bytes(cell_inner(val)),
        ),
        bytes(cell_text(col, row, val, style)).len() == 12 + bytes(
            col_name(col) + decimal(row),
        ).len() + bytes(more_attrs(val, style)).len() + bytes(cell_inner(val)).len(),
{
    lemma_cell_bytes(col, row, val, style);
    lemma_literals();
    let h = bytes("<c r=\""@);
    let place = bytes(col_name(col) + decimal(row));
    let q = bytes("\""@);
    let attrs = bytes(more_attrs(val, style));
    let gt = bytes(">"@);
    let inner = bytes(cell_inner(val));
    let end = bytes("</c>"@);
    let s2 = h + place;
    let s3 = s2 + q;
    let s4 = s3 + attrs;
    let s5 = s4 + gt;
    let s6 = s5 + inner;
    let s7 = s6 + end;
    assert(h.subrange(0, 6) =~= h);
    lemma_extend(h, place, 0, h);
    lemma_append(h, place);
    lemma_extend(s2, q, 0, h);
    lemma_extend(s2, q, 6, place);
    lemma_append(s2, q);
    let n = place.len() as int;
    lemma_extend(s3, attrs, 0, h);
    lemma_extend(s3, attrs, 6, place);
    lemma_extend(s3, attrs, 6 + n, q);
    lemma_append(s3, attrs);
    let g = 7 + n + attrs.len();
    lemma_extend(s4, gt, 0, h);
    lemma_extend(s4, gt, 6, place);
    lemma_extend(s4, gt, 6 + n, q);
    lemma_extend(s4, gt, 7 + n, attrs);
    lemma_append(s4, gt);
    lemma_extend(s5, inner, 0, h);
    lemma_extend(s5, inner, 6, place);
    lemma_extend(s5, inner, 6 + n, q);
    lemma_extend(s5, inner, 7 + n, attrs);
    lemma_extend(s5, inner, g, gt);
    lemma_append(s5, inner);
    lemma_extend(s6, end, 0, h);
    lemma_extend(s6, end, 6, place);
    lemma_extend(s6, end, 6 + n, q);
    lemma_extend(s6, end, 7 + n, attrs);
    lemma_extend(s6, end, g, gt);
    lemma_extend(s6, end, g + 1, inner);
    lemma_append(s6, end);
    lemma_extend(s7, rest, 0, h);
    lemma_extend(s7, rest, 6, place);
    lemma_extend(s7, rest, 6 + n, q);
    lemma_extend(s7, rest, 7 + n, attrs);
    lemma_extend(s7, rest, g, gt);
    lemma_extend(s7, rest, g + 1, inner);
    lemma_extend(s7, rest, g + 1 + inner.len(), end);
}

/// No comment and no character data start where another byte than `!` follows.
proof fn lemma_no_mark(b: Seq<u8>, at: int)
    requires
        0 <= at,
        at + 1 < b.len(),
        b[at + 1] != 33,
    ensures
        !is_at(b, at, bytes("<!--"@)),
        !is_at(b, at, bytes("<![CDATA["@)),
{
    reveal_strlit("<!--");
    reveal_strlit("<![CDATA[");
    lemma_encode_ascii("<!--"@);
    lemma_encode_ascii("<![CDATA["@);
    assert(bytes("<!--"@)[1] == 33);
    assert(bytes("<![CDATA["@)[1] == 33);
    if is_at(b, at, bytes("<!--"@)) {
        lemma_at_bytes(b, at, bytes("<!--"@));
    }
    if is_at(b, at, bytes("<![CDATA["@)) {
        lemma_at_bytes(b, at, bytes("<![CDATA["@));
    }
}

/// A tag whose end is known is found where it starts.
proof fn lemma_tag_here(b: Seq<u8>, at: int, gt: int)
    requires
        0 <= at,
        at + 1 < b.len(),
        b[at] == 60,
        b[at + 1] != 33,
        gt_from(b, at, None) == Some(gt),
    ensures
        tag_from(b, at) == Some(tag_between(b, at, gt)),
{
    lemma_marks();
    lemma_no_mark(b, at);
    assert(b.subrange(at, at + 1) =~= seq![60u8]);
    assert(find_from(b, at, seq![60u8]) == Some(at));
}

/// The end of the opening tag of a cell that is laid out.
proof fn lemma_cell_gt(
    b: Seq<u8>,
    place: Seq<u8>,
    val: CellValue,
    style: Option<Seq<char>>,
    inner: Seq<u8>,
)
    requires
        is_laid_out(b, place, bytes(more_attrs(val, style)), inner),
        plain_style(style),
        forall|k: int| 0 <= k < place.len() ==> #[trigger] place[k] != 34 && place[k] != 60,
    ensures
        ({
            let g = (7 + place.len() + bytes(more_attrs(val, style)).len()) as int;
            &&& gt_from(b, 0, None) == Some(g)
            &&& b[g - 1] == 34
            &&& forall|k: int| 1 <= k <= g ==> #[trigger] b[k] != 60
        }),
{
    lemma_literals();
    let attrs = bytes(more_attrs(val, style));
    let n = place.len() as int;
    let g = 7 + n + attrs.len();
    lemma_at_bytes(b, 0, bytes("<c r=\""@));
    lemma_at_bytes(b, 6, place);
    lemma_at_bytes(b, 6 + n, bytes("\""@));
    lemma_at_bytes(b, 7 + n, attrs);
    lemma_at_bytes(b, g, bytes(">"@));
    let h = bytes("<c r=\""@);
    assert(b[0] == h[0] && b[1] == h[1] && b[2] == h[2] && b[3] == h[3] && b[4]
        == h[4] && b[5] == h[5]);
    assert(b[6 + n + 0] == bytes("\""@)[0]);
    assert(b[g + 0] == bytes(">"@)[0]);
    lemma_gt_plain(b, 0, 5);
    assert(gt_from(b, 5, None) == gt_from(b, 6, Some(34u8)));
    assert forall|k: int| 6 <= k < 6 + n implies #[trigger] b[k] != 34 && b[k] != 60 by {
        assert(b[6 + (k - 6)] == place[k - 6]);
    }
    lemma_gt_quoted(b, 6, 6 + n);
    lemma_more_attrs(b, 7 + n, val, style);
    assert(gt_from(b, g, None) == Some(g));
    assert forall|k: int| 7 + n <= k < g implies #[trigger] b[k] == attrs[k - 7 - n] by {
        assert(b[7 + n + (k - 7 - n)] == attrs[k - 7 - n]);
    }
    if attrs.len() > 0 {
        assert(b[g - 1] == attrs[attrs.len() - 1]);
    }
}

/// The place that the opening tag of a cell names.
proof fn lemma_cell_place(b: Seq<u8>, place: Seq<char>, g: int)
    requires
        is_at(b, 0, bytes("<c r=\""@)),
        is_at(b, 6, bytes(place)),
        is_at(b, (6 + bytes(place).len()) as int, bytes("\""@)),
        7 + bytes(place).len() <= g < b.len(),
        forall|k: int| 0 <= k < bytes(place).len() ==> #[trigger] bytes(place)[k] != 34,
        unescaped(place) == place,
    ensures
        attr_of(b.subrange(1, g), "r"@) == Some(place),
{
    lemma_literals();
    let p = bytes(place);
    let n = p.len() as int;
    let inner = b.subrange(1, g);
    let h = bytes("<c r=\""@);
    lemma_at_bytes(b, 0, h);
    lemma_at_bytes(b, 6, p);
    lemma_at_bytes(b, 6 + n, bytes("\""@));
    assert(b[1] == h[1] && b[2] == h[2] && b[3] == h[3] && b[4] == h[4] && b[5]
        == h[5]);
    assert(b[6 + n + 0] == bytes("\""@)[0]);
    assert(inner[0] == 99 && inner[1] == 32 && inner[2] == 114 && inner[3] == 61 && inner[4] == 34);
    reveal_strlit("r");
    reveal_strlit("=");
    let needle = bytes("r"@ + "="@);
    lemma_encode_ascii("r"@ + "="@);
    assert(needle =~= seq![114u8, 61]);
    assert(inner.subrange(0, 2)[0] == 99);
    assert(inner.subrange(1, 3)[0] == 32);
    assert(inner.subrange(2, 4) =~= needle);
    assert(find_from(inner, 2, needle) == Some(2int));
    assert(find_from(inner, 1, needle) == Some(2int));
    assert(find_from(inner, 0, needle) == Some(2int));
    let quote = seq![34u8];
    assert forall|q: int| 5 <= q < 5 + n implies #[trigger] inner.subrange(q, q + 1) != quote by {
        assert(inner.subrange(q, q + 1)[0] == b[q + 1]);
        assert(b[6 + (q - 5)] == p[q - 5]);
    }
    lemma_pass_over(inner, 5, 5 + n, quote);
    assert(inner.subrange(5 + n, 6 + n) =~= quote);
    assert(find_from(inner, 5 + n, quote) == Some(5 + n));
    assert(inner.subrange(5, 5 + n) =~= p) by {
        assert forall|k: int| 0 <= k < n implies #[trigger] inner.subrange(5, 5 + n)[k] == p[k] by {
            assert(b[6 + k] == p[k]);
        }
    }
    lemma_lossy_encode(place);
}

/// The closing tag of a cell that is laid out.
proof fn lemma_cell_close(
    b: Seq<u8>,
    at: int,
    inner: Seq<u8>,
    x: Seq<u8>,
    m: Seq<u8>,
    y: Seq<u8>,
)
    requires
        0 <= at,
        is_at(b, at, inner),
        is_at(b, at + inner.len(), bytes("</c>"@)),
        inner == x + m + y,
        x.len() > 0,
        x.last() == 62,
        forall|k: int| 0 <= k < x.len() ==> #[trigger] x[k] != 47,
        forall|k: int| 0 <= k < m.len() ==> #[trigger] m[k] != 60,
        forall|k: int|
            0 <= k < y.len() && #[trigger] y[k] == 60 ==> k + 2 < y.len() && y[k + 2] != 99,
    ensures
        find_from(b, at, bytes("</c>"@)) == Some(at + inner.len()),
{
    lemma_literals();
    let close = bytes("</c>"@);
    let to = at + inner.len();
    lemma_at_bytes(b, at, inner);
    assert forall|p: int| at <= p < to implies #[trigger] b.subrange(p, p + 4) != close by {
        if b.subrange(p, p + 4) == close {
            assert(b.subrange(p, p + 4)[0] == b[p]);
            assert(b.subrange(p, p + 4)[1] == b[p + 1]);
            assert(b.subrange(p, p + 4)[2] == b[p + 2]);
            let k = p - at;
            assert(b[at + k] == inner[k]);
            if k < x.len() {
                assert(inner[k] == x[k]);
                if k + 1 < x.len() {
                    assert(b[at + (k + 1)] == inner[k + 1]);
                    assert(inner[k + 1] == x[k + 1]);
                } else {
                    assert(x[k] == x.last());
                }
            } else if k < x.len() + m.len() {
                assert(inner[k] == m[k - x.len()]);
            } else {
                let j = k - x.len() - m.len();
                assert(inner[k] == y[j]);
                assert(b[at + (k + 2)] == inner[k + 2]);
                assert(inner[k + 2] == y[j + 2]);
            }
        }
    }
    lemma_pass_over(b, at, to, close);
}

/// A cell that is written is found again: at its start stands the tag of a cell that names its column
/// and its row, and the element that the tag opens is the cell, whatever stands behind it.
#[verifier::rlimit(40)]
pub proof fn law_written_cell_is_found(
    col: nat,
    row: nat,
    val: CellValue,
    style: Option<Seq<char>>,
    rest: Seq<u8>,
)
    requires
        1 <= col <= 18278,
        row <= u32::MAX,
        plain_style(style),
        plain_value(val),
    ensures
        ({
            let cell = bytes(cell_text(col, row, val, style));
            let b = cell + rest;
            &&& tag_from(b, 0) matches Some(t)
            &&& t.at == 0 && t.name == "c"@ && !t.closing && !t.self_closing
            &&& cell_ref(b, t) == Some((col, row))
            &&& span_of(b, t) == Some((0int, cell.len() as int))
        }),
{
    let cell = bytes(cell_text(col, row, val, style));
    let b = cell + rest;
    let place = col_name(col) + decimal(row);
    let attrs = bytes(more_attrs(val, style));
    let inner = bytes(cell_inner(val));
    let g = (7 + bytes(place).len() + attrs.len()) as int;
    lemma_laid_out(col, row, val, style, rest);
    lemma_place_bytes(col, row);
    lemma_cell_gt(b, bytes(place), val, style, inner);
    lemma_literals();
    let h = bytes("<c r=\""@);
    lemma_at_bytes(b, 0, h);
    assert(b[0] == h[0] && b[1] == h[1] && b[2] == h[2]);
    lemma_tag_here(b, 0, g);
    assert(word_end(b, 1, g) == 2) by {
        assert(word_end(b, 2, g) == 2);
    }
    assert(b.subrange(1, 2) =~= bytes("c"@));
    lemma_lossy_encode("c"@);
    lemma_cell_place(b, place, g);
    law_reference_read_back(col, row);
    let (x, m, y) = lemma_inner(val);
    lemma_cell_close(b, g + 1, inner, x, m, y);
    assert(close_mark("c"@) == bytes("</c>"@)) by {
        reveal_strlit("</");
        reveal_strlit("c");
        reveal_strlit(">");
        reveal_strlit("</c>");
        assert("</"@ + "c"@ + ">"@ =~= "</c>"@);
    }
}

/// A formula that is written is read back from its cell.
#[verifier::rlimit(40)]
pub proof fn law_written_formula_is_read(
    col: nat,
    row: nat,
    f: Seq<char>,
    style: Option<Seq<char>>,
)
    requires
        1 <= col <= 18278,
        row <= u32::MAX,
        plain_style(style),
    ensures
        formula_in(bytes(cell_text(col, row, CellValue::Formula(f), style))) == Some(f),
{
    let val = CellValue::Formula(f);
    let none = Seq::<u8>::empty();
    let b = bytes(cell_text(col, row, val, style));
    let place = bytes(col_name(col) + decimal(row));
    let attrs = bytes(more_attrs(val, style));
    let inner = bytes(cell_inner(val));
    let at = (8 + place.len() + attrs.len()) as int;
    lemma_laid_out(col, row, val, style, none);
    assert(b + none =~= b);
    lemma_place_bytes(col, row);
    lemma_cell_gt(b, place, val, style, inner);
    lemma_literals();
    lemma_at_bytes(b, 0, bytes("<c r=\""@));
    assert(b[1] == bytes("<c r=\""@)[1]);
    let (x, m, y) = lemma_inner(val);
    lemma_formula_text(b, at, x, m, y, inner);
    assert(b.subrange(at + 3, at + 3 + m.len()) =~= bytes(escaped(f)));
    lemma_lossy_encode(escaped(f));
    law_unescape_undoes_escape(f);
}

/// The formula of a cell whose first element is one.
#[verifier::rlimit(40)]
proof fn lemma_formula_text(
    b: Seq<u8>,
    at: int,
    x: Seq<u8>,
    m: Seq<u8>,
    y: Seq<u8>,
    inner: Seq<u8>,
)
    requires
        2 <= at,
        b[1] == 99,
        forall|k: int| 1 <= k < at ==> #[trigger] b[k] != 60,
        is_at(b, at, inner),
        inner == x + m + y,
        x == bytes("<f>"@),
        y == bytes("</f>"@),
        forall|k: int| 0 <= k < m.len() ==> #[trigger] m[k] != 60,
    ensures
        b.subrange(at + 3, at + 3 + m.len()) == m,
        formula_in(b) == Some(unescaped(lossy(m))),
{
    lemma_literals();
    lemma_at_bytes(b, at, inner);
    let open = bytes("<f"@);
    assert(inner[0] == x[0] && inner[1] == x[1] && inner[2] == x[2]);
    assert(b[at + 0] == inner[0] && b[at + 1] == inner[1] && b[at + 2] == inner[2]);
    assert forall|p: int| 0 <= p < at implies #[trigger] b.subrange(p, p + 2) != open by {
        assert(b.subrange(p, p + 2)[0] == b[p]);
        assert(b.subrange(p, p + 2)[1] == b[p + 1]);
    }
    lemma_pass_over(b, 0, at, open);
    assert(b.subrange(at, at + 2) =~= open);
    assert(find_from(b, at, open) == Some(at));
    lemma_gt_plain(b, at, at + 2);
    assert(gt_from(b, at + 2, None) == Some(at + 2));
    lemma_tag_here(b, at, at + 2);
    assert(word_end(b, at + 1, at + 2) == at + 2) by {
        assert(word_end(b, at + 2, at + 2) == at + 2);
    }
    assert(b.subrange(at + 1, at + 2) =~= bytes("f"@));
    lemma_lossy_encode("f"@);
    let close = bytes("</f>"@);
    let from = at + 3;
    let to = from + m.len();
    assert forall|k: int| 0 <= k < m.len() implies #[trigger] b[from + k] == m[k] by {
        assert(b[at + (3 + k)] == inner[3 + k]);
        assert(inner[3 + k] == m[k]);
    }
    assert forall|k: int| 0 <= k < 4 implies #[trigger] b[to + k] == close[k] by {
        assert(b[at + (3 + m.len() + k)] == inner[3 + m.len() + k]);
        assert(inner[3 + m.len() + k] == y[k]);
    }
    assert forall|p: int| from <= p < to implies #[trigger] b.subrange(p, p + 4) != close by {
        assert(b.subrange(p, p + 4)[0] == b[p]);
        assert(b[from + (p - from)] == m[p - from]);
    }
    lemma_pass_over(b, from, to, close);
    assert(b.subrange(to, to + 4) =~= close) by {
        assert(b[to + 0] == close[0] && b[to + 1] == close[1] && b[to + 2] == close[2] && b[to + 3]
            == close[3]);
    }
    assert(find_from(b, to, close) == Some(to));
    assert(b.subrange(from, to) =~= m) by {
        assert forall|k: int| 0 <= k < m.len() implies #[trigger] b.subrange(from, to)[k]
            == m[k] by {
            assert(b[from + k] == m[k]);
        }
    }
}

/// A written cell starts with the tag of a cell and ends with an angle bracket, and no closing tag
/// in it starts with `r` or `s`.
#[verifier::rlimit(40)]
pub proof fn lemma_written_cell_marks(
    col: nat,
    row: nat,
    val: CellValue,
    style: Option<Seq<char>>,
)
    requires
        plain_style(style),
        plain_value(val),
    ensures
        ({
            let c = bytes(cell_text(col, row, val, style));
            &&& c.len() >= 12
            &&& c[0] == 60 && c[1] == 99
            &&& c.last() == 62
            &&& forall|k: int|
                0 <= k && k + 2 < c.len() && #[trigger] c[k] == 60 && c[k + 1] == 47 ==> c[k + 2]
                    != 114 && c[k + 2] != 115
        }),
{
    let none = Seq::<u8>::empty();
    let c = bytes(cell_text(col, row, val, style));
    let place = bytes(col_name(col) + decimal(row));
    let attrs = bytes(more_attrs(val, style));
    let inner = bytes(cell_inner(val));
    let g = (7 + place.len() + attrs.len()) as int;
    lemma_laid_out(col, row, val, style, none);
    assert(c + none =~= c);
    lemma_place_bytes(col, row);
    lemma_cell_gt(c, place, val, style, inner);
    lemma_literals();
    lemma_at_bytes(c, 0, bytes("<c r=\""@));
    lemma_at_bytes(c, g, bytes(">"@));
    lemma_at_bytes(c, g + 1, inner);
    let last = g + 1 + inner.len();
    lemma_at_bytes(c, last, bytes("</c>"@));
    assert(c[0int + 0] == bytes("<c r=\""@)[0]);
    assert(c[0int + 1] == bytes("<c r=\""@)[1]);
    assert(c[g + 0] == bytes(">"@)[0]);
    assert(c[last + 0] == bytes("</c>"@)[0]);
    assert(c[last + 1] == bytes("</c>"@)[1]);
    assert(c[last + 2] == bytes("</c>"@)[2]);
    assert(c[last + 3] == bytes("</c>"@)[3]);
    let (x, m, y) = lemma_inner(val);
    assert forall|k: int|
        0 <= k && k + 2 < c.len() && #[trigger] c[k] == 60 && c[k + 1] == 47 implies c[k + 2]
        != 114 && c[k + 2] != 115 by {
        if g < k < last {
            let j = k - g - 1;
            assert(c[g + 1 + j] == inner[j]);
            if j < x.len() {
                assert(inner[j] == x[j]);
                if j + 1 < x.len() {
                    assert(c[g + 1 + (j + 1)] == inner[j + 1]);
                    assert(inner[j + 1] == x[j + 1]);
                }
            } else if j < x.len() + m.len() {
                assert(inner[j] == m[j - x.len()]);
            } else {
                let i = j - x.len() - m.len();
                assert(inner[j] == y[i]);
                assert(inner[j + 2] == y[i + 2]);
                assert(c[g + 1 + (j + 2)] == inner[j + 2]);
            }
        }
    }
}

} // verus!
