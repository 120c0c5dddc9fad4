//! A scanner for the XML of worksheets that works on bytes, so that whatever is not touched can be
//! kept byte for byte.
use std::collections::BTreeMap;
use vstd::prelude::*;
use vstd::slice::slice_subrange;
use vstd::utf8::*;
use crate::model::{col_name, col_to_num, col_value, lemma_col_name, letter_place, num_to_col};
use crate::xlsx::zipio::{lemma_part_from, part_from, parts, Entry, Part};
use crate::text::{
    bytes_of, chars_of, decimal, decimal_text, digit, find_from, has_prefix, is_digit, join2, join3,
    lemma_encode_ascii, lemma_decimal, lemma_encode_nonempty, lemma_find_from, lossy, lossy_text,
    push_bytes, push_text, read_u32, replace_all, replace_from, replaced, same_bytes, same_text,
    text_of, text_view, unsigned_value,
};

verus! {

/// A tag as it stands in the bytes.
pub struct TagInfo {
    pub name: String,
    pub closing: bool,
    pub self_closing: bool,
    /// The bytes between `<` and `>`, with the name, without the slash of a self-closing tag.
    pub inner: (usize, usize),
    /// The position behind `>`.
    pub after: usize,
}

/// A tag and where it starts.
pub ghost struct Tag {
    pub at: int,
    pub name: Seq<char>,
    pub closing: bool,
    pub self_closing: bool,
    pub inner: (int, int),
    pub after: int,
}

impl TagInfo {
    /// The tag that starts at `at` and has these properties.
    pub open spec fn at(&self, at: int) -> Tag {
        Tag {
            at,
            name: self.name@,
            closing: self.closing,
            self_closing: self.self_closing,
            inner: (self.inner.0 as int, self.inner.1 as int),
            after: self.after as int,
        }
    }
}

/// An optional position as a mathematical integer.
pub open spec fn place(r: Option<usize>) -> Option<int> {
    match r {
        Some(p) => Some(p as int),
        None => None,
    }
}

/// The bytes of a text.
pub open spec fn bytes(s: Seq<char>) -> Seq<u8> {
    encode_utf8(s)
}

/// Whether `pat` stands at position `at`.
pub open spec fn is_at(b: Seq<u8>, at: int, pat: Seq<u8>) -> bool {
    at + pat.len() <= b.len() && b.subrange(at, at + pat.len()) == pat
}

/// Blanks between attributes.
pub open spec fn is_blank(c: u8) -> bool {
    c == 32 || c == 9 || c == 13 || c == 10
}

/// Whether a byte is a blank.
pub(crate) fn blank(c: u8) -> (r: bool)
    ensures
        r == is_blank(c),
{
    c == 32 || c == 9 || c == 13 || c == 10
}

/// Whether `pat` stands at position `at`.
pub fn bytes_at(b: &[u8], at: usize, pat: &[u8]) -> (r: bool)
    requires
        at <= b@.len(),
    ensures
        r == is_at(b@, at as int, pat@),
{
    if pat.len() > b.len() - at {
        return false;
    }
    same_bytes(slice_subrange(b, at, at + pat.len()), pat)
}

/// The first position at or behind `from` where `needle` occurs.
pub fn find_byte(b: &[u8], from: usize, needle: &[u8]) -> (r: Option<usize>)
    requires
        needle@.len() > 0,
    ensures
        place(r) == find_from(b@, from as int, needle@),
{
    if from >= b.len() || needle.len() > b.len() - from {
        return None;
    }
    let mut i: usize = from;
    let last: usize = b.len() - needle.len();
    while i <= last
        invariant
            from <= i <= last + 1,
            last + needle@.len() == b@.len(),
            needle@.len() > 0,
            b@.len() <= usize::MAX,
            find_from(b@, from as int, needle@) == find_from(b@, i as int, needle@),
        decreases last + 1 - i,
    {
        if bytes_at(b, i, needle) {
            return Some(i);
        }
        i = i + 1;
    }
    None
}

/// The `>` that ends a tag, from position `i` on, where `quote` is the quotation mark inside of
/// which position `i` stands.
pub open spec fn gt_from(b: Seq<u8>, i: int, quote: Option<u8>) -> Option<int>
    decreases b.len() - i,
{
    if i < 0 || i >= b.len() {
        None
    } else {
        match quote {
            Some(q) => gt_from(
                b,
                i + 1,
                if b[i] == q {
                    None
                } else {
                    quote
                },
            ),
            None => if b[i] == 34 || b[i] == 39 {
                gt_from(b, i + 1, Some(b[i]))
            } else if b[i] == 62 {
                Some(i)
            } else {
                gt_from(b, i + 1, None)
            },
        }
    }
}

/// Finds the `>` of a tag and passes over what stands between quotation marks.
pub(crate) fn find_gt(b: &[u8], from: usize) -> (r: Option<usize>)
    ensures
        place(r) == gt_from(b@, from as int, None),
        r matches Some(p) ==> from <= p < b@.len() && b@[p as int] == 62,
{
    let mut i: usize = from;
    let mut quote: Option<u8> = None;
    while i < b.len()
        invariant
            from <= i,
            gt_from(b@, from as int, None) == gt_from(b@, i as int, quote),
        decreases b@.len() - i,
    {
        let c = b[i];
        match quote {
            Some(q) => {
                if c == q {
                    quote = None;
                }
            },
            None => {
                if c == 34 || c == 39 {
                    quote = Some(c);
                } else if c == 62 {
                    return Some(i);
                }
            },
        }
        i = i + 1;
    }
    None
}

/// The `>` lies behind where the search began.
pub proof fn lemma_gt_from(b: Seq<u8>, i: int, quote: Option<u8>)
    ensures
        gt_from(b, i, quote) matches Some(p) ==> i <= p < b.len() && b[p] == 62,
    decreases b.len() - i,
{
    if 0 <= i < b.len() {
        match quote {
            Some(q) => {
                lemma_gt_from(
                    b,
                    i + 1,
                    if b[i] == q {
                        None
                    } else {
                        quote
                    },
                );
            },
            None => {
                if b[i] == 34 || b[i] == 39 {
                    lemma_gt_from(b, i + 1, Some(b[i]));
                } else if b[i] != 62 {
                    lemma_gt_from(b, i + 1, None);
                }
            },
        }
    }
}

/// The first blank at or behind `i`, or `end`.
pub open spec fn word_end(b: Seq<u8>, i: int, end: int) -> int
    decreases end - i,
{
    if i >= end || is_blank(b[i]) {
        i
    } else {
        word_end(b, i + 1, end)
    }
}

/// The tag whose `<` is at `lt` and whose `>` is at `gt`.
pub open spec fn tag_between(b: Seq<u8>, lt: int, gt: int) -> Tag {
    let self_closing = b[gt - 1] == 47;
    let inner_end = if self_closing {
        gt - 1
    } else {
        gt
    };
    let closing = lt + 1 < inner_end && b[lt + 1] == 47;
    let name_start = if closing {
        lt + 2
    } else {
        lt + 1
    };
    Tag {
        at: lt,
        name: lossy(b.subrange(name_start, word_end(b, name_start, inner_end))),
        closing,
        self_closing,
        inner: (lt + 1, inner_end),
        after: gt + 1,
    }
}

/// How long the marks of comments and character data are.
pub proof fn lemma_marks()
    ensures
        bytes("<"@) == seq![60u8],
        bytes("<!--"@).len() == 4,
        bytes("-->"@).len() == 3,
        bytes("<![CDATA["@).len() == 9,
        bytes("]]>"@).len() == 3,
{
    reveal_strlit("<");
    reveal_strlit("<!--");
    reveal_strlit("-->");
    reveal_strlit("<![CDATA[");
    reveal_strlit("]]>");
    lemma_encode_ascii("<"@);
    lemma_encode_ascii("<!--"@);
    lemma_encode_ascii("-->"@);
    lemma_encode_ascii("<![CDATA["@);
    lemma_encode_ascii("]]>"@);
    assert(encode_utf8("<"@)[0] == 60);
    assert(bytes("<"@) =~= seq![60u8]);
}

/// The first tag at or behind `pos`; comments and character data are passed over.
pub open spec fn tag_from(b: Seq<u8>, pos: int) -> Option<Tag>
    decreases b.len() - pos,
{
    if pos < 0 {
        None
    } else {
        match find_from(b, pos, seq![60u8]) {
            None => None,
            Some(lt) => {
                proof {
                    lemma_marks();
                    lemma_find_from(b, pos, seq![60u8]);
                    lemma_find_from(b, lt + 4, bytes("-->"@));
                    lemma_find_from(b, lt + 9, bytes("]]>"@));
                }
                if is_at(b, lt, bytes("<!--"@)) {
                    match find_from(b, lt + 4, bytes("-->"@)) {
                        None => None,
                        Some(p) => tag_from(b, p + 3),
                    }
                } else if is_at(b, lt, bytes("<![CDATA["@)) {
                    match find_from(b, lt + 9, bytes("]]>"@)) {
                        None => None,
                        Some(p) => tag_from(b, p + 3),
                    }
                } else {
                    match gt_from(b, lt, None) {
                        None => None,
                        Some(gt) => Some(tag_between(b, lt, gt)),
                    }
                }
            },
        }
    }
}

/// Where a tag lies.
pub open spec fn tag_bounds(b: Seq<u8>, pos: int, t: Tag) -> bool {
    &&& pos <= t.at
    &&& t.at < t.inner.0
    &&& t.inner.0 <= t.inner.1
    &&& t.inner.1 < t.after
    &&& t.after <= b.len()
    &&& t.inner.0 == t.at + 1
    &&& b[t.at] == 60
    &&& t.self_closing ==> t.after == t.inner.1 + 2
    &&& !t.self_closing ==> t.after == t.inner.1 + 1
    &&& b[t.after - 1] == 62
    &&& t == tag_between(b, t.at, t.after - 1)
    &&& gt_from(b, t.at, None) == Some(t.after - 1)
}

/// A tag that is found lies at or behind the position of the search, inside the bytes.
pub proof fn lemma_tag_from(b: Seq<u8>, pos: int)
    ensures
        tag_from(b, pos) matches Some(t) ==> tag_bounds(b, pos, t),
    decreases b.len() - pos,
{
    if pos >= 0 {
        lemma_marks();
        lemma_find_from(b, pos, seq![60u8]);
        match find_from(b, pos, seq![60u8]) {
            None => {},
            Some(lt) => {
                lemma_find_from(b, lt + 4, bytes("-->"@));
                lemma_find_from(b, lt + 9, bytes("]]>"@));
                assert(b.subrange(lt, lt + 1)[0] == b[lt]);
                if is_at(b, lt, bytes("<!--"@)) {
                    if let Some(p) = find_from(b, lt + 4, bytes("-->"@)) {
                        lemma_tag_from(b, p + 3);
                    }
                } else if is_at(b, lt, bytes("<![CDATA["@)) {
                    if let Some(p) = find_from(b, lt + 9, bytes("]]>"@)) {
                        lemma_tag_from(b, p + 3);
                    }
                } else {
                    lemma_gt_from(b, lt, None);
                }
            },
        }
    }
}

/// A tag and its position, as a `Tag`.
pub open spec fn found_tag(r: Option<(usize, TagInfo)>) -> Option<Tag> {
    match r {
        Some((lt, info)) => Some(info.at(lt as int)),
        None => None,
    }
}

/// The first tag at or behind `pos`, with the position of its `<`.
pub fn next_tag(b: &[u8], pos: usize) -> (r: Option<(usize, TagInfo)>)
    ensures
        found_tag(r) == tag_from(b@, pos as int),
        r matches Some((lt, info)) ==> tag_bounds(b@, pos as int, info.at(lt as int)),
{
    proof {
        lemma_marks();
        lemma_tag_from(b@, pos as int);
    }
    let mut i: usize = pos;
    let end: usize = b.len();
    loop
        invariant
            end == b@.len(),
            tag_from(b@, pos as int) == tag_from(b@, i as int),
            tag_from(b@, pos as int) matches Some(t) ==> tag_bounds(b@, pos as int, t),
            bytes("<"@) == seq![60u8],
            bytes("<!--"@).len() == 4,
            bytes("-->"@).len() == 3,
            bytes("<![CDATA["@).len() == 9,
            bytes("]]>"@).len() == 3,
        decreases b@.len() + 3 - i,
    {
        proof {
            lemma_find_from(b@, i as int, seq![60u8]);
        }
        let lt: usize = match find_byte(b, i, "<".as_bytes()) {
            Some(p) => p,
            None => {
                return None;
            },
        };
        proof {
            lemma_find_from(b@, lt + 4, bytes("-->"@));
            lemma_find_from(b@, lt + 9, bytes("]]>"@));
        }
        if bytes_at(b, lt, "<!--".as_bytes()) {
            match find_byte(b, lt + 4, "-->".as_bytes()) {
                Some(p) => {
                    i = p + 3;
                },
                None => {
                    return None;
                },
            }
            continue;
        }
        if bytes_at(b, lt, "<![CDATA[".as_bytes()) {
            match find_byte(b, lt + 9, "]]>".as_bytes()) {
                Some(p) => {
                    i = p + 3;
                },
                None => {
                    return None;
                },
            }
            continue;
        }
        let gt: usize = match find_gt(b, lt) {
            Some(p) => p,
            None => {
                return None;
            },
        };
        assert(b@.subrange(lt as int, lt + 1)[0] == b@[lt as int]);
        let self_closing = b[gt - 1] == 47;
        let inner_end: usize = if self_closing {
            gt - 1
        } else {
            gt
        };
        let closing = lt + 1 < inner_end && b[lt + 1] == 47;
        let name_start: usize = if closing {
            lt + 2
        } else {
            lt + 1
        };
        let mut name_end: usize = name_start;
        while name_end < inner_end && !blank(b[name_end])
            invariant
                name_start <= name_end <= inner_end <= b@.len(),
                word_end(b@, name_start as int, inner_end as int) == word_end(
                    b@,
                    name_end as int,
                    inner_end as int,
                ),
            decreases inner_end - name_end,
        {
            name_end = name_end + 1;
        }
        let name = lossy_text(slice_subrange(b, name_start, name_end));
        return Some(
            (
                lt,
                TagInfo {
                    name,
                    closing,
                    self_closing,
                    inner: (lt + 1, inner_end),
                    after: gt + 1,
                },
            ),
        );
    }
}

// ---------------------------------------------------------- escapes and values
/// The text that stands for a character in XML.
pub open spec fn escaped_char(c: char) -> Seq<char> {
    if c == '&' {
        "&amp;"@
    } else if c == '<' {
        "&lt;"@
    } else if c == '>' {
        "&gt;"@
    } else {
        seq![c]
    }
}

/// The text with its ampersands and angle brackets written as entities.
pub open spec fn escaped(s: Seq<char>) -> Seq<char>
    decreases s.len(),
{
    if s.len() == 0 {
        Seq::empty()
    } else {
        escaped_char(s[0]) + escaped(s.drop_first())
    }
}

/// The text with its entities read, the ampersand last.
pub open spec fn unescaped(s: Seq<char>) -> Seq<char> {
    let a = replaced(s, "&lt;"@, "<"@);
    let b = replaced(a, "&gt;"@, ">"@);
    let c = replaced(b, "&quot;"@, "\""@);
    let d = replaced(c, "&apos;"@, "'"@);
    let e = replaced(d, "&#xA;"@, "\n"@);
    let f = replaced(e, "&#xa;"@, "\n"@);
    replaced(f, "&amp;"@, "&"@)
}

/// Reads the entities of a text.
pub fn unescape(s: &str) -> (r: String)
    ensures
        r@ == unescaped(s@),
{
    proof {
        reveal_strlit("&lt;");
        reveal_strlit("&gt;");
        reveal_strlit("&quot;");
        reveal_strlit("&apos;");
        reveal_strlit("&#xA;");
        reveal_strlit("&#xa;");
        reveal_strlit("&amp;");
    }
    let a = replace_all(s, "&lt;", "<");
    let b = replace_all(a.as_str(), "&gt;", ">");
    let c = replace_all(b.as_str(), "&quot;", "\"");
    let d = replace_all(c.as_str(), "&apos;", "'");
    let e = replace_all(d.as_str(), "&#xA;", "\n");
    let f = replace_all(e.as_str(), "&#xa;", "\n");
    replace_all(f.as_str(), "&amp;", "&")
}

/// Writes ampersands and angle brackets as entities.
pub fn escape(s: &str) -> (r: String)
    ensures
        r@ == escaped(s@),
{
    let c = chars_of(s);
    let mut out = String::new();
    let mut i: usize = 0;
    assert(c@.skip(0) =~= s@);
    assert(out@ + escaped(s@) =~= escaped(s@));
    while i < c.len()
        invariant
            c@ == s@,
            i <= c@.len(),
            escaped(s@) == out@ + escaped(c@.skip(i as int)),
        decreases c@.len() - i,
    {
        let ghost before = out@;
        assert(c@.skip(i as int).drop_first() =~= c@.skip(i + 1));
        if c[i] == '&' {
            out.append("&amp;");
        } else if c[i] == '<' {
            out.append("&lt;");
        } else if c[i] == '>' {
            out.append("&gt;");
        } else {
            out.push(c[i]);
        }
        assert(out@ =~= before + escaped_char(c@[i as int]));
        assert(out@ + escaped(c@.skip(i + 1)) =~= before + (escaped_char(c@[i as int]) + escaped(
            c@.skip(i + 1),
        )));
        i = i + 1;
    }
    assert(out@ + Seq::<char>::empty() =~= out@);
    out
}

/// What a character becomes while its entities are read one kind after the other: the flags say
/// which kinds are still written as entities.
spec fn coded_char(c: char, amp: bool, lt: bool, gt: bool) -> Seq<char> {
    if c == '&' && amp {
        "&amp;"@
    } else if c == '<' && lt {
        "&lt;"@
    } else if c == '>' && gt {
        "&gt;"@
    } else {
        seq![c]
    }
}

spec fn coded(s: Seq<char>, amp: bool, lt: bool, gt: bool) -> Seq<char>
    decreases s.len(),
{
    if s.len() == 0 {
        Seq::empty()
    } else {
        coded_char(s[0], amp, lt, gt) + coded(s.drop_first(), amp, lt, gt)
    }
}

proof fn lemma_replace_skip(s: Seq<char>, i: int, k: int, pat: Seq<char>, to: Seq<char>)
    requires
        0 <= i <= s.len(),
        0 <= k,
        pat.len() > 0,
    ensures
        replace_from(s, i + k, pat, to) == replace_from(s.skip(i), k, pat, to),
    decreases s.len() - i - k,
{
    let t = s.skip(i);
    if i + k < s.len() {
        if i + k + pat.len() <= s.len() {
            assert(s.subrange(i + k, i + k + pat.len()) =~= t.subrange(k, k + pat.len()));
            lemma_replace_skip(s, i, k + pat.len(), pat, to);
        }
        lemma_replace_skip(s, i, k + 1, pat, to);
    }
}

/// Nothing is replaced inside a piece that the pattern cannot start in.
proof fn lemma_piece_stays(
    piece: Seq<char>,
    rest: Seq<char>,
    j: int,
    pat: Seq<char>,
    to: Seq<char>,
)
    requires
        pat.len() > 0,
        0 <= j <= piece.len(),
        forall|k: int| 1 <= k < piece.len() ==> piece[k] != pat[0],
        exists|k: int| 0 <= k < piece.len() && k < pat.len() && piece[k] != pat[k],
    ensures
        replace_from(piece + rest, j, pat, to) == piece.skip(j) + replaced(rest, pat, to),
    decreases piece.len() - j,
{
    let x = piece + rest;
    if j == piece.len() {
        lemma_replace_skip(x, j, 0, pat, to);
        assert(x.skip(j) =~= rest);
        assert(piece.skip(j) + replaced(rest, pat, to) =~= replaced(rest, pat, to));
    } else {
        let w = choose|k: int| 0 <= k < piece.len() && k < pat.len() && piece[k] != pat[k];
        if j + pat.len() <= x.len() && x.subrange(j, j + pat.len()) == pat {
            assert(x.subrange(j, j + pat.len())[0] == x[j]);
            assert(x[j] == piece[j]);
            assert(j == 0);
            assert(x.subrange(j, j + pat.len())[w] == x[w]);
            assert(x[w] == piece[w]);
            assert(false);
        }
        lemma_piece_stays(piece, rest, j + 1, pat, to);
        assert(piece.skip(j) =~= seq![piece[j]] + piece.skip(j + 1));
        assert(piece.skip(j) + replaced(rest, pat, to) =~= seq![x[j]] + (piece.skip(j + 1)
            + replaced(rest, pat, to)));
    }
}

/// A piece that is the pattern is replaced.
proof fn lemma_piece_read(rest: Seq<char>, pat: Seq<char>, to: Seq<char>)
    requires
        pat.len() > 0,
    ensures
        replaced(pat + rest, pat, to) == to + replaced(rest, pat, to),
{
    let x = pat + rest;
    assert(x.subrange(0, pat.len() as int) =~= pat);
    lemma_replace_skip(x, pat.len() as int, 0, pat, to);
    assert(x.skip(pat.len() as int) =~= rest);
}

/// One kind of entity is read and nothing else changes.
proof fn lemma_pass(
    s: Seq<char>,
    from: (bool, bool, bool),
    into: (bool, bool, bool),
    pat: Seq<char>,
    to: Seq<char>,
)
    requires
        pat.len() > 0,
        pat[0] == '&',
        forall|c: char| #[trigger] reads_one_kind(c, from, into, pat, to),
    ensures
        replaced(coded(s, from.0, from.1, from.2), pat, to) == coded(s, into.0, into.1, into.2),
    decreases s.len(),
{
    if s.len() > 0 {
        assert(reads_one_kind(s[0], from, into, pat, to));
        let piece = coded_char(s[0], from.0, from.1, from.2);
        let rest = coded(s.drop_first(), from.0, from.1, from.2);
        lemma_pass(s.drop_first(), from, into, pat, to);
        if piece == pat && coded_char(s[0], into.0, into.1, into.2) == to {
            lemma_piece_read(rest, pat, to);
        } else {
            lemma_piece_stays(piece, rest, 0, pat, to);
            assert(piece.skip(0) =~= piece);
        }
    }
}

spec fn piece_differs(piece: Seq<char>, pat: Seq<char>) -> bool {
    &&& forall|k: int| 1 <= k < piece.len() ==> piece[k] != pat[0]
    &&& exists|k: int| 0 <= k < piece.len() && k < pat.len() && piece[k] != pat[k]
}

proof fn lemma_escaped_coded(s: Seq<char>)
    ensures
        escaped(s) == coded(s, true, true, true),
        coded(s, false, false, false) == s,
    decreases s.len(),
{
    if s.len() > 0 {
        lemma_escaped_coded(s.drop_first());
        assert(seq![s[0]] + s.drop_first() =~= s);
    } else {
        assert(coded(s, false, false, false) =~= s);
    }
}

/// Reading one kind of entity takes what stands for a character to what stands for it next.
spec fn reads_one_kind(
    c: char,
    from: (bool, bool, bool),
    into: (bool, bool, bool),
    pat: Seq<char>,
    to: Seq<char>,
) -> bool {
    let piece = coded_char(c, from.0, from.1, from.2);
    let next = coded_char(c, into.0, into.1, into.2);
    piece == pat && next == to || (piece == next && piece_differs(piece, pat))
}

/// A text that was escaped is read back.
pub proof fn law_unescape_undoes_escape(s: Seq<char>)
    ensures
        unescaped(escaped(s)) == s,
{
    reveal_strlit("&lt;");
    reveal_strlit("&gt;");
    reveal_strlit("&quot;");
    reveal_strlit("&apos;");
    reveal_strlit("&#xA;");
    reveal_strlit("&#xa;");
    reveal_strlit("&amp;");
    reveal_strlit("<");
    reveal_strlit(">");
    reveal_strlit("&");
    lemma_escaped_coded(s);
    assert("<"@ =~= seq!['<']);
    assert(">"@ =~= seq!['>']);
    assert("&"@ =~= seq!['&']);
    let all = (true, true, true);
    let no_lt = (true, false, true);
    let amp = (true, false, false);
    let none = (false, false, false);
    assert("&amp;"@[1] != "&lt;"@[1] && "&gt;"@[1] != "&lt;"@[1]);
    assert forall|c: char| #[trigger] reads_one_kind(c, all, no_lt, "&lt;"@, "<"@) by {
        lemma_single_differs(c, "&lt;"@);
    }
    lemma_pass(s, all, no_lt, "&lt;"@, "<"@);
    assert("&amp;"@[1] != "&gt;"@[1]);
    assert forall|c: char| #[trigger] reads_one_kind(c, no_lt, amp, "&gt;"@, ">"@) by {
        lemma_single_differs(c, "&gt;"@);
    }
    lemma_pass(s, no_lt, amp, "&gt;"@, ">"@);
    assert("&amp;"@[1] != "&quot;"@[1]);
    assert forall|c: char| #[trigger] reads_one_kind(c, amp, amp, "&quot;"@, "\""@) by {
        lemma_single_differs(c, "&quot;"@);
    }
    lemma_pass(s, amp, amp, "&quot;"@, "\""@);
    assert("&amp;"@[2] != "&apos;"@[2]);
    assert forall|c: char| #[trigger] reads_one_kind(c, amp, amp, "&apos;"@, "'"@) by {
        lemma_single_differs(c, "&apos;"@);
    }
    lemma_pass(s, amp, amp, "&apos;"@, "'"@);
    assert("&amp;"@[1] != "&#xA;"@[1]);
    assert forall|c: char| #[trigger] reads_one_kind(c, amp, amp, "&#xA;"@, "\n"@) by {
        lemma_single_differs(c, "&#xA;"@);
    }
    lemma_pass(s, amp, amp, "&#xA;"@, "\n"@);
    assert("&amp;"@[1] != "&#xa;"@[1]);
    assert forall|c: char| #[trigger] reads_one_kind(c, amp, amp, "&#xa;"@, "\n"@) by {
        lemma_single_differs(c, "&#xa;"@);
    }
    lemma_pass(s, amp, amp, "&#xa;"@, "\n"@);
    assert forall|c: char| #[trigger] reads_one_kind(c, amp, none, "&amp;"@, "&"@) by {
        lemma_single_differs(c, "&amp;"@);
    }
    lemma_pass(s, amp, none, "&amp;"@, "&"@);
}

/// A character that is no ampersand starts no entity.
proof fn lemma_single_differs(c: char, pat: Seq<char>)
    requires
        pat.len() > 0,
        pat[0] == '&',
    ensures
        c != '&' ==> piece_differs(seq![c], pat),
{
    if c != '&' {
        assert(seq![c][0] != pat[0]);
    }
}

/// The value of an attribute, searched from `from` on, where `needle` is its name and the equals
/// sign. The name stands behind a blank or at the front, and the value between quotation marks.
pub open spec fn attr_from(inner: Seq<u8>, from: int, needle: Seq<u8>) -> Option<Seq<char>>
    decreases inner.len() - from,
{
    if from < 0 || needle.len() == 0 {
        None
    } else {
        match find_from(inner, from, needle) {
            None => None,
            Some(p) => {
                proof {
                    lemma_find_from(inner, from, needle);
                }
                let q = p + needle.len();
                if p > 0 && !is_blank(inner[p - 1]) {
                    attr_from(inner, q, needle)
                } else if q >= inner.len() {
                    None
                } else if inner[q] != 34 && inner[q] != 39 {
                    attr_from(inner, q, needle)
                } else {
                    match find_from(inner, q + 1, seq![inner[q]]) {
                        None => None,
                        Some(end) => Some(unescaped(lossy(inner.subrange(q + 1, end)))),
                    }
                }
            },
        }
    }
}

/// The value of the attribute `name` in the inside of a tag.
pub open spec fn attr_of(inner: Seq<u8>, name: Seq<char>) -> Option<Seq<char>> {
    attr_from(inner, 0, bytes(name + "="@))
}

/// The value of the attribute `name`, with its entities read.
pub fn attr_value(inner: &[u8], name: &str) -> (r: Option<String>)
    ensures
        text_view(r) == attr_of(inner@, name@),
{
    let needle = join2(name, "=");
    proof {
        reveal_strlit("=");
        lemma_encode_nonempty(needle@);
    }
    let mut from: usize = 0;
    let total: usize = inner.len();
    loop
        invariant
            total == inner@.len(),
            needle@ == name@ + "="@,
            bytes(needle@).len() > 0,
            attr_of(inner@, name@) == attr_from(inner@, from as int, bytes(needle@)),
            from <= inner@.len(),
        decreases inner@.len() - from,
    {
        proof {
            lemma_find_from(inner@, from as int, bytes(needle@));
        }
        let p: usize = match find_byte(inner, from, needle.as_str().as_bytes()) {
            Some(p) => p,
            None => {
                return None;
            },
        };
        let q: usize = p + needle.as_str().as_bytes().len();
        if p > 0 && !blank(inner[p - 1]) {
            from = q;
            continue;
        }
        if q >= inner.len() {
            return None;
        }
        let quote: u8 = inner[q];
        if quote != 34 && quote != 39 {
            from = q;
            continue;
        }
        let mut mark: Vec<u8> = Vec::new();
        mark.push(quote);
        assert(mark@ =~= seq![quote]);
        proof {
            lemma_find_from(inner@, q + 1, seq![quote]);
        }
        match find_byte(inner, q + 1, mark.as_slice()) {
            Some(end) => {
                let raw = lossy_text(slice_subrange(inner, q + 1, end));
                return Some(unescape(raw.as_str()));
            },
            None => {
                return None;
            },
        }
    }
}

// ------------------------------------------------------------------- elements
/// The bytes of the tag that closes an element.
pub open spec fn close_mark(name: Seq<char>) -> Seq<u8> {
    bytes("</"@ + name + ">"@)
}

/// The whole element that a tag opens: up to the first closing tag of its name, or the tag alone
/// where it closes itself.
pub open spec fn span_of(b: Seq<u8>, t: Tag) -> Option<(int, int)> {
    if t.self_closing {
        Some((t.at, t.after))
    } else {
        match find_from(b, t.after, close_mark(t.name)) {
            None => None,
            Some(p) => Some((t.at, p + close_mark(t.name).len())),
        }
    }
}

/// An optional region with mathematical bounds.
pub open spec fn region(r: Option<(usize, usize)>) -> Option<(int, int)> {
    match r {
        Some((a, e)) => Some((a as int, e as int)),
        None => None,
    }
}

/// A closing mark is never empty.
pub proof fn lemma_close_mark(name: Seq<char>)
    ensures
        close_mark(name).len() > 0,
{
    reveal_strlit("</");
    lemma_encode_nonempty("</"@ + name + ">"@);
}

/// An element lies inside the bytes and ends behind its opening tag.
pub proof fn lemma_span_of(b: Seq<u8>, t: Tag)
    requires
        0 <= t.after <= b.len(),
    ensures
        span_of(b, t) matches Some(s) ==> s.0 == t.at && t.after <= s.1 <= b.len() && (
        !t.self_closing ==> s.1 - close_mark(t.name).len() >= t.after),
{
    lemma_find_from(b, t.after, close_mark(t.name));
}

/// The region of the element that the tag at `open_lt` opens.
pub fn element_span(b: &[u8], open_lt: usize, info: &TagInfo) -> (r: Option<(usize, usize)>)
    ensures
        region(r) == span_of(b@, info.at(open_lt as int)),
{
    if info.self_closing {
        return Some((open_lt, info.after));
    }
    let close = join3("</", info.name.as_str(), ">");
    proof {
        lemma_close_mark(info.name@);
        lemma_find_from(b@, info.after as int, close_mark(info.name@));
    }
    let end: usize = b.len();
    match find_byte(b, info.after, close.as_str().as_bytes()) {
        Some(p) => {
            assert(p + close_mark(info.name@).len() <= end);
            Some((open_lt, p + close.as_str().as_bytes().len()))
        },
        None => None,
    }
}

/// Where the content of the first `sheetData` element at or behind `pos` lies; the flag says that
/// the element closes itself, and both bounds are then the position of its tag.
pub open spec fn sheet_data_from(b: Seq<u8>, pos: int) -> Option<(int, int, bool)>
    decreases b.len() - pos,
{
    match tag_from(b, pos) {
        None => None,
        Some(t) => {
            proof {
                lemma_tag_from(b, pos);
            }
            if t.name == "sheetData"@ && !t.closing {
                match span_of(b, t) {
                    None => None,
                    Some(s) => if t.self_closing {
                        Some((s.0, s.0, true))
                    } else {
                        Some((t.after, s.1 - close_mark(t.name).len(), false))
                    },
                }
            } else {
                sheet_data_from(b, t.at + 1)
            }
        },
    }
}

/// A region and a flag with mathematical bounds.
pub open spec fn flagged_region(r: Option<(usize, usize, bool)>) -> Option<(int, int, bool)> {
    match r {
        Some((a, e, f)) => Some((a as int, e as int, f)),
        None => None,
    }
}

/// The content of `sheetData` lies inside the bytes.
pub proof fn lemma_sheet_data_from(b: Seq<u8>, pos: int)
    requires
        0 <= pos,
    ensures
        sheet_data_from(b, pos) matches Some((s, e, f)) ==> {
            &&& pos <= s <= e <= b.len()
            &&& f ==> s == e < b.len()
            &&& f ==> (tag_from(b, s) matches Some(t) && t.at == s && t.self_closing)
            &&& !f ==> is_at(b, e, close_mark("sheetData"@))
        },
    decreases b.len() - pos,
{
    lemma_tag_from(b, pos);
    if let Some(t) = tag_from(b, pos) {
        if t.name == "sheetData"@ && !t.closing {
            lemma_span_of(b, t);
            lemma_find_from(b, t.after, close_mark(t.name));
            lemma_tag_again(b, pos);
        } else {
            lemma_sheet_data_from(b, t.at + 1);
        }
    }
}

/// A tag is found again from its own position.
pub proof fn lemma_tag_again(b: Seq<u8>, pos: int)
    ensures
        tag_from(b, pos) matches Some(t) ==> tag_from(b, t.at) == Some(t),
    decreases b.len() - pos,
{
    if pos >= 0 {
        lemma_marks();
        lemma_find_from(b, pos, seq![60u8]);
        if let Some(lt) = find_from(b, pos, seq![60u8]) {
            lemma_find_from(b, lt + 4, bytes("-->"@));
            lemma_find_from(b, lt + 9, bytes("]]>"@));
            assert(find_from(b, lt, seq![60u8]) == Some(lt));
            if is_at(b, lt, bytes("<!--"@)) {
                if let Some(p) = find_from(b, lt + 4, bytes("-->"@)) {
                    lemma_tag_again(b, p + 3);
                }
            } else if is_at(b, lt, bytes("<![CDATA["@)) {
                if let Some(p) = find_from(b, lt + 9, bytes("]]>"@)) {
                    lemma_tag_again(b, p + 3);
                }
            }
        }
    }
}

/// Where the content of the `sheetData` element lies, and whether the element closes itself.
pub fn sheet_data_span(b: &[u8]) -> (r: Option<(usize, usize, bool)>)
    ensures
        flagged_region(r) == sheet_data_from(b@, 0),
        r matches Some((s, e, f)) ==> s <= e <= b@.len(),
{
    proof {
        lemma_sheet_data_from(b@, 0);
    }
    let mut pos: usize = 0;
    let end: usize = b.len();
    loop
        invariant
            end == b@.len(),
            sheet_data_from(b@, 0) == sheet_data_from(b@, pos as int),
            sheet_data_from(b@, 0) matches Some((s, e, f)) ==> s <= e <= b@.len(),
        decreases b@.len() + 1 - pos,
    {
        proof {
            lemma_tag_from(b@, pos as int);
        }
        match next_tag(b, pos) {
            None => {
                return None;
            },
            Some((lt, info)) => {
                if same_text(info.name.as_str(), "sheetData") && !info.closing {
                    proof {
                        lemma_span_of(b@, info.at(lt as int));
                    }
                    match element_span(b, lt, &info) {
                        None => {
                            return None;
                        },
                        Some(span) => {
                            if info.self_closing {
                                return Some((span.0, span.0, true));
                            }
                            let close = join3("</", info.name.as_str(), ">");
                            return Some(
                                (info.after, span.1 - close.as_str().as_bytes().len(), false),
                            );
                        },
                    }
                }
                pos = lt + 1;
            },
        }
    }
}

/// The elements called `name` whose tags start between `pos` and `end`, one behind the other;
/// what stands inside an element is not looked at.
pub open spec fn elements(b: Seq<u8>, pos: int, end: int, name: Seq<char>) -> Seq<
    (Tag, (int, int)),
>
    decreases b.len() - pos,
{
    if pos >= end {
        Seq::empty()
    } else {
        match tag_from(b, pos) {
            None => Seq::empty(),
            Some(t) => {
                proof {
                    lemma_tag_from(b, pos);
                    lemma_span_of(b, t);
                }
                if t.at >= end {
                    Seq::empty()
                } else if t.name == name && !t.closing {
                    match span_of(b, t) {
                        None => Seq::empty(),
                        Some(s) => seq![(t, s)] + elements(b, s.1, end, name),
                    }
                } else {
                    elements(b, t.at + 1, end, name)
                }
            },
        }
    }
}

/// An element as it was found: the position of its tag, the tag and the region.
pub type Element = (usize, TagInfo, (usize, usize));

/// An element with mathematical bounds.
pub open spec fn element_view(e: Element) -> (Tag, (int, int)) {
    (e.1.at(e.0 as int), (e.2.0 as int, e.2.1 as int))
}

/// Where a found element lies.
pub open spec fn element_bounds(b: Seq<u8>, e: (Tag, (int, int))) -> bool {
    &&& tag_bounds(b, 0, e.0)
    &&& span_of(b, e.0) == Some(e.1)
    &&& e.1.0 == e.0.at
    &&& e.0.after <= e.1.1
    &&& e.1.1 <= b.len()
}

/// Collects the elements called `name` whose tags start between `start` and `end`.
pub fn for_each_element(b: &[u8], start: usize, end: usize, name: &str) -> (r: Vec<Element>)
    ensures
        r@.map_values(|e: Element| element_view(e)) == elements(
            b@,
            start as int,
            end as int,
            name@,
        ),
        forall|i: int| 0 <= i < r@.len() ==> element_bounds(b@, #[trigger] element_view(r@[i])),
{
    let mut out: Vec<Element> = Vec::new();
    let mut pos: usize = start;
    let total: usize = b.len();
    let ghost all = elements(b@, start as int, end as int, name@);
    let ghost f = |e: Element| element_view(e);
    assert(out@.map_values(f) + all =~= all);
    while pos < end
        invariant_except_break
            total == b@.len(),
            f == (|e: Element| element_view(e)),
            all == out@.map_values(f) + elements(b@, pos as int, end as int, name@),
            forall|i: int|
                0 <= i < out@.len() ==> element_bounds(b@, #[trigger] element_view(out@[i])),
        ensures
            all == out@.map_values(f),
            forall|i: int|
                0 <= i < out@.len() ==> element_bounds(b@, #[trigger] element_view(out@[i])),
        decreases b@.len() + 1 - pos,
    {
        proof {
            lemma_tag_from(b@, pos as int);
            assert(out@.map_values(f) + Seq::empty() =~= out@.map_values(f));
        }
        match next_tag(b, pos) {
            None => {
                break;
            },
            Some((lt, info)) => {
                if lt >= end {
                    break;
                }
                if same_text(info.name.as_str(), name) && !info.closing {
                    proof {
                        lemma_span_of(b@, info.at(lt as int));
                    }
                    match element_span(b, lt, &info) {
                        None => {
                            break;
                        },
                        Some(span) => {
                            let ghost before = out@;
                            let ghost e: Element = (lt, info, span);
                            out.push((lt, info, span));
                            pos = span.1;
                            proof {
                                assert(out@.map_values(f) =~= before.map_values(f).push(
                                    element_view(e),
                                ));
                                assert(all =~= out@.map_values(f) + elements(
                                    b@,
                                    pos as int,
                                    end as int,
                                    name@,
                                ));
                                assert forall|i: int| 0 <= i < out@.len() implies element_bounds(
                                    b@,
                                    #[trigger] element_view(out@[i]),
                                ) by {
                                    if i < before.len() {
                                        assert(out@[i] == before[i]);
                                    }
                                }
                            }
                        },
                    }
                } else {
                    pos = lt + 1;
                }
            },
        }
    }
    out
}

// ----------------------------------------------------------------- references
/// A reference that is written from a column and a row is read as that column and that row.
pub proof fn law_reference_read_back(col: nat, row: nat)
    requires
        1 <= col <= 18278,
        row <= u32::MAX,
    ensures
        ref_value(col_name(col) + decimal(row)) == Some((col, row)),
{
    lemma_col_name(col);
    lemma_decimal(row);
    let s = col_name(col) + decimal(row);
    let k = col_name(col).len() as int;
    assert(is_digit(decimal(row)[0]));
    assert forall|j: int| 0 <= j < k implies !is_digit(#[trigger] s[j]) by {
        assert(letter_place(col_name(col)[j]) is Some);
    }
    lemma_digit_from(s, 0, k);
    assert(s.take(k) =~= col_name(col));
    assert(s.skip(k) =~= decimal(row));
}

/// The first digit of a text that has none in front of it.
proof fn lemma_digit_from(s: Seq<char>, i: int, k: int)
    requires
        0 <= i <= k < s.len(),
        is_digit(s[k]),
        forall|j: int| 0 <= j < k ==> !is_digit(#[trigger] s[j]),
    ensures
        digit_from(s, i) == Some(k),
    decreases k - i,
{
    if i < k {
        lemma_digit_from(s, i + 1, k);
    }
}

/// The first ASCII digit at or behind `i`.
pub open spec fn digit_from(s: Seq<char>, i: int) -> Option<int>
    decreases s.len() - i,
{
    if i < 0 || i >= s.len() {
        None
    } else if is_digit(s[i]) {
        Some(i)
    } else {
        digit_from(s, i + 1)
    }
}

/// The column and the row that a reference such as `AB12` names.
pub open spec fn ref_value(s: Seq<char>) -> Option<(nat, nat)> {
    match digit_from(s, 0) {
        None => None,
        Some(k) => match (col_value(s.take(k)), unsigned_value(s.skip(k), u32::MAX as nat)) {
            (Some(col), Some(row)) => Some((col, row)),
            _ => None,
        },
    }
}

/// Reads a reference such as `AB12` as column and row.
pub fn parse_ref(r: &str) -> (res: Option<(u32, u32)>)
    ensures
        match ref_value(r@) {
            Some((col, row)) => res matches Some(x) && x.0 == col && x.1 == row,
            None => res is None,
        },
        res matches Some(x) ==> 1 <= x.0 <= 18278,
{
    let c = chars_of(r);
    let mut k: usize = 0;
    while k < c.len() && !digit(c[k])
        invariant
            c@ == r@,
            k <= c@.len(),
            digit_from(r@, 0) == digit_from(r@, k as int),
        decreases c@.len() - k,
    {
        k = k + 1;
    }
    if k == c.len() {
        return None;
    }
    let letters = text_of(&c, 0, k);
    let digits = text_of(&c, k, c.len());
    assert(letters@ =~= r@.take(k as int));
    assert(digits@ =~= r@.skip(k as int));
    match col_to_num(letters.as_str()) {
        None => None,
        Some(col) => match read_u32(digits.as_str()) {
            None => None,
            Some(row) => Some((col, row)),
        },
    }
}

// ----------------------------------------------------------------- part lookup
/// A table from text to text. Of several entries with one key the last one counts.
pub struct TextMap {
    pub items: Vec<(String, String)>,
}

/// The table that pairs make up when they are put in one behind the other.
pub open spec fn table(items: Seq<(String, String)>) -> Map<Seq<char>, Seq<char>>
    decreases items.len(),
{
    if items.len() == 0 {
        Map::empty()
    } else {
        table(items.drop_last()).insert(items.last().0@, items.last().1@)
    }
}

impl View for TextMap {
    type V = Map<Seq<char>, Seq<char>>;

    open spec fn view(&self) -> Map<Seq<char>, Seq<char>> {
        table(self.items@)
    }
}

impl TextMap {
    /// A table without entries.
    pub fn new() -> (r: TextMap)
        ensures
            r@ == Map::<Seq<char>, Seq<char>>::empty(),
    {
        TextMap { items: Vec::new() }
    }

    /// Puts `value` under `key`, in place of what was there.
    pub fn insert(&mut self, key: String, value: String)
        ensures
            final(self)@ == old(self)@.insert(key@, value@),
    {
        let ghost before = self.items@;
        self.items.push((key, value));
        assert(self.items@.drop_last() =~= before);
    }

    /// What stands under `key`.
    pub fn get(&self, key: &str) -> (r: Option<&String>)
        ensures
            match r {
                Some(v) => self@.contains_key(key@) && self@[key@] == v@,
                None => !self@.contains_key(key@),
            },
    {
        let mut i: usize = self.items.len();
        assert(self.items@.take(i as int) =~= self.items@);
        while i > 0
            invariant
                i <= self.items@.len(),
                self@.contains_key(key@) == table(self.items@.take(i as int)).contains_key(key@),
                self@.contains_key(key@) ==> self@[key@] == table(
                    self.items@.take(i as int),
                )[key@],
            decreases i,
        {
            let ghost t = self.items@.take(i as int);
            assert(t.drop_last() =~= self.items@.take(i - 1));
            if same_text(self.items[i - 1].0.as_str(), key) {
                return Some(&self.items[i - 1].1);
            }
            i = i - 1;
        }
        None
    }
}

/// The first part called `name`.
pub fn find_entry<'a>(entries: &'a [Entry], name: &str) -> (r: Option<&'a Entry>)
    ensures
        match part_from(parts(entries@), 0, name@) {
            Some(i) => r == Some(&entries@[i]),
            None => r is None,
        },
{
    let mut i: usize = 0;
    while i < entries.len()
        invariant
            i <= entries@.len(),
            part_from(parts(entries@), 0, name@) == part_from(parts(entries@), i as int, name@),
        decreases entries@.len() - i,
    {
        if same_text(entries[i].name.as_str(), name) {
            return Some(&entries[i]);
        }
        i = i + 1;
    }
    None
}

/// The inside of a tag.
pub open spec fn inside(b: Seq<u8>, t: Tag) -> Seq<u8> {
    b.subrange(t.inner.0, t.inner.1)
}

/// The targets of relationships by their identifiers.
pub open spec fn rel_targets(b: Seq<u8>, els: Seq<(Tag, (int, int))>) -> Map<Seq<char>, Seq<char>>
    decreases els.len(),
{
    if els.len() == 0 {
        Map::empty()
    } else {
        let before = rel_targets(b, els.drop_last());
        let tag = inside(b, els.last().0);
        match (attr_of(tag, "Id"@), attr_of(tag, "Target"@)) {
            (Some(id), Some(target)) => before.insert(id, target),
            _ => before,
        }
    }
}

/// The text without the slashes in front of it.
pub open spec fn without_front_slashes(s: Seq<char>) -> Seq<char>
    decreases s.len(),
{
    if s.len() > 0 && s[0] == '/' {
        without_front_slashes(s.drop_first())
    } else {
        s
    }
}

/// The name of the part that a relationship of the workbook points at.
pub open spec fn part_path(target: Seq<char>) -> Seq<char> {
    let t = without_front_slashes(target);
    if "xl/"@.is_prefix_of(t) {
        t
    } else {
        "xl/"@ + t
    }
}

/// The parts of worksheets by the worksheets' names.
pub open spec fn sheet_table(
    b: Seq<u8>,
    els: Seq<(Tag, (int, int))>,
    targets: Map<Seq<char>, Seq<char>>,
) -> Map<Seq<char>, Seq<char>>
    decreases els.len(),
{
    if els.len() == 0 {
        Map::empty()
    } else {
        let before = sheet_table(b, els.drop_last(), targets);
        let tag = inside(b, els.last().0);
        match (attr_of(tag, "name"@), attr_of(tag, "r:id"@)) {
            (Some(name), Some(id)) => if targets.contains_key(id) {
                before.insert(name, part_path(targets[id]))
            } else {
                before
            },
            _ => before,
        }
    }
}

/// The worksheets of a workbook and their parts, read from the workbook's own part and its
/// relationships; where one of the two is missing, the message that says so.
pub open spec fn sheet_paths_of(p: Seq<Part>) -> Result<Map<Seq<char>, Seq<char>>, Seq<char>> {
    match part_from(p, 0, "xl/workbook.xml"@) {
        None => Err("BadZipFile: missing xl/workbook.xml"@),
        Some(w) => match part_from(p, 0, "xl/_rels/workbook.xml.rels"@) {
            None => Err("BadZipFile: missing workbook rels"@),
            Some(r) => {
                let book = p[w].data;
                let rels = p[r].data;
                let targets = rel_targets(
                    rels,
                    elements(rels, 0, rels.len() as int, "Relationship"@),
                );
                Ok(
                    sheet_table(
                        book,
                        elements(book, 0, book.len() as int, "sheet"@),
                        targets,
                    ),
                )
            },
        },
    }
}

/// The part that the relationship's target names.
fn path_of(target: &str) -> (r: String)
    ensures
        r@ == part_path(target@),
{
    let c = chars_of(target);
    let mut i: usize = 0;
    assert(c@.skip(0) =~= target@);
    while i < c.len() && c[i] == '/'
        invariant
            i <= c@.len(),
            without_front_slashes(target@) == without_front_slashes(c@.skip(i as int)),
        decreases c@.len() - i,
    {
        assert(c@.skip(i as int).drop_first() =~= c@.skip(i + 1));
        i = i + 1;
    }
    let t = text_of(&c, i, c.len());
    assert(t@ =~= c@.skip(i as int));
    if has_prefix(t.as_str(), "xl/") {
        t
    } else {
        join2("xl/", t.as_str())
    }
}

/// Reads the targets of the workbook's relationships.
fn rel_map(rels: &Vec<u8>) -> (r: TextMap)
    ensures
        r@ == rel_targets(rels@, elements(rels@, 0, rels@.len() as int, "Relationship"@)),
{
    let els = for_each_element(rels.as_slice(), 0, rels.len(), "Relationship");
    let ghost all = elements(rels@, 0, rels@.len() as int, "Relationship"@);
    let mut out = TextMap::new();
    let mut i: usize = 0;
    assert(all.take(0) =~= Seq::<(Tag, (int, int))>::empty());
    while i < els.len()
        invariant
            i <= els@.len(),
            els@.map_values(|e: Element| element_view(e)) == all,
            forall|k: int|
                0 <= k < els@.len() ==> element_bounds(rels@, #[trigger] element_view(els@[k])),
            out@ == rel_targets(rels@, all.take(i as int)),
        decreases els@.len() - i,
    {
        assert(all.take(i + 1).drop_last() =~= all.take(i as int));
        assert(all[i as int] == element_view(els@[i as int]));
        let info = &els[i].1;
        let tag = slice_subrange(rels.as_slice(), info.inner.0, info.inner.1);
        match (attr_value(tag, "Id"), attr_value(tag, "Target")) {
            (Some(id), Some(target)) => {
                out.insert(id, target);
            },
            _ => {},
        }
        i = i + 1;
    }
    assert(all.take(i as int) =~= all);
    out
}

/// Reads which part each worksheet is kept in.
fn sheet_map(book: &Vec<u8>, targets: &TextMap) -> (r: TextMap)
    ensures
        r@ == sheet_table(
            book@,
            elements(book@, 0, book@.len() as int, "sheet"@),
            targets@,
        ),
{
    let els = for_each_element(book.as_slice(), 0, book.len(), "sheet");
    let ghost all = elements(book@, 0, book@.len() as int, "sheet"@);
    let mut out = TextMap::new();
    let mut i: usize = 0;
    assert(all.take(0) =~= Seq::<(Tag, (int, int))>::empty());
    while i < els.len()
        invariant
            i <= els@.len(),
            els@.map_values(|e: Element| element_view(e)) == all,
            forall|k: int|
                0 <= k < els@.len() ==> element_bounds(book@, #[trigger] element_view(els@[k])),
            out@ == sheet_table(book@, all.take(i as int), targets@),
        decreases els@.len() - i,
    {
        assert(all.take(i + 1).drop_last() =~= all.take(i as int));
        assert(all[i as int] == element_view(els@[i as int]));
        let info = &els[i].1;
        let tag = slice_subrange(book.as_slice(), info.inner.0, info.inner.1);
        match (attr_value(tag, "name"), attr_value(tag, "r:id")) {
            (Some(name), Some(id)) => {
                match targets.get(id.as_str()) {
                    Some(t) => {
                        out.insert(name, path_of(t.as_str()));
                    },
                    None => {},
                }
            },
            _ => {},
        }
        i = i + 1;
    }
    assert(all.take(i as int) =~= all);
    out
}

/// Which part each worksheet of the workbook is kept in.
pub fn sheet_paths(entries: &[Entry]) -> (r: Result<TextMap, String>)
    ensures
        match sheet_paths_of(parts(entries@)) {
            Ok(m) => r matches Ok(t) && t@ == m,
            Err(e) => r matches Err(t) && t@ == e,
        },
{
    proof {
        lemma_part_from(parts(entries@), 0, "xl/workbook.xml"@);
        lemma_part_from(parts(entries@), 0, "xl/_rels/workbook.xml.rels"@);
    }
    match find_entry(entries, "xl/workbook.xml") {
        None => Err(String::from_str("BadZipFile: missing xl/workbook.xml")),
        Some(book) => match find_entry(entries, "xl/_rels/workbook.xml.rels") {
            None => Err(String::from_str("BadZipFile: missing workbook rels")),
            Some(rels) => {
                let targets = rel_map(&rels.data);
                Ok(sheet_map(&book.data, &targets))
            },
        },
    }
}

// ------------------------------------------------------------------- templates
/// The style and the formula of a cell that new cells are modelled on.
#[derive(Clone, Debug, Default)]
pub struct CellTpl {
    pub style: Option<String>,
    pub formula: Option<String>,
}

/// A template by its texts.
#[verifier::ext_equal]
pub ghost struct Template {
    pub style: Option<Seq<char>>,
    pub formula: Option<Seq<char>>,
}

impl View for CellTpl {
    type V = Template;

    open spec fn view(&self) -> Template {
        Template { style: text_view(self.style), formula: text_view(self.formula) }
    }
}

/// Templates by column.
pub open spec fn templates(m: Map<u32, CellTpl>) -> Map<u32, Template> {
    m.map_values(|c: CellTpl| c@)
}

/// The number of a row by the `r` attribute of its tag.
pub open spec fn row_number(b: Seq<u8>, t: Tag) -> Option<nat> {
    match attr_of(inside(b, t), "r"@) {
        Some(x) => unsigned_value(x, u32::MAX as nat),
        None => None,
    }
}

/// The cell that the `r` attribute of a cell's tag names.
pub open spec fn cell_ref(b: Seq<u8>, t: Tag) -> Option<(nat, nat)> {
    match attr_of(inside(b, t), "r"@) {
        Some(x) => ref_value(x),
        None => None,
    }
}

/// Where the content of an element lies: behind its opening tag and in front of its closing tag.
pub open spec fn content_of(e: (Tag, (int, int))) -> (int, int) {
    if e.0.self_closing {
        (e.0.after, e.0.after)
    } else {
        (e.0.after, e.1.1 - close_mark(e.0.name).len())
    }
}

/// The formula in the bytes of a cell: the text of the element `f`, where the first thing that
/// looks like one opens it.
pub open spec fn formula_in(cell: Seq<u8>) -> Option<Seq<char>> {
    match find_from(cell, 0, bytes("<f"@)) {
        None => None,
        Some(p) => match tag_from(cell, p) {
            None => None,
            Some(t) => if t.self_closing || t.name != "f"@ {
                None
            } else {
                let end = match find_from(cell, t.after, bytes("</f>"@)) {
                    Some(e) => e,
                    None => cell.len() as int,
                };
                Some(unescaped(lossy(cell.subrange(t.after, end))))
            },
        },
    }
}

/// The template that a cell gives.
pub open spec fn template_of(b: Seq<u8>, e: (Tag, (int, int))) -> Template {
    Template {
        style: attr_of(inside(b, e.0), "s"@),
        formula: formula_in(b.subrange(e.1.0, e.1.1)),
    }
}

/// The templates that cells give, by column; of two cells of one column the last one counts.
pub open spec fn cell_templates(b: Seq<u8>, cells: Seq<(Tag, (int, int))>) -> Map<u32, Template>
    decreases cells.len(),
{
    if cells.len() == 0 {
        Map::empty()
    } else {
        let before = cell_templates(b, cells.drop_last());
        match cell_ref(b, cells.last().0) {
            Some((col, row)) => before.insert(col as u32, template_of(b, cells.last())),
            None => before,
        }
    }
}

/// The first of the rows, from the one at `i` on, that has the number `num`.
pub open spec fn row_from(
    b: Seq<u8>,
    rows: Seq<(Tag, (int, int))>,
    i: int,
    num: nat,
) -> Option<int>
    decreases rows.len() - i,
{
    if i < 0 || i >= rows.len() {
        None
    } else if row_number(b, rows[i].0) == Some(num) {
        Some(i)
    } else {
        row_from(b, rows, i + 1, num)
    }
}

/// The templates that row `num` of a worksheet gives.
pub open spec fn row_templates_of(b: Seq<u8>, num: nat) -> Map<u32, Template> {
    match sheet_data_from(b, 0) {
        None => Map::empty(),
        Some((start, end, _)) => {
            let rows = elements(b, start, end, "row"@);
            match row_from(b, rows, 0, num) {
                None => Map::empty(),
                Some(i) => {
                    let c = content_of(rows[i]);
                    cell_templates(b, elements(b, c.0, c.1, "c"@))
                },
            }
        },
    }
}

/// Reads the number of a row from its tag.
pub fn row_number_of(b: &[u8], info: &TagInfo) -> (r: Option<u32>)
    requires
        info.inner.0 <= info.inner.1 <= b@.len(),
    ensures
        match row_number(b@, info.at(0)) {
            Some(n) => r matches Some(v) && v == n,
            None => r is None,
        },
{
    match attr_value(slice_subrange(b, info.inner.0, info.inner.1), "r") {
        Some(x) => read_u32(x.as_str()),
        None => None,
    }
}

/// Reads which cell a tag belongs to.
pub fn cell_ref_of(b: &[u8], info: &TagInfo) -> (r: Option<(u32, u32)>)
    requires
        info.inner.0 <= info.inner.1 <= b@.len(),
    ensures
        match cell_ref(b@, info.at(0)) {
            Some((col, row)) => r matches Some(x) && x.0 == col && x.1 == row,
            None => r is None,
        },
        r matches Some(x) ==> 1 <= x.0 <= 18278,
{
    match attr_value(slice_subrange(b, info.inner.0, info.inner.1), "r") {
        Some(x) => parse_ref(x.as_str()),
        None => None,
    }
}

/// Where the content of an element ends.
pub fn content_end(b: &[u8], info: &TagInfo, span: (usize, usize)) -> (r: usize)
    requires
        element_bounds(b@, (info.at(span.0 as int), (span.0 as int, span.1 as int))),
    ensures
        r == content_of((info.at(span.0 as int), (span.0 as int, span.1 as int))).1,
        info.after <= r <= b@.len(),
{
    if info.self_closing {
        info.after
    } else {
        proof {
            lemma_span_of(b@, info.at(span.0 as int));
        }
        let close = join3("</", info.name.as_str(), ">");
        span.1 - close.as_str().as_bytes().len()
    }
}

/// Reads the formula of a cell.
fn cell_formula(cell: &[u8]) -> (r: Option<String>)
    ensures
        text_view(r) == formula_in(cell@),
{
    proof {
        reveal_strlit("<f");
        reveal_strlit("</f>");
        lemma_encode_nonempty("<f"@);
        lemma_encode_nonempty("</f>"@);
    }
    match find_byte(cell, 0, "<f".as_bytes()) {
        None => None,
        Some(p) => match next_tag(cell, p) {
            None => None,
            Some((_, info)) => {
                if info.self_closing || !same_text(info.name.as_str(), "f") {
                    return None;
                }
                proof {
                    lemma_find_from(cell@, info.after as int, bytes("</f>"@));
                }
                let end: usize = match find_byte(cell, info.after, "</f>".as_bytes()) {
                    Some(e) => e,
                    None => cell.len(),
                };
                let raw = lossy_text(slice_subrange(cell, info.after, end));
                Some(unescape(raw.as_str()))
            },
        },
    }
}

/// Reads the templates that cells give.
fn tpl_map(b: &[u8], start: usize, end: usize) -> (r: BTreeMap<u32, CellTpl>)
    ensures
        templates(r@) == cell_templates(b@, elements(b@, start as int, end as int, "c"@)),
{
    let els = for_each_element(b, start, end, "c");
    let ghost all = elements(b@, start as int, end as int, "c"@);
    let mut out: BTreeMap<u32, CellTpl> = BTreeMap::new();
    let mut i: usize = 0;
    assert(all.take(0) =~= Seq::<(Tag, (int, int))>::empty());
    assert(templates(out@) =~= Map::<u32, Template>::empty());
    while i < els.len()
        invariant
            i <= els@.len(),
            els@.map_values(|e: Element| element_view(e)) == all,
            forall|k: int|
                0 <= k < els@.len() ==> element_bounds(b@, #[trigger] element_view(els@[k])),
            templates(out@) == cell_templates(b@, all.take(i as int)),
        decreases els@.len() - i,
    {
        let ghost before = out@;
        assert(all.take(i + 1).drop_last() =~= all.take(i as int));
        assert(all[i as int] == element_view(els@[i as int]));
        let info = &els[i].1;
        let span = els[i].2;
        match cell_ref_of(b, info) {
            Some((col, _)) => {
                let tpl = CellTpl {
                    style: attr_value(slice_subrange(b, info.inner.0, info.inner.1), "s"),
                    formula: cell_formula(slice_subrange(b, span.0, span.1)),
                };
                out.insert(col, tpl);
                assert(templates(out@) =~= templates(before).insert(col, tpl@));
            },
            None => {},
        }
        i = i + 1;
    }
    assert(all.take(i as int) =~= all);
    out
}

/// The templates that row `row_num` of a worksheet gives, by column.
pub fn row_templates(sheet_xml: &[u8], row_num: u32) -> (r: BTreeMap<u32, CellTpl>)
    ensures
        templates(r@) == row_templates_of(sheet_xml@, row_num as nat),
{
    let empty: BTreeMap<u32, CellTpl> = BTreeMap::new();
    assert(templates(empty@) =~= Map::<u32, Template>::empty());
    match sheet_data_span(sheet_xml) {
        None => empty,
        Some((start, end, _)) => {
            let rows = for_each_element(sheet_xml, start, end, "row");
            let ghost all = elements(sheet_xml@, start as int, end as int, "row"@);
            let mut i: usize = 0;
            while i < rows.len()
                invariant
                    i <= rows@.len(),
                    sheet_data_from(sheet_xml@, 0) matches Some((s, e, _)) && s == start && e
                        == end,
                    all == elements(sheet_xml@, start as int, end as int, "row"@),
                    rows@.map_values(|e: Element| element_view(e)) == all,
                    forall|k: int|
                        0 <= k < rows@.len() ==> element_bounds(
                            sheet_xml@,
                            #[trigger] element_view(rows@[k]),
                        ),
                    row_from(sheet_xml@, all, 0, row_num as nat) == row_from(
                        sheet_xml@,
                        all,
                        i as int,
                        row_num as nat,
                    ),
                decreases rows@.len() - i,
            {
                assert(all[i as int] == element_view(rows@[i as int]));
                let info = &rows[i].1;
                let found = match row_number_of(sheet_xml, info) {
                    Some(n) => n == row_num,
                    None => false,
                };
                if found {
                    let from: usize = info.after;
                    let to: usize = content_end(sheet_xml, info, rows[i].2);
                    return tpl_map(sheet_xml, from, to);
                }
                i = i + 1;
            }
            empty
        },
    }
}

// ------------------------------------------------------------------- dimension
/// The first tag at or behind `pos` that opens the element `dimension`.
pub open spec fn dimension_from(b: Seq<u8>, pos: int) -> Option<Tag>
    decreases b.len() - pos,
{
    match tag_from(b, pos) {
        None => None,
        Some(t) => {
            proof {
                lemma_tag_from(b, pos);
            }
            if t.name == "dimension"@ && !t.closing {
                Some(t)
            } else {
                dimension_from(b, t.at + 1)
            }
        },
    }
}

/// The first colon at or behind `i`.
pub open spec fn colon_from(s: Seq<char>, i: int) -> Option<int>
    decreases s.len() - i,
{
    if i < 0 || i >= s.len() {
        None
    } else if s[i] == ':' {
        Some(i)
    } else {
        colon_from(s, i + 1)
    }
}

/// The two ends of a range such as `A1:N200`.
pub open spec fn range_ends(s: Seq<char>) -> Option<(Seq<char>, Seq<char>)> {
    match colon_from(s, 0) {
        None => None,
        Some(k) => match colon_from(s, k + 1) {
            Some(_) => None,
            None => Some((s.take(k), s.skip(k + 1))),
        },
    }
}

/// The attribute `ref` as it is written in a tag.
pub open spec fn ref_attr(value: Seq<char>) -> Seq<u8> {
    bytes("ref=\""@ + value + "\""@)
}

/// The range with its last row moved down to `max_row`; nothing where it reaches that far.
pub open spec fn stretched(range: Seq<char>, max_row: nat) -> Option<Seq<char>> {
    match range_ends(range) {
        None => None,
        Some((first, last)) => match ref_value(last) {
            None => None,
            Some((col, row)) => if row >= max_row {
                None
            } else {
                Some(first + ":"@ + (col_name(col) + decimal(max_row)))
            },
        },
    }
}

/// The worksheet with the range of its dimension stretched to `max_row`.
pub open spec fn with_max_row(b: Seq<u8>, max_row: nat) -> Seq<u8> {
    match dimension_from(b, 0) {
        None => b,
        Some(t) => match attr_of(inside(b, t), "ref"@) {
            None => b,
            Some(range) => match stretched(range, max_row) {
                None => b,
                Some(wider) => match find_from(inside(b, t), 0, ref_attr(range)) {
                    None => b,
                    Some(p) => b.take(t.inner.0 + p) + ref_attr(wider) + b.skip(
                        t.inner.0 + p + ref_attr(range).len(),
                    ),
                },
            },
        },
    }
}

/// The tag that is found lies inside the bytes.
pub proof fn lemma_dimension_from(b: Seq<u8>, pos: int)
    ensures
        dimension_from(b, pos) matches Some(t) ==> tag_bounds(b, pos, t),
    decreases b.len() - pos,
{
    lemma_tag_from(b, pos);
    if let Some(t) = tag_from(b, pos) {
        if !(t.name == "dimension"@ && !t.closing) {
            lemma_dimension_from(b, t.at + 1);
        }
    }
}

/// Finds the tag of the element `dimension`.
fn find_dimension(b: &[u8]) -> (r: Option<(usize, TagInfo)>)
    ensures
        found_tag(r) == dimension_from(b@, 0),
{
    let mut pos: usize = 0;
    let end: usize = b.len();
    loop
        invariant
            end == b@.len(),
            dimension_from(b@, 0) == dimension_from(b@, pos as int),
        decreases b@.len() + 1 - pos,
    {
        proof {
            lemma_tag_from(b@, pos as int);
        }
        match next_tag(b, pos) {
            None => {
                return None;
            },
            Some((lt, info)) => {
                if same_text(info.name.as_str(), "dimension") && !info.closing {
                    return Some((lt, info));
                }
                pos = lt + 1;
            },
        }
    }
}

/// The first colon at or behind `from`.
fn find_colon(c: &Vec<char>, from: usize) -> (r: Option<usize>)
    ensures
        place(r) == colon_from(c@, from as int),
        r matches Some(k) ==> from <= k < c@.len(),
{
    let mut i: usize = from;
    while i < c.len()
        invariant
            from <= i,
            colon_from(c@, from as int) == colon_from(c@, i as int),
        decreases c@.len() - i,
    {
        if c[i] == ':' {
            return Some(i);
        }
        i = i + 1;
    }
    None
}

/// Moves the last row of a range down to `max_row`.
fn stretch(range: &str, max_row: u32) -> (r: Option<String>)
    ensures
        text_view(r) == stretched(range@, max_row as nat),
{
    let c = chars_of(range);
    let end: usize = c.len();
    match find_colon(&c, 0) {
        None => None,
        Some(k) => match find_colon(&c, k + 1) {
            Some(_) => None,
            None => {
                let first = text_of(&c, 0, k);
                let last = text_of(&c, k + 1, end);
                assert(first@ =~= range@.take(k as int));
                assert(last@ =~= range@.skip(k + 1));
                match parse_ref(last.as_str()) {
                    None => None,
                    Some((col, row)) => {
                        if row >= max_row {
                            None
                        } else {
                            let name = num_to_col(col);
                            let num = decimal_text(max_row as u64);
                            let end = join2(name.as_str(), num.as_str());
                            Some(join3(first.as_str(), ":", end.as_str()))
                        }
                    },
                }
            },
        },
    }
}

/// Stretches the range of the worksheet's dimension to `max_row`, where it does not reach that far.
pub fn fix_dimension(sheet_xml: &mut Vec<u8>, max_row: u32)
    ensures
        final(sheet_xml)@ == with_max_row(old(sheet_xml)@, max_row as nat),
{
    proof {
        lemma_dimension_from(sheet_xml@, 0);
        reveal_strlit("ref=\"");
    }
    if let Some((_, info)) = find_dimension(sheet_xml.as_slice()) {
        let inner = bytes_of(sheet_xml.as_slice(), info.inner.0, info.inner.1);
        if let Some(range) = attr_value(inner.as_slice(), "ref") {
            if let Some(wider) = stretch(range.as_str(), max_row) {
                let old_ref = join3("ref=\"", range.as_str(), "\"");
                proof {
                    lemma_encode_nonempty(old_ref@);
                    lemma_find_from(inner@, 0, bytes(old_ref@));
                }
                if let Some(p) = find_byte(inner.as_slice(), 0, old_ref.as_str().as_bytes()) {
                    let new_ref = join3("ref=\"", wider.as_str(), "\"");
                    let at: usize = info.inner.0 + p;
                    let after: usize = at + old_ref.as_str().as_bytes().len();
                    let mut out = bytes_of(sheet_xml.as_slice(), 0, at);
                    push_text(&mut out, new_ref.as_str());
                    push_bytes(
                        &mut out,
                        slice_subrange(sheet_xml.as_slice(), after, sheet_xml.len()),
                    );
                    assert(sheet_xml@.subrange(0, at as int) =~= sheet_xml@.take(at as int));
                    assert(sheet_xml@.subrange(after as int, sheet_xml@.len() as int)
                        =~= sheet_xml@.skip(after as int));
                    *sheet_xml = out;
                }
            }
        }
    }
}

} // verus!
