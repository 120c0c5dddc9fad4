//! Text as sequences of characters: searching, trimming, replacing, comparing,
//! and decimal numerals.
use vstd::prelude::*;
use vstd::slice::slice_subrange;
use vstd::utf8::*;

verus! {

/// `String::push` puts the character behind the text.
pub assume_specification[ String::push ](s: &mut String, c: char)
    ensures
        final(s)@ == old(s)@.push(c),
;

/// What `String::from_utf8_lossy` makes of bytes that are not UTF-8.
pub uninterp spec fn repaired_utf8(bytes: Seq<u8>) -> Seq<char>;

/// The text that bytes hold: what they encode, or the repaired text where they are not UTF-8.
pub open spec fn lossy(bytes: Seq<u8>) -> Seq<char> {
    if valid_utf8(bytes) {
        decode_utf8(bytes)
    } else {
        repaired_utf8(bytes)
    }
}

/// `String::from_utf8_lossy` decodes bytes that are UTF-8; of other bytes it makes the text that
/// `repaired_utf8` names, which depends on the bytes alone.
#[verifier::external_body]
pub(crate) fn lossy_text(bytes: &[u8]) -> (r: String)
    ensures
        r@ == (if valid_utf8(bytes@) {
            decode_utf8(bytes@)
        } else {
            repaired_utf8(bytes@)
        }),
{
    String::from_utf8_lossy(bytes).into_owned()
}

/// An optional text by its characters.
pub open spec fn text_view(t: Option<String>) -> Option<Seq<char>> {
    match t {
        Some(x) => Some(x@),
        None => None,
    }
}

/// The text that was encoded comes back.
pub proof fn lemma_lossy_encode(s: Seq<char>)
    ensures
        lossy(encode_utf8(s)) == s,
{
    encode_utf8_valid_utf8(s);
    encode_utf8_decode_utf8(s);
}

/// Only the empty text has the empty encoding.
pub proof fn lemma_encode_nonempty(s: Seq<char>)
    requires
        s.len() > 0,
    ensures
        encode_utf8(s).len() > 0,
{
    char_is_scalar(s[0]);
}

/// The encoding of two texts behind each other.
pub proof fn lemma_encode_concat(a: Seq<char>, b: Seq<char>)
    ensures
        encode_utf8(a + b) == encode_utf8(a) + encode_utf8(b),
    decreases a.len(),
{
    if a.len() == 0 {
        assert(a + b =~= b);
        assert(encode_utf8(a) + encode_utf8(b) =~= encode_utf8(b));
    } else {
        lemma_encode_concat(a.drop_first(), b);
        assert((a + b).drop_first() =~= a.drop_first() + b);
        assert(encode_utf8(a + b) =~= encode_utf8(a) + encode_utf8(b));
    }
}

/// An ASCII text has one byte for each character.
pub proof fn lemma_encode_ascii(s: Seq<char>)
    requires
        is_ascii_chars(s),
    ensures
        encode_utf8(s).len() == s.len(),
        forall|i: int| 0 <= i < s.len() ==> #[trigger] encode_utf8(s)[i] as int == s[i] as int,
{
    is_ascii_chars_encode_utf8(s);
}

// ------------------------------------------------------------------ searching
/// The first position at or behind `from` where `pat` occurs in `s`.
pub open spec fn find_from<T>(s: Seq<T>, from: int, pat: Seq<T>) -> Option<int>
    decreases s.len() + 1 - from,
{
    if from < 0 || from + pat.len() > s.len() {
        None
    } else if s.subrange(from, from + pat.len()) == pat {
        Some(from)
    } else {
        find_from(s, from + 1, pat)
    }
}

/// What `find_from` finds is an occurrence, and no earlier position is one.
pub proof fn lemma_find_from<T>(s: Seq<T>, from: int, pat: Seq<T>)
    requires
        0 <= from,
    ensures
        find_from(s, from, pat) matches Some(p) ==> {
            &&& from <= p
            &&& p + pat.len() <= s.len()
            &&& s.subrange(p, p + pat.len()) == pat
            &&& forall|q: int| from <= q < p ==> #[trigger] s.subrange(q, q + pat.len()) != pat
        },
        find_from(s, from, pat) is None ==> forall|q: int|
            from <= q && q + pat.len() <= s.len() ==> #[trigger] s.subrange(q, q + pat.len())
                != pat,
    decreases s.len() + 1 - from,
{
    if from + pat.len() <= s.len() && s.subrange(from, from + pat.len()) != pat {
        lemma_find_from(s, from + 1, pat);
    }
}

/// Two sequences of bytes are the same.
pub fn same_bytes(a: &[u8], b: &[u8]) -> (r: bool)
    ensures
        r == (a@ == b@),
{
    if a.len() != b.len() {
        return false;
    }
    let mut i: usize = 0;
    while i < a.len()
        invariant
            a@.len() == b@.len(),
            i <= a@.len(),
            forall|j: int| 0 <= j < i ==> a@[j] == b@[j],
        decreases a@.len() - i,
    {
        if a[i] != b[i] {
            return false;
        }
        i = i + 1;
    }
    assert(a@ =~= b@);
    true
}

/// Puts bytes behind those that are there.
pub fn push_bytes(out: &mut Vec<u8>, b: &[u8])
    ensures
        final(out)@ == old(out)@ + b@,
{
    let ghost before = out@;
    out.extend_from_slice(b);
    assert(out@ =~= before + b@);
}

/// Puts the encoding of a text behind the bytes that are there.
pub fn push_text(out: &mut Vec<u8>, s: &str)
    ensures
        final(out)@ == old(out)@ + encode_utf8(s@),
{
    push_bytes(out, s.as_bytes());
}

/// The bytes from `from` up to `to`.
pub fn bytes_of(b: &[u8], from: usize, to: usize) -> (r: Vec<u8>)
    requires
        from <= to <= b@.len(),
    ensures
        r@ == b@.subrange(from as int, to as int),
{
    let mut out: Vec<u8> = Vec::new();
    push_bytes(&mut out, slice_subrange(b, from, to));
    assert(out@ =~= b@.subrange(from as int, to as int));
    out
}

/// Two texts are the same.
pub fn same_text(a: &str, b: &str) -> (r: bool)
    ensures
        r == (a@ == b@),
{
    proof {
        encode_utf8_decode_utf8(a@);
        encode_utf8_decode_utf8(b@);
    }
    same_bytes(a.as_bytes(), b.as_bytes())
}

/// The characters of a text.
pub fn chars_of(s: &str) -> (r: Vec<char>)
    ensures
        r@ == s@,
{
    let mut v: Vec<char> = Vec::new();
    for c in it: s.chars()
        invariant
            v@ == it.seq().take(it.index()),
            it.seq() == s@,
    {
        v.push(c);
    }
    v
}

/// The text from the character at `from` up to the one at `to`.
pub fn text_of(chars: &Vec<char>, from: usize, to: usize) -> (r: String)
    requires
        from <= to <= chars@.len(),
    ensures
        r@ == chars@.subrange(from as int, to as int),
{
    let mut out = String::new();
    let mut i: usize = from;
    while i < to
        invariant
            from <= i <= to <= chars@.len(),
            out@ == chars@.subrange(from as int, i as int),
        decreases to - i,
    {
        out.push(chars[i]);
        assert(chars@.subrange(from as int, i + 1) =~= chars@.subrange(from as int, i as int).push(
            chars@[i as int],
        ));
        i = i + 1;
    }
    out
}

/// Whether `pat` stands at position `at`.
pub fn stands_at(s: &Vec<char>, at: usize, pat: &Vec<char>) -> (r: bool)
    requires
        at <= s@.len(),
    ensures
        r == (at + pat@.len() <= s@.len() && s@.subrange(at as int, at + pat@.len()) == pat@),
{
    if pat.len() > s.len() - at {
        return false;
    }
    let mut i: usize = 0;
    while i < pat.len()
        invariant
            at + pat@.len() <= s.len(),
            i <= pat@.len(),
            forall|j: int| 0 <= j < i ==> s@[at + j] == pat@[j],
        decreases pat@.len() - i,
    {
        if s[at + i] != pat[i] {
            assert(s@.subrange(at as int, at + pat@.len())[i as int] == s@[at + i]);
            return false;
        }
        i = i + 1;
    }
    assert(s@.subrange(at as int, at + pat@.len()) =~= pat@);
    true
}

/// Whether the text starts with `pat`.
pub fn has_prefix(s: &str, pat: &str) -> (r: bool)
    ensures
        r == pat@.is_prefix_of(s@),
{
    let c = chars_of(s);
    let p = chars_of(pat);
    stands_at(&c, 0, &p)
}

/// Whether the text ends with `pat`.
pub fn has_suffix(s: &str, pat: &str) -> (r: bool)
    ensures
        r == pat@.is_suffix_of(s@),
{
    let c = chars_of(s);
    let p = chars_of(pat);
    if p.len() > c.len() {
        return false;
    }
    stands_at(&c, c.len() - p.len(), &p)
}

/// The two texts behind each other.
pub fn join2(a: &str, b: &str) -> (r: String)
    ensures
        r@ == a@ + b@,
{
    let mut out = String::from_str(a);
    out.append(b);
    out
}

/// The three texts behind each other.
pub fn join3(a: &str, b: &str, c: &str) -> (r: String)
    ensures
        r@ == a@ + b@ + c@,
{
    let mut out = join2(a, b);
    out.append(c);
    out
}

// ------------------------------------------------------------------ replacing
/// The text from position `i` on, with every occurrence of `pat` replaced, the leftmost first.
pub open spec fn replace_from(s: Seq<char>, i: int, pat: Seq<char>, to: Seq<char>) -> Seq<char>
    decreases s.len() - i,
{
    if i < 0 || i >= s.len() {
        Seq::empty()
    } else if pat.len() > 0 && i + pat.len() <= s.len() && s.subrange(i, i + pat.len()) == pat {
        to + replace_from(s, i + pat.len(), pat, to)
    } else {
        seq![s[i]] + replace_from(s, i + 1, pat, to)
    }
}

/// `s` with every occurrence of `pat` replaced by `to`.
pub open spec fn replaced(s: Seq<char>, pat: Seq<char>, to: Seq<char>) -> Seq<char> {
    replace_from(s, 0, pat, to)
}

/// Replaces every occurrence of `pat` in `s`.
pub fn replace_all(s: &str, pat: &str, to: &str) -> (r: String)
    requires
        pat@.len() > 0,
    ensures
        r@ == replaced(s@, pat@, to@),
{
    let c = chars_of(s);
    let p = chars_of(pat);
    let mut out = String::new();
    let mut i: usize = 0;
    while i < c.len()
        invariant
            c@ == s@,
            p@ == pat@,
            p@.len() > 0,
            i <= c@.len(),
            replaced(s@, pat@, to@) == out@ + replace_from(s@, i as int, pat@, to@),
        decreases c@.len() - i,
    {
        if stands_at(&c, i, &p) {
            proof {
                assert(out@ + (to@ + replace_from(s@, i + p@.len(), pat@, to@)) =~= (out@ + to@)
                    + replace_from(s@, i + p@.len(), pat@, to@));
            }
            out.append(to);
            i = i + p.len();
        } else {
            proof {
                assert(out@ + (seq![s@[i as int]] + replace_from(s@, i + 1, pat@, to@))
                    =~= out@.push(s@[i as int]) + replace_from(s@, i + 1, pat@, to@));
            }
            out.push(c[i]);
            i = i + 1;
        }
    }
    assert(out@ + Seq::<char>::empty() =~= out@);
    out
}

// ------------------------------------------------------------------- trimming
/// The characters with the Unicode property White_Space.
pub open spec fn is_white(c: char) -> bool {
    ||| '\u{9}' <= c <= '\u{d}'
    ||| c == '\u{20}'
    ||| c == '\u{85}'
    ||| c == '\u{a0}'
    ||| c == '\u{1680}'
    ||| '\u{2000}' <= c <= '\u{200a}'
    ||| c == '\u{2028}'
    ||| c == '\u{2029}'
    ||| c == '\u{202f}'
    ||| c == '\u{205f}'
    ||| c == '\u{3000}'
}

/// Whether a character is white space.
pub fn white(c: char) -> (r: bool)
    ensures
        r == is_white(c),
{
    ('\u{9}' <= c && c <= '\u{d}') || c == '\u{20}' || c == '\u{85}' || c == '\u{a0}' || c
        == '\u{1680}' || ('\u{2000}' <= c && c <= '\u{200a}') || c == '\u{2028}' || c == '\u{2029}'
        || c == '\u{202f}' || c == '\u{205f}' || c == '\u{3000}'
}

/// The text without the white space in front of it.
pub open spec fn trimmed_front(s: Seq<char>) -> Seq<char>
    decreases s.len(),
{
    if s.len() > 0 && is_white(s[0]) {
        trimmed_front(s.drop_first())
    } else {
        s
    }
}

/// The text without the white space behind it.
pub open spec fn trimmed_back(s: Seq<char>) -> Seq<char>
    decreases s.len(),
{
    if s.len() > 0 && is_white(s.last()) {
        trimmed_back(s.drop_last())
    } else {
        s
    }
}

/// The text without the white space around it.
pub open spec fn trimmed(s: Seq<char>) -> Seq<char> {
    trimmed_back(trimmed_front(s))
}

/// Cuts off the white space around a text.
pub fn trim(s: &str) -> (r: String)
    ensures
        r@ == trimmed(s@),
{
    let c = chars_of(s);
    let mut from: usize = 0;
    assert(c@.subrange(0, c@.len() as int) =~= s@);
    while from < c.len() && white(c[from])
        invariant
            from <= c@.len(),
            c@ == s@,
            trimmed_front(s@) == trimmed_front(c@.subrange(from as int, c@.len() as int)),
        decreases c@.len() - from,
    {
        assert(c@.subrange(from as int, c@.len() as int).drop_first() =~= c@.subrange(
            from + 1,
            c@.len() as int,
        ));
        from = from + 1;
    }
    let mut to: usize = c.len();
    let ghost front = c@.subrange(from as int, c@.len() as int);
    assert(trimmed_front(s@) == front);
    while from < to && white(c[to - 1])
        invariant
            from <= to <= c@.len(),
            trimmed_back(front) == trimmed_back(c@.subrange(from as int, to as int)),
        decreases to - from,
    {
        assert(c@.subrange(from as int, to as int).drop_last() =~= c@.subrange(
            from as int,
            to - 1,
        ));
        to = to - 1;
    }
    text_of(&c, from, to)
}

// ------------------------------------------------------------------- numerals
/// An ASCII digit.
pub open spec fn is_digit(c: char) -> bool {
    '0' <= c <= '9'
}

/// Whether a character is an ASCII digit.
pub fn digit(c: char) -> (r: bool)
    ensures
        r == is_digit(c),
{
    '0' <= c && c <= '9'
}

/// Nothing but ASCII digits.
pub open spec fn all_digits(s: Seq<char>) -> bool {
    forall|i: int| 0 <= i < s.len() ==> is_digit(#[trigger] s[i])
}

/// The number that a row of digits writes.
pub open spec fn digits_value(s: Seq<char>) -> nat
    decreases s.len(),
{
    if s.len() == 0 {
        0
    } else {
        (digits_value(s.drop_last()) * 10 + (s.last() as int - '0' as int)) as nat
    }
}

/// The number that a text writes, where it is a non-empty row of digits.
pub open spec fn numeral_value(s: Seq<char>) -> Option<nat> {
    if s.len() > 0 && all_digits(s) {
        Some(digits_value(s))
    } else {
        None
    }
}

/// The digit that writes a number below ten.
pub open spec fn digit_of(n: nat) -> char {
    (('0' as int) + n) as char
}

/// The decimal numeral of a number.
pub open spec fn decimal(n: nat) -> Seq<char>
    decreases n,
{
    if n < 10 {
        seq![digit_of(n)]
    } else {
        decimal(n / 10).push(digit_of(n % 10))
    }
}

/// The decimal numeral of an integer, with a minus sign in front of a negative one.
pub open spec fn signed_decimal(n: int) -> Seq<char> {
    if n < 0 {
        seq!['-'] + decimal((-n) as nat)
    } else {
        decimal(n as nat)
    }
}

/// A decimal numeral is a non-empty row of digits that writes its number.
pub proof fn lemma_decimal(n: nat)
    ensures
        decimal(n).len() > 0,
        all_digits(decimal(n)),
        digits_value(decimal(n)) == n,
        numeral_value(decimal(n)) == Some(n),
    decreases n,
{
    if n < 10 {
        assert(decimal(n).drop_last() =~= Seq::<char>::empty());
        assert(digits_value(decimal(n).drop_last()) == 0);
    } else {
        lemma_decimal(n / 10);
        assert(decimal(n).drop_last() =~= decimal(n / 10));
    }
}

/// A number below ten, as the digit that writes it.
fn digit_char(n: u8) -> (r: char)
    requires
        n < 10,
    ensures
        r == digit_of(n as nat),
{
    (48u8 + n) as char
}

/// Writes a number as a decimal numeral.
pub fn decimal_text(n: u64) -> (r: String)
    ensures
        r@ == decimal(n as nat),
    decreases n,
{
    if n < 10 {
        let mut out = String::new();
        out.push(digit_char(n as u8));
        assert(out@ =~= decimal(n as nat));
        out
    } else {
        let mut out = decimal_text(n / 10);
        out.push(digit_char((n % 10) as u8));
        out
    }
}

/// Writes an integer as a decimal numeral.
pub fn signed_decimal_text(n: i64) -> (r: String)
    ensures
        r@ == signed_decimal(n as int),
{
    if n < 0 {
        let rest = decimal_text((-(n as i128)) as u64);
        let mut out = String::new();
        out.push('-');
        out.append(rest.as_str());
        assert(out@ =~= signed_decimal(n as int));
        out
    } else {
        decimal_text(n as u64)
    }
}

/// Reads the characters from `from` on as a numeral that is at most `max`.
pub fn read_digits(c: &Vec<char>, from: usize, max: u64) -> (r: Option<u64>)
    requires
        from <= c@.len(),
    ensures
        match numeral_value(c@.subrange(from as int, c@.len() as int)) {
            Some(n) => r == (if n <= max {
                Some(n as u64)
            } else {
                None
            }),
            None => r is None,
        },
{
    let ghost s = c@.subrange(from as int, c@.len() as int);
    if from == c.len() {
        return None;
    }
    let mut i: usize = from;
    let mut v: u64 = 0;
    let mut fits: bool = true;
    assert(s.take(0) =~= Seq::<char>::empty());
    while i < c.len()
        invariant
            from <= i <= c@.len(),
            s == c@.subrange(from as int, c@.len() as int),
            all_digits(s.take(i - from)),
            fits ==> v == digits_value(s.take(i - from)) && v <= max,
            !fits ==> digits_value(s.take(i - from)) > max,
        decreases c@.len() - i,
    {
        let ghost k = i - from;
        assert(s.take(k + 1).drop_last() =~= s.take(k));
        assert(s[k] == c@[i as int]);
        if !digit(c[i]) {
            assert(!is_digit(s[k]));
            return None;
        }
        proof {
            assert forall|j: int| 0 <= j < k + 1 implies is_digit(#[trigger] s.take(k + 1)[j]) by {
                if j < k {
                    assert(s.take(k)[j] == s.take(k + 1)[j]);
                }
            }
        }
        if fits {
            let next: u128 = (v as u128) * 10 + ((c[i] as u32 - 48u32) as u128);
            if next <= max as u128 {
                v = next as u64;
            } else {
                fits = false;
            }
        }
        i = i + 1;
    }
    assert(s.take(i - from) =~= s);
    if fits {
        Some(v)
    } else {
        None
    }
}

/// What a text says as an unsigned number of at most `max`: digits, with or without a plus sign.
pub open spec fn unsigned_value(s: Seq<char>, max: nat) -> Option<nat> {
    let digits = if s.len() > 0 && s[0] == '+' {
        s.drop_first()
    } else {
        s
    };
    match numeral_value(digits) {
        Some(n) if n <= max => Some(n),
        _ => None,
    }
}

/// Reads a text as a `u32`.
pub fn read_u32(s: &str) -> (r: Option<u32>)
    ensures
        match unsigned_value(s@, u32::MAX as nat) {
            Some(n) => r matches Some(v) && v == n,
            None => r is None,
        },
{
    let c = chars_of(s);
    let from: usize = if c.len() > 0 && c[0] == '+' {
        1
    } else {
        0
    };
    assert(from == 0 ==> c@.subrange(0, c@.len() as int) =~= s@);
    assert(from == 1 ==> c@.subrange(1, c@.len() as int) =~= s@.drop_first());
    match read_digits(&c, from, u32::MAX as u64) {
        Some(v) => Some(v as u32),
        None => None,
    }
}

/// What a text says as an `i64`: digits, with or without a sign.
pub open spec fn signed_value(s: Seq<char>) -> Option<int> {
    if s.len() > 0 && s[0] == '-' {
        match numeral_value(s.drop_first()) {
            Some(n) if -n >= i64::MIN => Some(-n),
            _ => None,
        }
    } else {
        match unsigned_value(s, i64::MAX as nat) {
            Some(n) => Some(n as int),
            None => None,
        }
    }
}

/// Reads a text as an `i64`.
pub fn read_i64(s: &str) -> (r: Option<i64>)
    ensures
        match signed_value(s@) {
            Some(n) => r matches Some(v) && v == n,
            None => r is None,
        },
{
    let c = chars_of(s);
    if c.len() > 0 && c[0] == '-' {
        assert(c@.subrange(1, c@.len() as int) =~= s@.drop_first());
        match read_digits(&c, 1, 9223372036854775808u64) {
            Some(v) => Some((-(v as i128)) as i64),
            None => None,
        }
    } else {
        let from: usize = if c.len() > 0 && c[0] == '+' {
            1
        } else {
            0
        };
        assert(from == 0 ==> c@.subrange(0, c@.len() as int) =~= s@);
        assert(from == 1 ==> c@.subrange(1, c@.len() as int) =~= s@.drop_first());
        match read_digits(&c, from, i64::MAX as u64) {
            Some(v) => Some(v as i64),
            None => None,
        }
    }
}

// ------------------------------------------------------------------- ordering
/// The order of texts: the first difference decides, and a prefix comes first.
pub open spec fn text_before(a: Seq<char>, b: Seq<char>) -> bool
    decreases a.len(),
{
    if b.len() == 0 {
        false
    } else if a.len() == 0 {
        true
    } else if a[0] != b[0] {
        a[0] < b[0]
    } else {
        text_before(a.drop_first(), b.drop_first())
    }
}

/// Whether one text stands in front of the other in the order of texts.
pub fn is_before(a: &str, b: &str) -> (r: bool)
    ensures
        r == text_before(a@, b@),
{
    let x = chars_of(a);
    let y = chars_of(b);
    let mut i: usize = 0;
    assert(x@.subrange(0, x@.len() as int) =~= a@);
    assert(y@.subrange(0, y@.len() as int) =~= b@);
    while i < x.len() && i < y.len() && x[i] == y[i]
        invariant
            x@ == a@,
            y@ == b@,
            i <= x@.len(),
            i <= y@.len(),
            text_before(a@, b@) == text_before(
                x@.subrange(i as int, x@.len() as int),
                y@.subrange(i as int, y@.len() as int),
            ),
        decreases x@.len() - i,
    {
        assert(x@.subrange(i as int, x@.len() as int).drop_first() =~= x@.subrange(
            i + 1,
            x@.len() as int,
        ));
        assert(y@.subrange(i as int, y@.len() as int).drop_first() =~= y@.subrange(
            i + 1,
            y@.len() as int,
        ));
        i = i + 1;
    }
    if i == y.len() {
        false
    } else if i == x.len() {
        true
    } else {
        x[i] < y[i]
    }
}

/// No text stands in front of itself.
pub proof fn lemma_text_before_irreflexive(a: Seq<char>)
    ensures
        !text_before(a, a),
    decreases a.len(),
{
    if a.len() > 0 {
        lemma_text_before_irreflexive(a.drop_first());
    }
}

/// Of two different texts one stands in front of the other.
pub proof fn lemma_text_before_total(a: Seq<char>, b: Seq<char>)
    ensures
        a == b || text_before(a, b) || text_before(b, a),
    decreases a.len(),
{
    if a.len() > 0 && b.len() > 0 {
        lemma_text_before_total(a.drop_first(), b.drop_first());
        if a[0] == b[0] && a.drop_first() == b.drop_first() {
            assert(a =~= seq![a[0]] + a.drop_first());
            assert(b =~= seq![b[0]] + b.drop_first());
        }
    } else if a.len() == 0 && b.len() == 0 {
        assert(a =~= b);
    }
}

/// What stands in front of a text stands in front of all behind it.
pub proof fn lemma_text_before_transitive(a: Seq<char>, b: Seq<char>, c: Seq<char>)
    requires
        text_before(a, b),
        text_before(b, c),
    ensures
        text_before(a, c),
    decreases a.len(),
{
    if a.len() > 0 && b.len() > 0 && c.len() > 0 && a[0] == b[0] && b[0] == c[0] {
        lemma_text_before_transitive(a.drop_first(), b.drop_first(), c.drop_first());
    }
}

} // verus!
