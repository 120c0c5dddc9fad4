//! What requests are answered: which of them are refused, and how they are noted.
use vstd::prelude::*;
use crate::model::{date_value, is_positive, parse_date_str, Field, FieldVal, Fields};
use crate::text::{
    chars_of, decimal, decimal_text, has_suffix, join2, join3, replace_all, replace_from, replaced,
    same_text, text_view, trim, trimmed,
};
use crate::xlsx::limits::{book_fits, check_book};
use crate::xlsx::read::{book_error, book_sheets, open_book, sheet_names};
use crate::xlsx::zipio::{base_name, last_piece};
use crate::{SHEET_ARCHIVE, SHEET_RECORDS};

verus! {

// --------------------------------------------------------------------- members
/// The text of a field, where it is one.
pub open spec fn as_text(body: Fields, key: Seq<char>) -> Option<Seq<char>> {
    match body.value(key) {
        Some(FieldVal::Text(t, _)) => Some(t),
        _ => None,
    }
}

/// Whether the number of a field is above zero.
pub open spec fn has_positive(body: Fields, key: Seq<char>) -> bool {
    match body.number(key) {
        Some(n) => is_positive(n),
        None => false,
    }
}

/// Whether a field is a text that names a day.
pub open spec fn has_day(body: Fields, key: Seq<char>) -> bool {
    match as_text(body, key) {
        Some(t) => date_value(t) is Some,
        None => false,
    }
}

/// Why a request for a new member is refused: a name and a card are needed, a card of sessions needs
/// their number, and a card for a period needs its end.
pub open spec fn member_fault(body: Fields) -> Option<Seq<char>> {
    let name = trimmed(body.plain_text("name"@));
    let card = trimmed(body.plain_text("card_type"@));
    if name.len() == 0 {
        Some("会员姓名必填"@)
    } else if card.len() == 0 {
        Some("卡种必填"@)
    } else if card == "次卡"@ && !has_positive(body, "total_sessions"@) {
        Some("次卡必须填写大于 0 的总次数"@)
    } else if card == "期限卡"@ && !has_day(body, "expiry_date"@) {
        Some("期限卡必须填写有效期至"@)
    } else {
        None
    }
}

/// Why a request for a new member is refused, if it is.
pub fn check_member(body: &Fields) -> (r: Option<String>)
    ensures
        text_view(r) == member_fault(*body),
{
    let name_text = body.get_plain("name");
    let name = trim(name_text.as_str());
    if chars_of(name.as_str()).len() == 0 {
        return Some(String::from_str("会员姓名必填"));
    }
    let card_text = body.get_plain("card_type");
    let card = trim(card_text.as_str());
    if chars_of(card.as_str()).len() == 0 {
        return Some(String::from_str("卡种必填"));
    }
    let positive = match body.get_num("total_sessions") {
        Some(n) => n.positive(),
        None => false,
    };
    if same_text(card.as_str(), "次卡") && !positive {
        return Some(String::from_str("次卡必须填写大于 0 的总次数"));
    }
    let dated = match body.get("expiry_date") {
        Some(Field::Text(t, _)) => parse_date_str(t.as_str()).is_some(),
        _ => false,
    };
    if same_text(card.as_str(), "期限卡") && !dated {
        return Some(String::from_str("期限卡必须填写有效期至"));
    }
    None
}

/// How a new member is noted.
pub fn member_note(body: &Fields, id: &str) -> (r: String)
    ensures
        r@ == "新增 "@ + trimmed(body.plain_text("name"@)) + "（"@ + id@ + "）"@,
{
    let name_text = body.get_plain("name");
    let name = trim(name_text.as_str());
    let mut out = join3("新增 ", name.as_str(), "（");
    out.append(id);
    out.append("）");
    out
}

/// The names of the first `n` fields, with a separator between them.
pub open spec fn key_list(items: Seq<(String, Field)>, n: int) -> Seq<char>
    decreases n,
{
    if n <= 0 {
        Seq::empty()
    } else if n == 1 {
        items[0].0@
    } else {
        key_list(items, n - 1) + "、"@ + items[n - 1].0@
    }
}

/// How a change of a member is noted.
pub open spec fn change_note_text(id: Seq<char>, fields: Fields) -> Seq<char> {
    id + "："@ + (if fields.items@.len() == 0 {
        "无变更字段"@
    } else {
        key_list(fields.items@, fields.items@.len() as int)
    })
}

/// How a change of a member is noted: the member's number and the fields.
pub fn change_note(id: &str, fields: &Fields) -> (r: String)
    ensures
        r@ == change_note_text(id@, *fields),
{
    let mut out = join2(id, "：");
    if fields.items.len() == 0 {
        out.append("无变更字段");
        return out;
    }
    let ghost front = out@;
    out.append(fields.items[0].0.as_str());
    let mut i: usize = 1;
    while i < fields.items.len()
        invariant
            1 <= i <= fields.items@.len(),
            out@ == front + key_list(fields.items@, i as int),
        decreases fields.items@.len() - i,
    {
        out.append("、");
        out.append(fields.items[i].0.as_str());
        assert(out@ =~= front + key_list(fields.items@, i + 1));
        i = i + 1;
    }
    out
}

/// What a change of a member is called.
pub open spec fn change_action_text(fields: Fields) -> Seq<char> {
    if fields.flag("refund"@) {
        "标记退卡"@
    } else if fields.value("refund"@) is Some {
        "恢复会员"@
    } else {
        "编辑会员"@
    }
}

/// What a change of a member is called: a refund, the end of a refund, or an edit.
pub fn change_action(fields: &Fields) -> (r: &'static str)
    ensures
        r@ == change_action_text(*fields),
{
    if fields.get_flag("refund") {
        "标记退卡"
    } else if fields.get("refund").is_some() {
        "恢复会员"
    } else {
        "编辑会员"
    }
}

// --------------------------------------------------------------------- classes
/// How a new class is noted.
pub fn class_note(body: &Fields) -> (r: String)
    ensures
        r@ == body.plain_text("member_id"@) + " 上课 "@ + body.plain_text("date"@),
{
    let id = body.get_plain("member_id");
    let date = body.get_plain("date");
    join3(id.as_str(), " 上课 ", date.as_str())
}

/// The row that a request names, where it names one that is not negative; of a number beyond
/// `u32` the low bits count.
pub open spec fn row_of(n: Option<i64>) -> Option<int> {
    match n {
        Some(v) if v >= 0 => Some(v as int % 0x1_0000_0000),
        _ => None,
    }
}

/// The row that a request names.
pub fn class_row_of(n: Option<i64>) -> (r: Option<u32>)
    ensures
        match row_of(n) {
            Some(k) => r matches Some(v) && v == k,
            None => r is None,
        },
{
    match n {
        Some(v) => {
            if v >= 0 {
                Some((v as u64 % 0x1_0000_0000) as u32)
            } else {
                None
            }
        },
        None => None,
    }
}

/// How the deletion of a class is noted.
pub fn delete_note(row: u32) -> (r: String)
    ensures
        r@ == "删除上课记录行 "@ + decimal(row as nat),
{
    let n = decimal_text(row as u64);
    join2("删除上课记录行 ", n.as_str())
}

// -------------------------------------------------------------------- file names
/// The last piece of a path with slashes of either kind.
pub open spec fn plain_name(path: Seq<char>) -> Seq<char> {
    base_name(replaced(path, "\\"@, "/"@))
}

/// The last piece of a path with slashes of either kind.
pub fn name_of(path: &str) -> (r: String)
    ensures
        r@ == plain_name(path@),
{
    proof {
        reveal_strlit("\\");
    }
    let p = replace_all(path, "\\", "/");
    last_piece(p.as_str())
}

/// The file of a version that a request names: the last piece of the path, where it is that of a
/// workbook.
pub open spec fn version_of(file: Seq<char>) -> Option<Seq<char>> {
    let name = plain_name(file);
    if ".xlsx"@.is_suffix_of(name) {
        Some(name)
    } else {
        None
    }
}

/// The file of a version that a request names.
pub fn safe_version(file: &str) -> (r: Option<String>)
    ensures
        text_view(r) == version_of(file@),
{
    let name = name_of(file);
    if has_suffix(name.as_str(), ".xlsx") {
        Some(name)
    } else {
        None
    }
}

/// What is answered where a version is not there.
pub fn no_version(file: &str) -> (r: String)
    ensures
        r@ == "版本文件不存在："@ + plain_name(file@),
{
    let name = name_of(file);
    join2("版本文件不存在：", name.as_str())
}

/// How the version is noted that is made before another one is restored.
pub fn restore_note(name: &str) -> (r: String)
    ensures
        r@ == "恢复 "@ + name@ + " 前的当前状态"@,
{
    join3("恢复 ", name, " 前的当前状态")
}

/// How the version is noted that is made before another workbook is taken.
pub fn swap_note(name: &str) -> (r: String)
    ensures
        r@ == "更换为 "@ + name@ + " 前的当前表格"@,
{
    join3("更换为 ", name, " 前的当前表格")
}

/// A path never comes out of the name of a version: no slash of either kind is in it.
pub proof fn law_version_has_no_path(file: Seq<char>)
    ensures
        version_of(file) matches Some(name) ==> forall|i: int|
            0 <= i < name.len() ==> #[trigger] name[i] != '/' && name[i] != '\\',
{
    reveal_strlit("\\");
    reveal_strlit("/");
    assert("\\"@ =~= seq!['\\']);
    assert("/"@ =~= seq!['/']);
    let p = replaced(file, "\\"@, "/"@);
    lemma_no_backslash(file, 0);
    lemma_base_name(p);
}

proof fn lemma_no_backslash(s: Seq<char>, i: int)
    requires
        0 <= i,
        "\\"@ == seq!['\\'],
        "/"@ == seq!['/'],
    ensures
        forall|k: int|
            0 <= k < replace_from(s, i, "\\"@, "/"@).len()
                ==> #[trigger] replace_from(s, i, "\\"@, "/"@)[k] != '\\',
    decreases s.len() - i,
{
    let r = replace_from(s, i, "\\"@, "/"@);
    if i < s.len() {
        lemma_no_backslash(s, i + 1);
        let rest = replace_from(s, i + 1, "\\"@, "/"@);
        assert(s.subrange(i, i + 1) =~= seq![s[i]]);
        assert forall|k: int| 0 <= k < r.len() implies #[trigger] r[k] != '\\' by {
            if k > 0 {
                assert(r[k] == rest[k - 1]);
            } else if s[i] != '\\' {
                assert(s.subrange(i, i + 1)[0] == s[i]);
            }
        }
    }
}

proof fn lemma_base_name(p: Seq<char>)
    ensures
        base_name(p).len() <= p.len(),
        forall|k: int|
            0 <= k < base_name(p).len() ==> #[trigger] base_name(p)[k] != '/' && exists|j: int|
                0 <= j < p.len() && p[j] == base_name(p)[k],
    decreases p.len(),
{
    if p.len() > 0 && p.last() != '/' {
        let t = p.drop_last();
        lemma_base_name(t);
        let b = base_name(p);
        assert forall|k: int| 0 <= k < b.len() implies #[trigger] b[k] != '/' && exists|j: int|
            0 <= j < p.len() && p[j] == b[k] by {
            if k < base_name(t).len() {
                assert(b[k] == base_name(t)[k]);
                let j = choose|j: int| 0 <= j < t.len() && t[j] == base_name(t)[k];
                assert(p[j] == b[k]);
            } else {
                assert(p[p.len() - 1] == b[k]);
            }
        }
    }
}

// ---------------------------------------------------------------------- uploads
/// The text in lower case.
pub uninterp spec fn lower_case(s: Seq<char>) -> Seq<char>;

/// `str::to_lowercase` writes a text in lower case, which depends on the text alone.
#[verifier::external_body]
pub(crate) fn lower(s: &str) -> (r: String)
    ensures
        r@ == lower_case(s@),
{
    s.to_lowercase()
}

/// The bytes that a text writes in base64, where it writes any.
pub uninterp spec fn base64_value(s: Seq<char>) -> Option<Seq<u8>>;

/// `decode` of `base64::engine::general_purpose::STANDARD`. What it gives, and whether it succeeds,
/// depend on the text alone; the error is dropped.
#[verifier::external_body]
pub fn b64_decode(s: &str) -> (r: Option<Vec<u8>>)
    ensures
        match base64_value(s@) {
            Some(b) => r matches Some(v) && v@ == b,
            None => r is None,
        },
{
    base64::Engine::decode(&base64::engine::general_purpose::STANDARD, s).ok()
}

/// The name that an uploaded workbook gets: the last piece of the path that is given.
pub open spec fn upload_name(path: Seq<char>) -> Seq<char> {
    trimmed(plain_name(path))
}

/// Whether an uploaded file has the name of a workbook.
pub open spec fn is_workbook_name(name: Seq<char>) -> bool {
    name.len() > 0 && (".xlsx"@.is_suffix_of(lower_case(name)) || ".xlsm"@.is_suffix_of(
        lower_case(name),
    ))
}

/// The worksheets that are needed and not there, with a separator between them.
pub open spec fn missing_sheets(names: Seq<Seq<char>>) -> Seq<char> {
    let archive = names.contains(SHEET_ARCHIVE@);
    let records = names.contains(SHEET_RECORDS@);
    if archive && records {
        Seq::empty()
    } else if archive {
        SHEET_RECORDS@
    } else if records {
        SHEET_ARCHIVE@
    } else {
        SHEET_ARCHIVE@ + "、"@ + SHEET_RECORDS@
    }
}

/// Why a workbook with these worksheets is refused.
pub open spec fn sheets_fault(names: Seq<Seq<char>>) -> Option<Seq<char>> {
    if names.contains(SHEET_ARCHIVE@) && names.contains(SHEET_RECORDS@) {
        None
    } else {
        Some("该表格缺少工作表："@ + missing_sheets(names) + "；不是本系统的会员表"@)
    }
}

/// Why an uploaded file is refused, or its content.
pub open spec fn upload_content(name: Seq<char>, data: Seq<char>) -> Result<Seq<u8>, Seq<char>> {
    if !is_workbook_name(name) {
        Err("仅支持 .xlsx / .xlsm 格式的表格文件"@)
    } else {
        match base64_value(data) {
            None => Err("文件内容解析失败，请重试"@),
            Some(raw) => if raw.len() == 0 {
                Err("文件内容为空"@)
            } else if !book_fits(raw) || book_error(raw) is Some {
                Err("无法解析该文件，请确认是有效的 Excel 表格"@)
            } else {
                match sheets_fault(book_sheets(raw)) {
                    Some(e) => Err(e),
                    None => Ok(raw),
                }
            },
        }
    }
}

/// Whether a worksheet is among those given.
fn has_sheet(names: &Vec<String>, sheet: &str) -> (r: bool)
    ensures
        r == names@.map_values(|s: String| s@).contains(sheet@),
{
    let ghost all = names@.map_values(|s: String| s@);
    let mut i: usize = 0;
    while i < names.len()
        invariant
            i <= names@.len(),
            all == names@.map_values(|s: String| s@),
            forall|k: int| 0 <= k < i ==> #[trigger] all[k] != sheet@,
        decreases names@.len() - i,
    {
        assert(all[i as int] == names@[i as int]@);
        if same_text(names[i].as_str(), sheet) {
            return true;
        }
        i = i + 1;
    }
    false
}

/// Why a workbook with these worksheets is refused.
pub fn check_sheets(names: &Vec<String>) -> (r: Option<String>)
    ensures
        text_view(r) == sheets_fault(names@.map_values(|s: String| s@)),
{
    let archive = has_sheet(names, SHEET_ARCHIVE);
    let records = has_sheet(names, SHEET_RECORDS);
    if archive && records {
        return None;
    }
    let missing = if archive {
        String::from_str(SHEET_RECORDS)
    } else if records {
        String::from_str(SHEET_ARCHIVE)
    } else {
        join3(SHEET_ARCHIVE, "、", SHEET_RECORDS)
    };
    Some(join3("该表格缺少工作表：", missing.as_str(), "；不是本系统的会员表"))
}

/// The name and the content of an uploaded workbook, or why it is refused.
pub fn check_upload(path: &str, data: &str) -> (r: Result<(String, Vec<u8>), String>)
    ensures
        match upload_content(upload_name(path@), data@) {
            Ok(b) => r matches Ok(x) && x.0@ == upload_name(path@) && x.1@ == b,
            Err(e) => r matches Err(t) && t@ == e,
        },
{
    let piece = name_of(path);
    let name = trim(piece.as_str());
    let low = lower(name.as_str());
    if chars_of(name.as_str()).len() == 0 || !(has_suffix(low.as_str(), ".xlsx") || has_suffix(
        low.as_str(),
        ".xlsm",
    )) {
        return Err(String::from_str("仅支持 .xlsx / .xlsm 格式的表格文件"));
    }
    let raw = match b64_decode(data) {
        Some(v) => v,
        None => {
            return Err(String::from_str("文件内容解析失败，请重试"));
        },
    };
    if raw.len() == 0 {
        return Err(String::from_str("文件内容为空"));
    }
    if !check_book(raw.as_slice()) {
        return Err(String::from_str("无法解析该文件，请确认是有效的 Excel 表格"));
    }
    let book = match open_book(raw.as_slice()) {
        Ok(b) => b,
        Err(_) => {
            return Err(String::from_str("无法解析该文件，请确认是有效的 Excel 表格"));
        },
    };
    let names = sheet_names(&book);
    match check_sheets(&names) {
        Some(e) => Err(e),
        None => Ok((name, raw)),
    }
}

// ------------------------------------------------------------------- other texts
/// Whether two files are one: where both places on disk are known, these are compared; otherwise the
/// paths as texts, with slashes of either kind and in either case.
pub open spec fn is_same_file(
    place_a: Option<Seq<char>>,
    place_b: Option<Seq<char>>,
    a: Seq<char>,
    b: Seq<char>,
) -> bool {
    match (place_a, place_b) {
        (Some(x), Some(y)) => x == y,
        _ => lower_case(replaced(a, "/"@, "\\"@)) == lower_case(replaced(b, "/"@, "\\"@)),
    }
}

/// Whether two files are one.
pub fn same_path(place_a: &Option<String>, place_b: &Option<String>, a: &str, b: &str) -> (r: bool)
    ensures
        r == is_same_file(text_view(*place_a), text_view(*place_b), a@, b@),
{
    proof {
        reveal_strlit("/");
    }
    match (place_a, place_b) {
        (Some(x), Some(y)) => same_text(x.as_str(), y.as_str()),
        _ => {
            let p = replace_all(a, "/", "\\");
            let q = replace_all(b, "/", "\\");
            let x = lower(p.as_str());
            let y = lower(q.as_str());
            same_text(x.as_str(), y.as_str())
        },
    }
}

/// The name of the studio that a request gives, without white space around it; one of more than
/// twenty characters is refused.
pub open spec fn studio_name(t: Seq<char>) -> Result<Seq<char>, Seq<char>> {
    let name = trimmed(t);
    if name.len() > 20 {
        Err("门店名称不能超过 20 个字"@)
    } else {
        Ok(name)
    }
}

/// The name of the studio that a request gives.
pub fn check_store_name(t: &str) -> (r: Result<String, String>)
    ensures
        match studio_name(t@) {
            Ok(n) => r matches Ok(s) && s@ == n,
            Err(e) => r matches Err(s) && s@ == e,
        },
{
    let name = trim(t);
    if chars_of(name.as_str()).len() > 20 {
        Err(String::from_str("门店名称不能超过 20 个字"))
    } else {
        Ok(name)
    }
}

/// What is said where no workbook was found.
pub fn no_file_text() -> (r: String)
    ensures
        r@ == "未找到同目录下名为「"@ + crate::DEFAULT_PREFIX@ + "」的表格文件，请手动选择。"@,
{
    join3("未找到同目录下名为「", crate::DEFAULT_PREFIX, "」的表格文件，请手动选择。")
}

} // verus!
