use laifanyi_core::api::{
    b64_decode, change_action, change_note, check_member, check_sheets, check_store_name,
    check_upload, class_note, class_row_of, delete_note, member_note, no_file_text, no_version,
    restore_note, safe_version, same_path, swap_note,
};
use laifanyi_core::config::{config_path, find_default_excel, Config, Setting};
use laifanyi_core::model::{Field, Fields, Number};
use laifanyi_core::snapshot::{list_order, prune, slug_of, version_name};
use laifanyi_core::{DEFAULT_PREFIX, MAX_VERSIONS};

fn txt(s: &str) -> Field {
    Field::Text(
        s.to_string(),
        s.trim().parse::<f64>().ok().map(|v| Number { text: v.to_string() }),
    )
}

fn fields(items: &[(&str, Field)]) -> Fields {
    Fields { items: items.iter().map(|(k, v)| (k.to_string(), v.clone())).collect() }
}

#[test]
fn store_name_read_write_roundtrip() {
    let mut c = Config { items: Vec::new() };
    assert_eq!(c.read_store_name(), None);
    c.write_store_name("万达广场店");
    assert_eq!(c.read_store_name().as_deref(), Some("万达广场店"));
    c.write_store_name("");
    assert_eq!(c.read_store_name().as_deref(), Some(""));
}

#[test]
fn save_config_preserves_store_name() {
    let mut c = Config { items: Vec::new() };
    c.write_store_name("财富广场店");
    c.save_config("/app", "/app/表格.xlsx");
    assert_eq!(c.read_store_name().as_deref(), Some("财富广场店"));
    assert_eq!(c.read_config().unwrap(), "表格.xlsx");
}

#[test]
fn paths_are_noted_below_the_folder() {
    assert_eq!(config_path("/app", "/app/a/b.xlsx"), "a/b.xlsx");
    assert_eq!(config_path("/app/", "/app/b.xlsx"), "b.xlsx");
    assert_eq!(config_path("/app", "/apples/b.xlsx"), "/apples/b.xlsx");
    assert_eq!(config_path("/app", "/app"), "");
    assert_eq!(config_path("", "b.xlsx"), "b.xlsx");
}

#[test]
fn settings_of_other_kinds_are_no_texts() {
    let c = Config { items: vec![("excel_path".to_string(), Setting::Other("1".to_string()))] };
    assert_eq!(c.read_config(), None);
}

#[test]
fn default_workbook_is_chosen() {
    let own = |s: &[String]| find_default_excel(&s.to_vec());
    let exact = format!("{}.xlsx", DEFAULT_PREFIX);
    let b = format!("{}-b.xlsm", DEFAULT_PREFIX);
    let a = format!("{}-a.xlsx", DEFAULT_PREFIX);
    let other = format!("{}-0.xls", DEFAULT_PREFIX);
    assert_eq!(own(&[b.clone(), exact.clone(), a.clone()]), Some(exact));
    assert_eq!(own(&[b.clone(), other, a.clone(), "x.xlsx".to_string()]), Some(a));
    assert_eq!(own(&["x.xlsx".to_string()]), None);
    assert_eq!(own(&[]), None);
}

#[test]
fn member_validation_errors() {
    let e = check_member(&fields(&[("card_type", txt("次卡")), ("total_sessions", txt("10"))]));
    assert_eq!(e.unwrap(), "会员姓名必填");
    assert_eq!(check_member(&fields(&[("name", txt("甲"))])).unwrap(), "卡种必填");
    let e = check_member(&fields(&[
        ("name", txt("甲")),
        ("card_type", txt("次卡")),
        ("total_sessions", txt("0")),
    ]));
    assert_eq!(e.unwrap(), "次卡必须填写大于 0 的总次数");
    let e = check_member(&fields(&[("name", txt("甲")), ("card_type", txt("期限卡"))]));
    assert_eq!(e.unwrap(), "期限卡必须填写有效期至");
    let ok = fields(&[
        ("name", txt(" 甲 ")),
        ("card_type", txt("期限卡")),
        ("expiry_date", txt("2027-8-1")),
    ]);
    assert_eq!(check_member(&ok), None);
    assert_eq!(member_note(&ok, "M007"), "新增 甲（M007）");
    let ok = fields(&[
        ("name", txt("甲")),
        ("card_type", txt("次卡")),
        ("total_sessions", Field::Num(Number { text: "3".to_string() })),
    ]);
    assert_eq!(check_member(&ok), None);
}

#[test]
fn changes_are_noted() {
    let f = fields(&[("name", txt("x")), ("refund", Field::Bool(true))]);
    assert_eq!(change_action(&f), "标记退卡");
    assert_eq!(change_note("M001", &f), "M001：name、refund");
    assert_eq!(change_action(&fields(&[("refund", Field::Bool(false))])), "恢复会员");
    assert_eq!(change_action(&fields(&[])), "编辑会员");
    assert_eq!(change_note("M001", &fields(&[])), "M001：无变更字段");
    let c = fields(&[("member_id", txt("M001")), ("date", txt("2026-08-29"))]);
    assert_eq!(class_note(&c), "M001 上课 2026-08-29");
    assert_eq!(class_row_of(Some(7)), Some(7));
    assert_eq!(class_row_of(Some(-1)), None);
    assert_eq!(class_row_of(None), None);
    assert_eq!(class_row_of(Some(4294967301)), Some(5));
    assert_eq!(delete_note(7), "删除上课记录行 7");
    assert_eq!(restore_note("a.xlsx"), "恢复 a.xlsx 前的当前状态");
    assert_eq!(swap_note("a.xlsx"), "更换为 a.xlsx 前的当前表格");
    assert!(no_file_text().contains("莱·梵壹"));
}

#[test]
fn names_of_versions_hold_no_path() {
    assert_eq!(safe_version("../evil.xlsx").unwrap(), "evil.xlsx");
    assert_eq!(safe_version("a\\b\\c.xlsx").unwrap(), "c.xlsx");
    assert_eq!(safe_version("c.json"), None);
    assert_eq!(safe_version(""), None);
    assert_eq!(no_version("x/不存在的.xlsx"), "版本文件不存在：不存在的.xlsx");
}

#[test]
fn file_upload_and_errors() {
    let fault = |n: &str, d: &str| check_upload(n, d).err().unwrap();
    assert_eq!(fault("a.csv", ""), "仅支持 .xlsx / .xlsm 格式的表格文件");
    assert_eq!(fault("", ""), "仅支持 .xlsx / .xlsm 格式的表格文件");
    assert_eq!(fault("a.xlsx", "!!not-b64!!"), "文件内容解析失败，请重试");
    assert_eq!(fault("a.XLSX", ""), "文件内容为空");
    assert_eq!(fault("a.xlsx", "aGVsbG8="), "无法解析该文件，请确认是有效的 Excel 表格");
    assert_eq!(b64_decode("aGVsbG8=").unwrap(), b"hello".to_vec());
    assert_eq!(b64_decode("aGVsbG8"), None);
}

#[test]
fn both_worksheets_are_needed() {
    let names = |v: &[&str]| v.iter().map(|s| s.to_string()).collect::<Vec<String>>();
    assert_eq!(check_sheets(&names(&["会员档案", "其他", "上课记录"])), None);
    assert_eq!(
        check_sheets(&names(&["会员档案"])).unwrap(),
        "该表格缺少工作表：上课记录；不是本系统的会员表"
    );
    assert_eq!(
        check_sheets(&names(&["上课记录"])).unwrap(),
        "该表格缺少工作表：会员档案；不是本系统的会员表"
    );
    assert_eq!(
        check_sheets(&names(&[])).unwrap(),
        "该表格缺少工作表：会员档案、上课记录；不是本系统的会员表"
    );
}

#[test]
fn files_are_compared() {
    let some = |s: &str| Some(s.to_string());
    assert!(same_path(&some("/a"), &some("/a"), "x", "y"));
    assert!(!same_path(&some("/a"), &some("/b"), "x", "x"));
    assert!(same_path(&None, &some("/b"), "C:/Data/T.xlsx", "c:\\data\\t.XLSX"));
    assert!(!same_path(&None, &None, "测试表格.xlsx", "别的表格.xlsx"));
}

#[test]
fn studio_names_have_a_limit() {
    assert_eq!(check_store_name(" 万达广场店 ").unwrap(), "万达广场店");
    assert_eq!(check_store_name("  ").unwrap(), "");
    assert_eq!(check_store_name(&"店".repeat(20)).unwrap(), "店".repeat(20));
    assert_eq!(check_store_name(&"店".repeat(21)).err().unwrap(), "门店名称不能超过 20 个字");
}

#[test]
fn versions_get_free_names() {
    let ts = "20260828_221500";
    let mut taken: Vec<String> = Vec::new();
    for n in 1..=12 {
        let base = version_name(ts, "新增会员", &taken);
        assert_eq!(base, format!("{}_{:02}_add_member", ts, n));
        taken.push(format!("{}.xlsx", base));
    }
    taken.remove(4);
    assert_eq!(version_name(ts, "新增会员", &taken), format!("{}_05_add_member", ts));
    assert_eq!(version_name(ts, "手动备份", &taken), format!("{}_01_manual", ts));
    let slugs = [
        ("编辑会员", "edit_member"),
        ("标记退卡", "refund"),
        ("恢复会员", "unrefund"),
        ("添加上课", "add_class"),
        ("删除上课", "del_class"),
        ("恢复前自动备份", "pre_restore"),
        ("更换表格前备份", "pre_swap"),
        ("重试保存", "retry"),
        ("其他", "edit"),
    ];
    for (action, slug) in slugs {
        assert_eq!(slug_of(action), slug);
    }
}

#[test]
fn oldest_versions_go() {
    assert!(prune(&vec![1; MAX_VERSIONS]).is_empty());
    let mut times: Vec<i128> = (0..MAX_VERSIONS as i128 + 3).rev().collect();
    times[5] = -7;
    let gone = prune(&times);
    assert_eq!(gone.len(), 3);
    assert_eq!(gone, vec![5, MAX_VERSIONS + 2, MAX_VERSIONS + 1]);
    let same = prune(&vec![4; MAX_VERSIONS + 2]);
    assert_eq!(same, vec![0, 1]);
}

#[test]
fn latest_versions_show_first() {
    let keys: Vec<String> =
        ["b", "c", "", "c", "a"].iter().map(|s| s.to_string()).collect();
    assert_eq!(list_order(&keys), vec![1, 3, 0, 4, 2]);
}
