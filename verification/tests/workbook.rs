use laifanyi_core::compute::compute;
use laifanyi_core::model::{Date, Field, Fields, Number, SeqNo};
use laifanyi_core::api::check_upload;
use laifanyi_core::store::{
    class_seconds, write_fault, LoadError, SaveOutcome, Store, StoreError, OCCUPIED_MSG,
};
use laifanyi_core::xlsx::read::read_raw;
use laifanyi_core::xlsx::xmlscan::sheet_paths;
use laifanyi_core::xlsx::zipio::{read_entries, write_entries, Entry};

fn txt(s: &str) -> Field {
    Field::Text(
        s.to_string(),
        s.trim().parse::<f64>().ok().map(|v| Number { text: v.to_string() }),
    )
}

fn fields(items: &[(&str, Field)]) -> Fields {
    Fields { items: items.iter().map(|(k, v)| (k.to_string(), v.clone())).collect() }
}

fn today() -> Date {
    let day = chrono::NaiveDate::from_ymd_opt(2026, 8, 28).unwrap();
    Date {
        days: chrono::Datelike::num_days_from_ce(&day),
        text: day.format("%Y-%m-%d").to_string(),
    }
}

fn time(h: f64) -> Number {
    Number { text: (h / 24.0).to_string() }
}

fn entry(name: &str, data: &str) -> Entry {
    Entry { name: name.to_string(), data: data.as_bytes().to_vec() }
}

/// A workbook with two members and one class; style 1 is a date, style 2 a time.
fn parts(records: &str) -> Vec<Entry> {
    let text = |r: &str, t: &str| {
        format!("<c r=\"{}\" t=\"inlineStr\"><is><t>{}</t></is></c>", r, t)
    };
    let mut archive = String::from(
        "<worksheet xmlns=\"http://schemas.openxmlformats.org/spreadsheetml/2006/main\"><dimension ref=\"A1:W4\"/><sheetData>",
    );
    archive.push_str(&format!("<row r=\"1\">{}</row>", text("A1", "会员编号")));
    archive.push_str(&format!(
        "<row r=\"2\">{}{}{}{}<c r=\"G2\" s=\"1\"><v>46200</v></c><c r=\"H2\" s=\"1\"><v>46236</v></c><c r=\"I2\" s=\"1\"><v>46272</v></c><c r=\"J2\"><v>500</v></c><c r=\"K2\"><v>4599</v></c><c r=\"L2\"><f>K2-J2</f></c><c r=\"N2\"><f>COUNTIF(上课记录!$B:$B,A2)</f></c><c r=\"U2\"><f>IF(V2=\"是\",\"退卡\",\"待开卡\")</f></c></row>",
        text("A2", "M001"),
        text("B2", "李一"),
        text("C2", "139-0000-1111"),
        text("F2", "期限卡")
    ));
    archive.push_str("<row r=\"3\"><c r=\"L3\"><f>K3-J3</f></c></row>");
    archive.push_str(&format!(
        "<row r=\"4\">{}{}{}<c r=\"M4\"><v>10</v></c></row>",
        text("A4", "M002"),
        text("B4", "王二"),
        text("F4", "次卡")
    ));
    archive.push_str("</sheetData><conditionalFormatting sqref=\"A1\"><cfRule type=\"expression\" priority=\"1\"><formula>1</formula></cfRule></conditionalFormatting><dataValidations count=\"0\"/></worksheet>");
    let classes = format!(
        "<worksheet xmlns=\"http://schemas.openxmlformats.org/spreadsheetml/2006/main\"><dimension ref=\"A1:N2\"/><sheetData><row r=\"1\">{}</row><row r=\"2\"><c r=\"A2\"><v>3</v></c>{}<c r=\"C2\"><f>B2</f></c><c r=\"D2\" s=\"1\"><v>46236</v></c><c r=\"E2\" s=\"2\"><v>0.4375</v></c>{}</row></sheetData></worksheet>",
        text("A1", "序号"),
        text("B2", "M001"),
        text("L2", "力量课")
    );
    vec![
        entry("[Content_Types].xml", "<Types xmlns=\"http://schemas.openxmlformats.org/package/2006/content-types\"><Default Extension=\"xml\" ContentType=\"application/xml\"/><Default Extension=\"rels\" ContentType=\"application/vnd.openxmlformats-package.relationships+xml\"/><Override PartName=\"/xl/workbook.xml\" ContentType=\"application/vnd.openxmlformats-officedocument.spreadsheetml.sheet.main+xml\"/></Types>"),
        entry("_rels/.rels", "<Relationships xmlns=\"http://schemas.openxmlformats.org/package/2006/relationships\"><Relationship Id=\"rId1\" Type=\"http://schemas.openxmlformats.org/officeDocument/2006/relationships/officeDocument\" Target=\"xl/workbook.xml\"/></Relationships>"),
        entry("xl/workbook.xml", &format!("<workbook xmlns=\"http://schemas.openxmlformats.org/spreadsheetml/2006/main\" xmlns:r=\"http://schemas.openxmlformats.org/officeDocument/2006/relationships\"><sheets><sheet name=\"会员档案\" sheetId=\"1\" r:id=\"rId1\"/><sheet name=\"{}\" sheetId=\"2\" r:id=\"rId2\"/></sheets></workbook>", records)),
        entry("xl/_rels/workbook.xml.rels", "<Relationships xmlns=\"http://schemas.openxmlformats.org/package/2006/relationships\"><Relationship Id=\"rId1\" Type=\"http://schemas.openxmlformats.org/officeDocument/2006/relationships/worksheet\" Target=\"worksheets/sheet1.xml\"/><Relationship Id=\"rId2\" Type=\"http://schemas.openxmlformats.org/officeDocument/2006/relationships/worksheet\" Target=\"worksheets/sheet2.xml\"/><Relationship Id=\"rId3\" Type=\"http://schemas.openxmlformats.org/officeDocument/2006/relationships/styles\" Target=\"styles.xml\"/></Relationships>"),
        entry("xl/styles.xml", "<styleSheet xmlns=\"http://schemas.openxmlformats.org/spreadsheetml/2006/main\"><cellXfs count=\"3\"><xf numFmtId=\"0\"/><xf numFmtId=\"14\"/><xf numFmtId=\"20\"/></cellXfs></styleSheet>"),
        entry("xl/worksheets/sheet1.xml", &archive),
        entry("xl/worksheets/sheet2.xml", &classes),
    ]
}

fn workbook() -> Vec<u8> {
    write_entries(&parts("上课记录")).unwrap()
}

fn store() -> Store {
    Store::from_bytes(&workbook(), None).ok().unwrap()
}

fn fault(e: StoreError) -> String {
    match e {
        StoreError::Biz(m) => format!("biz {}", m),
        StoreError::Sys(m) => format!("sys {}", m),
    }
}

#[test]
fn members_and_classes_are_read() {
    let (ms, cs, header) = read_raw(&workbook()).unwrap();
    assert!(!header);
    assert_eq!(ms.len(), 2);
    assert_eq!(ms[0].id, "M001");
    assert_eq!(ms[0].row, 2);
    assert_eq!(ms[0].purchase.to_display().unwrap(), "2026-06-27");
    assert_eq!(ms[0].receivable.as_ref().unwrap().text, "4599");
    assert_eq!(ms[1].row, 4);
    assert_eq!(ms[1].total.as_ref().unwrap().text, "10");
    assert_eq!(cs.len(), 1);
    assert_eq!(cs[0].member_id, "M001");
    assert_eq!(cs[0].date.to_display().unwrap(), "2026-08-02");
    assert_eq!(cs[0].time.to_display().unwrap(), "10:30");
    assert_eq!(cs[0].course, "力量课");
    assert!(read_raw(b"hello").err().unwrap().starts_with("BadZipFile: "));
    let other = write_entries(&parts("别的")).unwrap();
    assert_eq!(read_raw(&other).err().unwrap(), "该表格缺少工作表：上课记录");
}

#[test]
fn first_empty_row_skips_used() {
    assert_eq!(Store::first_empty_row(&[2, 3, 5], 10), Some(4));
    assert_eq!(Store::first_empty_row(&[], 10), Some(2));
    assert_eq!(Store::first_empty_row(&[2, 3, 4], 4), None);
}

#[test]
fn numbers_of_new_members() {
    let st = store();
    let some = |s: &str| Some(s.to_string());
    assert_eq!(st.gen_member_id("13800000000", &None), "M003");
    assert_eq!(st.gen_member_id("13900001111", &None), "M001-1");
    assert_eq!(st.gen_member_id("", &None), "M003");
    assert_eq!(st.gen_member_id("", &some("M002-4")), "M002-1");
    assert_eq!(st.gen_member_id("", &some("")), "-1");
    let mut st = store();
    st.members[0].id = "M1200".to_string();
    st.members[1].id = "M1200-09".to_string();
    assert_eq!(st.gen_member_id("1", &None), "M1201");
    assert_eq!(st.gen_member_id("1", &some("M1200")), "M1200-10");
    assert!(st.has_id_left("1", &None));
    st.members[0].id = format!("M{}", i64::MAX);
    assert!(!st.has_id_left("1", &None));
}

#[test]
fn write_path_roundtrip() {
    let mut st = store();
    let n0 = st.members.len();
    let body = fields(&[
        ("name", txt("测试员")),
        ("phone", txt("13900000001")),
        ("teacher", txt("测试师")),
        ("member_type", txt("私教")),
        ("card_type", txt("次卡")),
        ("purchase_date", txt("2026-08-28")),
        ("total_sessions", txt("10")),
        ("receivable", txt("3000")),
        ("amount", txt("1000")),
    ]);
    let mid = st.add_member(&body, &today()).ok().unwrap();
    assert_eq!(st.members.len(), n0 + 1);
    let nm = st.members.iter().find(|m| m.id == mid).unwrap().clone();
    assert_eq!(nm.receivable.unwrap().text, "3000");
    assert_eq!(nm.amount.unwrap().text, "1000");
    assert_eq!(nm.total.unwrap().text, "10");
    assert_eq!(nm.row, 3);
    assert_eq!(nm.name, "测试员");

    let class = fields(&[
        ("member_id", txt(&mid)),
        ("date", txt("2026-08-28")),
        ("time", txt("15:30")),
        ("course", txt("测试课")),
        ("effect", Field::Bool(true)),
        ("remark", txt("t")),
    ]);
    assert_eq!(class_seconds(&class, 7), 55800);
    assert_eq!(class_seconds(&body, 7), 7);
    assert!(st.has_seq_left(&class));
    st.try_add_class(&class, &time(15.5)).unwrap().ok().unwrap();
    let c = st.classes.iter().find(|c| c.member_id == mid).unwrap().clone();
    assert!(c.effect);
    assert_eq!(c.course, "测试课");
    assert_eq!(c.row, 3);
    assert_eq!(c.date.to_display().unwrap(), "2026-08-28");
    assert_eq!(c.time.to_display().unwrap(), "15:30");
    assert_eq!(st.max_seq(), 4);

    let c_row = c.row;
    st.delete_class(c_row).ok().unwrap();
    assert!(!st.classes.iter().any(|c| c.row == c_row));
    assert_eq!(fault(st.delete_class(c_row).err().unwrap()), "biz 该行没有上课记录");

    let refund = fields(&[("refund", Field::Bool(true))]);
    st.update_member(&mid, &refund).ok().unwrap();
    assert!(st.members.iter().find(|m| m.id == mid).unwrap().refund);
    assert!(st.refund_header_present);

    assert_eq!(st.save(SaveOutcome::Written("2026-08-28 12:00:00".to_string())).ok(), Some(true));
    let st2 = Store::from_bytes(&st.doc_bytes, None).ok().unwrap();
    let m3 = st2.members.iter().find(|m| m.id == mid).unwrap();
    assert!(m3.refund);
    assert_eq!(m3.receivable.as_ref().unwrap().text, "3000");
    let (ms, _, dash) = compute(&today(), &st2.members, &st2.classes);
    assert_eq!(ms.iter().find(|m| m.id == "M001").unwrap().status, "沉睡客户");
    assert_eq!(dash.sleeping, 1);
    assert_eq!(dash.refunded, 1);
}

#[test]
fn members_are_changed_field_by_field() {
    let mut st = store();
    let change = fields(&[
        ("name", txt("李壹")),
        ("remark", txt("备注")),
        ("amount", txt("")),
        ("expiry_date", txt("2026/9/30")),
        ("purchase_date", txt("无")),
        ("total_sessions", txt("7.9")),
    ]);
    st.update_member("M001", &change).ok().unwrap();
    let m = &st.members[0];
    assert_eq!(m.name, "李壹");
    assert_eq!(m.remark, "备注");
    assert!(m.amount.is_none());
    assert_eq!(m.total.as_ref().unwrap().text, "7");
    assert_eq!(m.expiry.to_display().unwrap(), "2026-09-30");
    assert_eq!(m.purchase.to_display().unwrap(), "2026-06-27");
    assert_eq!(m.phone, "139-0000-1111");
    st.update_member("M001", &fields(&[("refund", Field::Bool(true))])).ok().unwrap();
    assert!(st.members[0].refund && st.refund_header_present);
    st.update_member(
        "M001",
        &fields(&[("refund", Field::Bool(false)), ("remark", Field::Null)]),
    )
    .ok()
    .unwrap();
    assert!(!st.members[0].refund);
    assert_eq!(st.members[0].remark, "");
    let e = st.update_member("M999", &fields(&[])).err().unwrap();
    assert_eq!(fault(e), "biz 会员不存在: M999");
}

#[test]
fn surgery_fidelity() {
    let mut st = store();
    for name in ["甲", "乙", "丙"] {
        st.add_member(&fields(&[("name", txt(name)), ("card_type", txt("次卡"))]), &today())
            .ok()
            .unwrap();
    }
    let orig = read_entries(&st.doc_bytes).unwrap();
    let sheet = |v: &Vec<Entry>| {
        let data = v.iter().find(|e| e.name == "xl/worksheets/sheet1.xml").unwrap().data.clone();
        String::from_utf8(data).unwrap()
    };
    assert!(!sheet(&orig).contains("K7-J7"));
    st.add_member(
        &fields(&[
            ("name", txt("保真员")),
            ("phone", txt("13900000002")),
            ("card_type", txt("期限卡")),
            ("purchase_date", txt("2026-08-28")),
            ("expiry_date", txt("2027-08-27")),
            ("receivable", txt("5000")),
        ]),
        &today(),
    )
    .ok()
    .unwrap();
    let se = read_entries(&st.doc_bytes).unwrap();
    assert_eq!(orig.len(), se.len(), "zip 部件数量应一致");
    for (a, b) in orig.iter().zip(se.iter()) {
        assert_eq!(a.name, b.name, "部件顺序应一致");
        if a.name.starts_with("xl/worksheets/") || a.name == "xl/workbook.xml" {
            continue;
        }
        assert_eq!(a.data, b.data, "部件 {} 应逐字节一致", a.name);
    }
    let paths = sheet_paths(&se).unwrap();
    let path = paths.get("会员档案").unwrap();
    let arch = &se.iter().find(|e| &e.name == path).unwrap().data;
    let arch_s = String::from_utf8(arch.clone()).unwrap();
    assert!(arch_s.contains("conditionalFormatting"), "条件格式丢失");
    assert!(arch_s.contains("dataValidation"), "数据校验丢失");
    assert!(arch_s.contains("<f>K7-J7</f>"), "新行尾款公式缺失");
    assert!(arch_s.contains("<f>COUNTIF(上课记录!$B:$B,A7)</f>"));
    assert!(sheet(&orig).contains("<f>K3-J3</f>") && arch_s.contains("<f>K3-J3</f>"));
    assert!(arch_s.contains("待开卡"), "状态公式丢失");
    let nm = st.members.iter().find(|m| m.name == "保真员").unwrap().clone();
    assert_eq!(nm.row, 7);
    let (ms, _, _) = compute(&today(), &st.members, &st.classes);
    assert_eq!(ms.iter().find(|m| m.id == nm.id).unwrap().status, "正常");
    let mut st3 = store();
    let id = st3
        .add_member(
            &fields(&[
                ("name", txt("待开卡员")),
                ("phone", txt("13900000003")),
                ("card_type", txt("次卡")),
                ("purchase_date", txt("2026-01-01")),
                ("total_sessions", txt("0")),
            ]),
            &today(),
        )
        .ok()
        .unwrap();
    let (ms3, _, _) = compute(&today(), &st3.members, &st3.classes);
    assert_eq!(ms3.iter().find(|m| m.id == id).unwrap().status, "待开卡");
}

#[test]
fn rows_behind_the_last_one_are_made() {
    let mut st = store();
    for i in 0..3 {
        let id = st
            .add_member(
                &fields(&[("name", txt("新")), ("card_type", txt("期限卡"))]),
                &today(),
            )
            .ok()
            .unwrap();
        assert_eq!(id, format!("M{:03}", i + 3));
    }
    let rows: Vec<u32> = st.members.iter().map(|m| m.row).collect();
    assert_eq!(rows, vec![2, 3, 4, 5, 6]);
    assert_eq!(st.members[4].purchase.to_display().unwrap(), "2026-08-28");
    let xml = String::from_utf8(
        st.entries.iter().find(|e| e.name == "xl/worksheets/sheet1.xml").unwrap().data.clone(),
    )
    .unwrap();
    assert!(xml.contains("<dimension ref=\"A1:W6\"/>"));
    assert!(xml.contains("<f>K6-J6</f>"));
    assert!(xml.contains("<f>COUNTIF(上课记录!$B:$B,A6)</f>"));
}

#[test]
fn class_add_delete_flow() {
    let mut st = store();
    let e = st
        .add_class(&fields(&[("member_id", txt("NOPE")), ("date", txt("2026-08-29"))]), &time(9.0))
        .err()
        .unwrap();
    assert_eq!(fault(e), "biz 会员编号不存在: NOPE");
    let e = st
        .add_class(&fields(&[("member_id", txt("M001")), ("date", txt("bad-date"))]), &time(9.0))
        .err()
        .unwrap();
    assert_eq!(fault(e), "biz 上课日期无效");
    assert_eq!(fault(st.delete_class(1).err().unwrap()), "biz 行号无效");
    assert_eq!(fault(st.delete_class(1002).err().unwrap()), "biz 行号无效");
    assert_eq!(fault(st.delete_class(9).err().unwrap()), "biz 该行没有上课记录");
    st.delete_class(2).ok().unwrap();
    assert!(st.classes.is_empty());
    let xml = String::from_utf8(
        st.entries.iter().find(|e| e.name == "xl/worksheets/sheet2.xml").unwrap().data.clone(),
    )
    .unwrap();
    assert!(xml.contains("<row r=\"2\"><c r=\"C2\"><f>B2</f></c></row>"));
}

#[test]
fn full_worksheets_refuse_rows() {
    let mut st = store();
    let m = st.members[0].clone();
    st.members = (2..=504)
        .map(|r| {
            let mut x = m.clone();
            x.row = r;
            x
        })
        .collect();
    let e = st.add_member(&fields(&[]), &today()).err().unwrap();
    assert_eq!(fault(e), "biz 会员档案已满（503 行）");
    let c = st.classes[0].clone();
    st.classes = (2..=1001)
        .map(|r| {
            let mut x = c.clone();
            x.row = r;
            x
        })
        .collect();
    let e = st
        .add_class(&fields(&[("member_id", txt("M001")), ("date", txt("2026-08-29"))]), &time(9.0))
        .err()
        .unwrap();
    assert_eq!(fault(e), "biz 上课记录已满（1000 行）");
    st.classes.truncate(1);
    st.classes[0].seq = SeqNo::Int(i64::MAX);
    let class = fields(&[("member_id", txt("M001")), ("date", txt("2026-08-29"))]);
    assert!(!st.has_seq_left(&class));
    assert!(st.try_add_class(&class, &time(9.0)).is_none());
    assert!(st.has_seq_left(&fields(&[("member_id", txt("M001"))])));
    st.sheet_class = "xl/nothing.xml".to_string();
    let e = st.delete_class(2).err().unwrap();
    assert_eq!(fault(e), "sys missing sheet part xl/nothing.xml");
}

#[test]
fn pending_recover_roundtrip() {
    let disk = workbook();
    let mut st = Store::from_bytes(&disk, None).ok().unwrap();
    let n0 = st.members.len();
    let mid = st
        .add_member(
            &fields(&[
                ("name", txt("挂起员")),
                ("phone", txt("13800000099")),
                ("card_type", txt("次卡")),
                ("total_sessions", txt("5")),
                ("receivable", txt("500")),
            ]),
            &today(),
        )
        .ok()
        .unwrap();
    let held = st.doc_bytes.clone();

    let mut st2 = Store::from_bytes(&disk, Some("测试挂起恢复".to_string())).ok().unwrap();
    assert_eq!(st2.recoverable.as_deref(), Some("测试挂起恢复"));
    assert_eq!(st2.members.len(), n0);
    assert!(st2.may_recover(true).is_ok());
    st2.recover_pending(&held, "2026-08-28 12:00:00".to_string()).ok().unwrap();
    assert!(st2.members.iter().any(|m| m.id == mid));
    assert!(st2.recoverable.is_none());
    assert_eq!(st2.last_saved.as_deref(), Some("2026-08-28 12:00:00"));
    assert_eq!(fault(st2.may_recover(true).err().unwrap()), "biz 没有可恢复的挂起变更");

    let st3 = Store::from_bytes(&held, None).ok().unwrap();
    assert!(st3.members.iter().any(|m| m.id == mid));
}

#[test]
fn pending_discard() {
    let mut st = Store::from_bytes(&workbook(), Some("x".to_string())).ok().unwrap();
    assert!(st.recoverable.is_some());
    assert_eq!(fault(st.may_recover(false).err().unwrap()), "biz 没有可恢复的挂起变更");
    st.discard_pending();
    assert!(st.recoverable.is_none());
}

#[test]
fn saving_is_noted() {
    let mut st = Store::from_bytes(&workbook(), Some("x".to_string())).ok().unwrap();
    assert!(st.snapshot_first());
    assert_eq!(st.save(SaveOutcome::Denied).ok(), Some(false));
    assert!(st.pending && !st.snapshot_first());
    assert_eq!(st.pending_reason.as_deref(), Some(OCCUPIED_MSG));
    assert_eq!(
        fault(st.reload_from_disk().err().unwrap()),
        "biz 存在未保存的变更，不能重载（请先关闭表格并重试保存）"
    );
    let e = st.save(SaveOutcome::Failed("disk full".to_string())).err().unwrap();
    assert_eq!(fault(e), "sys OSError: disk full");
    assert!(st.pending && st.recoverable.is_some());
    assert_eq!(st.save(SaveOutcome::Written("t".to_string())).ok(), Some(true));
    assert!(!st.pending && st.pending_reason.is_none() && st.recoverable.is_none());
    assert_eq!(st.last_saved.as_deref(), Some("t"));
    assert!(st.reload_from_disk().is_ok());
    assert_eq!(fault(write_fault(true, "占用", "e")), "biz 占用");
    assert_eq!(fault(write_fault(false, "占用", "e")), "sys OSError: e");
}

#[test]
fn workbooks_are_loaded_again() {
    let mut st = store();
    let mut other = store();
    other.update_member("M002", &fields(&[("name", txt("改名"))])).ok().unwrap();
    st.last_saved = Some("t".to_string());
    st.reload_file(&other.doc_bytes).ok().unwrap();
    assert_eq!(st.members[1].name, "改名");
    assert!(st.last_saved.is_none() && !st.pending);
    let wrong = write_entries(&parts("别的")).unwrap();
    match st.reload_file(&wrong).err().unwrap() {
        LoadError::Message(m) => assert_eq!(m, "该表格缺少工作表：上课记录"),
        LoadError::NameTooLong => panic!("no name is too long"),
    }
    assert_eq!(st.members[1].name, "改名");
    match Store::from_bytes(b"hello", None).err().unwrap() {
        LoadError::Message(m) => assert!(m.starts_with("BadZipFile: ")),
        LoadError::NameTooLong => panic!("no name is too long"),
    }
    let mut lost = parts("上课记录");
    lost.remove(5);
    let bytes = write_entries(&lost).unwrap();
    assert!(matches!(Store::from_bytes(&bytes, None).err().unwrap(), LoadError::Message(_)));
}

#[test]
fn workbooks_are_uploaded() {
    let b64 = |b: &[u8]| base64::Engine::encode(&base64::engine::general_purpose::STANDARD, b);
    let (name, raw) = check_upload("C:\\x\\上传表格.xlsx", &b64(&workbook())).unwrap();
    assert_eq!(name, "上传表格.xlsx");
    assert_eq!(raw, workbook());
    let other = write_entries(&parts("别的")).unwrap();
    assert_eq!(
        check_upload("a.xlsx", &b64(&other)).err().unwrap(),
        "该表格缺少工作表：上课记录；不是本系统的会员表"
    );
}

#[test]
fn unreadable_workbooks_are_refused() {
    let change = |name: &str, from: &str, to: &str| -> Vec<u8> {
        let mut p = parts("上课记录");
        for e in p.iter_mut() {
            if e.name == name {
                let t = String::from_utf8(e.data.clone()).unwrap();
                assert!(t.contains(from));
                e.data = t.replace(from, to).into_bytes();
            }
        }
        write_entries(&p).unwrap()
    };
    let sheet = "xl/worksheets/sheet1.xml";
    let refused = |b: &[u8]| read_raw(b).err().unwrap();
    let out = "BadZipFile: worksheet out of range";
    assert_eq!(refused(&change(sheet, "ref=\"A1:W4\"", "ref=\"W4:A1\"")), out);
    assert_eq!(refused(&change(sheet, "r=\"J2\"", "r=\"J22222222222\"")), out);
    assert_eq!(refused(&change(sheet, "<c r=\"J2\">", "<c r=\"J2\" t=\"s\">")), out);
    let styles = change("xl/styles.xml", "<cellXfs", &format!(
        "<numFmts><numFmt numFmtId=\"200\" formatCode=\"{}\"/></numFmts><cellXfs",
        "[".repeat(300)
    ));
    assert_eq!(refused(&styles), "BadZipFile: styles out of range");

    let mut old: Vec<u8> = vec![0; 512];
    old[..8].copy_from_slice(&[0xd0, 0xcf, 0x11, 0xe0, 0xa1, 0xb1, 0x1a, 0xe1]);
    old[30] = 9;
    old[32] = 6;
    for i in 68..512 {
        old[i] = 0xff;
    }
    assert!(refused(&old).starts_with("BadZipFile: Zip error: "));
    assert!(refused(&old[..8]).starts_with("BadZipFile: Zip error: "));
    let mut locked = old.clone();
    for c in "EncryptedPackage".bytes() {
        locked.push(c);
        locked.push(0);
    }
    assert_eq!(refused(&locked), "BadZipFile: Workbook is password protected");
    let b64 = |b: &[u8]| base64::Engine::encode(&base64::engine::general_purpose::STANDARD, b);
    assert_eq!(
        check_upload("a.xlsx", &b64(&old)).err().unwrap(),
        "无法解析该文件，请确认是有效的 Excel 表格"
    );

    let mut p = parts("上课记录");
    for e in p.iter_mut() {
        if e.name == sheet {
            let t = String::from_utf8(e.data.clone()).unwrap();
            e.data = t.replace("<c r=\"J2\"><v>500</v>", "<c r=\"J2\" t=\"s\"><v>1</v>").into_bytes();
        }
    }
    let shared = |t: &str| -> Result<usize, String> {
        let mut q: Vec<Entry> = Vec::new();
        for e in p.iter() {
            q.push(Entry { name: e.name.clone(), data: e.data.clone() });
        }
        q.push(entry("xl/SharedStrings.xml", t));
        read_raw(&write_entries(&q).unwrap()).map(|x| x.0.len())
    };
    let two = "<sst><si><t>a</t></si><!-- x --><si><t>b</t></si></sst>";
    assert_eq!(shared(two), Ok(2));
    assert_eq!(shared("<sst><si><t>a</t></si></sst>"), Err(out.to_string()));
    assert_eq!(shared("<x><sst/><si><t>a</t></si><si><t>b</t></si></x>"), Err(out.to_string()));
    assert_eq!(
        shared("<sst><a:b:si><t>a</t></a:b:si><si><t>b</t></si></sst>"),
        Err(out.to_string())
    );
    assert_eq!(
        shared("<sst><x:si><x:r/></x:si><x:si><x:t>b</x:t></x:si></y:x:si></sst>"),
        Err(out.to_string())
    );
    p.push(entry("xl/SharedStrings.xml", "<sst><si><t>a</t></si><si><t>b</t></si></sst>"));
    let (ms, _, _) = read_raw(&write_entries(&p).unwrap()).unwrap();
    assert!(ms[0].amount.is_none());
    assert_eq!(ms[0].receivable.as_ref().unwrap().text, "4599");
}

#[test]
fn changed_workbooks_load_again() {
    let mut p = parts("上课记录");
    p.push(entry("xl/calcChain.xml", "<calcChain/>"));
    let rels = p.iter_mut().find(|e| e.name == "xl/_rels/workbook.xml.rels").unwrap();
    let listed = String::from_utf8(rels.data.clone()).unwrap().replace(
        "</Relationships>",
        "<Relationship Id=\"rId9\" Target=\"calcChain.xml\"/></Relationships>",
    );
    rels.data = listed.into_bytes();
    let mut st = Store::from_bytes(&write_entries(&p).unwrap(), None).ok().unwrap();
    let body = fields(&[("member_id", txt("M001")), ("date", txt("2026-08-28"))]);
    st.add_class(&body, &time(9.0)).ok().unwrap();
    let again = Store::from_bytes(&st.doc_bytes, None).ok().unwrap();
    assert_eq!(again.doc_bytes, st.doc_bytes);
    assert_eq!(again.sheet_archive, st.sheet_archive);
    assert_eq!(again.sheet_class, st.sheet_class);
    let rows = |s: &Store| s.classes.iter().map(|c| (c.row, c.member_id.clone())).collect::<Vec<_>>();
    assert_eq!(rows(&again), vec![(2, "M001".to_string()), (3, "M001".to_string())]);
    assert_eq!(rows(&again), rows(&st));
    assert!(again.entries.iter().all(|e| e.name != "xl/calcChain.xml"));
    let third = Store::from_bytes(&again.doc_bytes, None).ok().unwrap();
    assert_eq!(third.doc_bytes, st.doc_bytes);
}

#[test]
fn deleted_classes_leave_no_cells() {
    let mut st = store();
    let body = fields(&[("member_id", txt("M002")), ("date", txt("2026-08-28"))]);
    st.add_class(&body, &time(9.0)).ok().unwrap();
    let sheet = |s: &Store| {
        let data =
            s.entries.iter().find(|e| e.name == "xl/worksheets/sheet2.xml").unwrap().data.clone();
        String::from_utf8(data).unwrap()
    };
    assert!(sheet(&st).contains("<row r=\"3\"><c r=\"A3\">"));
    st.delete_class(3).ok().unwrap();
    assert!(sheet(&st).contains("<row r=\"3\"><c r=\"C3\"><f>B3</f></c></row>"));
    assert!(sheet(&st).contains("<row r=\"2\"><c r=\"A2\"><v>3</v></c>"));
}
