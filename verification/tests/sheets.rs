use laifanyi_core::model::Number;
use laifanyi_core::xlsx::limits::{check_formats, check_sheet, count_texts};
use laifanyi_core::xlsx::surgery::{apply_patch, renumber_formula, CellVal, CellWrite, RowWrite};
use laifanyi_core::xlsx::xmlscan::{
    attr_value, element_span, escape, find_byte, find_entry, fix_dimension, for_each_element,
    next_tag, parse_ref, row_templates, sheet_data_span, sheet_paths, unescape, TextMap,
};
use laifanyi_core::xlsx::zipio::{
    finalize_and_write, names_short, read_entries, write_entries, Entry,
};
use laifanyi_core::RECORDS_MAX_ROW;

fn num(v: f64) -> Number {
    Number { text: v.to_string() }
}

fn entry(name: &str, data: &str) -> Entry {
    Entry { name: name.to_string(), data: data.as_bytes().to_vec() }
}

fn text(b: &[u8]) -> String {
    String::from_utf8(b.to_vec()).unwrap()
}

/// A worksheet with class records in rows 1 to 199.
fn records_xml() -> Vec<u8> {
    let mut s = String::from(
        "<?xml version=\"1.0\"?>\n<worksheet><dimension ref=\"A1:N199\"/><sheetData>\n",
    );
    for r in 1..=199 {
        s.push_str(&format!(
            "<row r=\"{}\"><c r=\"A{}\" s=\"3\"/><c r=\"C{}\"><f>B{}+1</f><v>0</v></c></row>",
            r, r, r, r
        ));
    }
    s.push_str("</sheetData><dataValidations count=\"1\"/></worksheet>");
    s.into_bytes()
}

#[test]
fn tags_are_found() {
    let b = b"<?xml v?><!-- <x> --><![CDATA[<y>]]><a b=\"1>2\" c='&lt;'/><d>t</d>";
    let (lt, t) = next_tag(b, 0).unwrap();
    assert_eq!((lt, t.name.as_str()), (0, "?xml"));
    let (lt, t) = next_tag(b, t.after).unwrap();
    assert_eq!(t.name, "a");
    assert!(t.self_closing && !t.closing);
    let inner = &b[t.inner.0..t.inner.1];
    assert_eq!(attr_value(inner, "b").unwrap(), "1>2");
    assert_eq!(attr_value(inner, "c").unwrap(), "<");
    assert_eq!(attr_value(inner, "d"), None);
    assert_eq!(element_span(b, lt, &t), Some((lt, t.after)));
    let (lt, t) = next_tag(b, t.after).unwrap();
    assert_eq!(t.name, "d");
    assert_eq!(element_span(b, lt, &t), Some((lt, b.len())));
    let (_, t) = next_tag(b, t.after).unwrap();
    assert!(t.closing);
    assert_eq!(t.name, "d");
    assert!(next_tag(b, t.after).is_none());
    assert!(next_tag(b"<a", 0).is_none());
    assert!(next_tag(b"<!-- <a>", 0).is_none());
    assert_eq!(find_byte(b"abcabc", 1, b"abc"), Some(3));
    assert_eq!(find_byte(b"abc", 9, b"a"), None);
}

#[test]
fn attributes_need_a_blank_in_front() {
    assert_eq!(attr_value(b"c xr=\"1\" r=\"2\"", "r").unwrap(), "2");
    assert_eq!(attr_value(b"c r=2 r='3'", "r").unwrap(), "3");
    assert_eq!(attr_value(b"c r=\"2", "r"), None);
    assert_eq!(attr_value(b"c r=", "r"), None);
}

#[test]
fn entities_are_read_back() {
    assert_eq!(unescape("a&lt;b&gt;&quot;&apos;&#xA;&#xa;&amp;"), "a<b>\"'\n\n&");
    assert_eq!(unescape("&amp;lt;"), "&lt;");
    assert_eq!(escape("<&>\""), "&lt;&amp;&gt;\"");
    for s in ["", "&", "&lt;", "a<b>&amp;c", "&&&quot;&#xA;"] {
        assert_eq!(unescape(&escape(s)), s);
    }
}

#[test]
fn references_are_read() {
    assert_eq!(parse_ref("AB12"), Some((28, 12)));
    assert_eq!(parse_ref("A"), None);
    assert_eq!(parse_ref("12"), None);
    assert_eq!(parse_ref("A1B"), None);
    assert_eq!(parse_ref("A4294967296"), None);
}

#[test]
fn elements_are_collected() {
    let b = b"<s><row r=\"1\"/><row r=\"2\">x</row></s>";
    let els = for_each_element(b, 0, b.len(), "row");
    assert_eq!(els.len(), 2);
    assert_eq!(&b[els[1].2 .0..els[1].2 .1], b"<row r=\"2\">x</row>");
    assert_eq!(for_each_element(b, 0, 10, "row").len(), 1);
    assert_eq!(sheet_data_span(b"<w><sheetData>ab</sheetData></w>"), Some((14, 16, false)));
    assert_eq!(sheet_data_span(b"<w><sheetData/></w>"), Some((3, 3, true)));
    assert_eq!(sheet_data_span(b"<w/>"), None);
}

#[test]
fn sheets_are_located() {
    let book = entry(
        "xl/workbook.xml",
        "<workbook><sheets><sheet name=\"甲\" r:id=\"rId1\"/><sheet name=\"乙\" r:id=\"rId2\"/><sheet name=\"丙\" r:id=\"rId9\"/></sheets></workbook>",
    );
    let rels = entry(
        "xl/_rels/workbook.xml.rels",
        "<Relationships><Relationship Id=\"rId1\" Target=\"worksheets/sheet1.xml\"/><Relationship Id=\"rId2\" Target=\"/xl/worksheets/sheet2.xml\"/></Relationships>",
    );
    let entries = vec![book, rels];
    let paths = sheet_paths(&entries).unwrap();
    assert_eq!(paths.get("甲").unwrap(), "xl/worksheets/sheet1.xml");
    assert_eq!(paths.get("乙").unwrap(), "xl/worksheets/sheet2.xml");
    assert!(paths.get("丙").is_none());
    assert!(find_entry(&entries, "xl/workbook.xml").is_some());
    assert!(find_entry(&entries, "x").is_none());
    assert_eq!(
        sheet_paths(&entries[1..]).err().unwrap(),
        "BadZipFile: missing xl/workbook.xml"
    );
    assert_eq!(
        sheet_paths(&entries[..1]).err().unwrap(),
        "BadZipFile: missing workbook rels"
    );
    let mut m = TextMap::new();
    m.insert("a".to_string(), "1".to_string());
    m.insert("a".to_string(), "2".to_string());
    assert_eq!(m.get("a").unwrap(), "2");
}

#[test]
fn templates_are_read() {
    let b = b"<w><sheetData><row r=\"1\"/><row r=\"2\"><c r=\"A2\" s=\"4\"/><c r=\"L2\" s=\"5\"><f>K2-J2&lt;0</f><v>1</v></c><c r=\"M2\"><f/></c></row></sheetData></w>";
    let t = row_templates(b, 2);
    assert_eq!(t.len(), 3);
    assert_eq!(t[&1].style.as_deref(), Some("4"));
    assert_eq!(t[&1].formula, None);
    assert_eq!(t[&12].style.as_deref(), Some("5"));
    assert_eq!(t[&12].formula.as_deref(), Some("K2-J2<0"));
    assert_eq!(t[&13].formula, None);
    assert!(row_templates(b, 1).is_empty());
    assert!(row_templates(b, 3).is_empty());
    assert!(row_templates(b"<w/>", 2).is_empty());
}

#[test]
fn dimension_is_stretched() {
    let mut b = b"<w><dimension ref=\"A1:N199\"/><sheetData/></w>".to_vec();
    fix_dimension(&mut b, 1001);
    assert_eq!(text(&b), "<w><dimension ref=\"A1:N1001\"/><sheetData/></w>");
    fix_dimension(&mut b, 7);
    assert_eq!(text(&b), "<w><dimension ref=\"A1:N1001\"/><sheetData/></w>");
    let mut c = b"<w><dimension ref=\"A1\"/></w>".to_vec();
    fix_dimension(&mut c, 9);
    assert_eq!(text(&c), "<w><dimension ref=\"A1\"/></w>");
}

#[test]
fn test_renumber() {
    assert_eq!(renumber_formula("=K2-J2", 2, 6), "=K6-J6");
    assert_eq!(
        renumber_formula("=IF(F2=\"次卡\",MAX(0,M2-N2),\"—\")", 2, 504),
        "=IF(F504=\"次卡\",MAX(0,M504-N504),\"—\")"
    );
    assert_eq!(renumber_formula("=SUM($B$2:$B$9)", 2, 6), "=SUM($B$2:$B$9)");
    assert_eq!(renumber_formula("=AB2+1", 2, 9), "=AB9+1");
    assert_eq!(renumber_formula("=TODAY()-S2", 2, 7), "=TODAY()-S7");
    assert_eq!(renumber_formula("=A2AB", 2, 6), "=A2AB");
}

#[test]
fn formulas_stay_in_their_row() {
    for f in ["=K2-J2", "=ABC2+A2_+A22", "", "=a2", "=SUM(B2:C2)"] {
        assert_eq!(renumber_formula(f, 2, 2), f);
    }
    assert_eq!(renumber_formula("=ABC2+A2_+A22+B2", 2, 3), "=ABC2+A2_+A22+B3");
}

#[test]
fn surgery_insert_beyond_prefill() {
    let xml = records_xml();
    let rw = RowWrite {
        row: 250,
        cells: vec![
            CellWrite { col: 1, val: CellVal::Num(num(99.0)), style: None },
            CellWrite { col: 2, val: CellVal::Text("M001".into()), style: None },
            CellWrite { col: 4, val: CellVal::Num(num(46262.0)), style: None },
        ],
        clear_cols: vec![],
        ensure_formulas: vec![(
            3,
            renumber_formula(
                "=IFERROR(_xlfn.XLOOKUP(B2,会员档案!$A:$A,会员档案!$B:$B),\"\")",
                2,
                250,
            ),
            None,
        )],
        insert_if_absent: true,
    };
    let out = apply_patch(&xml, &[rw]).unwrap();
    let s = String::from_utf8(out).unwrap();
    assert!(s.contains("<row r=\"250\">"), "新行未插入");
    assert!(s.contains("C250"), "公式列未重编号");
    assert!(s.contains("<row r=\"199\">") || s.contains("<row r=\"198\">"), "既有行应保留");
}

#[test]
fn surgery_insert_at_capacity_row() {
    let xml = records_xml();
    let last = RECORDS_MAX_ROW;
    let rw = RowWrite {
        row: last,
        cells: vec![
            CellWrite { col: 1, val: CellVal::Num(num(999.0)), style: None },
            CellWrite { col: 2, val: CellVal::Text("M001".into()), style: None },
            CellWrite { col: 4, val: CellVal::Num(num(46262.0)), style: None },
        ],
        clear_cols: vec![],
        ensure_formulas: vec![(
            3,
            renumber_formula(
                "=IFERROR(_xlfn.XLOOKUP(B2,会员档案!$A:$A,会员档案!$B:$B),\"\")",
                2,
                last,
            ),
            None,
        )],
        insert_if_absent: true,
    };
    let out = apply_patch(&xml, &[rw]).unwrap();
    let s = String::from_utf8(out).unwrap();
    assert!(s.contains(&format!("<row r=\"{}\">", last)), "容量末行未插入");
    assert!(s.contains(&format!("C{}", last)), "公式列未重编号");
    assert!(s.contains(&format!("N{}", last)), "dimension 未扩展到容量末行");
    assert!(s.contains("<row r=\"199\">") || s.contains("<row r=\"198\">"), "既有行应保留");
}

#[test]
fn only_the_cells_that_are_named_change() {
    let xml = b"<w><dimension ref=\"A1:D3\"/><sheetData>\n<row r=\"1\" x=\"y\"><c r=\"A1\"/></row> <row r=\"3\" ht=\"9\"><c r=\"A3\" s=\"1\"><v>1</v></c><c r=\"B3\"><f>A3</f></c><c r=\"D3\" t=\"s\"><v>7</v></c></row>\n</sheetData><z/></w>";
    let mut rw = RowWrite::new(3);
    rw.cells.push(CellWrite { col: 3, val: CellVal::Text("a<b".into()), style: Some("8".into()) });
    rw.clear_cols.push(1);
    rw.ensure_formulas.push((2, "Z3".into(), None));
    rw.ensure_formulas.push((4, "Y3".into(), Some("2".into())));
    let out = text(&apply_patch(xml, &[rw]).unwrap());
    assert_eq!(
        out,
        "<w><dimension ref=\"A1:D3\"/><sheetData>\n<row r=\"1\" x=\"y\"><c r=\"A1\"/></row> <row r=\"3\" ht=\"9\"><c r=\"B3\"><f>A3</f></c><c r=\"C3\" s=\"8\" t=\"inlineStr\"><is><t xml:space=\"preserve\">a&lt;b</t></is></c><c r=\"D3\" s=\"2\"><f>Y3</f></c></row>\n</sheetData><z/></w>"
    );
}

#[test]
fn nothing_changes_without_a_request() {
    let xml = records_xml();
    assert_eq!(apply_patch(&xml, &[]).unwrap(), xml);
    let absent = RowWrite::new(199);
    let out = apply_patch(&xml, &[absent]).unwrap();
    assert!(text(&out).starts_with("<?xml version=\"1.0\"?>\n<worksheet>"));
    assert_eq!(
        apply_patch(b"<w/>", &[]).err().unwrap(),
        "BadZipFile: sheetData not found"
    );
}

#[test]
fn rows_come_in_by_their_numbers() {
    let xml = b"<w><sheetData><row r=\"2\"/><row r=\"5\"/></sheetData></w>";
    let make = |row: u32| {
        let mut w = RowWrite::new(row);
        w.insert_if_absent = true;
        w
    };
    let out = text(&apply_patch(xml, &[make(7), make(3), make(1), make(5)]).unwrap());
    assert_eq!(
        out,
        "<w><sheetData><row r=\"1\"></row><row r=\"2\"/><row r=\"3\"></row><row r=\"5\"></row><row r=\"7\"></row></sheetData></w>"
    );
    let empty = b"<w><sheetData/><t/></w>";
    let out = text(&apply_patch(empty, &[make(4)]).unwrap());
    assert_eq!(out, "<w><sheetData><row r=\"4\"></row></sheetData><t/></w>");
}

#[test]
fn incomplete_rows_are_kept() {
    let xml = b"<w><sheetData><row r=\"2\"><c/></sheetData></w>";
    let mut w = RowWrite::new(2);
    w.clear_cols.push(1);
    assert_eq!(apply_patch(xml, &[w]).unwrap(), xml.to_vec());
}

#[test]
fn packages_are_read_back() {
    let entries = vec![
        entry("[Content_Types].xml", "<Types/>"),
        entry("xl/表.xml", "数据"),
        entry("empty", ""),
    ];
    let bytes = write_entries(&entries).unwrap();
    let back = read_entries(&bytes).unwrap();
    assert_eq!(back.len(), 3);
    for (a, b) in entries.iter().zip(back.iter()) {
        assert_eq!(a.name, b.name);
        assert_eq!(a.data, b.data);
    }
    assert!(read_entries(&bytes[..bytes.len() / 2]).err().unwrap().starts_with("BadZipFile: "));
    let twice = vec![entry("a", "1"), entry("a", "2")];
    assert!(write_entries(&twice).err().unwrap().starts_with("zip start_file failed: "));
    let folder = vec![entry("dir/", ""), entry("dir/a", "1")];
    assert_eq!(read_entries(&write_entries(&folder).unwrap()).unwrap().len(), 1);
    assert!(names_short(&entries));
    assert!(!names_short(&[entry(&"长".repeat(30000), "")]));
}

#[test]
fn calculation_chains_leave_nothing_behind() {
    let entries = vec![
        entry(
            "[Content_Types].xml",
            "<Types><Override PartName=\"/xl/calcChain.xml\" ContentType=\"x\"/></Types>",
        ),
        entry("xl/calcChain.xml", "c"),
        entry(
            "xl/_rels/workbook.xml.rels",
            "<Relationships><Relationship Id=\"rId1\" Target=\"styles.xml\"/>\
             <Relationship Id=\"rId2\" Target=\"calcChain.xml\"/></Relationships>",
        ),
    ];
    let back = read_entries(&finalize_and_write(&entries).unwrap()).unwrap();
    assert_eq!(back.len(), 2);
    assert_eq!(text(&back[0].data), "<Types></Types>");
    assert_eq!(
        text(&back[1].data),
        "<Relationships><Relationship Id=\"rId1\" Target=\"styles.xml\"/></Relationships>"
    );

    let rels = "<R> <Relationship Target='/xl/calcChain.xml'/><Relationship Target=\"a\">\
                </Relationship><!-- <Relationship Target=\"calcChain.xml\"/> --></R>";
    let types = "<T><Override PartName=\"/xl/calcChain.xml\"></Override><Override PartName=\"/b\"/></T>";
    let entries = vec![
        entry("xl/calcChain.xml", "c"),
        entry("xl/_rels/workbook.xml.rels", rels),
        entry("[Content_Types].xml", types),
    ];
    let back = read_entries(&finalize_and_write(&entries).unwrap()).unwrap();
    assert_eq!(
        text(&back[0].data),
        "<R> <Relationship Target=\"a\"></Relationship>\
         <!-- <Relationship Target=\"calcChain.xml\"/> --></R>"
    );
    assert_eq!(text(&back[1].data), "<T><Override PartName=\"/b\"/></T>");
    let back = read_entries(&finalize_and_write(&entries[1..]).unwrap()).unwrap();
    assert_eq!(text(&back[0].data), rels);
    assert_eq!(text(&back[1].data), types);
}

#[test]
fn packages_are_made_ready() {
    let entries = vec![
        entry("xl/calcChain.xml", "chain"),
        entry("[Content_Types].xml", "<Types><Override PartName=\"/xl/calcChain.xml\"/></Types>"),
        entry("xl/workbook.xml", "<workbook><calcPr calcId=\"1\"/></workbook>"),
        entry("other", "kept"),
    ];
    let back = read_entries(&finalize_and_write(&entries).unwrap()).unwrap();
    let names: Vec<&str> = back.iter().map(|e| e.name.as_str()).collect();
    assert_eq!(names, vec!["[Content_Types].xml", "xl/workbook.xml", "other"]);
    assert_eq!(text(&back[0].data), "<Types></Types>");
    assert_eq!(back[2].data, entries[3].data);
    assert_eq!(
        text(&back[1].data),
        "<workbook><calcPr calcId=\"1\" fullCalcOnLoad=\"1\"/></workbook>"
    );
    let change = |s: &str| {
        let e = vec![entry("xl/workbook.xml", s)];
        text(&read_entries(&finalize_and_write(&e).unwrap()).unwrap()[0].data)
    };
    assert_eq!(
        change("<workbook></workbook>"),
        "<workbook><calcPr calcId=\"140000\" fullCalcOnLoad=\"1\"/></workbook>"
    );
    assert_eq!(
        change("<workbook><calcPr a=\"1\"></calcPr></workbook>"),
        "<workbook><calcPr a=\"1\" fullCalcOnLoad=\"1\"></calcPr></workbook>"
    );
    let there = "<workbook><calcPr fullCalcOnLoad=\"0\"/></workbook>";
    assert_eq!(change(there), there);
}

#[test]
fn written_cells_are_found_again() {
    let mut rw = RowWrite::new(2);
    rw.insert_if_absent = true;
    rw.cells.push(CellWrite { col: 1, val: CellVal::Num(num(7.5)), style: Some("4".to_string()) });
    rw.cells.push(CellWrite {
        col: 28,
        val: CellVal::Formula("IF(A2<1,\"</c>\",\"&\")".to_string()),
        style: Some("9".to_string()),
    });
    rw.cells.push(CellWrite { col: 3, val: CellVal::Text("</c><f>".to_string()), style: None });
    let out = apply_patch(b"<w><sheetData></sheetData></w>", &[rw]).unwrap();
    let t = row_templates(&out, 2);
    assert_eq!(t[&1].style.as_deref(), Some("4"));
    assert_eq!(t[&1].formula, None);
    assert_eq!(t[&28].style.as_deref(), Some("9"));
    assert_eq!(t[&28].formula.as_deref(), Some("IF(A2<1,\"</c>\",\"&\")"));
    let at = find_byte(&out, 0, b"<c r=\"C2\"").unwrap();
    let (lt, tag) = next_tag(&out, at).unwrap();
    let (from, to) = element_span(&out, lt, &tag).unwrap();
    assert_eq!(
        text(&out[from..to]),
        "<c r=\"C2\" t=\"inlineStr\"><is><t xml:space=\"preserve\">&lt;/c&gt;&lt;f&gt;</t></is></c>"
    );
}

#[test]
fn bytes_between_cells_stay() {
    let x = "<w><sheetData><row r=\"2\" ht=\"9\"> <c r=\"A2\"><v>1</v></c>\n<!-- n --><c><v>2</v></c> <c r=\"D2\"/>\t</row></sheetData></w>";
    let mut rw = RowWrite::new(2);
    rw.cells.push(CellWrite { col: 4, val: CellVal::Num(num(7.0)), style: None });
    rw.cells.push(CellWrite { col: 3, val: CellVal::Num(num(5.0)), style: None });
    rw.cells.push(CellWrite { col: 6, val: CellVal::Num(num(6.0)), style: None });
    rw.clear_cols.push(1);
    let out = apply_patch(x.as_bytes(), &[rw]).unwrap();
    assert_eq!(
        text(&out),
        "<w><sheetData><row r=\"2\" ht=\"9\"> \n<!-- n --><c><v>2</v></c> <c r=\"C2\"><v>5</v></c><c r=\"D2\"><v>7</v></c>\t<c r=\"F2\"><v>6</v></c></row></sheetData></w>"
    );
    let idle = apply_patch(x.as_bytes(), &[RowWrite::new(2)]).unwrap();
    assert_eq!(text(&idle), x);
    let y = "<sheetData><row r=\"2\"><c r=\"B2\"/><c r=\"A2\"/><c r=\"B2\"><v>1</v></c></row></sheetData>";
    let idle = apply_patch(y.as_bytes(), &[RowWrite::new(2)]).unwrap();
    assert_eq!(text(&idle), y);
    let mut rw = RowWrite::new(2);
    rw.cells.push(CellWrite { col: 2, val: CellVal::Num(num(3.0)), style: None });
    let out = apply_patch(y.as_bytes(), &[rw]).unwrap();
    assert_eq!(
        text(&out),
        "<sheetData><row r=\"2\"><c r=\"A2\"/><c r=\"B2\"><v>3</v></c></row></sheetData>"
    );
}

#[test]
fn worksheets_keep_to_their_limits() {
    let fits = |s: &str| check_sheet(s.as_bytes(), 2);
    assert!(fits("<worksheet><dimension ref=\"A1:B2\"/><sheetData><row r=\"1\" ht=\"15.749999999999998\"><c r=\"A1\" t=\"s\"><v>1</v></c></row></sheetData></worksheet>"));
    assert!(fits("<x:row r='1048576'><x:c r='XFD1048576' t='s'><x:v>0</x:v> </x:c></x:row>"));
    assert!(fits("<c t=\"s\"/><c t=\"s\"></c><c t=\"s\"><f>A1</f><v>1</v></c><c><v>99999999999</v></c>"));
    assert!(fits("<dimension ref=\"A1\"/>"));
    assert!(fits("<c t='s'><v>+0</v></c ><c t='s'><v>0000000000001</v></c>"));
    assert!(fits("<c t='s'><!-- <v>9</v> --><v>1<![CDATA[9]]></v></c>"));
    assert!(fits("<c t='s'><v>x</v><v>9</v></c>"));
    assert!(fits("<c t='s'><x/><v>9</v></c>"));
    assert!(fits("<c t='s'><is><t>a</t></is><f><f></f></f><v>1</v></c><v>9</v>"));
    assert!(fits("<c r=\"?\"/><c r=\"\"/><c r=\"A\"/><row r=\"x\"/><dimension ref=\"A:B\"/>"));
    assert!(!fits("<c r=\"A1\" t=\"s\"><v>2</v></c>"));
    assert!(!fits("<c t = 's'><v>1<!-- -->2</v></c>"));
    assert!(!fits("<c t=\"s\"><v>1</v><v>9</v></c>"));
    assert!(!fits("<c t=\"s\"><f><c t=\"n\"></f><v>9</v></c>"));
    assert!(!fits("<c t=\"s\"><v>+9</v></c>"));
    assert!(fits("<c t='s'><v>1<v/>9</v></c>"));
    assert!(!fits("<c t='s'><v>5<v/>x</v></c>"));
    assert!(!fits("<c t=\"s\"><v>&#48;</v></c>"));
    assert!(!fits("<dimension ref=\"B2:A1\"/>"));
    assert!(!fits("<dimension ref=\"A1:B2:C3\"/>"));
    assert!(!fits("<dimension ref=\"A1:A12345678901\"/>"));
    assert!(!fits("<c r=\"A12345678901\"/>"));
    assert!(!fits("<c r=\"?12345678901\"/>"));
    assert!(!fits("<c r=\"ABCDEFGH1\"/>"));
    assert!(!fits("<c r=\"XFE1\"/>"));
    assert!(!fits("<row r = \"1048577\">"));
    assert!(!fits("<c r=\"A12345678901\""));
}

#[test]
fn shared_texts_are_counted() {
    let count = |s: &str| count_texts(s.as_bytes());
    assert_eq!(count("<?xml version=\"1.0\"?><sst><si><t>a</t></si>\n<si><t/></si><si><r><rPr/><t xml:space=\"preserve\"> b</t></r></si></sst>"), 3);
    assert_eq!(count("<x:sst><x:si><x:t>a</x:t><x:phoneticPr/></x:si></x:sst><si><t>b</t></si>"), 1);
    assert_eq!(count("<sst><si/><si><t>a</t></si><si></si><si><t>b</t></si></sst>"), 2);
    assert_eq!(count("<sst><si><t>a</si><si><t>b</t></si></sst>"), 1);
    assert_eq!(count("<sst><si><t>a</t></si><!-- <si><t>c</t></si> --><si><t>b</t></si></sst>"), 2);
    assert_eq!(count("<sst><si><rPh><t>a</t></rPh></si><si><rPh/><t>b</t></si ></sst>"), 1);
    assert_eq!(count(""), 0);
    assert_eq!(count("<sst/><si><t/></si>"), 0);
    assert_eq!(count("<x><sst/><si><t>a</t></si></x>"), 0);
    assert_eq!(count("<sst><a:b:si><t>a</t></a:b:si></sst>"), 0);
    assert_eq!(count("<sst><x:si><x:r/></x:si><x:si><x:t>b</x:t></x:si></y:x:si></sst>"), 1);
    assert_eq!(count("<sst><si><t>a<t/></si></sst></t></si><si><t>b</t></si></sst>"), 1);
    assert_eq!(count("<!DOCTYPE sst><sst><si><t>a</t></si></sst>"), 0);
    assert!(check_formats(b"<numFmt formatCode=\"[h]:mm\"/>"));
    assert!(!check_formats(format!("<numFmt formatCode=\"{}\"/>", "[".repeat(256)).as_bytes()));
    assert!(check_formats(format!("<cellStyle name=\"{}\"/>", "[".repeat(256)).as_bytes()));
}

#[test]
fn the_same_change_twice_is_one() {
    let mut rw = RowWrite::new(3);
    rw.cells.push(CellWrite { col: 1, val: CellVal::Num(num(7.5)), style: Some("4".to_string()) });
    rw.cells.push(CellWrite { col: 2, val: CellVal::Text("<&>".to_string()), style: None });
    rw.clear_cols.push(5);
    rw.ensure_formulas.push((3, "B3+2".to_string(), None));
    rw.ensure_formulas.push((4, "B3+3".to_string(), Some("1".to_string())));
    let writes = vec![rw];
    let once = apply_patch(&records_xml(), &writes).unwrap();
    assert_ne!(once, records_xml());
    assert!(text(&once).contains("<c r=\"C3\"><f>B3+1</f><v>0</v></c>"));
    assert!(text(&once).contains("<c r=\"D3\" s=\"1\"><f>B3+3</f></c>"));
    assert_eq!(apply_patch(&once, &writes).unwrap(), once);
    let far = vec![RowWrite {
        row: 12,
        cells: vec![CellWrite { col: 2, val: CellVal::Num(num(1.0)), style: None }],
        clear_cols: vec![],
        ensure_formulas: vec![],
        insert_if_absent: true,
    }];
    let narrow = b"<w><dimension ref=\"A1:B2\"/><sheetData><row r=\"9\"><c r=\"A9\"/></row></sheetData></w>";
    let once = apply_patch(narrow, &far).unwrap();
    assert_eq!(
        text(&once),
        "<w><dimension ref=\"A1:B12\"/><sheetData><row r=\"9\"><c r=\"A9\"/></row><row r=\"12\"><c r=\"B12\"><v>1</v></c></row></sheetData></w>"
    );
    assert_eq!(apply_patch(&once, &far).unwrap(), once);
}

#[test]
fn formulas_come_back() {
    let f = "=IF(F2=\"次卡\",MAX(0,M2-AB2),$A$2&A2A&A22)";
    let there = renumber_formula(f, 2, 17);
    assert_eq!(there, "=IF(F17=\"次卡\",MAX(0,M17-AB17),$A$2&A2A&A22)");
    assert_eq!(renumber_formula(&there, 17, 2), f);
}
