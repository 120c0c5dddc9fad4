use laifanyi_core::model::{
    col_to_num, excel_serial, fmt_hm, fmt_num, js_str, norm_phone, num_to_col, parse_date_str,
    parse_time_frac, to_num, Date, Field, Fields, Number, RawVal, SeqNo,
};
use laifanyi_core::text::{
    decimal_text, is_before, read_i64, read_u32, replace_all, signed_decimal_text, trim,
};
use laifanyi_core::xlsx::read::{
    data_to_raw, has_refund_header, read_classes, read_members, CellData, Grid,
};

fn num(v: f64) -> Number {
    Number { text: v.to_string() }
}

fn date(y: i32, m: u32, d: u32) -> Date {
    let day = chrono::NaiveDate::from_ymd_opt(y, m, d).unwrap();
    Date {
        days: chrono::Datelike::num_days_from_ce(&day),
        text: day.format("%Y-%m-%d").to_string(),
    }
}

#[test]
fn test_cols() {
    assert_eq!(col_to_num("A"), Some(1));
    assert_eq!(col_to_num("W"), Some(23));
    assert_eq!(col_to_num("L"), Some(12));
    assert_eq!(num_to_col(23), "W");
    assert_eq!(num_to_col(1), "A");
    assert_eq!(num_to_col(28), "AB");
}

#[test]
fn columns_at_the_edges() {
    assert_eq!(col_to_num(""), None);
    assert_eq!(col_to_num("AAAA"), None);
    assert_eq!(col_to_num("A1"), None);
    assert_eq!(col_to_num("ab"), Some(28));
    assert_eq!(col_to_num("ZZZ"), Some(18278));
    assert_eq!(num_to_col(0), "");
    assert_eq!(num_to_col(18278), "ZZZ");
    for n in 1..=800u32 {
        assert_eq!(col_to_num(&num_to_col(n)), Some(n));
    }
}

#[test]
fn test_parse() {
    assert!(parse_date_str("2026-8-8").is_some());
    assert!(parse_date_str("2026/08/08").is_some());
    assert!(parse_date_str("2026.08.08").is_some());
    assert!(parse_date_str("2026-8-8 ").is_some());
    assert!(parse_date_str("abc").is_none());
    let frac = |s: &str| parse_time_frac(s).map(|n| n as f64 / 86400.0);
    assert_eq!(frac("11:00"), Some(11.0 / 24.0));
    assert_eq!(frac("9:30"), Some(9.5 / 24.0));
    assert_eq!(frac("x"), None);
}

#[test]
fn days_come_with_number_and_text() {
    let d = parse_date_str(" 2026/8/8").unwrap();
    assert_eq!(d.text, "2026-08-08");
    assert_eq!(d.days, date(2026, 8, 8).days);
    assert!(parse_date_str("").is_none());
    assert!(parse_date_str("2026-02-30").is_none());
}

#[test]
fn times_at_the_edges() {
    assert_eq!(parse_time_frac("23:59"), Some(86340));
    assert_eq!(parse_time_frac("24:00"), Some(0));
    assert_eq!(parse_time_frac(" 7:05 "), Some(25500));
    assert_eq!(parse_time_frac("7:5"), None);
    assert_eq!(parse_time_frac("7:60"), None);
    assert_eq!(parse_time_frac("123:00"), None);
    assert_eq!(parse_time_frac("12:005"), Some(43200));
    assert_eq!(parse_time_frac("9:305"), Some(34200));
    assert_eq!(parse_time_frac("9:30:15"), Some(34200));
    assert_eq!(parse_time_frac("12:99999999999999999999"), None);
    assert_eq!(parse_time_frac(":30"), None);
}

#[test]
fn test_serial() {
    assert_eq!(excel_serial(&date(2026, 8, 28)) as f64, 46262.0);
    assert_eq!(excel_serial(&date(1900, 1, 1)) as f64, 2.0);
}

#[test]
fn clock_agrees_with_binary64_arithmetic() {
    let plain = |f: f64| {
        let secs = ((f * 86400.0).round() as i64).clamp(0, 86399);
        format!("{:02}:{:02}", secs / 3600, (secs % 3600) / 60)
    };
    for s in 0..86400u32 {
        let f = s as f64 / 86400.0;
        assert_eq!(fmt_hm(f.to_bits()), plain(f));
        let half = (s as f64 + 0.5) / 86400.0;
        assert_eq!(fmt_hm(half.to_bits()), plain(half));
    }
    for f in [0.0, -0.0, -0.25, 1.0, 1.5, 1e300, -1e300, 5e-324, 1e-9, f64::NAN, f64::INFINITY, f64::NEG_INFINITY, 0.9999999] {
        assert_eq!(fmt_hm(f.to_bits()), plain(f));
    }
}

#[test]
fn numbers_by_their_text() {
    assert_eq!(fmt_num(&num(3000.0)), "3000");
    assert_eq!(fmt_num(&num(-0.0)), "0");
    assert_eq!(fmt_num(&num(12.5)), "12.5");
    assert_eq!(fmt_num(&num(1e16)), "10000000000000000");
    assert_eq!(num(12.9).to_i64(), 12);
    assert_eq!(num(-12.9).to_i64(), -12);
    assert_eq!(num(1e30).to_i64(), i64::MAX);
    assert_eq!(num(-1e30).to_i64(), i64::MIN);
    assert_eq!(num(f64::NAN).to_i64(), 0);
    assert_eq!(num(f64::INFINITY).to_i64(), i64::MAX);
    assert_eq!(num(f64::NEG_INFINITY).to_i64(), i64::MIN);
    assert_eq!(num(9.9).trunc().text, "9");
    assert_eq!(fmt_num(&num(-0.5).trunc()), "0");
    assert!(num(0.5).positive() && !num(0.0).positive() && !num(-1.0).positive());
    assert!(!num(f64::NAN).positive() && num(f64::INFINITY).positive());
    assert!(!num(-0.0).nonzero() && num(-2.0).nonzero());
    assert!(num(7.0).is_whole_number() && !num(7.5).is_whole_number());
    assert!(!num(f64::INFINITY).is_whole_number());
    assert_eq!(Number::whole(-42).text, "-42");
}

#[test]
fn numerals_are_written_and_read() {
    assert_eq!(decimal_text(0), "0");
    assert_eq!(decimal_text(u64::MAX), u64::MAX.to_string());
    assert_eq!(signed_decimal_text(i64::MIN), i64::MIN.to_string());
    assert_eq!(read_u32("+7"), Some(7));
    assert_eq!(read_u32("4294967295"), Some(u32::MAX));
    assert_eq!(read_u32("4294967296"), None);
    assert_eq!(read_u32(""), None);
    assert_eq!(read_u32("+"), None);
    assert_eq!(read_i64("-9223372036854775808"), Some(i64::MIN));
    assert_eq!(read_i64("9223372036854775808"), None);
    assert_eq!(read_i64("--1"), None);
}

#[test]
fn texts_are_searched_and_changed() {
    assert_eq!(trim("\u{3000} a b\t\n"), "a b");
    assert_eq!(replace_all("aaa", "aa", "b"), "ba");
    assert!(is_before("a", "ab") && is_before("a", "b") && !is_before("b", "a"));
}

#[test]
fn phones_keep_their_digits() {
    assert_eq!(norm_phone("139-0000 0001（家）"), "13900000001");
    assert_eq!(norm_phone("无"), "");
    assert_eq!(norm_phone(&norm_phone("+86 139")), norm_phone("+86 139"));
}

#[test]
fn values_are_shown() {
    assert!(RawVal::Empty.is_empty());
    assert!(RawVal::Text(" \u{3000}".to_string()).is_empty());
    assert!(!RawVal::Num(num(0.0)).is_empty());
    assert_eq!(RawVal::Empty.to_display(), None);
    assert_eq!(RawVal::Num(num(3.0)).to_display().unwrap(), "3");
    assert_eq!(RawVal::Date(date(2026, 8, 2)).to_display().unwrap(), "2026-08-02");
    assert_eq!(RawVal::Time(0.4375f64.to_bits()).to_display().unwrap(), "10:30");
    assert!(RawVal::Num(num(1.0)).is_one());
    assert!(RawVal::Text(" 1 ".to_string()).is_one());
    assert!(!RawVal::Text("01".to_string()).is_one());
    assert_eq!(RawVal::Num(num(2.5)).num().unwrap().text, "2.5");
    assert!(RawVal::Text("2.5".to_string()).num().is_none());
    assert_eq!(RawVal::Date(date(2026, 8, 2)).date().unwrap().days, date(2026, 8, 2).days);
    assert!(RawVal::Empty.date().is_none());
}

#[test]
fn fields_stand_for_texts_and_numbers() {
    assert_eq!(js_str(&Field::Null), None);
    assert_eq!(js_str(&Field::Bool(true)).unwrap(), "True");
    assert_eq!(js_str(&Field::Bool(false)).unwrap(), "False");
    assert_eq!(js_str(&Field::Num(num(3.0))).unwrap(), "3");
    assert_eq!(js_str(&Field::Text(" a ".to_string(), None)).unwrap(), "a");
    assert_eq!(js_str(&Field::Other("[1]".to_string())).unwrap(), "[1]");
    assert_eq!(to_num(&Field::Text("7".to_string(), Some(num(7.0)))).unwrap().text, "7");
    assert!(to_num(&Field::Text("  ".to_string(), None)).is_none());
    assert!(to_num(&Field::Text("x".to_string(), None)).is_none());
    assert!(to_num(&Field::Bool(true)).is_none());
    let f = Fields {
        items: vec![
            ("a".to_string(), Field::Text(" x ".to_string(), None)),
            ("b".to_string(), Field::Bool(true)),
        ],
    };
    assert_eq!(f.get_text("a"), "x");
    assert_eq!(f.get_plain("a"), " x ");
    assert_eq!(f.get_text("c"), "");
    assert!(f.get_flag("b") && !f.get_flag("a"));
}

#[test]
fn contents_become_values() {
    let day = Some(date(2026, 8, 28));
    let half = 0.5f64;
    let far = -1e11f64;
    let cell = |f: f64, d: bool| CellData::DateTime(f.to_bits(), num(f), d);
    assert!(matches!(data_to_raw(CellData::Empty, None), RawVal::Empty));
    assert!(matches!(data_to_raw(CellData::Error, None), RawVal::Empty));
    assert_eq!(data_to_raw(CellData::Bool(true), None).to_display().unwrap(), "true");
    assert!(matches!(data_to_raw(cell(half, false), None), RawVal::Time(_)));
    assert!(matches!(data_to_raw(cell(half, true), day), RawVal::Date(_)));
    let day = Some(date(2026, 8, 28));
    assert_eq!(
        data_to_raw(cell(46262.0, false), day).to_display().unwrap(),
        "2026-08-28"
    );
    assert_eq!(data_to_raw(cell(1e9, false), None).to_display().unwrap(), "1000000000");
    assert!(matches!(data_to_raw(cell(far, false), None), RawVal::Num(_)));
    assert_eq!(
        data_to_raw(CellData::DateTimeIso("2026-08-28T10:00:00".to_string()), None)
            .to_display()
            .unwrap(),
        "2026-08-28"
    );
    assert_eq!(
        data_to_raw(CellData::DateTimeIso("soon".to_string()), None).to_display().unwrap(),
        "soon"
    );
    assert_eq!(
        data_to_raw(CellData::DurationIso("PT1H".to_string()), None).to_display().unwrap(),
        "PT1H"
    );
}

#[test]
fn rows_are_read_from_a_grid() {
    let mut head: Vec<RawVal> = Vec::new();
    for _ in 0..21 {
        head.push(RawVal::Empty);
    }
    head.push(RawVal::Text("退卡".to_string()));
    let mut row: Vec<RawVal> = vec![
        RawVal::Text(" M001 ".to_string()),
        RawVal::Text("甲".to_string()),
        RawVal::Num(num(13900000001.0)),
        RawVal::Empty,
        RawVal::Empty,
        RawVal::Text("次卡".to_string()),
        RawVal::Date(date(2026, 8, 1)),
        RawVal::Empty,
        RawVal::Empty,
        RawVal::Num(num(500.0)),
        RawVal::Num(num(800.5)),
        RawVal::Empty,
        RawVal::Num(num(10.0)),
    ];
    for _ in 13..21 {
        row.push(RawVal::Empty);
    }
    row.push(RawVal::Text("是".to_string()));
    row.push(RawVal::Text("备注".to_string()));
    let blank: Vec<RawVal> = vec![RawVal::Text("  ".to_string()), RawVal::Text("x".to_string())];
    let g = Grid { rows: vec![head, blank, row] };
    assert!(has_refund_header(&g));
    let ms = read_members(&g, 504);
    assert_eq!(ms.len(), 1);
    assert_eq!(ms[0].row, 3);
    assert_eq!(ms[0].id, "M001");
    assert_eq!(ms[0].phone, "13900000001");
    assert_eq!(ms[0].receivable.as_ref().unwrap().text, "800.5");
    assert_eq!(ms[0].total.as_ref().unwrap().text, "10");
    assert!(ms[0].refund);
    assert_eq!(ms[0].remark, "备注");
    assert_eq!(read_members(&g, 2).len(), 0);

    let line = |seq: RawVal, id: &str| {
        vec![
            seq,
            RawVal::Text(id.to_string()),
            RawVal::Empty,
            RawVal::Date(date(2026, 8, 28)),
            RawVal::Time(0.5f64.to_bits()),
            RawVal::Empty,
            RawVal::Empty,
            RawVal::Empty,
            RawVal::Empty,
            RawVal::Empty,
            RawVal::Empty,
            RawVal::Text("课".to_string()),
            RawVal::Num(num(1.0)),
            RawVal::Text("记".to_string()),
        ]
    };
    let g = Grid {
        rows: vec![
            vec![],
            line(RawVal::Num(num(7.0)), "M001"),
            line(RawVal::Num(num(7.5)), "M001"),
            line(RawVal::Empty, "M001"),
            line(RawVal::Text("9".to_string()), "M001"),
            line(RawVal::Num(num(1.0)), ""),
            line(RawVal::Num(num(f64::INFINITY)), "M002"),
            line(RawVal::Time(0.25f64.to_bits()), "M002"),
        ],
    };
    let cs = read_classes(&g, 1001);
    assert_eq!(cs.len(), 6);
    assert!(matches!(cs[0].seq, SeqNo::Int(7)));
    assert!(matches!(&cs[1].seq, SeqNo::Real(n) if n.text == "7.5"));
    assert!(matches!(cs[2].seq, SeqNo::Null));
    assert!(matches!(&cs[3].seq, SeqNo::Text(t) if t == "9"));
    assert!(matches!(cs[4].seq, SeqNo::Null));
    assert!(matches!(&cs[5].seq, SeqNo::Text(t) if t == "06:00"));
    assert!(cs[0].effect);
    assert_eq!(cs[0].course, "课");
    assert_eq!(cs[0].remark, "记");
    assert_eq!(cs[4].row, 7);
    assert!(!has_refund_header(&g));
}
