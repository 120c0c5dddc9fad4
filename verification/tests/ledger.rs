use laifanyi_core::compute::{
    compute, member_status, ClassOut, Dashboard, Divisor, MemberOut, UnitPrice,
};
use laifanyi_core::model::{Date, Number, RawClass, RawMember, RawVal, SeqNo};

fn num(v: f64) -> Number {
    Number { text: v.to_string() }
}

fn date(y: i32, m: u32, d: u32) -> Date {
    let day = chrono::NaiveDate::from_ymd_opt(y, m, d).unwrap();
    Date {
        days: chrono::Datelike::num_days_from_ce(&day),
        text: day.format("%Y-%m-%d").to_string(),
    }
}

fn day(y: i32, m: u32, d: u32) -> RawVal {
    RawVal::Date(date(y, m, d))
}

fn member(id: &str, card: &str) -> RawMember {
    RawMember {
        row: 2,
        id: id.to_string(),
        name: format!("员{}", id),
        phone: String::new(),
        teacher: "师".to_string(),
        member_type: "私教".to_string(),
        card_type: card.to_string(),
        purchase: RawVal::Empty,
        activation: RawVal::Empty,
        expiry: RawVal::Empty,
        amount: None,
        receivable: None,
        total: None,
        refund: false,
        remark: String::new(),
    }
}

fn class(id: &str, d: RawVal, effect: bool) -> RawClass {
    RawClass {
        row: 2,
        seq: SeqNo::Int(1),
        member_id: id.to_string(),
        date: d,
        time: RawVal::Time(0.5f64.to_bits()),
        course: "课".to_string(),
        effect,
        remark: String::new(),
    }
}

fn price(u: &Option<UnitPrice>) -> Option<f64> {
    u.as_ref().map(|p| {
        let r: f64 = p.receivable.text.parse().unwrap();
        match &p.divisor {
            Divisor::Sessions(n) => r / n.text.parse::<f64>().unwrap(),
            Divisor::Days(d) => r / *d as f64,
        }
    })
}

fn five_members() -> (Vec<RawMember>, Vec<RawClass>) {
    let mut m1 = member("M001", "期限卡");
    m1.purchase = day(2026, 7, 5);
    m1.activation = day(2026, 8, 7);
    m1.expiry = day(2026, 9, 7);
    m1.receivable = Some(num(4599.0));
    m1.amount = Some(num(500.0));
    let mut m2 = member("M002", "期限卡");
    m2.purchase = day(2026, 8, 28);
    m2.activation = day(2026, 8, 28);
    m2.expiry = day(2027, 8, 27);
    m2.receivable = Some(num(5899.0));
    m2.amount = Some(num(1000.0));
    let mut m3 = member("M003", "期限卡");
    m3.purchase = day(2026, 8, 21);
    m3.activation = day(2026, 8, 21);
    m3.expiry = day(2026, 9, 21);
    m3.receivable = Some(num(5499.0));
    m3.amount = Some(num(5499.0));
    let mut m4 = member("M004", "次卡");
    m4.activation = day(2026, 8, 1);
    m4.receivable = Some(num(16999.0));
    m4.total = Some(num(30.0));
    let mut m5 = member("M005", "次卡");
    m5.purchase = day(2026, 8, 28);
    m5.receivable = Some(num(9800.0));
    m5.amount = Some(num(9800.0));
    m5.total = Some(num(100.0));
    let classes = vec![
        class("M001", day(2026, 7, 20), false),
        class("M001", day(2026, 8, 2), true),
        class("M002", day(2026, 8, 28), true),
        class("M004", day(2026, 8, 1), false),
        class("M005", day(2026, 8, 28), true),
    ];
    (vec![m1, m2, m3, m4, m5], classes)
}

fn figures(
    ms: &[RawMember],
    cs: &[RawClass],
) -> (Vec<MemberOut>, Vec<ClassOut>, Dashboard) {
    compute(&date(2026, 8, 28), ms, cs)
}

#[test]
fn compute_matches_excel() {
    let (members, classes) = five_members();
    let (ms, cs, dash) = figures(&members, &classes);
    assert_eq!(ms[0].status, "沉睡客户");
    assert!((price(&ms[0].unit_price).unwrap() - 4599.0 / 31.0).abs() < 1e-9);
    assert_eq!(ms[0].remaining_days, Some(10));
    assert_eq!(ms[0].remaining_units, 10);
    assert_eq!(ms[0].last_class.as_deref(), Some("2026-08-02"));
    assert_eq!(ms[0].days_absent, 26);
    assert_eq!(ms[0].consumed, 2);
    assert_eq!(ms[1].status, "正常");
    assert!((price(&ms[1].unit_price).unwrap() - 5899.0 / 364.0).abs() < 1e-9);
    assert_eq!(ms[2].status, "预警客户");
    assert_eq!(ms[2].days_absent, 7);
    assert_eq!(ms[2].last_class.as_deref(), Some("2026-08-21"));
    assert_eq!(ms[3].remaining_sessions, Some(29));
    assert_eq!(ms[3].status, "沉睡客户");
    assert!((price(&ms[3].unit_price).unwrap() - 16999.0 / 30.0).abs() < 1e-9);
    assert_eq!(ms[4].card_type, "次卡");
    assert_eq!(ms[4].remaining_sessions, Some(99));
    assert!((price(&ms[4].unit_price).unwrap() - 98.0).abs() < 1e-9);
    assert_eq!(ms[4].status, "正常");

    assert_eq!(dash.today, "2026-08-28");
    assert_eq!(dash.total, 5);
    assert_eq!(dash.period_card, 3);
    assert_eq!(dash.session_card, 2);
    assert_eq!(dash.valid_period, 3);
    assert_eq!(dash.normal, 2);
    assert_eq!(dash.warning, 1);
    assert_eq!(dash.sleeping, 2);
    assert_eq!(dash.pending, 0);
    assert_eq!(dash.expired, 0);
    assert_eq!(dash.refunded, 0);
    assert_eq!(dash.today_classes, 2);
    assert_eq!(dash.today_effect, 2);
    assert_eq!(dash.today_revenue, vec![2, 4]);
    assert_eq!(dash.month_revenue, vec![1, 2, 3, 4]);
    assert_eq!(dash.today_income, vec![1, 4]);
    assert_eq!(dash.month_income, vec![1, 2, 4]);
    assert_eq!(dash.liability, vec![0, 1, 2, 3, 4]);
    let revenue: f64 = dash.today_revenue.iter().map(|i| price(&cs[*i].unit_price).unwrap()).sum();
    assert!((revenue - (5899.0 / 364.0 + 98.0)).abs() < 1e-9);
    let amount = |i: usize| ms[i].amount.as_ref().unwrap().text.parse::<f64>().unwrap();
    let receivable = |i: usize| ms[i].receivable.as_ref().unwrap().text.parse::<f64>().unwrap();
    assert_eq!(receivable(0) - amount(0), 4099.0);
    assert_eq!(receivable(2) - amount(2), 0.0);
    assert_eq!(receivable(4) - amount(4), 0.0);
    let income: f64 = dash.month_income.iter().map(|i| amount(*i)).sum();
    assert!((income - 16299.0).abs() < 1e-9);
    let income: f64 = dash.today_income.iter().map(|i| amount(*i)).sum();
    assert!((income - 10800.0).abs() < 1e-9);
    let liability: f64 = dash
        .liability
        .iter()
        .map(|i| price(&ms[*i].unit_price).unwrap() * ms[*i].remaining_units as f64)
        .sum();
    assert!((liability - (28072.205376344085 + 9702.0)).abs() < 1e-6);
    assert_eq!(
        dash.normal + dash.pending + dash.warning + dash.sleeping + dash.expired + dash.refunded,
        dash.total
    );
}

#[test]
fn cards_that_are_used_up() {
    let mut a = member("A", "次卡");
    a.total = Some(num(0.0));
    let mut b = member("B", "次卡");
    b.total = Some(num(1.9));
    b.activation = day(2026, 1, 1);
    let mut c = member("C", "期限卡");
    c.expiry = day(2026, 8, 28);
    c.activation = RawVal::Text("已开".to_string());
    let d = member("D", "期限卡");
    let mut e = member("E", "次卡");
    e.refund = true;
    e.total = Some(num(5.0));
    e.expiry = day(2030, 1, 1);
    let f = member("F", "体验");
    let classes = vec![class("B", RawVal::Text("八月".to_string()), false)];
    let (ms, cs, dash) = figures(&[a, b, c, d, e, f], &classes);
    let statuses: Vec<&str> = ms.iter().map(|m| m.status.as_str()).collect();
    assert_eq!(statuses, vec!["待开卡", "已到期", "已到期", "待开卡", "退卡", "正常"]);
    assert_eq!(ms[1].remaining_sessions, Some(0));
    assert_eq!(ms[1].last_class.as_deref(), Some("2026-01-01"));
    assert_eq!(ms[5].remaining_sessions, None);
    assert_eq!(ms[5].remaining_days, None);
    assert_eq!(ms[5].days_absent, 0);
    assert!(ms.iter().all(|m| m.unit_price.is_none()));
    assert_eq!(cs[0].date.as_deref(), Some("八月"));
    assert_eq!(dash.pending, 2);
    assert_eq!(dash.expired, 2);
    assert_eq!(dash.refunded, 1);
    assert_eq!(dash.normal, 1);
    assert_eq!(dash.valid_period, 1);
    assert_eq!(dash.session_card, 2);
    assert_eq!(dash.liability, vec![0, 1, 2, 3, 5]);
}

#[test]
fn prices_need_their_numbers() {
    let unit = |f: &dyn Fn(&mut RawMember)| {
        let mut m = member("A", "次卡");
        m.receivable = Some(num(100.0));
        m.total = Some(num(10.0));
        m.activation = day(2026, 1, 1);
        m.expiry = day(2026, 1, 11);
        f(&mut m);
        price(&figures(&[m], &[]).0[0].unit_price)
    };
    assert_eq!(unit(&|_| ()), Some(10.0));
    assert_eq!(unit(&|m| m.receivable = Some(num(0.0))), None);
    assert_eq!(unit(&|m| m.receivable = None), None);
    assert_eq!(unit(&|m| m.total = Some(num(-1.0))), None);
    assert_eq!(unit(&|m| m.card_type = "期限卡".to_string()), Some(10.0));
    assert_eq!(
        unit(&|m| {
            m.card_type = "期限卡".to_string();
            m.expiry = day(2026, 1, 1);
        }),
        None
    );
    assert_eq!(unit(&|m| m.card_type = "体验".to_string()), None);
}

#[test]
fn classes_follow_the_last_member_of_their_number() {
    let a = member("X", "次卡");
    let mut b = member("X", "期限卡");
    b.name = "后者".to_string();
    let classes = vec![class("X", day(2026, 8, 28), false), class("Y", day(2026, 8, 28), true)];
    let (_, cs, dash) = figures(&[a, b], &classes);
    assert_eq!(cs[0].member_name, "后者");
    assert_eq!(cs[0].card_type, "期限卡");
    assert!(cs[0].valid);
    assert_eq!(cs[1].member_name, "");
    assert!(!cs[1].valid);
    assert_eq!(cs[0].time.as_deref(), Some("12:00"));
    assert_eq!(dash.today_classes, 1);
    assert_eq!(dash.today_effect, 0);
    assert!(dash.today_revenue.is_empty());
}

#[test]
fn statuses_by_absence() {
    assert_eq!(member_status(false, false, false, 6), "正常");
    assert_eq!(member_status(false, false, false, 7), "预警客户");
    assert_eq!(member_status(false, false, false, 10), "沉睡客户");
    assert_eq!(member_status(false, true, false, 0), "已到期");
    assert_eq!(member_status(false, true, true, 99), "待开卡");
    assert_eq!(member_status(true, true, true, 99), "退卡");
}
