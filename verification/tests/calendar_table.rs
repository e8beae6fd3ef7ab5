use muellbot::calendar::{parse_date, Date, LocalTime};
use muellbot::dates::{DateMgr, Field, TrashType};

fn day(text: &str) -> Date {
    parse_date(text).unwrap()
}

fn table() -> DateMgr {
    let mut mgr = DateMgr::new();
    let lines = vec![
        "01.01.2000;02.01.2000;".to_string(),
        "05.06.2999;;07.06.2999".to_string(),
        "".to_string(),
        "; 06.06.2999 ;".to_string(),
    ];
    let r = mgr.append_lines("Restmüll;Papier;Bioabfall\n", &lines, day("01.01.2010"));
    assert!(r.is_ok());
    mgr
}

fn queue(mgr: &DateMgr, name: &str) -> Vec<Date> {
    mgr.dates().iter().find(|e| e.0.name == name).unwrap().1.iter().copied().collect()
}

#[test]
fn trash_type_symbols_follow_names() {
    assert_eq!(TrashType::new("Restmüll").symbol, "🗑");
    assert_eq!(TrashType::new("Papier").symbol, "📃");
    assert_eq!(TrashType::new("Bioabfall").symbol, "💩");
    assert_eq!(TrashType::new("Gelbe Tonne").symbol, "♻️");
    assert_eq!(TrashType::new("Sperrmüll").symbol, "");
    assert_eq!(TrashType::new("Gelbe Tonne").to_string(), "♻️ Gelbe Tonne");
    assert_eq!(TrashType::new("Glas").to_string(), " Glas");
}

#[test]
fn append_lines_queues_only_later_dates() {
    let mgr = table();
    let names: Vec<&str> = mgr.dates().iter().map(|e| e.0.name.as_str()).collect();
    assert_eq!(names, vec!["Restmüll", "Papier", "Bioabfall"]);
    assert_eq!(queue(&mgr, "Restmüll"), vec![day("05.06.2999")]);
    assert_eq!(queue(&mgr, "Papier"), vec![day("06.06.2999")]);
    assert_eq!(queue(&mgr, "Bioabfall"), vec![day("07.06.2999")]);
}

#[test]
fn append_lines_keeps_kinds_that_exist() {
    let mut mgr = table();
    let lines = vec!["01.07.2999".to_string()];
    assert!(mgr.append_lines("Papier;Gelbe Tonne", &lines, day("01.01.2010")).is_ok());
    let names: Vec<&str> = mgr.dates().iter().map(|e| e.0.name.as_str()).collect();
    assert_eq!(names, vec!["Restmüll", "Papier", "Bioabfall", "Gelbe Tonne"]);
    assert_eq!(queue(&mgr, "Papier"), vec![day("06.06.2999"), day("01.07.2999")]);
    assert_eq!(queue(&mgr, "Gelbe Tonne"), Vec::<Date>::new());
}

#[test]
fn append_lines_stops_at_a_field_that_is_no_date() {
    let mut mgr = DateMgr::new();
    let lines = vec![
        "05.06.2999;xx.yy;07.06.2999".to_string(),
        "08.06.2999;;".to_string(),
    ];
    let e = mgr.append_lines("Restmüll;Papier;Bioabfall", &lines, day("01.01.2010")).unwrap_err();
    assert_eq!(e.text, "xx.yy");
    assert_eq!(queue(&mgr, "Restmüll"), vec![day("05.06.2999")]);
    assert_eq!(queue(&mgr, "Bioabfall"), Vec::<Date>::new());
}

#[test]
fn append_file_refuses_dates_beyond_the_columns() {
    let mut mgr = table();
    let lines = vec!["01.07.2999;02.07.2999;03.07.2999;04.07.2999".to_string()];
    assert!(mgr.append_file("Restmüll;Papier;Bioabfall", &lines).is_none());
    assert_eq!(queue(&mgr, "Restmüll"), vec![day("05.06.2999")]);
    let past = vec!["01.07.2999;02.07.2999;03.07.2999;04.07.2000".to_string()];
    assert!(mgr.append_file("Restmüll;Papier;Bioabfall", &past).unwrap().is_ok());
    assert_eq!(queue(&mgr, "Restmüll"), vec![day("05.06.2999"), day("01.07.2999")]);
}

#[test]
fn append_file_compares_with_the_clock() {
    let mut mgr = DateMgr::new();
    let lines = vec!["01.01.2000;05.06.2999".to_string()];
    assert!(mgr.append_file("Papier;Restmüll\n", &lines).unwrap().is_ok());
    assert_eq!(queue(&mgr, "Papier"), Vec::<Date>::new());
    assert_eq!(queue(&mgr, "Restmüll"), vec![day("05.06.2999")]);
}

#[test]
fn upcoming_dates_lists_first_days_in_order() {
    let mgr = table();
    let up: Vec<(String, Date)> = mgr.upcoming_dates().iter().map(|(t, d)| (t.name.clone(), **d)).collect();
    assert_eq!(
        up,
        vec![
            ("Restmüll".to_string(), day("05.06.2999")),
            ("Papier".to_string(), day("06.06.2999")),
            ("Bioabfall".to_string(), day("07.06.2999")),
        ]
    );
    let empty = DateMgr::new();
    assert!(empty.upcoming_dates().is_empty());
}

#[test]
fn next_date_is_the_earliest_with_all_kinds_due() {
    let mut mgr = DateMgr::new();
    let lines = vec!["09.06.2999;08.06.2999;08.06.2999".to_string(), "10.06.2999;;".to_string()];
    mgr.append_lines("Restmüll;Papier;Bioabfall", &lines, day("01.01.2010")).unwrap();
    let (d, ts) = mgr.next_date().unwrap();
    assert_eq!(*d, day("08.06.2999"));
    let names: Vec<&str> = ts.iter().map(|t| t.name.as_str()).collect();
    assert_eq!(names, vec!["Papier", "Bioabfall"]);
    assert_eq!(ts[0].symbol, "📃");
    assert!(DateMgr::new().next_date().is_none());
}

#[test]
fn remove_old_at_keeps_days_until_eleven() {
    let collection = day("05.06.2999");
    let before_eleven = LocalTime { date: collection, seconds: 39599, timestamp: 0 };
    let at_eleven = LocalTime { date: collection, seconds: 39600, timestamp: 0 };
    let mut mgr = table();
    mgr.remove_old_at(before_eleven);
    assert_eq!(queue(&mgr, "Restmüll"), vec![collection]);
    mgr.remove_old_at(at_eleven);
    assert_eq!(queue(&mgr, "Restmüll"), Vec::<Date>::new());
    assert_eq!(queue(&mgr, "Papier"), vec![day("06.06.2999")]);
    let later = LocalTime { date: day("10.06.2999"), seconds: 0, timestamp: 0 };
    mgr.remove_old_at(later);
    assert!(mgr.next_date().is_none());
    assert_eq!(mgr.dates().len(), 3);
}

#[test]
fn remove_old_with_the_clock_keeps_future_days() {
    let mut mgr = table();
    mgr.remove_old();
    assert_eq!(queue(&mgr, "Restmüll"), vec![day("05.06.2999")]);
}

#[test]
fn law_remove_old_is_idempotent() {
    let now = LocalTime { date: day("06.06.2999"), seconds: 50000, timestamp: 0 };
    let mut once = table();
    once.remove_old_at(now);
    let mut twice = table();
    twice.remove_old_at(now);
    twice.remove_old_at(now);
    for name in ["Restmüll", "Papier", "Bioabfall"] {
        assert_eq!(queue(&once, name), queue(&twice, name));
    }
    assert_eq!(queue(&once, "Bioabfall"), vec![day("07.06.2999")]);
}

#[test]
fn law_append_only_adds_later_days() {
    let mut mgr = table();
    let before: Vec<Vec<Date>> = mgr.dates().iter().map(|e| e.1.iter().copied().collect()).collect();
    let today = day("06.06.2999");
    let lines = vec!["05.06.2999;07.06.2999;06.06.2999".to_string()];
    mgr.append_lines("Restmüll;Papier;Bioabfall", &lines, today).unwrap();
    for (i, e) in mgr.dates().iter().enumerate() {
        let q: Vec<Date> = e.1.iter().copied().collect();
        assert_eq!(&q[..before[i].len()], &before[i][..]);
        assert!(q[before[i].len()..].iter().all(|d| d.days > today.days));
    }
    assert_eq!(queue(&mgr, "Papier"), vec![day("06.06.2999"), day("07.06.2999")]);
}

#[test]
fn law_next_date_is_earliest_on_concrete_values() {
    let mgr = table();
    let (d, ts) = mgr.next_date().unwrap();
    for (_, first) in mgr.upcoming_dates() {
        assert!(d.days <= first.days);
    }
    assert_eq!(ts.len(), 1);
    assert_eq!(ts[0].name, "Restmüll");
}

#[test]
fn queue_fields_queues_read_dates() {
    let mut mgr = DateMgr::new();
    mgr.append_lines("Restmüll;Papier;Bioabfall", &vec![], day("01.01.2010")).unwrap();
    let cols = vec!["Restmüll", "Papier", "Bioabfall"];
    let fields = vec![Field::Day(day("05.06.2999")), Field::Empty, Field::Day(day("01.01.2000"))];
    assert!(mgr.queue_fields(&cols, &fields, day("01.01.2010")).is_ok());
    assert_eq!(queue(&mgr, "Restmüll"), vec![day("05.06.2999")]);
    assert_eq!(queue(&mgr, "Bioabfall"), Vec::<Date>::new());
    let bad = vec![Field::Day(day("06.06.2999")), Field::NotADate("x".to_string()), Field::Day(day("07.06.2999"))];
    let e = mgr.queue_fields(&cols, &bad, day("01.01.2010")).unwrap_err();
    assert_eq!(e.text, "x");
    assert_eq!(queue(&mgr, "Restmüll"), vec![day("05.06.2999"), day("06.06.2999")]);
    assert_eq!(queue(&mgr, "Bioabfall"), Vec::<Date>::new());
}
