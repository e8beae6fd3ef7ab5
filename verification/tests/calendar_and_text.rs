use muellbot::calendar::{parse_date, format_iso_date, Date, FIRST_DAY, LAST_DAY};
use muellbot::text::{fields, same_text, split_at_char, trim, is_white, chars_of};

#[test]
fn parse_date_reads_day_month_year() {
    let d = parse_date("03.05.2018").unwrap();
    assert_eq!(d.days, 736817);
    let e = parse_date("1.1.1970").unwrap();
    assert_eq!(e.days, 719163);
}

#[test]
fn parse_date_rejects_non_dates() {
    let e = parse_date("32.01.2018").unwrap_err();
    assert_eq!(e.text, "32.01.2018");
    assert!(parse_date("").is_err());
    assert!(parse_date("Papier").is_err());
    assert!(parse_date("2018-05-03").is_err());
}

#[test]
fn format_iso_date_writes_year_month_day() {
    assert_eq!(format_iso_date(Date { days: 736817 }), "2018-05-03");
    assert_eq!(format_iso_date(Date { days: 1 }), "0001-01-01");
}

#[test]
fn day_numbers_outside_the_range_are_no_dates() {
    assert_eq!(Date::from_day_number(FIRST_DAY), Some(Date { days: FIRST_DAY }));
    assert_eq!(Date::from_day_number(LAST_DAY), Some(Date { days: LAST_DAY }));
    assert_eq!(Date::from_day_number(FIRST_DAY - 1), None);
    assert_eq!(Date::from_day_number(LAST_DAY + 1), None);
}

#[test]
fn range_bounds_are_chronos() {
    assert_eq!(format_iso_date(Date { days: FIRST_DAY }), "-262143-01-01");
    assert_eq!(format_iso_date(Date { days: LAST_DAY }), "+262142-12-31");
}

#[test]
fn trim_removes_unicode_white_space_at_both_ends() {
    assert_eq!(trim("  Papier \n"), "Papier");
    assert_eq!(trim("\u{3000}Gelbe Tonne\u{a0}\r"), "Gelbe Tonne");
    assert_eq!(trim(" \t "), "");
    assert_eq!(trim("a b"), "a b");
    assert!(is_white('\u{85}'));
    assert!(!is_white('x'));
}

#[test]
fn split_keeps_empty_pieces() {
    assert_eq!(split_at_char("a;b", ';'), vec!["a", "b"]);
    assert_eq!(split_at_char("", ';'), vec![""]);
    assert_eq!(split_at_char("a;;b;", ';'), vec!["a", "", "b", ""]);
    assert_eq!(split_at_char("Müll", ';'), vec!["Müll"]);
}

#[test]
fn fields_are_trimmed_pieces() {
    assert_eq!(fields(" Restmüll ; Papier;;Bioabfall\n"), vec!["Restmüll", "Papier", "", "Bioabfall"]);
}

#[test]
fn same_text_compares_characters() {
    assert!(same_text("Restmüll", "Restmüll"));
    assert!(!same_text("Restmull", "Restmüll"));
    assert!(!same_text("Papier", "Papie"));
    assert_eq!(chars_of("Müll"), vec!['M', 'ü', 'l', 'l']);
}
