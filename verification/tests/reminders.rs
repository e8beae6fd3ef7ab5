use muellbot::calendar::{parse_date, Date, LocalTime, MAX_INSTANT};
use muellbot::dates::{DateMgr, TrashType};
use muellbot::reminder::{
    messages_to, ReminderError, format_trashes, format_update_msg, format_update_msg_at, sleep_seconds, update_messages,
    Reminder, NOON,
};

fn day(text: &str) -> Date {
    parse_date(text).unwrap()
}

fn planned() -> Reminder {
    let mut r = Reminder::new();
    r.fill_wakes(day("05.06.2999")).unwrap();
    r
}

#[test]
fn fill_wakes_plans_ten_wake_ups_latest_first() {
    let r = planned();
    let d = day("05.06.2999").days;
    let got: Vec<(i32, u32)> = r.scheduled_wakes().iter().map(|w| (w.day.days, w.seconds)).collect();
    let h = 3600;
    assert_eq!(
        got,
        vec![
            (d, 12 * h), (d, 8 * h), (d, 6 * h), (d, 4 * h), (d, 2 * h), (d, 0),
            (d - 1, 22 * h), (d - 1, 20 * h), (d - 1, 18 * h), (d - 1, 13 * h),
        ]
    );
    let instants: Vec<i64> = r.scheduled_wakes().iter().map(|w| w.instant).collect();
    assert!(instants.windows(2).all(|p| p[0] > p[1]));
    for w in r.scheduled_wakes() {
        let wall = (w.day.days as i64 - 719163) * 86400 + w.seconds as i64;
        assert!((w.instant - wall).abs() < 86400);
    }
}

#[test]
fn reminder_update_uses_due_wake_ups() {
    let mut r = planned();
    assert!(!r.reminder_update_at(false, 0));
    assert_eq!(r.scheduled_wakes().len(), 10);
    assert!(r.reminder_update_at(false, MAX_INSTANT));
    assert_eq!(r.scheduled_wakes().len(), 9);
}

#[test]
fn law_skip_silences_the_collection() {
    let mut r = planned();
    assert!(!r.reminder_update_at(true, 0));
    assert_eq!(r.scheduled_wakes().len(), 10);
    assert!(r.reminder_update_at(false, MAX_INSTANT));
    assert!(!r.reminder_update_at(true, MAX_INSTANT));
    assert!(r.scheduled_wakes().is_empty());
}

#[test]
fn law_only_noon_is_silent_on_a_plan() {
    let mut r = planned();
    let mut sent = 0;
    for _ in 0..10 {
        if r.reminder_update_at(false, MAX_INSTANT) {
            sent += 1;
        }
    }
    assert_eq!(sent, 9);
    assert!(r.scheduled_wakes().is_empty());
    let p = planned();
    assert_eq!(p.scheduled_wakes()[0].seconds, NOON);
}

#[test]
fn refill_plans_the_next_collection() {
    let mut mgr = DateMgr::new();
    let lines = vec!["09.06.2999;08.06.2999".to_string()];
    mgr.append_lines("Restmüll;Papier", &lines, day("01.01.2010")).unwrap();
    let mut r = Reminder::new();
    r.refill(&mut mgr).unwrap();
    assert_eq!(r.scheduled_wakes().len(), 10);
    assert_eq!(r.scheduled_wakes()[0].day, day("08.06.2999"));
    let mut empty = DateMgr::new();
    let mut r2 = Reminder::new();
    assert!(r2.refill(&mut empty).is_err());
    assert!(r.sleep_until() > 0);
}

#[test]
fn sleep_seconds_counts_down_to_the_wake_up() {
    assert_eq!(sleep_seconds(100, 40), 60);
    assert_eq!(sleep_seconds(40, 100), 1);
    assert_eq!(sleep_seconds(100, 100), 0);
}

#[test]
fn reminder_texts() {
    let rest = TrashType::new("Restmüll");
    let paper = TrashType::new("Papier");
    assert_eq!(format_trashes(vec![&rest, &paper]), "*🗑 Restmüll*\n*📃 Papier*");
    assert_eq!(format_trashes(vec![]), "");
    let d = day("05.06.2999");
    let eve = LocalTime { date: day("04.06.2999"), seconds: 0, timestamp: 0 };
    assert_eq!(
        format_update_msg_at(&d, vec![&rest], eve),
        "_Morgen wird der folgende Müll abgeholt:_\n*🗑 Restmüll*"
    );
    let early = LocalTime { date: d, seconds: 17999, timestamp: 0 };
    assert!(format_update_msg_at(&d, vec![&rest], early).starts_with("_Morgen"));
    let five = LocalTime { date: d, seconds: 18000, timestamp: 0 };
    assert_eq!(
        format_update_msg_at(&d, vec![&rest, &paper], five),
        "_Heute wird der folgende Müll abgeholt:_\n*🗑 Restmüll*\n*📃 Papier*"
    );
    assert!(format_update_msg(&d, vec![&paper]).starts_with("_Morgen wird"));
}

#[test]
fn update_messages_go_to_every_subscriber() {
    let mut mgr = DateMgr::new();
    let lines = vec!["05.06.2999;05.06.2999".to_string()];
    mgr.append_lines("Restmüll;Papier", &lines, day("01.01.2010")).unwrap();
    let msgs = update_messages(&mgr, &vec![11, 12]);
    assert_eq!(msgs.len(), 2);
    assert_eq!(msgs[0].chat_id, 11);
    assert_eq!(msgs[1].chat_id, 12);
    assert_eq!(msgs[0].text, "_Morgen wird der folgende Müll abgeholt:_\n*🗑 Restmüll*\n*📃 Papier*");
    assert_eq!(msgs[1].text, msgs[0].text);
    assert_eq!(msgs[0].parse_mode.as_deref(), Some("markdown"));
}

#[test]
fn round_at_plans_reminds_and_sleeps() {
    let mut mgr = DateMgr::new();
    let lines = vec!["05.06.2999;05.06.2999".to_string()];
    mgr.append_lines("Restmüll;Papier", &lines, day("01.01.2010")).unwrap();
    let now = LocalTime { date: day("01.06.2999"), seconds: 0, timestamp: 1000 };
    let mut r = Reminder::new();
    let first = r.round_at(false, &mut mgr, now).unwrap();
    assert!(first.reminder.is_none());
    assert_eq!(r.scheduled_wakes().len(), 10);
    assert_eq!(first.sleep_seconds as i64, r.scheduled_wakes()[9].instant - 1000);
    let late = LocalTime { date: day("04.06.2999"), seconds: 50000, timestamp: MAX_INSTANT };
    let second = r.round_at(false, &mut mgr, late).unwrap();
    assert_eq!(
        second.reminder.unwrap(),
        "_Morgen wird der folgende Müll abgeholt:_\n*🗑 Restmüll*\n*📃 Papier*"
    );
    assert_eq!(second.sleep_seconds, 1);
    let third = r.round_at(true, &mut mgr, late).unwrap();
    assert!(third.reminder.is_none());
    assert_eq!(r.scheduled_wakes().len(), 10);
    let mut empty = DateMgr::new();
    let mut r2 = Reminder::new();
    assert_eq!(r2.round_at(false, &mut empty, now).unwrap_err(), ReminderError::NoUpcomingDate);
}

#[test]
fn messages_to_every_subscriber() {
    let msgs = messages_to(&vec![3, 4], &"x".to_string());
    assert_eq!(msgs.len(), 2);
    assert_eq!((msgs[0].chat_id, msgs[1].chat_id), (3, 4));
    assert!(msgs.iter().all(|m| m.text == "x" && m.parse_mode.as_deref() == Some("markdown")));
}

#[test]
fn upcoming_pairs_are_distinct() {
    let mut mgr = DateMgr::new();
    let lines = vec!["05.06.2999;05.06.2999".to_string()];
    mgr.append_lines("Papier;Papier;Restmüll", &lines, day("01.01.2010")).unwrap();
    let up = mgr.upcoming_dates();
    assert_eq!(up.len(), 1);
    let (_, ts) = mgr.next_date().unwrap();
    assert_eq!(ts.len(), 1);
}
