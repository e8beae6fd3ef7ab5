use muellbot::bot::{get_next_dates, handle_update};
use muellbot::calendar::parse_date;
use muellbot::dates::DateMgr;
use muellbot::id_list::{add_user, get_user_ids, remove_user, IdList};
use muellbot::tgapi::send::SendMessage;
use muellbot::tgapi::types::{Chat, Message, Update};
use muellbot::tgapi::ApiConf;

fn table() -> DateMgr {
    let mut mgr = DateMgr::new();
    let lines = vec!["05.06.2999;;07.06.2999".to_string()];
    mgr.append_lines("Restmüll;Papier;Bioabfall", &lines, parse_date("01.01.2010").unwrap()).unwrap();
    mgr
}

fn update(text: Option<&str>) -> Update {
    Update {
        update_id: 7,
        message: Some(Message { chat: Chat { id: 42 }, text: text.map(|t| t.to_string()) }),
    }
}

#[test]
fn get_next_dates_lists_one_line_per_kind() {
    assert_eq!(get_next_dates(&table()), "Restmüll: 2999-06-05\nBioabfall: 2999-06-07\n");
    assert_eq!(get_next_dates(&DateMgr::new()), "");
}

#[test]
fn handle_update_answers_commands() {
    let mgr = table();
    let r = handle_update(&update(Some("/muell")), &mgr).unwrap();
    assert_eq!(r.chat_id, 42);
    assert_eq!(r.text, "Restmüll: 2999-06-05\nBioabfall: 2999-06-07\n");
    assert_eq!(r.parse_mode, None);
    assert_eq!(handle_update(&update(Some("/skip")), &mgr).unwrap().text, "skipping");
    assert_eq!(handle_update(&update(Some("hallo")), &mgr).unwrap().text, "unknown command");
    assert_eq!(handle_update(&update(None), &mgr).unwrap().text, "unknown command");
    assert!(handle_update(&Update { update_id: 8, message: None }, &mgr).is_none());
}

#[test]
fn send_message_modes() {
    let t = SendMessage::txt(5, "hi".to_string());
    assert_eq!((t.chat_id, t.text.as_str(), t.parse_mode), (5, "hi", None));
    let m = SendMessage::md(6, "*hi*".to_string());
    assert_eq!(m.chat_id, 6);
    assert_eq!(m.text, "*hi*");
    assert_eq!(m.parse_mode.as_deref(), Some("markdown"));
    let conf = ApiConf { token: "SECRET-REDACTED".to_string() };
    assert_eq!(conf.token, "SECRET-REDACTED");
}

#[test]
fn subscriptions_are_added_and_removed() {
    let mut list = IdList::new();
    add_user(&mut list, 3);
    add_user(&mut list, -4);
    add_user(&mut list, 3);
    remove_user(&mut list, 9);
    let ids = get_user_ids(list);
    assert_eq!(ids.len(), 2);
    assert!(ids.contains(&3) && ids.contains(&-4));
}

#[test]
fn law_subscriptions_on_concrete_values() {
    let mut list = IdList::new();
    add_user(&mut list, 1);
    add_user(&mut list, 2);
    remove_user(&mut list, 2);
    remove_user(&mut list, 2);
    let ids = get_user_ids(list);
    assert!(ids.contains(&1));
    assert!(!ids.contains(&2));
    assert_eq!(ids.len(), 1);
}
