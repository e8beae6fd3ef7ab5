//! Answers to chat commands.

use vstd::prelude::*;

use crate::calendar::{format_iso_date, iso_date_text, Date};
use crate::dates::{upcoming_spec, DateMgr};
use crate::text::same_text;
use crate::tgapi::send::SendMessage;
use crate::tgapi::types::Update;

verus! {

/// One line per kind with a coming collection, in order: its name, a colon,
/// a space and the day written as year-month-day.
pub open spec fn next_dates_text(up: Seq<(Seq<char>, Date)>) -> Seq<char>
    decreases up.len(),
{
    if up.len() == 0 {
        Seq::empty()
    } else {
        next_dates_text(up.drop_last()) + up.last().0 + ": "@ + iso_date_text(
            up.last().1.days as int,
        ) + "\n"@
    }
}

/// The answer to a message with the given text.
pub open spec fn reply_text(text: Option<Seq<char>>, next_dates: Seq<char>) -> Seq<char> {
    match text {
        Some(t) => if t == "/muell"@ {
            next_dates
        } else if t == "/skip"@ {
            "skipping"@
        } else {
            "unknown command"@
        },
        None => "unknown command"@,
    }
}

/// The coming collections, one line each.
pub fn get_next_dates(mgr: &DateMgr) -> (r: String)
    requires
        mgr.wf(),
    ensures
        r@ == next_dates_text(upcoming_spec(mgr@)),
{
    let up = mgr.upcoming_dates();
    let ghost u = upcoming_spec(mgr@);
    let n = up.len();
    let mut out = String::new();
    let mut i: usize = 0;
    assert(u.take(0) =~= Seq::<(Seq<char>, Date)>::empty());
    while i < n
        invariant
            n == up@.len(),
            crate::dates::pair_views(up@) == u,
            i <= n,
            forall|k: int| 0 <= k < up@.len() ==> (#[trigger] up@[k]).1.wf(),
            out@ == next_dates_text(u.take(i as int)),
        decreases n - i,
    {
        let (t, d) = up[i];
        proof {
            assert(u.take(i + 1).drop_last() =~= u.take(i as int));
            assert(u.take(i + 1).last() == u[i as int]);
            assert(u[i as int] == (t.name@, *d));
        }
        out.append(t.name.as_str());
        out.append(": ");
        let day = format_iso_date(*d);
        out.append(day.as_str());
        out.append("\n");
        i = i + 1;
    }
    assert(u.take(n as int) =~= u);
    out
}

/// The answer to an update: an update without a message gets none; a
/// message `/muell` is answered with the coming collections, `/skip` with
/// `skipping`, and any other message, with or without text, with
/// `unknown command`, each as plain text to the same chat.
pub fn handle_update(up: &Update, mgr: &DateMgr) -> (r: Option<SendMessage>)
    requires
        mgr.wf(),
    ensures
        up.message is None <==> r is None,
        up.message matches Some(m) ==> r matches Some(s) && s.chat_id == m.chat.id
            && s.parse_mode is None && s.text@ == reply_text(
            match m.text {
                Some(t) => Some(t@),
                None => None,
            },
            next_dates_text(upcoming_spec(mgr@)),
        ),
{
    match &up.message {
        Some(m) => {
            let text = match &m.text {
                Some(t) => {
                    if same_text(t.as_str(), "/muell") {
                        get_next_dates(mgr)
                    } else if same_text(t.as_str(), "/skip") {
                        let mut s = String::new();
                        s.append("skipping");
                        s
                    } else {
                        let mut s = String::new();
                        s.append("unknown command");
                        s
                    }
                },
                None => {
                    let mut s = String::new();
                    s.append("unknown command");
                    s
                },
            };
            Some(SendMessage::txt(m.chat.id, text))
        },
        None => None,
    }
}

/// The answer to `/muell` has one line per upcoming pair, in order: no
/// pairs give no text, and each further pair adds its own line, its name, a
/// colon, a space and its day as year-month-day, after the lines before it,
/// whatever the days of the pairs before it are.
pub proof fn law_next_dates_one_line_each(up: Seq<(Seq<char>, Date)>, x: (Seq<char>, Date))
    ensures
        next_dates_text(Seq::empty()) == Seq::<char>::empty(),
        next_dates_text(up.push(x)) == next_dates_text(up) + (x.0 + ": "@ + iso_date_text(
            x.1.days as int,
        ) + "\n"@),
{
    assert(up.push(x).drop_last() =~= up);
    assert(next_dates_text(up.push(x)) =~= next_dates_text(up) + (x.0 + ": "@ + iso_date_text(
        x.1.days as int,
    ) + "\n"@));
}

} // verus!
