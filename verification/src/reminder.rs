//! The reminder schedule: before each collection, wake-ups at fixed local
//! times; at each one, subscribers are told which waste is collected.

use vstd::prelude::*;

use crate::calendar::{local_now, local_wake, within_a_day, Date, LocalTime, FIRST_DAY, MAX_INSTANT};
use crate::dates::{
    earliest, names_due_on, symbol_for, type_names, upcoming_spec, without_old, DateMgr, Entry,
    TrashType,
};
use crate::tgapi::send::SendMessage;

verus! {

/// Noon, in seconds after midnight: the last wake-up of a collection day,
/// which sends no message.
pub const NOON: u32 = 43200;

/// A planned wake-up: its instant as a Unix timestamp, and the local day
/// and time of day that it shows.
#[derive(Clone, Copy, PartialEq, Eq, Structural, Debug)]
pub struct Wake {
    pub instant: i64,
    pub day: Date,
    pub seconds: u32,
}

/// The local day and time of day of the wake-ups for a collection on day
/// `d`, latest first: 12:00, 8:00, 6:00, 4:00, 2:00 and 0:00 of the day, and
/// 22:00, 20:00, 18:00 and 13:00 of the day before.
pub open spec fn wake_plan(d: int) -> Seq<(int, int)> {
    seq![
        (d, 43200),
        (d, 28800),
        (d, 21600),
        (d, 14400),
        (d, 7200),
        (d, 0),
        (d - 1, 79200),
        (d - 1, 72000),
        (d - 1, 64800),
        (d - 1, 46800),
    ]
}

/// The wake-ups follow the plan for a collection on day `d`, each at an
/// instant less than a day from the local time it shows.
pub open spec fn follows_plan(w: Seq<Wake>, d: int) -> bool {
    &&& w.len() == 10
    &&& forall|k: int|
        0 <= k < 10 ==> ((#[trigger] w[k]).day.days as int, w[k].seconds as int) == wake_plan(
            d,
        )[k] && within_a_day(w[k].instant as int, w[k].day.days as int, w[k].seconds as int)
}

/// The wake-ups after a skip request: where some were already used, all but
/// the noon one of the collection day are dropped.
pub open spec fn after_skip(w: Seq<Wake>, skip: bool) -> Seq<Wake> {
    if skip && w.len() < 10 {
        seq![w[0]]
    } else {
        w
    }
}

/// The next wake-up is due at the instant `now`.
pub open spec fn is_due(w: Seq<Wake>, now: int) -> bool {
    w.len() > 0 && w.last().instant <= now
}

/// The wake-ups left once a due one is used.
pub open spec fn after_due(w: Seq<Wake>, now: int) -> Seq<Wake> {
    if is_due(w, now) {
        w.drop_last()
    } else {
        w
    }
}

/// A due wake-up other than the noon one sends the reminder.
pub open spec fn notifies(w: Seq<Wake>, now: int) -> bool {
    is_due(w, now) && w.last().seconds != NOON
}

/// The seconds to sleep from `now` until `wake`: at least one where the
/// wake-up has passed.
pub open spec fn sleep_for(wake: int, now: int) -> int {
    if wake - now < 0 {
        1
    } else {
        wake - now
    }
}

/// One line per kind of waste: its symbol and name, set in bold.
pub open spec fn trash_line(t: (Seq<char>, Seq<char>)) -> Seq<char> {
    "*"@ + t.0 + " "@ + t.1 + "*"@
}

/// The lines of the kinds of waste, joined by line breaks.
pub open spec fn trash_lines(ts: Seq<(Seq<char>, Seq<char>)>) -> Seq<char>
    decreases ts.len(),
{
    if ts.len() == 0 {
        Seq::empty()
    } else if ts.len() == 1 {
        trash_line(ts[0])
    } else {
        trash_lines(ts.drop_last()) + "\n"@ + trash_line(ts.last())
    }
}

/// The symbols and names of kinds of waste.
pub open spec fn trash_views(ts: Seq<&TrashType>) -> Seq<(Seq<char>, Seq<char>)> {
    ts.map_values(|t: &TrashType| (t.symbol@, t.name@))
}

/// The symbols and names for a sequence of names.
pub open spec fn named_views(names: Seq<Seq<char>>) -> Seq<(Seq<char>, Seq<char>)> {
    names.map_values(|n: Seq<char>| (symbol_for(n), n))
}

/// A collection on `date` is tomorrow, seen at `now`, while 5:00 of it is
/// still to come.
pub open spec fn is_tomorrow(date: Date, now: LocalTime) -> bool {
    date.days > now.date.days || (date.days == now.date.days && now.seconds < 18000)
}

/// The reminder text for a collection on `date` of the given kinds.
pub open spec fn update_text(
    date: Date,
    ts: Seq<(Seq<char>, Seq<char>)>,
    now: LocalTime,
) -> Seq<char> {
    "_"@ + (if is_tomorrow(date, now) {
        "Morgen"@
    } else {
        "Heute"@
    }) + " wird der folgende Müll abgeholt:_\n"@ + trash_lines(ts)
}

/// What a round hands back: the reminder text where one is due, and the
/// seconds to sleep until the next wake-up.
#[derive(Debug)]
pub struct RoundAction {
    pub reminder: Option<String>,
    pub sleep_seconds: u64,
}

/// The error of a result, where it is one.
pub open spec fn error_of<T>(r: Result<T, ReminderError>) -> Option<ReminderError> {
    match r {
        Ok(_) => None,
        Err(e) => Some(e),
    }
}

/// The reminder text that a round hands back, where it hands one back.
pub open spec fn reminder_of(r: Result<RoundAction, ReminderError>) -> Option<Seq<char>> {
    match r {
        Ok(a) => match a.reminder {
            Some(t) => Some(t@),
            None => None,
        },
        Err(_) => None,
    }
}

/// Refilling the wake-ups `w`, with `m` the calendar once its past days are
/// dropped: a nonempty schedule stays; otherwise the next collection of `m`
/// is planned, and each error comes exactly where its cause holds, the
/// schedule staying as it was.
pub open spec fn refill_spec(
    w: Seq<Wake>,
    w_after: Seq<Wake>,
    m: Seq<Entry>,
    err: Option<ReminderError>,
) -> bool {
    if w.len() > 0 {
        w_after == w && err is None
    } else {
        let up = upcoming_spec(m);
        &&& (err == Some(ReminderError::NoUpcomingDate) <==> up.len() == 0)
        &&& (err == Some(ReminderError::NoDayBefore) <==> up.len() > 0 && earliest(up) == FIRST_DAY)
        &&& (err == Some(ReminderError::NoSuchLocalTime) ==> up.len() > 0 && earliest(up)
            > FIRST_DAY)
        &&& (err is None ==> up.len() > 0 && follows_plan(w_after, earliest(up)))
        &&& (err is Some ==> w_after == w)
    }
}

/// One round from the wake-ups `w` and the calendar `m`, with a skip request
/// and the reading `now`: the skip and the due wake-up are applied; where
/// that wake-up sends the reminder and the calendar has no coming
/// collection, the round fails; otherwise the reminder text is composed from
/// `m` where due, and the schedule is refilled from `m` with its past days
/// dropped where it ran empty.
pub open spec fn round_spec(
    w: Seq<Wake>,
    skip: bool,
    m: Seq<Entry>,
    now: LocalTime,
    w_after: Seq<Wake>,
    m_after: Seq<Entry>,
    reminder: Option<Seq<char>>,
    err: Option<ReminderError>,
) -> bool {
    let w1 = after_skip(w, skip);
    let w2 = after_due(w1, now.timestamp as int);
    let up = upcoming_spec(m);
    if notifies(w1, now.timestamp as int) && up.len() == 0 {
        err == Some(ReminderError::NoUpcomingDate) && m_after == m && w_after == w2
    } else {
        &&& (w2.len() > 0 ==> m_after == m)
        &&& (w2.len() == 0 ==> m_after == without_old(m, now))
        &&& refill_spec(w2, w_after, m_after, err)
        &&& (err is None ==> (reminder is Some <==> notifies(w1, now.timestamp as int)))
        &&& (reminder matches Some(t) ==> t == update_text(
            Date { days: earliest(up) as i32 },
            named_views(names_due_on(up, earliest(up))),
            now,
        ))
    }
}

/// Why the schedule could not be refilled.
#[derive(Debug, PartialEq, Eq)]
pub enum ReminderError {
    /// No kind of waste has a coming collection.
    NoUpcomingDate,
    /// The collection day is the first day `chrono` represents, so it has no
    /// day before.
    NoDayBefore,
    /// A planned local time does not exist, or exists twice, in the local
    /// time zone.
    NoSuchLocalTime,
}

/// The schedule of wake-ups, latest first, so that the next one is last.
#[derive(Debug)]
pub struct Reminder {
    scheduled_wakes: Vec<Wake>,
}

impl View for Reminder {
    type V = Seq<Wake>;

    closed spec fn view(&self) -> Seq<Wake> {
        self.scheduled_wakes@
    }
}

/// The seconds to sleep from `now` until `wake`.
pub fn sleep_seconds(wake: i64, now: i64) -> (r: u64)
    requires
        i64::MIN <= wake - now <= i64::MAX,
    ensures
        r == sleep_for(wake as int, now as int),
{
    let dur = wake - now;
    if dur < 0 {
        1
    } else {
        dur as u64
    }
}

impl Reminder {
    /// Every wake-up's instant is bounded as `chrono`'s instants are.
    pub closed spec fn wf(self) -> bool {
        forall|k: int|
            0 <= k < self@.len() ==> -MAX_INSTANT <= (#[trigger] self@[k]).instant <= MAX_INSTANT
    }

    /// An empty schedule.
    pub fn new() -> (r: Reminder)
        ensures
            r.wf(),
            r@ == Seq::<Wake>::empty(),
    {
        Reminder { scheduled_wakes: Vec::new() }
    }

    /// The wake-ups, latest first.
    pub fn scheduled_wakes(&self) -> (r: &Vec<Wake>)
        ensures
            r@ == self@,
    {
        &self.scheduled_wakes
    }

    /// Plans the wake-ups for a collection on `next_date`. Where a planned
    /// local time has no single instant, the schedule stays as it was.
    pub fn fill_wakes(&mut self, next_date: Date) -> (r: Result<(), ReminderError>)
        requires
            old(self).wf(),
            next_date.wf(),
            next_date.days > FIRST_DAY,
        ensures
            final(self).wf(),
            r is Ok ==> follows_plan(final(self)@, next_date.days as int),
            r matches Err(e) ==> final(self)@ == old(self)@ && e == ReminderError::NoSuchLocalTime,
    {
        let d = next_date.days;
        let days: [i32; 10] = [d, d, d, d, d, d, d - 1, d - 1, d - 1, d - 1];
        let times: [u32; 10] = [43200, 28800, 21600, 14400, 7200, 0, 79200, 72000, 64800, 46800];
        let mut planned: Vec<Wake> = Vec::new();
        let mut k: usize = 0;
        while k < 10
            invariant
                k <= 10,
                self.wf(),
                d == next_date.days,
                next_date.days > FIRST_DAY,
                next_date.wf(),
                forall|j: int| 0 <= j < 10 ==> (#[trigger] days@[j] as int, times@[j] as int) == wake_plan(d as int)[j],
                planned@.len() == k,
                forall|j: int|
                    0 <= j < k ==> ((#[trigger] planned@[j]).day.days as int, planned@[j].seconds as int)
                        == wake_plan(d as int)[j] && -MAX_INSTANT <= planned@[j].instant <= MAX_INSTANT
                        && within_a_day(planned@[j].instant as int, planned@[j].day.days as int, planned@[j].seconds as int),
            decreases 10 - k,
        {
            assert((days@[k as int] as int, times@[k as int] as int) == wake_plan(d as int)[k as int]);
            let day = days[k];
            let seconds = times[k];
            match local_wake(day, seconds) {
                Some(wake) => {
                    planned.push(wake);
                },
                None => {
                    return Err(ReminderError::NoSuchLocalTime);
                },
            }
            k = k + 1;
        }
        self.scheduled_wakes = planned;
        Ok(())
    }

    /// The first part of a round (`round_at` plays the whole round): takes a
    /// skip request and the instant `now`. A skip leaves only the noon
    /// wake-up where some were used already; then a due wake-up is used, and
    /// the result tells whether it sends the reminder.
    pub fn reminder_update_at(&mut self, skip: bool, now: i64) -> (notify: bool)
        requires
            old(self).wf(),
            !(skip && old(self)@.len() == 0),
        ensures
            final(self).wf(),
            final(self)@ == after_due(after_skip(old(self)@, skip), now as int),
            notify == notifies(after_skip(old(self)@, skip), now as int),
    {
        if skip && self.scheduled_wakes.len() < 10 {
            let first = self.scheduled_wakes[0];
            self.scheduled_wakes.clear();
            self.scheduled_wakes.push(first);
            assert(self@ =~= seq![old(self)@[0]]);
        }
        let n = self.scheduled_wakes.len();
        if n > 0 {
            let next = self.scheduled_wakes[n - 1];
            if next.instant <= now {
                let ghost prev = self@;
                self.scheduled_wakes.pop();
                proof {
                    assert(self@ =~= prev.drop_last());
                    assert forall|k: int| 0 <= k < self@.len() implies -MAX_INSTANT <= (
                    #[trigger] self@[k]).instant <= MAX_INSTANT by {
                        assert(self@[k] == prev[k]);
                    }
                }
                return next.seconds != NOON;
            }
        }
        false
    }

    /// The first part of a round (`round` plays the whole round), as
    /// `reminder_update_at` takes it, with the instant read from the local
    /// clock.
    pub fn reminder_update(&mut self, skip: bool) -> (notify: bool)
        requires
            old(self).wf(),
            !(skip && old(self)@.len() == 0),
        ensures
            final(self).wf(),
            exists|now: i64|
                -MAX_INSTANT <= now <= MAX_INSTANT && final(self)@ == after_due(
                    after_skip(old(self)@, skip),
                    now as int,
                ) && notify == notifies(after_skip(old(self)@, skip), now as int),
    {
        let now = local_now();
        let notify = self.reminder_update_at(skip, now.timestamp);
        assert(-MAX_INSTANT <= now.timestamp <= MAX_INSTANT && self@ == after_due(
            after_skip(old(self)@, skip),
            now.timestamp as int,
        ) && notify == notifies(after_skip(old(self)@, skip), now.timestamp as int));
        notify
    }

    /// Where no wake-up is left: drops the days past at `now` from the
    /// calendar and plans the wake-ups for its next collection.
    pub fn refill_at(&mut self, mgr: &mut DateMgr, now: LocalTime) -> (r: Result<(), ReminderError>)
        requires
            old(self).wf(),
            old(mgr).wf(),
            now.wf(),
        ensures
            final(self).wf(),
            final(mgr).wf(),
            old(self)@.len() > 0 ==> final(mgr)@ == old(mgr)@,
            old(self)@.len() == 0 ==> final(mgr)@ == without_old(old(mgr)@, now),
            refill_spec(old(self)@, final(self)@, final(mgr)@, error_of(r)),
    {
        if self.scheduled_wakes.len() > 0 {
            return Ok(());
        }
        mgr.remove_old_at(now);
        self.plan_next(mgr)
    }

    /// Plans the wake-ups for the calendar's next collection.
    fn plan_next(&mut self, mgr: &DateMgr) -> (r: Result<(), ReminderError>)
        requires
            old(self).wf(),
            old(self)@.len() == 0,
            mgr.wf(),
        ensures
            final(self).wf(),
            refill_spec(old(self)@, final(self)@, mgr@, error_of(r)),
    {
        let next: Date = match mgr.next_date() {
            Some((d, _)) => *d,
            None => {
                return Err(ReminderError::NoUpcomingDate);
            },
        };
        if next.days == FIRST_DAY {
            return Err(ReminderError::NoDayBefore);
        }
        self.fill_wakes(next)
    }

    /// Where no wake-up is left: drops the past days from the calendar, as
    /// the local clock reads, and plans the wake-ups for its next collection.
    pub fn refill(&mut self, mgr: &mut DateMgr) -> (r: Result<(), ReminderError>)
        requires
            old(self).wf(),
            old(mgr).wf(),
        ensures
            final(self).wf(),
            final(mgr).wf(),
            old(self)@.len() > 0 ==> final(mgr)@ == old(mgr)@,
            old(self)@.len() == 0 ==> exists|now: LocalTime|
                now.wf() && final(mgr)@ == without_old(old(mgr)@, now),
            refill_spec(old(self)@, final(self)@, final(mgr)@, error_of(r)),
    {
        let now = local_now();
        self.refill_at(mgr, now)
    }

    /// One round, with the events read at `now`: a skip request is applied
    /// and a due wake-up used; where it sends the reminder, the reminder's
    /// text is composed from the calendar; where no wake-up is left, the
    /// calendar drops its past days and the next collection is planned; and
    /// the round ends with the seconds to sleep until the next wake-up.
    pub fn round_at(&mut self, skip: bool, mgr: &mut DateMgr, now: LocalTime) -> (r: Result<
        RoundAction,
        ReminderError,
    >)
        requires
            old(self).wf(),
            old(mgr).wf(),
            now.wf(),
            -MAX_INSTANT <= now.timestamp <= MAX_INSTANT,
            !(skip && old(self)@.len() == 0),
        ensures
            final(self).wf(),
            final(mgr).wf(),
            round_spec(
                old(self)@,
                skip,
                old(mgr)@,
                now,
                final(self)@,
                final(mgr)@,
                reminder_of(r),
                error_of(r),
            ),
            r matches Ok(a) ==> final(self)@.len() > 0 && a.sleep_seconds == sleep_for(
                final(self)@.last().instant as int,
                now.timestamp as int,
            ),
    {
        let notify = self.reminder_update_at(skip, now.timestamp);
        let reminder = if notify {
            match mgr.next_date() {
                Some((d, ts)) => {
                    proof {
                        assert(trash_views(ts@) =~= named_views(type_names(ts@)));
                    }
                    Some(format_update_msg_at(d, ts, now))
                },
                None => {
                    return Err(ReminderError::NoUpcomingDate);
                },
            }
        } else {
            None
        };
        match self.refill_at(mgr, now) {
            Ok(()) => {},
            Err(e) => {
                return Err(e);
            },
        }
        let n = self.scheduled_wakes.len();
        let next = self.scheduled_wakes[n - 1];
        let secs = sleep_seconds(next.instant, now.timestamp);
        Ok(RoundAction { reminder, sleep_seconds: secs })
    }

    /// One round as `round_at` plays it, with the events read from the local
    /// clock once.
    pub fn round(&mut self, skip: bool, mgr: &mut DateMgr) -> (r: Result<RoundAction, ReminderError>)
        requires
            old(self).wf(),
            old(mgr).wf(),
            !(skip && old(self)@.len() == 0),
        ensures
            final(self).wf(),
            final(mgr).wf(),
            exists|now: LocalTime|
                now.wf() && -MAX_INSTANT <= now.timestamp <= MAX_INSTANT && round_spec(
                    old(self)@,
                    skip,
                    old(mgr)@,
                    now,
                    final(self)@,
                    final(mgr)@,
                    reminder_of(r),
                    error_of(r),
                ) && (r matches Ok(a) ==> final(self)@.len() > 0 && a.sleep_seconds == sleep_for(
                    final(self)@.last().instant as int,
                    now.timestamp as int,
                )),
    {
        let now = local_now();
        let r = self.round_at(skip, mgr, now);
        assert(now.wf() && -MAX_INSTANT <= now.timestamp <= MAX_INSTANT && round_spec(
            old(self)@,
            skip,
            old(mgr)@,
            now,
            self@,
            mgr@,
            reminder_of(r),
            error_of(r),
        ) && (r matches Ok(a) ==> self@.len() > 0 && a.sleep_seconds == sleep_for(
            self@.last().instant as int,
            now.timestamp as int,
        )));
        r
    }

    /// The seconds to sleep until the next wake-up, seen from the local
    /// clock.
    pub fn sleep_until(&self) -> (r: u64)
        requires
            self.wf(),
            self@.len() > 0,
        ensures
            exists|now: i64|
                -MAX_INSTANT <= now <= MAX_INSTANT && r == sleep_for(self@.last().instant as int, now as int),
    {
        let now = local_now();
        let next = self.scheduled_wakes[self.scheduled_wakes.len() - 1];
        let r = sleep_seconds(next.instant, now.timestamp);
        assert(-MAX_INSTANT <= now.timestamp <= MAX_INSTANT && r == sleep_for(
            self@.last().instant as int,
            now.timestamp as int,
        ));
        r
    }
}

/// The kinds of waste, one line each, in bold.
pub fn format_trashes(trashes: Vec<&TrashType>) -> (r: String)
    ensures
        r@ == trash_lines(trash_views(trashes@)),
{
    let ghost tv = trash_views(trashes@);
    let n = trashes.len();
    let mut out = String::new();
    let mut i: usize = 0;
    assert(tv.take(0) =~= Seq::<(Seq<char>, Seq<char>)>::empty());
    while i < n
        invariant
            n == trashes@.len(),
            tv == trash_views(trashes@),
            i <= n,
            out@ == trash_lines(tv.take(i as int)),
        decreases n - i,
    {
        let t = trashes[i];
        proof {
            assert(tv.take(i + 1).drop_last() =~= tv.take(i as int));
            assert(tv.take(i + 1).last() == tv[i as int]);
            assert(tv[i as int] == (t.symbol@, t.name@));
            if i == 0 {
                assert(tv.take(1).len() == 1);
            }
        }
        if i > 0 {
            out.append("\n");
        }
        out.append("*");
        let shown = t.to_string();
        out.append(shown.as_str());
        out.append("*");
        i = i + 1;
    }
    assert(tv.take(n as int) =~= tv);
    out
}

/// The reminder text for a collection on `date`, seen at `now`.
pub fn format_update_msg_at(date: &Date, trashes: Vec<&TrashType>, now: LocalTime) -> (r: String)
    ensures
        r@ == update_text(*date, trash_views(trashes@), now),
{
    let mut out = String::new();
    out.append("_");
    if date.days > now.date.days || (date.days == now.date.days && now.seconds < 18000) {
        out.append("Morgen");
    } else {
        out.append("Heute");
    }
    out.append(" wird der folgende Müll abgeholt:_\n");
    let list = format_trashes(trashes);
    out.append(list.as_str());
    out
}

/// The reminder text for a collection on `date`, seen from the local clock.
pub fn format_update_msg(date: &Date, trashes: Vec<&TrashType>) -> (r: String)
    ensures
        exists|now: LocalTime| now.wf() && r@ == update_text(*date, trash_views(trashes@), now),
{
    let now = local_now();
    format_update_msg_at(date, trashes, now)
}

/// The reminder `text` as one Markdown message to each subscriber, in order.
pub fn messages_to(subscribers: &Vec<i64>, text: &String) -> (r: Vec<SendMessage>)
    ensures
        r@.len() == subscribers@.len(),
        forall|i: int|
            0 <= i < r@.len() ==> (#[trigger] r@[i]).chat_id == subscribers@[i] && r@[i].text@
                == text@ && (r@[i].parse_mode matches Some(p) && p@ == "markdown"@),
{
    let n = subscribers.len();
    let mut out: Vec<SendMessage> = Vec::new();
    let mut i: usize = 0;
    while i < n
        invariant
            n == subscribers@.len(),
            i <= n,
            out@.len() == i,
            forall|k: int|
                0 <= k < i ==> (#[trigger] out@[k]).chat_id == subscribers@[k] && out@[k].text@
                    == text@ && (out@[k].parse_mode matches Some(p) && p@ == "markdown"@),
        decreases n - i,
    {
        out.push(SendMessage::md(subscribers[i], text.clone()));
        i = i + 1;
    }
    out
}

/// The reminder for the next collection, as one Markdown message to each
/// subscriber, in order.
pub fn update_messages(mgr: &DateMgr, subscribers: &Vec<i64>) -> (r: Vec<SendMessage>)
    requires
        mgr.wf(),
        upcoming_spec(mgr@).len() > 0,
    ensures
        r@.len() == subscribers@.len(),
        exists|now: LocalTime|
            now.wf() && forall|i: int|
                0 <= i < r@.len() ==> (#[trigger] r@[i]).chat_id == subscribers@[i]
                    && r@[i].text@ == update_text(
                    Date { days: earliest(upcoming_spec(mgr@)) as i32 },
                    named_views(names_due_on(upcoming_spec(mgr@), earliest(upcoming_spec(mgr@)))),
                    now,
                ) && (r@[i].parse_mode matches Some(p) && p@ == "markdown"@),
{
    let (date, trashes) = match mgr.next_date() {
        Some(x) => x,
        None => {
            assert(false);
            return Vec::new();
        },
    };
    proof {
        assert(trash_views(trashes@) =~= named_views(type_names(trashes@)));
    }
    let txt = format_update_msg(date, trashes);
    messages_to(subscribers, &txt)
}

// ---------------------------------------------------------------------------
// Laws of the reminder schedule.

/// The planned wake-ups run latest first: each shows a later local time
/// than every one planned after it, so the schedule is used from its end.
pub proof fn law_plan_latest_first(d: int)
    ensures
        forall|j: int, k: int|
            0 <= j < k < 10 ==> (#[trigger] wake_plan(d)[j]).0 > (#[trigger] wake_plan(d)[k]).0
                || (wake_plan(d)[j].0 == wake_plan(d)[k].0 && wake_plan(d)[j].1 > wake_plan(
                d,
            )[k].1),
{
}

/// Of the planned wake-ups only the one at noon of the collection day, used
/// last, is silent: the other nine send the reminder.
pub proof fn law_only_noon_is_silent(d: int)
    ensures
        forall|k: int| 0 <= k < 10 ==> ((#[trigger] wake_plan(d)[k]).1 == NOON as int <==> k == 0),
{
}

/// A skip request before any wake-up of a plan is used changes nothing.
/// Once some were used, it leaves only the silent noon wake-up: no further
/// reminder is sent for that collection.
pub proof fn law_skip_silences(w: Seq<Wake>, d: int, now: int)
    requires
        0 < w.len() <= 10,
        forall|k: int|
            0 <= k < w.len() ==> ((#[trigger] w[k]).day.days as int, w[k].seconds as int)
                == wake_plan(d)[k],
    ensures
        w.len() == 10 ==> after_skip(w, true) == w,
        w.len() < 10 ==> after_skip(w, true).len() == 1 && after_skip(w, true)[0].seconds == NOON
            && !notifies(after_skip(w, true), now) && after_due(after_skip(w, true), now).len()
            <= 1,
{
    assert((w[0].day.days as int, w[0].seconds as int) == wake_plan(d)[0]);
}

/// In each round at most one wake-up is used, and it is the next one.
pub proof fn law_one_wake_per_round(w: Seq<Wake>, now: int)
    ensures
        is_due(w, now) ==> after_due(w, now) == w.drop_last(),
        !is_due(w, now) ==> after_due(w, now) == w,
        notifies(w, now) ==> is_due(w, now),
{
}

/// On a schedule kept latest first, a round uses a wake-up exactly when
/// some wake-up's instant has come, and then the one used is the earliest of
/// all, the last entry; the reminder is sent exactly when that wake-up is not
/// the noon one. While no wake-up's instant has come, nothing changes and
/// nothing is sent.
pub proof fn law_round_uses_earliest_wake(w: Seq<Wake>, now: int)
    requires
        forall|i: int, j: int| 0 <= i < j < w.len() ==> (#[trigger] w[i]).instant > (#[trigger] w[j]).instant,
    ensures
        (exists|k: int| 0 <= k < w.len() && (#[trigger] w[k]).instant <= now) ==> {
            &&& after_due(w, now) == w.drop_last()
            &&& w.last().instant <= now
            &&& forall|k: int| 0 <= k < w.len() ==> w.last().instant <= (#[trigger] w[k]).instant
            &&& (notifies(w, now) <==> w.last().seconds != NOON)
        },
        (forall|k: int| 0 <= k < w.len() ==> (#[trigger] w[k]).instant > now) ==> after_due(w, now)
            == w && !notifies(w, now),
{
    if w.len() > 0 {
        assert forall|k: int| 0 <= k < w.len() implies w.last().instant <= (#[trigger] w[k]).instant by {
            if k < w.len() - 1 {
                assert(w[k].instant > w[w.len() - 1].instant);
            }
        }
        if forall|k: int| 0 <= k < w.len() ==> (#[trigger] w[k]).instant > now {
            assert(w[w.len() - 1].instant > now);
        }
    }
}

/// The reminder lists the kinds one per line, in order: a single kind is its
/// line, and each further kind adds a line break and its line after the
/// lines before it; a kind's line is its symbol and name, set in bold.
pub proof fn law_trash_lines_joined(ts: Seq<(Seq<char>, Seq<char>)>, t: (Seq<char>, Seq<char>))
    ensures
        trash_lines(Seq::empty()) == Seq::<char>::empty(),
        trash_lines(seq![t]) == "*"@ + t.0 + " "@ + t.1 + "*"@,
        ts.len() > 0 ==> trash_lines(ts.push(t)) == trash_lines(ts) + "\n"@ + ("*"@ + t.0 + " "@
            + t.1 + "*"@),
{
    assert(ts.push(t).drop_last() =~= ts);
    assert(seq![t][0] == t);
}

} // verus!
