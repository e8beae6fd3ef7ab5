//! The collection calendar: for each kind of waste, the queue of its coming
//! collection days, read from a semicolon separated table.

use std::collections::VecDeque;
use vstd::prelude::*;

use crate::calendar::{local_now, parse_date, parsed_dmy, Date, DateParseError, LocalTime};
use crate::text::{fields, fields_spec, same_text, split_spec, str_views, trim_spec};

verus! {

broadcast use vstd::std_specs::vecdeque::group_vec_dequeue_axioms;

pub const SYMB_RESTMUELL: &'static str = "🗑";

pub const SYMB_PAPIER: &'static str = "📃";

pub const SYMB_GELBETONNE: &'static str = "♻️";

pub const SYMB_BIOMUELL: &'static str = "💩";

pub const SYMB_DEFAULT: &'static str = "";

/// The symbol shown beside a kind of waste of the given name.
pub open spec fn symbol_for(name: Seq<char>) -> Seq<char> {
    if name == "Restmüll"@ {
        SYMB_RESTMUELL@
    } else if name == "Papier"@ {
        SYMB_PAPIER@
    } else if name == "Bioabfall"@ {
        SYMB_BIOMUELL@
    } else if name == "Gelbe Tonne"@ {
        SYMB_GELBETONNE@
    } else {
        SYMB_DEFAULT@
    }
}

/// A kind of waste, with the symbol that goes with its name.
#[derive(Debug, PartialEq, Eq, Hash)]
pub struct TrashType {
    pub name: String,
    pub symbol: &'static str,
}

impl Clone for TrashType {
    fn clone(&self) -> (r: Self)
        ensures
            r == *self,
    {
        TrashType { name: self.name.clone(), symbol: self.symbol }
    }
}

impl TrashType {
    /// The kind of waste called `name`.
    pub fn new(name: &str) -> (t: TrashType)
        ensures
            t.name@ == name@,
            t.symbol@ == symbol_for(name@),
    {
        let symbol = if same_text(name, "Restmüll") {
            SYMB_RESTMUELL
        } else if same_text(name, "Papier") {
            SYMB_PAPIER
        } else if same_text(name, "Bioabfall") {
            SYMB_BIOMUELL
        } else if same_text(name, "Gelbe Tonne") {
            SYMB_GELBETONNE
        } else {
            SYMB_DEFAULT
        };
        let mut n = String::new();
        n.append(name);
        TrashType { name: n, symbol }
    }

    /// The symbol, a space and the name.
    pub fn to_string(&self) -> (r: String)
        ensures
            r@ == self.symbol@ + " "@ + self.name@,
    {
        let mut r = String::new();
        r.append(self.symbol);
        r.append(" ");
        r.append(self.name.as_str());
        r
    }
}

/// A kind of waste, by name, with its queue of collection days.
pub type Entry = (Seq<char>, Seq<Date>);

/// The names of the entries, in order.
pub open spec fn entry_names(m: Seq<Entry>) -> Seq<Seq<char>> {
    m.map_values(|e: Entry| e.0)
}

/// No two entries have the same name.
pub open spec fn names_unique(m: Seq<Entry>) -> bool {
    forall|i: int, j: int| 0 <= i < j < m.len() ==> m[i].0 != m[j].0
}

/// Every queued day lies in `chrono`'s range.
pub open spec fn days_in_range(m: Seq<Entry>) -> bool {
    forall|i: int, k: int| 0 <= i < m.len() && 0 <= k < m[i].1.len() ==> (#[trigger] m[i].1[k]).wf()
}

/// `m` with an entry for `name` with an empty queue, unless it has one.
pub open spec fn with_name(m: Seq<Entry>, name: Seq<char>) -> Seq<Entry> {
    if entry_names(m).contains(name) {
        m
    } else {
        m.push((name, Seq::<Date>::empty()))
    }
}

/// `m` with an entry for each of `names`, added in order.
pub open spec fn with_names(m: Seq<Entry>, names: Seq<Seq<char>>) -> Seq<Entry>
    decreases names.len(),
{
    if names.len() == 0 {
        m
    } else {
        with_name(with_names(m, names.drop_last()), names.last())
    }
}

/// `m` with `d` queued last for the entry named `name`.
pub open spec fn with_date(m: Seq<Entry>, name: Seq<char>, d: Date) -> Seq<Entry> {
    m.map_values(|e: Entry| if e.0 == name { (e.0, e.1.push(d)) } else { e })
}

/// The first field from position `k` on that is not empty and not a date.
pub open spec fn line_error(fs: Seq<Seq<char>>, k: int) -> Option<Seq<char>>
    decreases fs.len() - k,
{
    if k < 0 || k >= fs.len() {
        None
    } else if fs[k].len() != 0 && parsed_dmy(fs[k]) is None {
        Some(fs[k])
    } else {
        line_error(fs, k + 1)
    }
}

/// The table after the fields of a line from position `k` on are read, up to
/// the first field that is not a date: the date in field `k` is queued for
/// the kind named by column `k` where it comes after `today`.
pub open spec fn line_effect(
    m: Seq<Entry>,
    cols: Seq<Seq<char>>,
    fs: Seq<Seq<char>>,
    today: Date,
    k: int,
) -> Seq<Entry>
    decreases fs.len() - k,
{
    if k < 0 || k >= fs.len() {
        m
    } else if fs[k].len() == 0 {
        line_effect(m, cols, fs, today, k + 1)
    } else {
        match parsed_dmy(fs[k]) {
            None => m,
            Some(d) => if d > today.days {
                line_effect(with_date(m, cols[k], Date { days: d }), cols, fs, today, k + 1)
            } else {
                line_effect(m, cols, fs, today, k + 1)
            },
        }
    }
}

/// Every date of a line from position `k` on that would be queued has a
/// column among the first `ncols`.
pub open spec fn line_fits(ncols: int, fs: Seq<Seq<char>>, today: Date, k: int) -> bool
    decreases fs.len() - k,
{
    if k < 0 || k >= fs.len() {
        true
    } else if fs[k].len() == 0 {
        line_fits(ncols, fs, today, k + 1)
    } else {
        match parsed_dmy(fs[k]) {
            None => true,
            Some(d) => (d > today.days ==> k < ncols) && line_fits(ncols, fs, today, k + 1),
        }
    }
}

/// A field of a table line, once read: empty, a date, or a text that is
/// not a date.
#[derive(Debug, PartialEq, Eq)]
pub enum Field {
    Empty,
    Day(Date),
    NotADate(String),
}

/// `field` is what reading the text `f` gives.
pub open spec fn reads_as(field: Field, f: Seq<char>) -> bool {
    if f.len() == 0 {
        field == Field::Empty
    } else {
        match parsed_dmy(f) {
            Some(d) => field == Field::Day(Date { days: d }),
            None => field matches Field::NotADate(t) && t@ == f,
        }
    }
}

/// The table after the read fields of a line from position `k` on are
/// queued, up to the first field that is not a date: the date in field `k`
/// is queued for the kind named by column `k` where it comes after `today`.
pub open spec fn queue_effect(
    m: Seq<Entry>,
    cols: Seq<Seq<char>>,
    fs: Seq<Field>,
    today: Date,
    k: int,
) -> Seq<Entry>
    decreases fs.len() - k,
{
    if k < 0 || k >= fs.len() {
        m
    } else {
        match fs[k] {
            Field::Empty => queue_effect(m, cols, fs, today, k + 1),
            Field::Day(d) => if d.days > today.days {
                queue_effect(with_date(m, cols[k], d), cols, fs, today, k + 1)
            } else {
                queue_effect(m, cols, fs, today, k + 1)
            },
            Field::NotADate(_) => m,
        }
    }
}

/// The text of the first read field from position `k` on that is not a
/// date.
pub open spec fn queue_error(fs: Seq<Field>, k: int) -> Option<Seq<char>>
    decreases fs.len() - k,
{
    if k < 0 || k >= fs.len() {
        None
    } else {
        match fs[k] {
            Field::NotADate(t) => Some(t@),
            _ => queue_error(fs, k + 1),
        }
    }
}

/// Every date from position `k` on that would be queued has a column among
/// the first `ncols`.
pub open spec fn queue_fits(ncols: int, fs: Seq<Field>, today: Date, k: int) -> bool
    decreases fs.len() - k,
{
    if k < 0 || k >= fs.len() {
        true
    } else {
        match fs[k] {
            Field::Empty => queue_fits(ncols, fs, today, k + 1),
            Field::Day(d) => (d.days > today.days ==> k < ncols) && queue_fits(
                ncols,
                fs,
                today,
                k + 1,
            ),
            Field::NotADate(_) => true,
        }
    }
}

/// Reading a line's texts and queueing the fields read come to the same.
proof fn lemma_reads_as(
    m: Seq<Entry>,
    cols: Seq<Seq<char>>,
    fs: Seq<Field>,
    texts: Seq<Seq<char>>,
    today: Date,
    ncols: int,
    k: int,
)
    requires
        fs.len() == texts.len(),
        0 <= k,
        forall|j: int| 0 <= j < fs.len() ==> reads_as(#[trigger] fs[j], texts[j]),
    ensures
        queue_effect(m, cols, fs, today, k) == line_effect(m, cols, texts, today, k),
        queue_error(fs, k) == line_error(texts, k),
        queue_fits(ncols, fs, today, k) == line_fits(ncols, texts, today, k),
    decreases fs.len() - k,
{
    if k < fs.len() {
        assert(reads_as(fs[k], texts[k]));
        lemma_reads_as(m, cols, fs, texts, today, ncols, k + 1);
        match fs[k] {
            Field::Day(d) => {
                lemma_reads_as(with_date(m, cols[k], d), cols, fs, texts, today, ncols, k + 1);
            },
            _ => {},
        }
    }
}

/// The views of a sequence of strings.
pub open spec fn string_views(v: Seq<String>) -> Seq<Seq<char>> {
    v.map_values(|s: String| s@)
}

/// The first field, from line `j` on, that is not empty and not a date.
pub open spec fn lines_error(lines: Seq<Seq<char>>, j: int) -> Option<Seq<char>>
    decreases lines.len() - j,
{
    if j < 0 || j >= lines.len() {
        None
    } else {
        match line_error(fields_spec(lines[j]), 0) {
            Some(e) => Some(e),
            None => lines_error(lines, j + 1),
        }
    }
}

/// The table after the lines from `j` on are read, up to the first field that
/// is not a date.
pub open spec fn lines_effect(
    m: Seq<Entry>,
    cols: Seq<Seq<char>>,
    lines: Seq<Seq<char>>,
    today: Date,
    j: int,
) -> Seq<Entry>
    decreases lines.len() - j,
{
    if j < 0 || j >= lines.len() {
        m
    } else {
        let fs = fields_spec(lines[j]);
        let m1 = line_effect(m, cols, fs, today, 0);
        if line_error(fs, 0) is Some {
            m1
        } else {
            lines_effect(m1, cols, lines, today, j + 1)
        }
    }
}

/// Every line from `j` on that is read fits the `ncols` columns.
pub open spec fn lines_fit(ncols: int, lines: Seq<Seq<char>>, today: Date, j: int) -> bool
    decreases lines.len() - j,
{
    if j < 0 || j >= lines.len() {
        true
    } else {
        let fs = fields_spec(lines[j]);
        line_fits(ncols, fs, today, 0) && (line_error(fs, 0) is Some || lines_fit(
            ncols,
            lines,
            today,
            j + 1,
        ))
    }
}

/// The table after a header and lines are read into `m`.
pub open spec fn append_effect(
    m: Seq<Entry>,
    header: Seq<char>,
    lines: Seq<Seq<char>>,
    today: Date,
) -> Seq<Entry> {
    let cols = fields_spec(header);
    lines_effect(with_names(m, cols), cols, lines, today, 0)
}

/// Lines that a header's columns can take.
pub open spec fn append_fits(header: Seq<char>, lines: Seq<Seq<char>>, today: Date) -> bool {
    lines_fit(fields_spec(header).len() as int, lines, today, 0)
}

/// A date is still to come at `now` where it is later than 11:00 of its day.
pub open spec fn still_due(d: Date, now: LocalTime) -> bool {
    d.days > now.date.days || (d.days == now.date.days && now.seconds < 39600)
}

/// The days of `q` still to come at `now`, in order.
pub open spec fn keep_due(q: Seq<Date>, now: LocalTime) -> Seq<Date>
    decreases q.len(),
{
    if q.len() == 0 {
        q
    } else {
        let r = keep_due(q.drop_last(), now);
        if still_due(q.last(), now) {
            r.push(q.last())
        } else {
            r
        }
    }
}

/// `m` with each queue cut down to the days still to come at `now`.
pub open spec fn without_old(m: Seq<Entry>, now: LocalTime) -> Seq<Entry> {
    m.map_values(|e: Entry| (e.0, keep_due(e.1, now)))
}

/// For each kind with a nonempty queue, in order, its name and first day.
pub open spec fn upcoming_spec(m: Seq<Entry>) -> Seq<(Seq<char>, Date)>
    decreases m.len(),
{
    if m.len() == 0 {
        Seq::empty()
    } else {
        let r = upcoming_spec(m.drop_last());
        if m.last().1.len() > 0 {
            r.push((m.last().0, m.last().1[0]))
        } else {
            r
        }
    }
}

/// The views of pairs of a kind of waste and a day.
pub open spec fn pair_views(v: Seq<(&TrashType, &Date)>) -> Seq<(Seq<char>, Date)> {
    v.map_values(|p: (&TrashType, &Date)| (p.0.name@, *p.1))
}

/// The views of kinds of waste.
pub open spec fn type_names(v: Seq<&TrashType>) -> Seq<Seq<char>> {
    v.map_values(|t: &TrashType| t.name@)
}

/// The earliest day of a nonempty sequence.
pub open spec fn earliest(up: Seq<(Seq<char>, Date)>) -> int
    decreases up.len(),
{
    if up.len() <= 1 {
        up[0].1.days as int
    } else {
        let r = earliest(up.drop_last());
        if up.last().1.days < r {
            up.last().1.days as int
        } else {
            r
        }
    }
}

/// The names paired with the given day, in order.
pub open spec fn names_due_on(up: Seq<(Seq<char>, Date)>, day: int) -> Seq<Seq<char>>
    decreases up.len(),
{
    if up.len() == 0 {
        Seq::empty()
    } else {
        let r = names_due_on(up.drop_last(), day);
        if up.last().1.days == day {
            r.push(up.last().0)
        } else {
            r
        }
    }
}

/// Adding a name keeps the names there and makes the new one present.
pub proof fn lemma_with_name_names(m: Seq<Entry>, n: Seq<char>)
    ensures
        entry_names(with_name(m, n)).contains(n),
        forall|x: Seq<char>| entry_names(m).contains(x) ==> #[trigger] entry_names(with_name(m, n)).contains(x),
{
    if !entry_names(m).contains(n) {
        assert(entry_names(with_name(m, n)) =~= entry_names(m).push(n));
        assert(entry_names(with_name(m, n))[m.len() as int] == n);
        assert forall|x: Seq<char>| entry_names(m).contains(x) implies #[trigger] entry_names(with_name(m, n)).contains(x) by {
            let k = choose|k: int| 0 <= k < entry_names(m).len() && entry_names(m)[k] == x;
            assert(entry_names(with_name(m, n))[k] == x);
        }
    }
}

/// Each day kept by `keep_due` is a day of the queue.
pub proof fn lemma_keep_due_subset(q: Seq<Date>, now: LocalTime, b: int)
    requires
        0 <= b < keep_due(q, now).len(),
    ensures
        exists|a: int| 0 <= a < q.len() && q[a] == keep_due(q, now)[b],
    decreases q.len(),
{
    if q.len() > 0 {
        let r = keep_due(q.drop_last(), now);
        if b < r.len() {
            lemma_keep_due_subset(q.drop_last(), now, b);
            let a = choose|a: int| 0 <= a < q.drop_last().len() && q.drop_last()[a] == r[b];
            assert(q[a] == r[b]);
        } else {
            assert(q[q.len() - 1] == keep_due(q, now)[b]);
        }
    }
}

/// The collection calendar: for each kind of waste, in the order in which
/// the kinds were first named, the queue of its collection days.
#[derive(Debug)]
pub struct DateMgr {
    dates: Vec<(TrashType, VecDeque<Date>)>,
}

impl View for DateMgr {
    type V = Seq<Entry>;

    closed spec fn view(&self) -> Seq<Entry> {
        self.dates@.map_values(|e: (TrashType, VecDeque<Date>)| (e.0.name@, e.1@))
    }
}

impl DateMgr {
    /// Names are unique, every symbol goes with its name, and every day lies
    /// in `chrono`'s range.
    pub closed spec fn wf(self) -> bool {
        &&& names_unique(self@)
        &&& days_in_range(self@)
        &&& forall|i: int|
            0 <= i < self.dates@.len() ==> (#[trigger] self.dates@[i]).0.symbol@ == symbol_for(
                self.dates@[i].0.name@,
            )
    }

    /// A well-formed calendar names each kind once, and its days lie in
    /// `chrono`'s range.
    pub proof fn lemma_wf(&self)
        requires
            self.wf(),
        ensures
            names_unique(self@),
            days_in_range(self@),
    {
    }

    /// An empty calendar.
    pub fn new() -> (r: DateMgr)
        ensures
            r.wf(),
            r@ == Seq::<Entry>::empty(),
    {
        let r = DateMgr { dates: Vec::new() };
        assert(r@ =~= Seq::<Entry>::empty());
        r
    }

    /// The position of the entry named `name`.
    fn find(&self, name: &str) -> (r: Option<usize>)
        requires
            self.wf(),
        ensures
            match r {
                Some(i) => i < self@.len() && self@[i as int].0 == name@,
                None => !entry_names(self@).contains(name@),
            },
    {
        let n = self.dates.len();
        let mut i: usize = 0;
        while i < n
            invariant
                n == self.dates@.len(),
                n == self@.len(),
                i <= n,
                forall|k: int| 0 <= k < i ==> self@[k].0 != name@,
            decreases n - i,
        {
            if same_text(self.dates[i].0.name.as_str(), name) {
                return Some(i);
            }
            i = i + 1;
        }
        proof {
            if entry_names(self@).contains(name@) {
                let k = choose|k: int|
                    0 <= k < entry_names(self@).len() && entry_names(self@)[k] == name@;
                assert(self@[k].0 == name@);
            }
        }
        None
    }

    /// Adds an entry for `t` with an empty queue, unless there is one.
    fn insert_type(&mut self, t: TrashType)
        requires
            old(self).wf(),
            t.symbol@ == symbol_for(t.name@),
        ensures
            final(self).wf(),
            final(self)@ == with_name(old(self)@, t.name@),
    {
        match self.find(t.name.as_str()) {
            Some(i) => {
                assert(entry_names(self@)[i as int] == t.name@);
            },
            None => {
                let ghost name = t.name@;
                let ghost before = self.dates@;
                self.dates.push((t, VecDeque::new()));
                proof {
                    assert(self.dates@ == before.push(self.dates@[before.len() as int]));
                    assert(self@ =~= old(self)@.push((name, Seq::<Date>::empty())));
                    assert forall|k: int| 0 <= k < old(self)@.len() implies old(self)@[k].0
                        != name by {
                        if old(self)@[k].0 == name {
                            assert(entry_names(old(self)@)[k] == name);
                        }
                    }
                    assert forall|k: int|
                        0 <= k < self.dates@.len() implies (#[trigger] self.dates@[k]).0.symbol@
                        == symbol_for(self.dates@[k].0.name@) by {
                        if k < before.len() {
                            assert(self.dates@[k] == before[k]);
                        }
                    }
                }
            },
        }
    }

    /// Queues `d` last for the entry named `name`.
    fn push_date(&mut self, name: &str, d: Date)
        requires
            old(self).wf(),
            d.wf(),
            entry_names(old(self)@).contains(name@),
        ensures
            final(self).wf(),
            final(self)@ == with_date(old(self)@, name@, d),
    {
        let i = match self.find(name) {
            Some(i) => i,
            None => {
                assert(false);
                return ;
            },
        };
        let ghost before = self.dates@;
        let (t, mut q) = self.dates.remove(i);
        q.push_back(d);
        self.dates.insert(i, (t, q));
        proof {
            assert(self.dates@ =~= before.update(i as int, self.dates@[i as int]));
            assert forall|k: int| 0 <= k < self@.len() implies #[trigger] self@[k] == with_date(
                old(self)@,
                name@,
                d,
            )[k] by {
                if k != i {
                    assert(self.dates@[k] == before[k]);
                    assert(old(self)@[k].0 != old(self)@[i as int].0);
                }
            }
            assert(self@ =~= with_date(old(self)@, name@, d));
            assert forall|k: int|
                0 <= k < self.dates@.len() implies (#[trigger] self.dates@[k]).0.symbol@
                == symbol_for(self.dates@[k].0.name@) by {
                if k != i {
                    assert(self.dates@[k] == before[k]);
                }
            }
            assert forall|a: int, b: int|
                0 <= a < self@.len() && 0 <= b < self@[a].1.len() implies (
                #[trigger] self@[a].1[b]).wf() by {
                if a != i {
                    assert(self@[a] == old(self)@[a]);
                } else if b < old(self)@[a].1.len() {
                    assert(self@[a].1[b] == old(self)@[a].1[b]);
                }
            }
        }
    }

    /// For each kind with a nonempty queue, in order, the kind and its first
    /// day.
    pub fn upcoming_dates(&self) -> (r: Vec<(&TrashType, &Date)>)
        requires
            self.wf(),
        ensures
            pair_views(r@) == upcoming_spec(self@),
            pair_views(r@).no_duplicates(),
            forall|k: int|
                0 <= k < r@.len() ==> (#[trigger] r@[k]).0.symbol@ == symbol_for(r@[k].0.name@)
                    && r@[k].1.wf(),
    {
        let n = self.dates.len();
        let mut out: Vec<(&TrashType, &Date)> = Vec::new();
        let mut i: usize = 0;
        assert(self@.take(0) =~= Seq::<Entry>::empty());
        assert(pair_views(out@) =~= Seq::<(Seq<char>, Date)>::empty());
        while i < n
            invariant
                n == self.dates@.len(),
                n == self@.len(),
                i <= n,
                self.wf(),
                pair_views(out@) == upcoming_spec(self@.take(i as int)),
                forall|k: int|
                    0 <= k < out@.len() ==> (#[trigger] out@[k]).0.symbol@ == symbol_for(
                        out@[k].0.name@,
                    ) && out@[k].1.wf(),
            decreases n - i,
        {
            let e = &self.dates[i];
            proof {
                assert(self@.take(i + 1).drop_last() =~= self@.take(i as int));
                assert(self@.take(i + 1).last() == self@[i as int]);
                assert(self@[i as int] == (e.0.name@, e.1@));
            }
            if e.1.len() > 0 {
                let ghost before = out@;
                let first = &e.1[0];
                out.push((&e.0, first));
                proof {
                    assert(out@ == before.push((&e.0, first)));
                    assert(pair_views(out@) =~= pair_views(before).push((e.0.name@, e.1@[0])));
                    assert(self@[i as int].1[0].wf());
                }
            }
            i = i + 1;
        }
        assert(self@.take(n as int) =~= self@);
        proof {
            lemma_upcoming_names_unique(self@);
        }
        out
    }

    /// Cuts each queue down to the days still to come at `now`.
    pub fn remove_old_at(&mut self, now: LocalTime)
        requires
            old(self).wf(),
        ensures
            final(self).wf(),
            final(self)@ == without_old(old(self)@, now),
    {
        let n = self.dates.len();
        let mut out: Vec<(TrashType, VecDeque<Date>)> = Vec::new();
        let mut i: usize = 0;
        while i < n
            invariant
                n == self.dates@.len(),
                n == self@.len(),
                i <= n,
                self.wf(),
                self@ == old(self)@,
                out@.len() == i,
                forall|k: int|
                    0 <= k < i ==> (#[trigger] out@[k]).0 == self.dates@[k].0 && out@[k].1@
                        == keep_due(self.dates@[k].1@, now),
            decreases n - i,
        {
            let e = &self.dates[i];
            let mut q: VecDeque<Date> = VecDeque::new();
            let m = e.1.len();
            let mut j: usize = 0;
            assert(e.1@.take(0) =~= Seq::<Date>::empty());
            while j < m
                invariant
                    m == e.1@.len(),
                    j <= m,
                    q@ == keep_due(e.1@.take(j as int), now),
                decreases m - j,
            {
                let d = e.1[j];
                proof {
                    assert(e.1@.take(j + 1).drop_last() =~= e.1@.take(j as int));
                    assert(e.1@.take(j + 1).last() == d);
                }
                if d.days > now.date.days || (d.days == now.date.days && now.seconds < 39600) {
                    q.push_back(d);
                }
                j = j + 1;
            }
            assert(e.1@.take(m as int) =~= e.1@);
            out.push((e.0.clone(), q));
            i = i + 1;
        }
        let ghost before = self.dates@;
        self.dates = out;
        proof {
            assert(self@ =~= without_old(old(self)@, now));
            assert forall|k: int|
                0 <= k < self.dates@.len() implies (#[trigger] self.dates@[k]).0.symbol@
                == symbol_for(self.dates@[k].0.name@) by {
                assert(self.dates@[k].0 == before[k].0);
            }
            assert forall|a: int, b: int|
                0 <= a < self@.len() && 0 <= b < self@[a].1.len() implies (
                #[trigger] self@[a].1[b]).wf() by {
                lemma_keep_due_subset(old(self)@[a].1, now, b);
            }
        }
    }

    /// Cuts each queue down to the days still to come now: a day stays
    /// where 11:00 of it is later than the local clock's reading.
    pub fn remove_old(&mut self)
        requires
            old(self).wf(),
        ensures
            final(self).wf(),
            exists|now: LocalTime| now.wf() && final(self)@ == without_old(old(self)@, now),
    {
        let now = local_now();
        self.remove_old_at(now);
    }

    /// The earliest first day among the queues, with the kinds whose queue
    /// starts with it, in order.
    pub fn next_date(&self) -> (r: Option<(&Date, Vec<&TrashType>)>)
        requires
            self.wf(),
        ensures
            r is None <==> upcoming_spec(self@).len() == 0,
            r matches Some((d, ts)) ==> {
                &&& d.days == earliest(upcoming_spec(self@))
                &&& d.wf()
                &&& type_names(ts@) == names_due_on(upcoming_spec(self@), d.days as int)
                &&& type_names(ts@).no_duplicates()
                &&& forall|k: int|
                    0 <= k < ts@.len() ==> (#[trigger] ts@[k]).symbol@ == symbol_for(
                        ts@[k].name@,
                    )
            },
    {
        let up = self.upcoming_dates();
        let n = up.len();
        if n == 0 {
            return None;
        }
        let ghost u = upcoming_spec(self@);
        assert(u.len() == n);
        assert(u.take(1).len() == 1);
        assert(u.take(1)[0] == u[0]);
        let mut best: usize = 0;
        let mut k: usize = 1;
        while k < n
            invariant
                n == up@.len(),
                n == u.len(),
                u == pair_views(up@),
                1 <= k <= n,
                best < k,
                up@[best as int].1.days == earliest(u.take(k as int)),
            decreases n - k,
        {
            proof {
                assert(u.take(k + 1).drop_last() =~= u.take(k as int));
                assert(u.take(k + 1).last() == u[k as int]);
                assert(u[k as int].1 == *up@[k as int].1);
            }
            if up[k].1.days < up[best].1.days {
                best = k;
            }
            k = k + 1;
        }
        assert(u.take(n as int) =~= u);
        let date: &Date = up[best].1;
        let mut trashes: Vec<&TrashType> = Vec::new();
        let mut j: usize = 0;
        assert(u.take(0) =~= Seq::<(Seq<char>, Date)>::empty());
        assert(type_names(trashes@) =~= Seq::<Seq<char>>::empty());
        while j < n
            invariant
                n == up@.len(),
                n == u.len(),
                u == pair_views(up@),
                j <= n,
                type_names(trashes@) == names_due_on(u.take(j as int), date.days as int),
                forall|k: int|
                    0 <= k < up@.len() ==> (#[trigger] up@[k]).0.symbol@ == symbol_for(
                        up@[k].0.name@,
                    ),
                forall|k: int|
                    0 <= k < trashes@.len() ==> (#[trigger] trashes@[k]).symbol@ == symbol_for(
                        trashes@[k].name@,
                    ),
            decreases n - j,
        {
            proof {
                assert(u.take(j + 1).drop_last() =~= u.take(j as int));
                assert(u.take(j + 1).last() == u[j as int]);
                assert(u[j as int] == (up@[j as int].0.name@, *up@[j as int].1));
            }
            if up[j].1.days == date.days {
                let ghost before = trashes@;
                trashes.push(up[j].0);
                proof {
                    assert(trashes@ == before.push(up@[j as int].0));
                    assert(type_names(trashes@) =~= type_names(before).push(
                        up@[j as int].0.name@,
                    ));
                }
            }
            j = j + 1;
        }
        assert(u.take(n as int) =~= u);
        proof {
            lemma_upcoming_names_unique(self@);
            lemma_names_due_on_unique(u, date.days as int);
        }
        Some((date, trashes))
    }

    /// Reads one line of the table: each nonempty field is a date, queued for
    /// the kind of its column where it comes after `today`; the first field
    /// that is not a date stops the line with an error.
    fn add_line(&mut self, cols: &Vec<&str>, line: &str, today: Date) -> (r: Result<
        (),
        DateParseError,
    >)
        requires
            old(self).wf(),
            today.wf(),
            forall|c: int|
                0 <= c < cols@.len() ==> entry_names(old(self)@).contains(#[trigger] cols@[c]@),
            line_fits(cols@.len() as int, fields_spec(line@), today, 0),
        ensures
            final(self).wf(),
            entry_names(final(self)@) == entry_names(old(self)@),
            final(self)@ == line_effect(
                old(self)@,
                str_views(cols@),
                fields_spec(line@),
                today,
                0,
            ),
            r is Ok <==> line_error(fields_spec(line@), 0) is None,
            r matches Err(e) ==> line_error(fields_spec(line@), 0) == Some(e.text@),
    {
        let fs = fields(line);
        let ghost fsv = fields_spec(line@);
        let n = fs.len();
        let mut parsed: Vec<Field> = Vec::new();
        let mut k: usize = 0;
        while k < n
            invariant
                str_views(fs@) == fsv,
                n == fs@.len(),
                k <= n,
                parsed@.len() == k,
                forall|j: int|
                    0 <= j < k ==> reads_as(#[trigger] parsed@[j], fsv[j]) && (parsed@[j] matches Field::Day(
                        d,
                    ) ==> d.wf()),
            decreases n - k,
        {
            let f = fs[k];
            assert(fsv[k as int] == f@);
            if f.is_empty() {
                parsed.push(Field::Empty);
            } else {
                match parse_date(f) {
                    Ok(d) => parsed.push(Field::Day(d)),
                    Err(e) => parsed.push(Field::NotADate(e.text)),
                }
            }
            k = k + 1;
        }
        proof {
            lemma_reads_as(self@, str_views(cols@), parsed@, fsv, today, cols@.len() as int, 0);
        }
        self.queue_fields(cols, &parsed, today)
    }

    /// Reads the fields of one line, once each is read as a date or not: each
    /// date is queued for the kind of its column where it comes after
    /// `today`; the first field that is not a date stops the line with an
    /// error.
    pub fn queue_fields(&mut self, cols: &Vec<&str>, fields: &Vec<Field>, today: Date) -> (r: Result<
        (),
        DateParseError,
    >)
        requires
            old(self).wf(),
            today.wf(),
            forall|c: int|
                0 <= c < cols@.len() ==> entry_names(old(self)@).contains(#[trigger] cols@[c]@),
            forall|k: int| 0 <= k < fields@.len() ==> ((#[trigger] fields@[k]) matches Field::Day(d) ==> d.wf()),
            queue_fits(cols@.len() as int, fields@, today, 0),
        ensures
            final(self).wf(),
            entry_names(final(self)@) == entry_names(old(self)@),
            final(self)@ == queue_effect(old(self)@, str_views(cols@), fields@, today, 0),
            r is Ok <==> queue_error(fields@, 0) is None,
            r matches Err(e) ==> queue_error(fields@, 0) == Some(e.text@),
    {
        let ghost cv = str_views(cols@);
        let ghost fv = fields@;
        let n = fields.len();
        let mut k: usize = 0;
        while k < n
            invariant
                fv == fields@,
                cv == str_views(cols@),
                n == fv.len(),
                k <= n,
                self.wf(),
                today.wf(),
                entry_names(self@) == entry_names(old(self)@),
                forall|c: int|
                    0 <= c < cols@.len() ==> entry_names(old(self)@).contains(#[trigger] cols@[c]@),
                forall|j: int| 0 <= j < fv.len() ==> ((#[trigger] fv[j]) matches Field::Day(d) ==> d.wf()),
                queue_effect(old(self)@, cv, fv, today, 0) == queue_effect(self@, cv, fv, today, k as int),
                queue_error(fv, 0) == queue_error(fv, k as int),
                queue_fits(cols@.len() as int, fv, today, k as int),
            decreases n - k,
        {
            match &fields[k] {
                Field::Empty => {},
                Field::Day(d) => {
                    if d.days > today.days {
                        assert(cv[k as int] == cols@[k as int]@);
                        let ghost before = self@;
                        self.push_date(cols[k], *d);
                        proof {
                            assert(entry_names(self@) =~= entry_names(before));
                        }
                    }
                },
                Field::NotADate(t) => {
                    return Err(DateParseError { text: t.clone() });
                },
            }
            k = k + 1;
        }
        Ok(())
    }

    /// Whether a line fits `ncols` columns, and, where it does, whether it
    /// holds a field that is not a date.
    fn check_line(ncols: usize, line: &str, today: Date) -> (r: (bool, bool))
        ensures
            r.0 == line_fits(ncols as int, fields_spec(line@), today, 0),
            r.0 ==> (r.1 <==> line_error(fields_spec(line@), 0) is Some),
    {
        let fs = fields(line);
        let ghost fsv = fields_spec(line@);
        let n = fs.len();
        let mut k: usize = 0;
        while k < n
            invariant
                str_views(fs@) == fsv,
                fsv == fields_spec(line@),
                n == fs@.len(),
                k <= n,
                line_fits(ncols as int, fsv, today, 0) == line_fits(ncols as int, fsv, today, k as int),
                line_error(fsv, 0) == line_error(fsv, k as int),
            decreases n - k,
        {
            let f = fs[k];
            assert(fsv[k as int] == f@);
            if !f.is_empty() {
                match parse_date(f) {
                    Err(_) => {
                        return (true, true);
                    },
                    Ok(d) => {
                        if d.days > today.days && k >= ncols {
                            return (false, false);
                        }
                    },
                }
            }
            k = k + 1;
        }
        (true, false)
    }

    /// Whether every line that would be read fits `ncols` columns.
    fn check_lines(ncols: usize, lines: &Vec<String>, today: Date) -> (r: bool)
        ensures
            r == lines_fit(ncols as int, string_views(lines@), today, 0),
    {
        let ghost lv = string_views(lines@);
        let n = lines.len();
        let mut j: usize = 0;
        while j < n
            invariant
                lv == string_views(lines@),
                n == lines@.len(),
                j <= n,
                lines_fit(ncols as int, lv, today, 0) == lines_fit(ncols as int, lv, today, j as int),
            decreases n - j,
        {
            assert(lv[j as int] == lines@[j as int]@);
            let (fits, bad) = Self::check_line(ncols, lines[j].as_str(), today);
            if !fits {
                return false;
            }
            if bad {
                return true;
            }
            j = j + 1;
        }
        true
    }

    /// Reads a table: the header names the kinds of waste, one per column,
    /// each added with an empty queue unless it is there already; each line
    /// then gives dates by column, and those after `today` are queued. The
    /// first field that is not a date ends the reading with an error; what
    /// was read before it stays.
    pub fn append_lines(&mut self, header: &str, lines: &Vec<String>, today: Date) -> (r: Result<
        (),
        DateParseError,
    >)
        requires
            old(self).wf(),
            today.wf(),
            append_fits(header@, string_views(lines@), today),
        ensures
            final(self).wf(),
            final(self)@ == append_effect(old(self)@, header@, string_views(lines@), today),
            r is Ok <==> lines_error(string_views(lines@), 0) is None,
            r matches Err(e) ==> lines_error(string_views(lines@), 0) == Some(e.text@),
    {
        let cols = fields(header);
        let ghost cv = str_views(cols@);
        let nc = cols.len();
        let mut i: usize = 0;
        assert(cv.take(0) =~= Seq::<Seq<char>>::empty());
        while i < nc
            invariant
                cv == str_views(cols@),
                cv == fields_spec(header@),
                nc == cols@.len(),
                i <= nc,
                self.wf(),
                self@ == with_names(old(self)@, cv.take(i as int)),
                forall|c: int| 0 <= c < i ==> entry_names(self@).contains(#[trigger] cols@[c]@),
            decreases nc - i,
        {
            let ghost prev = self@;
            let t = TrashType::new(cols[i]);
            self.insert_type(t);
            proof {
                assert(cv.take(i + 1).drop_last() =~= cv.take(i as int));
                assert(cv.take(i + 1).last() == cols@[i as int]@);
                lemma_with_name_names(prev, cols@[i as int]@);
            }
            i = i + 1;
        }
        assert(cv.take(nc as int) =~= cv);
        let ghost lv = string_views(lines@);
        let ghost m1 = self@;
        let nl = lines.len();
        let mut j: usize = 0;
        while j < nl
            invariant
                cv == str_views(cols@),
                nc == cols@.len(),
                lv == string_views(lines@),
                nl == lines@.len(),
                j <= nl,
                self.wf(),
                today.wf(),
                forall|c: int| 0 <= c < nc ==> entry_names(self@).contains(#[trigger] cols@[c]@),
                cv == fields_spec(header@),
                m1 == with_names(old(self)@, cv),
                lines_effect(m1, cv, lv, today, 0) == lines_effect(self@, cv, lv, today, j as int),
                lines_error(lv, 0) == lines_error(lv, j as int),
                lines_fit(nc as int, lv, today, j as int),
            decreases nl - j,
        {
            assert(lv[j as int] == lines@[j as int]@);
            let ghost prev = self@;
            match self.add_line(&cols, lines[j].as_str(), today) {
                Err(e) => {
                    assert(line_error(fields_spec(lv[j as int]), 0) is Some);
                    assert(lines_effect(prev, cv, lv, today, j as int) == self@);
                    return Err(e);
                },
                Ok(()) => {},
            }
            j = j + 1;
        }
        Ok(())
    }

    /// Reads a table as `append_lines` does, comparing its dates with the
    /// local clock's day. Where a line has a date to queue in a column that
    /// the header does not name, nothing is read and the result is `None`.
    pub fn append_file(&mut self, header: &str, lines: &Vec<String>) -> (r: Option<
        Result<(), DateParseError>,
    >)
        requires
            old(self).wf(),
        ensures
            final(self).wf(),
            r is None ==> final(self)@ == old(self)@ && exists|today: Date|
                today.wf() && !append_fits(header@, string_views(lines@), today),
            r matches Some(res) ==> exists|today: Date|
                today.wf() && append_fits(header@, string_views(lines@), today) && final(self)@
                    == append_effect(old(self)@, header@, string_views(lines@), today) && (
                res is Ok <==> lines_error(string_views(lines@), 0) is None) && (res matches Err(
                    e,
                ) ==> lines_error(string_views(lines@), 0) == Some(e.text@)),
    {
        let now = local_now();
        let today = now.date;
        let cols = fields(header);
        if Self::check_lines(cols.len(), lines, today) {
            Some(self.append_lines(header, lines, today))
        } else {
            None
        }
    }

    /// The kinds of waste with their queues, in order.
    pub fn dates(&self) -> (r: &Vec<(TrashType, VecDeque<Date>)>)
        requires
            self.wf(),
        ensures
            r@.len() == self@.len(),
            forall|i: int|
                0 <= i < r@.len() ==> (#[trigger] r@[i]).0.name@ == self@[i].0 && r@[i].1@
                    == self@[i].1 && r@[i].0.symbol@ == symbol_for(r@[i].0.name@),
    {
        &self.dates
    }
}

} // verus!

verus! {

// ---------------------------------------------------------------------------
// Laws of the collection calendar.

/// The earliest day of a nonempty sequence is at most each of its days and
/// is one of them.
pub proof fn lemma_earliest_is_minimum(up: Seq<(Seq<char>, Date)>)
    requires
        up.len() > 0,
    ensures
        forall|k: int| 0 <= k < up.len() ==> earliest(up) <= (#[trigger] up[k]).1.days,
        exists|k: int| 0 <= k < up.len() && (#[trigger] up[k]).1.days == earliest(up),
    decreases up.len(),
{
    if up.len() > 1 {
        let p = up.drop_last();
        lemma_earliest_is_minimum(p);
        assert forall|k: int| 0 <= k < up.len() implies earliest(up) <= (#[trigger] up[k]).1.days by {
            if k < up.len() - 1 {
                assert(up[k] == p[k]);
            }
        }
        if up.last().1.days < earliest(p) {
            assert(up[up.len() - 1].1.days == earliest(up));
        } else {
            let k = choose|k: int| 0 <= k < p.len() && (#[trigger] p[k]).1.days == earliest(p);
            assert(up[k] == p[k]);
        }
    } else {
        assert(up[0].1.days == earliest(up));
    }
}

/// A name is due on a day exactly where the sequence pairs it with that day.
pub proof fn lemma_names_due_on(up: Seq<(Seq<char>, Date)>, day: int)
    ensures
        forall|n: Seq<char>|
            #[trigger] names_due_on(up, day).contains(n) <==> exists|k: int|
                0 <= k < up.len() && (#[trigger] up[k]).0 == n && up[k].1.days == day,
    decreases up.len(),
{
    if up.len() > 0 {
        let p = up.drop_last();
        lemma_names_due_on(p, day);
        let r = names_due_on(p, day);
        assert forall|n: Seq<char>|
            #[trigger] names_due_on(up, day).contains(n) <==> exists|k: int|
                0 <= k < up.len() && (#[trigger] up[k]).0 == n && up[k].1.days == day by {
            if names_due_on(up, day).contains(n) {
                if up.last().1.days == day && n == up.last().0 {
                    assert(up[up.len() - 1].0 == n);
                } else {
                    if up.last().1.days == day {
                        let i = choose|i: int|
                            0 <= i < names_due_on(up, day).len() && names_due_on(up, day)[i] == n;
                        assert(names_due_on(up, day) == r.push(up.last().0));
                        assert(i < r.len());
                        assert(r[i] == n);
                    }
                    assert(r.contains(n));
                    let k = choose|k: int| 0 <= k < p.len() && (#[trigger] p[k]).0 == n && p[k].1.days == day;
                    assert(up[k] == p[k]);
                }
            }
            if exists|k: int| 0 <= k < up.len() && (#[trigger] up[k]).0 == n && up[k].1.days == day {
                let k = choose|k: int| 0 <= k < up.len() && (#[trigger] up[k]).0 == n && up[k].1.days == day;
                if k == up.len() - 1 {
                    assert(names_due_on(up, day) == r.push(n));
                    assert(names_due_on(up, day)[r.len() as int] == n);
                } else {
                    assert(p[k] == up[k]);
                    assert(r.contains(n));
                    let i = choose|i: int| 0 <= i < r.len() && r[i] == n;
                    if up.last().1.days == day {
                        assert(names_due_on(up, day)[i] == n);
                    }
                }
            }
        }
    }
}

/// The pairs of `upcoming_spec` are exactly the kinds with a nonempty queue,
/// each with the first day of its queue.
pub proof fn lemma_upcoming_members(m: Seq<Entry>)
    ensures
        forall|k: int|
            0 <= k < upcoming_spec(m).len() ==> exists|i: int|
                0 <= i < m.len() && m[i].1.len() > 0 && #[trigger] upcoming_spec(m)[k] == (
                m[i].0,
                m[i].1[0],
            ),
        forall|i: int|
            0 <= i < m.len() && (#[trigger] m[i]).1.len() > 0 ==> exists|k: int|
                0 <= k < upcoming_spec(m).len() && upcoming_spec(m)[k] == (m[i].0, m[i].1[0]),
    decreases m.len(),
{
    if m.len() > 0 {
        let p = m.drop_last();
        lemma_upcoming_members(p);
        let r = upcoming_spec(p);
        assert forall|k: int| 0 <= k < upcoming_spec(m).len() implies exists|i: int|
            0 <= i < m.len() && m[i].1.len() > 0 && #[trigger] upcoming_spec(m)[k] == (
            m[i].0,
            m[i].1[0],
        ) by {
            if k < r.len() {
                assert(upcoming_spec(m)[k] == r[k]);
                let i = choose|i: int|
                    0 <= i < p.len() && p[i].1.len() > 0 && #[trigger] r[k] == (p[i].0, p[i].1[0]);
                assert(m[i] == p[i]);
            } else {
                assert(upcoming_spec(m)[k] == (m[m.len() - 1].0, m[m.len() - 1].1[0]));
            }
        }
        assert forall|i: int| 0 <= i < m.len() && (#[trigger] m[i]).1.len() > 0 implies exists|k: int|
            0 <= k < upcoming_spec(m).len() && upcoming_spec(m)[k] == (m[i].0, m[i].1[0]) by {
            if i < m.len() - 1 {
                assert(m[i] == p[i]);
                let k = choose|k: int| 0 <= k < r.len() && r[k] == (p[i].0, p[i].1[0]);
                assert(upcoming_spec(m)[k] == r[k]);
            } else {
                assert(upcoming_spec(m)[r.len() as int] == (m[i].0, m[i].1[0]));
            }
        }
    }
}

/// Where the names of a table are unique, so are the names of its
/// upcoming pairs, and the pairs themselves.
pub proof fn lemma_upcoming_names_unique(m: Seq<Entry>)
    requires
        names_unique(m),
    ensures
        forall|a: int, b: int|
            0 <= a < b < upcoming_spec(m).len() ==> (#[trigger] upcoming_spec(m)[a]).0
                != (#[trigger] upcoming_spec(m)[b]).0,
        upcoming_spec(m).no_duplicates(),
    decreases m.len(),
{
    if m.len() > 0 {
        let p = m.drop_last();
        assert(names_unique(p)) by {
            assert forall|i: int, j: int| 0 <= i < j < p.len() implies p[i].0 != p[j].0 by {
                assert(p[i] == m[i] && p[j] == m[j]);
            }
        }
        lemma_upcoming_names_unique(p);
        lemma_upcoming_members(p);
        let r = upcoming_spec(p);
        let u = upcoming_spec(m);
        assert forall|a: int, b: int| 0 <= a < b < u.len() implies (#[trigger] u[a]).0 != (
        #[trigger] u[b]).0 by {
            assert(u[a] == r[a]);
            if b < r.len() {
                assert(u[b] == r[b]);
            } else {
                assert(u[b].0 == m[m.len() - 1].0);
                let i = choose|i: int|
                    0 <= i < p.len() && p[i].1.len() > 0 && #[trigger] r[a] == (p[i].0, p[i].1[0]);
                assert(p[i] == m[i]);
            }
        }
    }
    let u = upcoming_spec(m);
    assert forall|a: int, b: int| 0 <= a < u.len() && 0 <= b < u.len() && a != b implies u[a]
        != u[b] by {
        if a < b {
            assert(u[a].0 != u[b].0);
        } else {
            assert(u[b].0 != u[a].0);
        }
    }
}

/// Where the names of a sequence are unique, the names due on a day are
/// unique too.
pub proof fn lemma_names_due_on_unique(up: Seq<(Seq<char>, Date)>, day: int)
    requires
        forall|a: int, b: int| 0 <= a < b < up.len() ==> (#[trigger] up[a]).0 != (#[trigger] up[b]).0,
    ensures
        names_due_on(up, day).no_duplicates(),
    decreases up.len(),
{
    if up.len() > 0 {
        let p = up.drop_last();
        assert forall|a: int, b: int| 0 <= a < b < p.len() implies (#[trigger] p[a]).0 != (
        #[trigger] p[b]).0 by {
            assert(p[a] == up[a] && p[b] == up[b]);
        }
        lemma_names_due_on_unique(p, day);
        lemma_names_due_on(p, day);
        let r = names_due_on(p, day);
        if up.last().1.days == day {
            let x = up.last().0;
            if r.contains(x) {
                let k = choose|k: int| 0 <= k < p.len() && (#[trigger] p[k]).0 == x && p[k].1.days == day;
                assert(up[k] == p[k]);
                assert(up[k].0 != up[up.len() - 1].0);
            }
            let q = r.push(x);
            assert forall|a: int, b: int| 0 <= a < q.len() && 0 <= b < q.len() && a != b implies q[a]
                != q[b] by {
                if a < r.len() && b < r.len() {
                    assert(q[a] == r[a] && q[b] == r[b]);
                } else if a < r.len() {
                    assert(q[a] == r[a]);
                    assert(r.contains(r[a]));
                } else {
                    assert(q[b] == r[b]);
                    assert(r.contains(r[b]));
                }
            }
        }
    }
}

/// `next_date` gives the earliest first day of all queues, and exactly the
/// kinds whose queue starts on that day: no queue starts earlier, at least
/// one kind is named, and a kind is named if and only if its queue starts
/// on that day.
pub proof fn law_next_date_is_earliest(m: Seq<Entry>)
    requires
        upcoming_spec(m).len() > 0,
    ensures
        forall|i: int|
            0 <= i < m.len() && (#[trigger] m[i]).1.len() > 0 ==> earliest(upcoming_spec(m))
                <= m[i].1[0].days,
        names_due_on(upcoming_spec(m), earliest(upcoming_spec(m))).len() > 0,
        forall|n: Seq<char>|
            #[trigger] names_due_on(upcoming_spec(m), earliest(upcoming_spec(m))).contains(n)
                <==> exists|i: int|
                0 <= i < m.len() && (#[trigger] m[i]).0 == n && m[i].1.len() > 0 && m[i].1[0].days
                    == earliest(upcoming_spec(m)),
{
    let up = upcoming_spec(m);
    let d = earliest(up);
    lemma_upcoming_members(m);
    lemma_earliest_is_minimum(up);
    lemma_names_due_on(up, d);
    assert forall|i: int| 0 <= i < m.len() && (#[trigger] m[i]).1.len() > 0 implies d
        <= m[i].1[0].days by {
        let k = choose|k: int| 0 <= k < up.len() && up[k] == (m[i].0, m[i].1[0]);
        assert(d <= up[k].1.days);
    }
    let k0 = choose|k: int| 0 <= k < up.len() && (#[trigger] up[k]).1.days == d;
    assert(names_due_on(up, d).contains(up[k0].0));
    assert forall|n: Seq<char>| #[trigger] names_due_on(up, d).contains(n) <==> exists|i: int|
        0 <= i < m.len() && (#[trigger] m[i]).0 == n && m[i].1.len() > 0 && m[i].1[0].days == d by {
        if names_due_on(up, d).contains(n) {
            let k = choose|k: int| 0 <= k < up.len() && (#[trigger] up[k]).0 == n && up[k].1.days == d;
            let i = choose|i: int|
                0 <= i < m.len() && m[i].1.len() > 0 && #[trigger] up[k] == (m[i].0, m[i].1[0]);
            assert(m[i].0 == n);
        }
        if exists|i: int|
            0 <= i < m.len() && (#[trigger] m[i]).0 == n && m[i].1.len() > 0 && m[i].1[0].days == d {
            let i = choose|i: int|
                0 <= i < m.len() && (#[trigger] m[i]).0 == n && m[i].1.len() > 0 && m[i].1[0].days == d;
            let k = choose|k: int| 0 <= k < up.len() && up[k] == (m[i].0, m[i].1[0]);
            assert(up[k].0 == n && up[k].1.days == d);
        }
    }
}

/// `keep_due` keeps exactly the days of the queue that are still to come.
pub proof fn law_keep_due_members(q: Seq<Date>, now: LocalTime)
    ensures
        forall|d: Date| #[trigger] keep_due(q, now).contains(d) <==> q.contains(d) && still_due(d, now),
    decreases q.len(),
{
    if q.len() > 0 {
        let p = q.drop_last();
        law_keep_due_members(p, now);
        let r = keep_due(p, now);
        assert forall|d: Date| #[trigger] keep_due(q, now).contains(d) <==> q.contains(d) && still_due(d, now) by {
            if keep_due(q, now).contains(d) {
                let i = choose|i: int| 0 <= i < keep_due(q, now).len() && keep_due(q, now)[i] == d;
                if i < r.len() {
                    assert(keep_due(q, now)[i] == r[i]);
                    assert(r.contains(d));
                    let j = choose|j: int| 0 <= j < p.len() && p[j] == d;
                    assert(q[j] == d);
                } else {
                    assert(q[q.len() - 1] == d);
                }
            }
            if q.contains(d) && still_due(d, now) {
                let j = choose|j: int| 0 <= j < q.len() && q[j] == d;
                if j < q.len() - 1 {
                    assert(p[j] == d);
                    assert(r.contains(d));
                    let i = choose|i: int| 0 <= i < r.len() && r[i] == d;
                    if still_due(q.last(), now) {
                        assert(keep_due(q, now)[i] == d);
                    }
                } else {
                    assert(keep_due(q, now)[r.len() as int] == d);
                }
            }
        }
    }
}

/// Keeping the days still to come twice keeps the same days as once.
pub proof fn lemma_keep_due_twice(q: Seq<Date>, now: LocalTime)
    ensures
        keep_due(keep_due(q, now), now) == keep_due(q, now),
    decreases q.len(),
{
    if q.len() > 0 {
        let p = q.drop_last();
        lemma_keep_due_twice(p, now);
        let r = keep_due(p, now);
        if still_due(q.last(), now) {
            assert(r.push(q.last()).drop_last() =~= r);
        }
    }
}

/// Cutting off the past days is idempotent at a given moment, and keeps
/// the kinds and their order.
pub proof fn law_remove_old_idempotent(m: Seq<Entry>, now: LocalTime)
    ensures
        without_old(without_old(m, now), now) == without_old(m, now),
        entry_names(without_old(m, now)) == entry_names(m),
{
    assert forall|i: int| 0 <= i < m.len() implies #[trigger] without_old(without_old(m, now), now)[i]
        == without_old(m, now)[i] by {
        lemma_keep_due_twice(m[i].1, now);
    }
    assert(without_old(without_old(m, now), now) =~= without_old(m, now));
    assert(entry_names(without_old(m, now)) =~= entry_names(m));
}

/// `r` extends `m`: the kinds of `m` stay in place with their queues as
/// prefixes, and every day added, to an old kind or a new one, comes after
/// `today`.
pub open spec fn extends_after(m: Seq<Entry>, r: Seq<Entry>, today: Date) -> bool {
    &&& r.len() >= m.len()
    &&& forall|i: int|
        0 <= i < m.len() ==> (#[trigger] r[i]).0 == m[i].0 && r[i].1.len() >= m[i].1.len()
            && r[i].1.take(m[i].1.len() as int) == m[i].1
    &&& forall|i: int, k: int|
        0 <= i < r.len() && 0 <= k < r[i].1.len() && (i >= m.len() || k >= m[i].1.len())
            ==> (#[trigger] r[i].1[k]).days > today.days
}

proof fn lemma_extends_refl(m: Seq<Entry>, today: Date)
    ensures
        extends_after(m, m, today),
{
    assert forall|i: int| 0 <= i < m.len() implies (#[trigger] m[i]).1.take(m[i].1.len() as int)
        == m[i].1 by {
        assert(m[i].1.take(m[i].1.len() as int) =~= m[i].1);
    }
}

proof fn lemma_extends_trans(a: Seq<Entry>, b: Seq<Entry>, c: Seq<Entry>, today: Date)
    requires
        extends_after(a, b, today),
        extends_after(b, c, today),
    ensures
        extends_after(a, c, today),
{
    assert forall|i: int| 0 <= i < a.len() implies (#[trigger] c[i]).0 == a[i].0 && c[i].1.len()
        >= a[i].1.len() && c[i].1.take(a[i].1.len() as int) == a[i].1 by {
        assert(b[i].0 == a[i].0);
        assert(c[i].1.take(b[i].1.len() as int) == b[i].1);
        assert(c[i].1.take(a[i].1.len() as int) =~= b[i].1.take(a[i].1.len() as int));
    }
    assert forall|i: int, k: int|
        0 <= i < c.len() && 0 <= k < c[i].1.len() && (i >= a.len() || k >= a[i].1.len())
        implies (#[trigger] c[i].1[k]).days > today.days by {
        if i < b.len() && k < b[i].1.len() {
            assert(c[i].1.take(b[i].1.len() as int) == b[i].1);
            assert(c[i].1[k] == b[i].1[k]);
        }
    }
}

proof fn lemma_with_name_extends(m: Seq<Entry>, n: Seq<char>, today: Date)
    ensures
        extends_after(m, with_name(m, n), today),
{
    lemma_extends_refl(m, today);
    if !entry_names(m).contains(n) {
        let r = with_name(m, n);
        assert forall|i: int| 0 <= i < m.len() implies (#[trigger] r[i]).0 == m[i].0 && r[i].1.len()
            >= m[i].1.len() && r[i].1.take(m[i].1.len() as int) == m[i].1 by {
            assert(r[i] == m[i]);
            assert(m[i].1.take(m[i].1.len() as int) =~= m[i].1);
        }
    }
}

proof fn lemma_with_date_extends(m: Seq<Entry>, n: Seq<char>, d: Date, today: Date)
    requires
        d.days > today.days,
    ensures
        extends_after(m, with_date(m, n, d), today),
{
    let r = with_date(m, n, d);
    assert forall|i: int| 0 <= i < m.len() implies (#[trigger] r[i]).0 == m[i].0 && r[i].1.len()
        >= m[i].1.len() && r[i].1.take(m[i].1.len() as int) == m[i].1 by {
        assert(r[i].1.take(m[i].1.len() as int) =~= m[i].1);
    }
}

proof fn lemma_with_names_extends(m: Seq<Entry>, ns: Seq<Seq<char>>, today: Date)
    ensures
        extends_after(m, with_names(m, ns), today),
        forall|c: int| 0 <= c < ns.len() ==> entry_names(with_names(m, ns)).contains(#[trigger] ns[c]),
    decreases ns.len(),
{
    if ns.len() == 0 {
        lemma_extends_refl(m, today);
    } else {
        let p = ns.drop_last();
        lemma_with_names_extends(m, p, today);
        let w = with_names(m, p);
        lemma_with_name_extends(w, ns.last(), today);
        lemma_extends_trans(m, w, with_name(w, ns.last()), today);
        lemma_with_name_names(w, ns.last());
        assert forall|c: int| 0 <= c < ns.len() implies entry_names(with_names(m, ns)).contains(
            #[trigger] ns[c],
        ) by {
            if c < ns.len() - 1 {
                assert(ns[c] == p[c]);
            }
        }
    }
}

proof fn lemma_line_effect_extends(
    m: Seq<Entry>,
    cols: Seq<Seq<char>>,
    fs: Seq<Seq<char>>,
    today: Date,
    k: int,
)
    ensures
        extends_after(m, line_effect(m, cols, fs, today, k), today),
    decreases fs.len() - k,
{
    if k < 0 || k >= fs.len() {
        lemma_extends_refl(m, today);
    } else if fs[k].len() == 0 {
        lemma_line_effect_extends(m, cols, fs, today, k + 1);
    } else {
        match parsed_dmy(fs[k]) {
            None => {
                lemma_extends_refl(m, today);
            },
            Some(d) => {
                if d > today.days {
                    let w = with_date(m, cols[k], Date { days: d });
                    lemma_with_date_extends(m, cols[k], Date { days: d }, today);
                    lemma_line_effect_extends(w, cols, fs, today, k + 1);
                    lemma_extends_trans(m, w, line_effect(w, cols, fs, today, k + 1), today);
                } else {
                    lemma_line_effect_extends(m, cols, fs, today, k + 1);
                }
            },
        }
    }
}

proof fn lemma_lines_effect_extends(
    m: Seq<Entry>,
    cols: Seq<Seq<char>>,
    lines: Seq<Seq<char>>,
    today: Date,
    j: int,
)
    ensures
        extends_after(m, lines_effect(m, cols, lines, today, j), today),
    decreases lines.len() - j,
{
    if j < 0 || j >= lines.len() {
        lemma_extends_refl(m, today);
    } else {
        let fs = fields_spec(lines[j]);
        let m1 = line_effect(m, cols, fs, today, 0);
        lemma_line_effect_extends(m, cols, fs, today, 0);
        if line_error(fs, 0) is None {
            lemma_lines_effect_extends(m1, cols, lines, today, j + 1);
            lemma_extends_trans(m, m1, lines_effect(m1, cols, lines, today, j + 1), today);
        }
    }
}

/// Reading a table only adds: every kind keeps its place and its queue
/// as a prefix of the new one, every kind that the header names is there
/// afterwards, and every day added comes after `today`.
pub proof fn law_append_only_adds_later_days(
    m: Seq<Entry>,
    header: Seq<char>,
    lines: Seq<Seq<char>>,
    today: Date,
)
    ensures
        extends_after(m, append_effect(m, header, lines, today), today),
        forall|c: int|
            0 <= c < fields_spec(header).len() ==> entry_names(
                append_effect(m, header, lines, today),
            ).contains(#[trigger] fields_spec(header)[c]),
{
    let cols = fields_spec(header);
    let w = with_names(m, cols);
    let r = append_effect(m, header, lines, today);
    lemma_with_names_extends(m, cols, today);
    lemma_lines_effect_extends(w, cols, lines, today, 0);
    lemma_extends_trans(m, w, r, today);
    assert forall|c: int| 0 <= c < cols.len() implies entry_names(r).contains(#[trigger] cols[c]) by {
        assert(entry_names(w).contains(cols[c]));
        let i = choose|i: int| 0 <= i < entry_names(w).len() && entry_names(w)[i] == cols[c];
        assert(r[i].0 == w[i].0);
        assert(entry_names(r)[i] == cols[c]);
    }
}

/// A field is bad where it is neither empty nor a date.
pub open spec fn is_bad_field(f: Seq<char>) -> bool {
    f.len() != 0 && parsed_dmy(f) is None
}

/// A field holds a date after `today` that has no column among the first
/// `ncols`, at position `i`.
pub open spec fn is_stray_date(fs: Seq<Seq<char>>, i: int, ncols: int, today: Date) -> bool {
    i >= ncols && fs[i].len() != 0 && (parsed_dmy(fs[i]) matches Some(d) && d > today.days)
}

/// A line stops with an error exactly where, from position `k` on, some
/// field is neither empty nor a date.
pub proof fn law_line_error_iff(fs: Seq<Seq<char>>, k: int)
    requires
        0 <= k,
    ensures
        line_error(fs, k) is None <==> forall|i: int| k <= i < fs.len() ==> !is_bad_field(#[trigger] fs[i]),
    decreases fs.len() - k,
{
    if k < fs.len() {
        law_line_error_iff(fs, k + 1);
        if line_error(fs, k) is None {
            assert forall|i: int| k <= i < fs.len() implies !is_bad_field(#[trigger] fs[i]) by {
                if i > k {
                }
            }
        }
    }
}

/// A line fits `ncols` columns exactly where every date in it, from position
/// `k` on, that comes after `today` and has no column, follows a field that
/// is neither empty nor a date (reading stops there before it). Empty
/// fields, and so blank lines, never keep a line from fitting.
pub proof fn law_line_fits_iff(ncols: int, fs: Seq<Seq<char>>, today: Date, k: int)
    requires
        0 <= k,
    ensures
        line_fits(ncols, fs, today, k) <==> forall|i: int|
            k <= i < fs.len() && is_stray_date(fs, i, ncols, today) ==> exists|b: int|
                k <= b < i && is_bad_field(#[trigger] fs[b]),
    decreases fs.len() - k,
{
    if k < fs.len() {
        law_line_fits_iff(ncols, fs, today, k + 1);
        let rhs_next = forall|i: int|
            k + 1 <= i < fs.len() && is_stray_date(fs, i, ncols, today) ==> exists|b: int|
                k + 1 <= b < i && is_bad_field(#[trigger] fs[b]);
        let rhs = forall|i: int|
            k <= i < fs.len() && is_stray_date(fs, i, ncols, today) ==> exists|b: int|
                k <= b < i && is_bad_field(#[trigger] fs[b]);
        if is_bad_field(fs[k]) {
            assert forall|i: int| k <= i < fs.len() && is_stray_date(fs, i, ncols, today) implies exists|b: int|
                k <= b < i && is_bad_field(#[trigger] fs[b]) by {
                assert(i != k);
                assert(is_bad_field(fs[k]));
            }
        } else {
            if rhs {
                assert forall|i: int| k + 1 <= i < fs.len() && is_stray_date(fs, i, ncols, today) implies exists|b: int|
                    k + 1 <= b < i && is_bad_field(#[trigger] fs[b]) by {
                    let b = choose|b: int| k <= b < i && is_bad_field(#[trigger] fs[b]);
                    assert(b != k);
                }
                if is_stray_date(fs, k, ncols, today) {
                    assert(!(exists|b: int| k <= b < k && is_bad_field(#[trigger] fs[b])));
                }
            }
            if line_fits(ncols, fs, today, k) {
                assert(rhs_next);
                assert forall|i: int| k <= i < fs.len() && is_stray_date(fs, i, ncols, today) implies exists|b: int|
                    k <= b < i && is_bad_field(#[trigger] fs[b]) by {
                    if i == k {
                        assert(false);
                    } else {
                        let b = choose|b: int| k + 1 <= b < i && is_bad_field(#[trigger] fs[b]);
                    }
                }
            }
        }
    }
}

/// No line before line `i`, from line `j` on, stops with an error.
pub open spec fn no_error_before(lines: Seq<Seq<char>>, j: int, i: int) -> bool {
    forall|b: int| j <= b < i ==> (#[trigger] line_error(fields_spec(lines[b]), 0)) is None
}

/// The lines of a table fit `ncols` columns exactly where every line that
/// is read, that is every line from line `j` on up to and including the
/// first one that stops with an error, fits them; a blank line always does.
pub proof fn law_lines_fit_iff(ncols: int, lines: Seq<Seq<char>>, today: Date, j: int)
    requires
        0 <= j,
    ensures
        lines_fit(ncols, lines, today, j) <==> forall|i: int|
            j <= i < lines.len() && #[trigger] no_error_before(lines, j, i) ==> line_fits(
                ncols,
                fields_spec(lines[i]),
                today,
                0,
            ),
    decreases lines.len() - j,
{
    if j < lines.len() {
        law_lines_fit_iff(ncols, lines, today, j + 1);
        let fs = fields_spec(lines[j]);
        let rhs = forall|i: int|
            j <= i < lines.len() && #[trigger] no_error_before(lines, j, i) ==> line_fits(
                ncols,
                fields_spec(lines[i]),
                today,
                0,
            );
        let rhs_next = forall|i: int|
            j + 1 <= i < lines.len() && #[trigger] no_error_before(lines, j + 1, i) ==> line_fits(
                ncols,
                fields_spec(lines[i]),
                today,
                0,
            );
        assert(no_error_before(lines, j, j));
        if line_error(fs, 0) is Some {
            if line_fits(ncols, fs, today, 0) {
                assert forall|i: int|
                    j <= i < lines.len() && #[trigger] no_error_before(lines, j, i) implies line_fits(
                    ncols,
                    fields_spec(lines[i]),
                    today,
                    0,
                ) by {
                    if i > j {
                        assert(line_error(fields_spec(lines[j]), 0) is None);
                    }
                }
            }
            assert(lines_fit(ncols, lines, today, j) == line_fits(ncols, fs, today, 0));
        } else {
            assert forall|i: int| j + 1 <= i <= lines.len() implies #[trigger] no_error_before(lines, j, i)
                == no_error_before(lines, j + 1, i) by {
                if no_error_before(lines, j + 1, i) {
                    assert forall|b: int| j <= b < i implies (#[trigger] line_error(fields_spec(lines[b]), 0)) is None by {
                        if b > j {
                            assert(line_error(fields_spec(lines[b]), 0) is None);
                        }
                    }
                }
            }
            if rhs {
                assert forall|i: int|
                    j + 1 <= i < lines.len() && #[trigger] no_error_before(lines, j + 1, i) implies line_fits(
                    ncols,
                    fields_spec(lines[i]),
                    today,
                    0,
                ) by {
                    assert(no_error_before(lines, j, i));
                }
            }
            if lines_fit(ncols, lines, today, j) {
                assert(rhs_next);
                assert forall|i: int|
                    j <= i < lines.len() && #[trigger] no_error_before(lines, j, i) implies line_fits(
                    ncols,
                    fields_spec(lines[i]),
                    today,
                    0,
                ) by {
                    if i > j {
                        assert(no_error_before(lines, j + 1, i));
                    }
                }
            }
        }
    }
}

/// A line whose fields are all empty (a blank line among them) puts no
/// date anywhere: it fits any number of columns, stops with no error and
/// leaves the table as it is.
pub proof fn law_blank_line(
    m: Seq<Entry>,
    cols: Seq<Seq<char>>,
    ncols: int,
    fs: Seq<Seq<char>>,
    today: Date,
)
    requires
        forall|i: int| 0 <= i < fs.len() ==> (#[trigger] fs[i]).len() == 0,
    ensures
        line_fits(ncols, fs, today, 0),
        line_error(fs, 0) is None,
        line_effect(m, cols, fs, today, 0) == m,
        fields_spec(Seq::<char>::empty()) == seq![Seq::<char>::empty()],
{
    law_line_fits_iff(ncols, fs, today, 0);
    law_line_error_iff(fs, 0);
    lemma_blank_effect(m, cols, fs, today, 0);
    assert(split_spec(Seq::<char>::empty(), ';') == seq![Seq::<char>::empty()]);
    assert(trim_spec(Seq::<char>::empty()) == Seq::<char>::empty());
    assert(fields_spec(Seq::<char>::empty()) =~= seq![Seq::<char>::empty()]);
}

proof fn lemma_blank_effect(m: Seq<Entry>, cols: Seq<Seq<char>>, fs: Seq<Seq<char>>, today: Date, k: int)
    requires
        0 <= k,
        forall|i: int| 0 <= i < fs.len() ==> (#[trigger] fs[i]).len() == 0,
    ensures
        line_effect(m, cols, fs, today, k) == m,
    decreases fs.len() - k,
{
    if k < fs.len() {
        assert(fs[k].len() == 0);
        lemma_blank_effect(m, cols, fs, today, k + 1);
    }
}

} // verus!
