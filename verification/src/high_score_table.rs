use vstd::prelude::*;
use crate::decimal::{law_padded_decimal_reads_back, padded_decimal, push_padded_decimal};
use vstd::arithmetic::div_mod::{lemma_fundamental_div_mod, lemma_fundamental_div_mod_converse};

verus! {

/// Whether `year` is a leap year of the Gregorian calendar.
pub open spec fn is_leap_year(year: int) -> bool {
    year % 400 == 0 || (year % 4 == 0 && year % 100 != 0)
}

/// The number of days in `year`.
pub open spec fn year_length(year: int) -> int {
    if is_leap_year(year) { 366 } else { 365 }
}

/// The number of days in month `index` (January is 0) of a year that is
/// a leap year when `leap` holds.
pub open spec fn month_length(index: int, leap: bool) -> int {
    if index == 1 {
        if leap { 29 } else { 28 }
    } else if index == 3 || index == 5 || index == 8 || index == 10 {
        30
    } else {
        31
    }
}

/// Counts whole years off `days` (days since the first of January of `year`)
/// while at least 365 days are left: the days left and the year reached.
pub open spec fn count_off_years(days: int, year: int) -> (int, int)
    decreases days + 1,
{
    if days >= 365 {
        count_off_years(days - year_length(year), year + 1)
    } else {
        (days, year)
    }
}

/// Counts whole months, from month `index` on, off `days` while a whole
/// month fits: the days left and the index of the month reached.
pub open spec fn count_off_months(days: int, index: int, leap: bool) -> (int, int)
    decreases 12 - index,
{
    if index >= 12 || days < month_length(index, leap) {
        (days, index)
    } else {
        count_off_months(days - month_length(index, leap), index + 1, leap)
    }
}

/// Day of the month, month, year, hour and minute that `format_time`
/// shows for `now` seconds since the epoch.  The day count is held in an
/// `i32`, so past its range it wraps.
pub open spec fn calendar(now: u64) -> (int, int, int, int, int) {
    let days = ((now / 86400) as i32) as int;
    let rest = (now % 86400) as int;
    let (left, year) = count_off_years(days, 1970);
    let leap = is_leap_year(year);
    let (extra, month) = count_off_months(left + 1, 0, leap);
    let (date, month, year) = if extra > 0 {
        (extra, month + 1, year)
    } else if month == 2 && leap {
        (29, 2, year)
    } else if month == 0 {
        (31, 12, year - 1)
    } else {
        (month_length(month - 1, false), month, year)
    };
    (date, month, year, rest / 3600, (rest % 3600) / 60)
}

/// The text `DD/MM/YYYY HH:MM` for `now` seconds since the epoch.
pub open spec fn time_text(now: u64) -> Seq<char> {
    let (date, month, year, hours, minutes) = calendar(now);
    padded_decimal(date as nat, 2) + seq!['/'] + padded_decimal(month as nat, 2) + seq!['/']
        + padded_decimal(year as nat, 4) + seq![' '] + padded_decimal(hours as nat, 2) + seq![':']
        + padded_decimal(minutes as nat, 2)
}

fn days_in_month(index: usize, leap: bool) -> (days: i32)
    requires
        index < 12,
    ensures
        days == month_length(index as int, leap),
{
    if index == 1 {
        if leap { 29 } else { 28 }
    } else if index == 3 || index == 5 || index == 8 || index == 10 {
        30
    } else {
        31
    }
}

fn leap_year(year: i32) -> (leap: bool)
    requires
        year >= 0,
    ensures
        leap == is_leap_year(year as int),
{
    year % 400 == 0 || (year % 4 == 0 && year % 100 != 0)
}

/// Day of the month, month, year, hour and minute of `now` seconds since
/// the epoch.
fn calendar_fields(now: u64) -> (fields: (i32, i32, i32, i32, i32))
    ensures
        fields.0 as int == calendar(now).0,
        fields.1 as int == calendar(now).1,
        fields.2 as int == calendar(now).2,
        fields.3 as int == calendar(now).3,
        fields.4 as int == calendar(now).4,
        fields.0 >= 1,
        fields.1 >= 1,
        fields.2 >= 1969,
        0 <= fields.3,
        0 <= fields.4,
{
    let mut days_till_now: i32 = (now / (24 * 60 * 60)) as i32;
    let extra_time: i32 = (now % (24 * 60 * 60)) as i32;
    let mut curr_year: i32 = 1970;
    let ghost days0: int = days_till_now as int;

    while days_till_now >= 365
        invariant
            count_off_years(days_till_now as int, curr_year as int) == count_off_years(days0, 1970),
            curr_year >= 1970,
            365 * (curr_year - 1970) <= days0 - days_till_now,
            days0 <= i32::MAX,
            days_till_now >= -1 || (days_till_now == days0 && curr_year == 1970),
        decreases days_till_now + 1,
    {
        if leap_year(curr_year) {
            days_till_now -= 366;
        } else {
            days_till_now -= 365;
        }
        curr_year += 1;
    }
    let ghost left: int = days_till_now as int;
    let ghost year0: int = curr_year as int;

    let leap = leap_year(curr_year);
    let mut extra_days: i32 = days_till_now + 1;
    let mut month: usize = 0;
    while month < 12 && extra_days >= days_in_month(month, leap)
        invariant
            month <= 12,
            count_off_months(extra_days as int, month as int, leap) == count_off_months(left + 1, 0, leap),
        decreases 12 - month,
    {
        extra_days -= days_in_month(month, leap);
        month += 1;
    }

    let date: i32 = if extra_days > 0 {
        month += 1;
        extra_days
    } else {
        if month == 2 && leap {
            29
        } else {
            if month == 0 {
                month = 12;
                curr_year = curr_year - 1;
            }
            days_in_month(month - 1, false)
        }
    };
    let hours: i32 = extra_time / 3600;
    let minutes: i32 = (extra_time % 3600) / 60;

    (date, month as i32, curr_year, hours, minutes)
}

/// Shows a time given in seconds since the epoch as `DD/MM/YYYY HH:MM`.
pub fn format_time(now: u64) -> (text: String)
    ensures
        text@ == time_text(now),
{
    let (date, month, curr_year, hours, minutes) = calendar_fields(now);
    let mut text = String::new();
    push_padded_decimal(&mut text, date as u32, 2);
    text.append("/");
    push_padded_decimal(&mut text, month as u32, 2);
    text.append("/");
    push_padded_decimal(&mut text, curr_year as u32, 4);
    text.append(" ");
    push_padded_decimal(&mut text, hours as u32, 2);
    text.append(":");
    push_padded_decimal(&mut text, minutes as u32, 2);
    proof {
        reveal_strlit("/");
        reveal_strlit(" ");
        reveal_strlit(":");
    }
    text
}

} // verus!

verus! {

/// Number of entries the table keeps.
pub const TABLE_SIZE: usize = 10;

/// One line of the high score table.
#[derive(Debug, Eq, Ord, PartialEq, PartialOrd, Clone)]
pub struct HighScore {
    pub id: i32,
    pub score: i32,
    pub level: i32,
    pub by: String,
    pub when: u64,
    pub formatted: String,
}

/// What a high score line holds, with its texts as sequences of characters.
pub struct ScoreLine {
    pub id: i32,
    pub score: i32,
    pub level: i32,
    pub by: Seq<char>,
    pub when: u64,
    pub formatted: Seq<char>,
}

impl View for HighScore {
    type V = ScoreLine;

    open spec fn view(&self) -> ScoreLine {
        ScoreLine {
            id: self.id,
            score: self.score,
            level: self.level,
            by: self.by@,
            when: self.when,
            formatted: self.formatted@,
        }
    }
}

/// The view of each line of `lines`.
pub open spec fn lines_view(lines: Seq<HighScore>) -> Seq<ScoreLine> {
    lines.map_values(|h: HighScore| h@)
}

/// The index of the first line of `lines` that scores less than `score`
/// (the length of `lines` where there is none).
pub open spec fn first_lower(lines: Seq<ScoreLine>, score: i32) -> nat
    decreases lines.len(),
{
    if lines.len() == 0 {
        0
    } else if lines[0].score < score {
        0
    } else {
        1 + first_lower(lines.drop_first(), score)
    }
}

/// `lines` with `line` put in front of the first line that scores less.
pub open spec fn insert_by_score(lines: Seq<ScoreLine>, line: ScoreLine) -> Seq<ScoreLine> {
    lines.insert(first_lower(lines, line.score) as int, line)
}

/// `lines` ordered by score, highest first; lines of equal score keep
/// their order (a stable insertion sort).
pub open spec fn sort_by_score(lines: Seq<ScoreLine>) -> Seq<ScoreLine>
    decreases lines.len(),
{
    if lines.len() == 0 {
        lines
    } else {
        insert_by_score(sort_by_score(lines.drop_last()), lines.last())
    }
}

/// The first `TABLE_SIZE` lines of `lines`.
pub open spec fn keep_top(lines: Seq<ScoreLine>) -> Seq<ScoreLine> {
    if lines.len() <= TABLE_SIZE {
        lines
    } else {
        lines.take(TABLE_SIZE as int)
    }
}

/// Whether `lines` is ordered by score, highest first.
pub open spec fn ordered_by_score(lines: Seq<ScoreLine>) -> bool {
    forall|i: int, j: int| 0 <= i <= j < lines.len() ==> lines[i].score >= lines[j].score
}

/// The line that `add_score` enters for the game with the given id.
pub open spec fn new_line(id: i32, score: i32, level: i32, now: u64) -> ScoreLine {
    ScoreLine {
        id,
        score,
        level,
        by: Seq::empty(),
        when: now,
        formatted: time_text(now),
    }
}

/// Whether `lines` hold a line of game `id` with `score`.
pub open spec fn holds_line(lines: Seq<ScoreLine>, id: i32, score: i32) -> bool {
    exists|i: int| 0 <= i < lines.len() && #[trigger] lines[i].score == score && lines[i].id == id
}

/// `lines` with every line of game `id` named `name`.
pub open spec fn renamed(lines: Seq<ScoreLine>, id: i32, name: Seq<char>) -> Seq<ScoreLine> {
    Seq::new(
        lines.len(),
        |i: int|
            if lines[i].id == id {
                ScoreLine { by: name, ..lines[i] }
            } else {
                lines[i]
            },
    )
}

proof fn lemma_first_lower_is(lines: Seq<ScoreLine>, score: i32, j: int)
    requires
        0 <= j <= lines.len(),
        forall|k: int| 0 <= k < j ==> lines[k].score >= score,
        j == lines.len() || lines[j].score < score,
    ensures
        first_lower(lines, score) == j,
    decreases j,
{
    if j > 0 {
        lemma_first_lower_is(lines.drop_first(), score, j - 1);
    }
}

/// Orders `lines` by score, highest first, keeping lines of equal score in
/// their order.
fn sort_lines_by_score(lines: &mut Vec<HighScore>)
    ensures
        lines_view(final(lines)@) == sort_by_score(lines_view(old(lines)@)),
{
    let n = lines.len();
    let ghost orig = lines_view(lines@);
    if n == 0 {
        return;
    }
    let mut i: usize = 1;
    assert(lines_view(lines@).take(1) =~= sort_by_score(orig.take(1))) by {
        assert(orig.take(1).drop_last() =~= Seq::<ScoreLine>::empty());
        reveal_with_fuel(sort_by_score, 2);
    }
    while i < n
        invariant
            1 <= i <= n,
            lines@.len() == n,
            orig.len() == n,
            lines_view(lines@).take(i as int) == sort_by_score(orig.take(i as int)),
            lines_view(lines@).skip(i as int) == orig.skip(i as int),
        decreases n - i,
    {
        let ghost before = lines_view(lines@);
        let line = lines.remove(i);
        let ghost prefix = before.take(i as int);
        assert(lines_view(lines@).take(i as int) =~= prefix);
        let mut j: usize = 0;
        while j < i && lines[j].score >= line.score
            invariant
                j <= i,
                i < n,
                lines@.len() == n - 1,
                lines_view(lines@).take(i as int) == prefix,
                forall|k: int| 0 <= k < j ==> prefix[k].score >= line.score,
            decreases i - j,
        {
            assert(prefix[j as int] == lines@[j as int]@);
            j += 1;
        }
        proof {
            if j < i {
                assert(prefix[j as int] == lines@[j as int]@);
            }
            lemma_first_lower_is(prefix, line.score, j as int);
            assert(orig.take(i + 1).drop_last() =~= orig.take(i as int));
            assert(orig.take(i + 1).last() == orig[i as int]);
            assert(orig[i as int] == before.skip(i as int)[0]);
            assert(before[i as int] == line@);
        }
        lines.insert(j, line);
        proof {
            assert(lines_view(lines@).take(i + 1) =~= prefix.insert(j as int, line@));
            assert(lines_view(lines@).skip(i + 1) =~= orig.skip(i + 1)) by {
                assert(forall|k: int| 0 <= k < n - i - 1 ==> #[trigger] orig.skip(i + 1)[k] == before.skip(i as int)[k + 1]);
            }
        }
        i += 1;
    }
    assert(lines_view(lines@) =~= lines_view(lines@).take(n as int));
    assert(orig =~= orig.take(n as int));
}

} // verus!

verus! {

/// Reads the system clock: `SystemTime::elapsed` on `UNIX_EPOCH`, in whole
/// seconds.  Nothing is claimed of the value, which depends on the clock;
/// `None` stands for a clock set before the epoch, where `elapsed` returns
/// an error.
#[verifier::external_body]
fn seconds_since_epoch() -> Option<u64> {
    match std::time::UNIX_EPOCH.elapsed() {
        Ok(elapsed) => Some(elapsed.as_secs()),
        Err(_) => None,
    }
}

/// The clock, in whole seconds since the epoch; a clock set before the
/// epoch reads as the epoch itself.
pub(crate) fn clock_seconds() -> u64 {
    match seconds_since_epoch() {
        Some(secs) => secs,
        None => 0,
    }
}

/// Whether `after` is the table that entering game `id` at `now` makes of
/// `before` (the witness for the clock value read by `add_score`).
pub open spec fn final_entries_for(
    after: Seq<ScoreLine>,
    before: Seq<ScoreLine>,
    id: i32,
    score: i32,
    level: i32,
    now: u64,
) -> bool {
    after == keep_top(sort_by_score(before.push(new_line(id, score, level, now))))
}

/// The best scores, highest first, with the game that entered each.
pub struct HighScoreTable {
    last_id: i32,
    pub table: Vec<HighScore>,
    last_entry: i32,
}

impl HighScoreTable {
    /// The id of the game last entered (0 before any).
    pub closed spec fn newest_id(&self) -> i32 {
        self.last_id
    }

    /// The id of the last game if it made the table, else -1.
    pub closed spec fn marked_entry(&self) -> i32 {
        self.last_entry
    }

    /// The lines of the table, as values.
    pub closed spec fn entries(&self) -> Seq<ScoreLine> {
        lines_view(self.table@)
    }

    /// Whether the last game's line is in the table.
    /// What every table built by `new`, `add_score` and `set_name` keeps:
    /// ordered by score, at most `TABLE_SIZE` lines, each game at most once
    /// and none newer than the newest, and the mark on the newest game only
    /// when its line is in the table.
    pub open spec fn well_formed(&self) -> bool {
        &&& ordered_by_score(self.entries())
        &&& self.entries().len() <= TABLE_SIZE
        &&& ids_distinct(self.entries())
        &&& ids_at_most(self.entries(), self.newest_id() as int)
        &&& self.newest_id() >= 0
        &&& (self.marked_entry() == -1 || self.marked_entry() == self.newest_id())
        &&& (self.marked_entry() == -1 ==> no_line_of(self.entries(), self.newest_id()))
    }

    pub open spec fn holds_newest(&self, score: i32) -> bool {
        holds_line(self.entries(), self.newest_id(), score)
    }

    pub fn new() -> (table: HighScoreTable)
        ensures
            table.newest_id() == 0,
            table.marked_entry() == -1,
            table.entries() == Seq::<ScoreLine>::empty(),
            table.well_formed(),
    {
        let table = HighScoreTable { last_id: 0, table: vec![], last_entry: -1 };
        assert(table.entries() =~= Seq::<ScoreLine>::empty());
        table
    }

    /// Number of lines in the table.
    pub fn len(&self) -> (n: usize)
        ensures
            n == self.entries().len(),
    {
        self.table.len()
    }

    /// The lines of the table: the field `table`, tied to `entries`.
    pub fn lines(&self) -> (lines: &Vec<HighScore>)
        ensures
            lines_view(lines@) == self.entries(),
    {
        &self.table
    }

    /// Line `i` of the table.
    pub fn line(&self, i: usize) -> (line: &HighScore)
        requires
            i < self.entries().len(),
        ensures
            line@ == self.entries()[i as int],
    {
        &self.table[i]
    }

    /// Whether `id` is the id of the last game entered.
    pub fn is_current_score(&self, id: i32) -> (current: bool)
        ensures
            current == (self.newest_id() == id),
    {
        if self.last_id == id {
            true
        } else {
            false
        }
    }

    /// Enters a game that ended `now` seconds after the epoch with `score`
    /// at `level`; the table keeps its best `TABLE_SIZE` lines.  Returns
    /// whether the game made the table.
    pub fn add_score_at(&mut self, score: i32, level: i32, now: u64) -> (entered: bool)
        requires
            old(self).newest_id() < i32::MAX,
        ensures
            final(self).newest_id() == old(self).newest_id() + 1,
            final(self).entries() == keep_top(
                sort_by_score(old(self).entries().push(new_line(final(self).newest_id(), score, level, now))),
            ),
            entered == final(self).holds_newest(score),
            final(self).marked_entry() == if entered { final(self).newest_id() } else { -1i32 },
            old(self).well_formed() ==> final(self).well_formed(),
    {
        proof {
            if old(self).well_formed() {
                let id = (old(self).newest_id() + 1) as i32;
                let line = new_line(id, score, level, now);
                law_table_ordered_and_bounded(old(self).entries().push(line));
                law_ids_stay_distinct(old(self).entries(), id, score, level, now);
                lemma_missed_has_no_line(old(self).entries(), id, score, level, now);
            }
        }
        self.last_id = self.last_id + 1;
        let high_score = HighScore {
            id: self.last_id,
            score,
            level,
            by: String::new(),
            when: now,
            formatted: format_time(now),
        };
        self.table.push(high_score);
        proof {
            assert(lines_view(self.table@) =~= lines_view(old(self).table@).push(
                new_line(self.last_id, score, level, now),
            ));
        }
        sort_lines_by_score(&mut self.table);
        let ghost sorted = lines_view(self.table@);
        self.table.truncate(TABLE_SIZE);
        assert(lines_view(self.table@) =~= keep_top(sorted));
        let mut i: usize = 0;
        while i < self.table.len()
            invariant
                i <= self.table@.len(),
                self.last_id == old(self).last_id + 1,
                self.entries() == keep_top(
                    sort_by_score(old(self).entries().push(new_line(self.last_id, score, level, now))),
                ),
                old(self).well_formed() ==> {
                    &&& ordered_by_score(self.entries())
                    &&& self.entries().len() <= TABLE_SIZE
                    &&& ids_distinct(self.entries())
                    &&& ids_at_most(self.entries(), self.last_id as int)
                    &&& self.last_id >= 0
                },
                forall|k: int|
                    0 <= k < i ==> !(#[trigger] self.entries()[k].score == score
                        && self.entries()[k].id == self.newest_id()),
            decreases self.table@.len() - i,
        {
            let t = &self.table[i];
            assert(self.entries()[i as int] == t@);
            if t.score == score && t.id == self.last_id {
                assert(self.entries()[i as int].score == score);
                assert(holds_line(self.entries(), self.last_id, score));
                self.last_entry = self.last_id;
                return true;
            }
            i += 1;
        }
        self.last_entry = -1;
        false
    }

    /// Enters a game that ended now, by the system clock, with `score` at
    /// `level`; see `add_score_at`.  A clock set before the epoch stamps the
    /// line with the epoch itself.
    pub fn add_score(&mut self, score: i32, level: i32) -> (entered: bool)
        requires
            old(self).newest_id() < i32::MAX,
        ensures
            final(self).newest_id() == old(self).newest_id() + 1,
            exists|now: u64|
                final(self).entries() == keep_top(
                    sort_by_score(
                        old(self).entries().push(#[trigger] new_line(final(self).newest_id(), score, level, now)),
                    ),
                ),
            entered == final(self).holds_newest(score),
            final(self).marked_entry() == if entered { final(self).newest_id() } else { -1i32 },
            old(self).well_formed() ==> final(self).well_formed(),
    {
        let now = clock_seconds();
        let entered = self.add_score_at(score, level, now);
        assert(final_entries_for(self.entries(), old(self).entries(), self.newest_id(), score, level, now));
        entered
    }

    /// Names the last game's line `name`.
    pub fn set_name(&mut self, name: &String)
        ensures
            final(self).newest_id() == old(self).newest_id(),
            final(self).marked_entry() == old(self).marked_entry(),
            final(self).entries() == renamed(old(self).entries(), old(self).newest_id(), name@),
            final(self).entries().len() == old(self).entries().len(),
            forall|i: int|
                0 <= i < old(self).entries().len() && old(self).entries()[i].id == old(self).newest_id()
                    ==> (#[trigger] final(self).entries()[i]).by == name@,
            forall|i: int|
                0 <= i < old(self).entries().len() ==> {
                    &&& (#[trigger] final(self).entries()[i]).id == old(self).entries()[i].id
                    &&& final(self).entries()[i].score == old(self).entries()[i].score
                    &&& final(self).entries()[i].level == old(self).entries()[i].level
                    &&& final(self).entries()[i].when == old(self).entries()[i].when
                    &&& final(self).entries()[i].formatted == old(self).entries()[i].formatted
                },
            forall|i: int|
                0 <= i < old(self).entries().len() && old(self).entries()[i].id != old(self).newest_id()
                    ==> #[trigger] final(self).entries()[i] == old(self).entries()[i],
            old(self).well_formed() ==> final(self).well_formed(),
    {
        let mut i: usize = 0;
        while i < self.table.len()
            invariant
                i <= self.table@.len(),
                self.table@.len() == old(self).table@.len(),
                self.last_id == old(self).last_id,
                self.last_entry == old(self).last_entry,
                forall|k: int|
                    i <= k < self.table@.len() ==> #[trigger] self.table@[k] == old(self).table@[k],
                forall|k: int|
                    0 <= k < i ==> #[trigger] self.entries()[k] == if old(self).entries()[k].id
                        == old(self).newest_id() {
                        ScoreLine { by: name@, ..old(self).entries()[k] }
                    } else {
                        old(self).entries()[k]
                    },
            decreases self.table@.len() - i,
        {
            let ghost before = self.table@;
            let ghost before_entries = self.entries();
            assert(before[i as int] == old(self).table@[i as int]);
            assert(old(self).entries()[i as int] == before[i as int]@);
            if self.table[i].id == self.last_id {
                self.table[i].by = name.clone();
                assert(self.table@ == before.update(i as int, HighScore { by: self.table@[i as int].by, ..before[i as int] }));
            }
            assert forall|k: int| 0 <= k < self.table@.len() && k != i implies #[trigger] self.entries()[k] == before_entries[k] by {
                assert(self.table@[k] == before[k]);
            }
            assert(self.entries()[i as int] == self.table@[i as int]@);
            assert(lines_view(before)[i as int] == before[i as int]@);
            i += 1;
        }
        assert(self.entries() =~= renamed(old(self).entries(), old(self).newest_id(), name@));
        proof {
            law_naming_keeps_order(old(self).entries(), old(self).newest_id(), name@);
        }
    }
}

} // verus!

verus! {

proof fn lemma_first_lower_bounds(lines: Seq<ScoreLine>, score: i32)
    ensures
        first_lower(lines, score) <= lines.len(),
        forall|k: int| 0 <= k < first_lower(lines, score) ==> lines[k].score >= score,
        first_lower(lines, score) < lines.len() ==> lines[first_lower(lines, score) as int].score
            < score,
    decreases lines.len(),
{
    if lines.len() > 0 && lines[0].score >= score {
        let rest = lines.drop_first();
        lemma_first_lower_bounds(rest, score);
        assert forall|k: int| 0 <= k < first_lower(lines, score) implies lines[k].score >= score by {
            if k > 0 {
                assert(lines[k] == rest[k - 1]);
            }
        }
    }
}

proof fn lemma_insert_keeps_order(lines: Seq<ScoreLine>, line: ScoreLine)
    requires
        ordered_by_score(lines),
    ensures
        ordered_by_score(insert_by_score(lines, line)),
{
    lemma_first_lower_bounds(lines, line.score);
    let p = first_lower(lines, line.score) as int;
    let r = insert_by_score(lines, line);
    assert forall|i: int, j: int| 0 <= i <= j < r.len() implies r[i].score >= r[j].score by {
        if j < p {
        } else if j == p {
            if i < p {
            }
        } else {
            assert(r[j] == lines[j - 1]);
            if i < p {
                assert(r[i] == lines[i]);
            } else if i == p {
                assert(lines[p].score >= lines[j - 1].score);
            } else {
                assert(r[i] == lines[i - 1]);
            }
        }
    }
}

/// Sorting orders the lines by score, highest first, and keeps exactly
/// the lines it was given.
pub proof fn law_sort_orders_and_permutes(lines: Seq<ScoreLine>)
    ensures
        ordered_by_score(sort_by_score(lines)),
        sort_by_score(lines).len() == lines.len(),
        sort_by_score(lines).to_multiset() == lines.to_multiset(),
    decreases lines.len(),
{
    broadcast use vstd::seq_lib::to_multiset_build, vstd::seq_lib::to_multiset_insert;

    if lines.len() > 0 {
        let rest = lines.drop_last();
        law_sort_orders_and_permutes(rest);
        lemma_insert_keeps_order(sort_by_score(rest), lines.last());
        lemma_first_lower_bounds(sort_by_score(rest), lines.last().score);
        assert(rest.push(lines.last()) =~= lines);
    }
}

/// The table is always ordered by score, highest first, and never holds
/// more than `TABLE_SIZE` lines: all of them while there is room.
pub proof fn law_table_ordered_and_bounded(lines: Seq<ScoreLine>)
    ensures
        ordered_by_score(keep_top(sort_by_score(lines))),
        keep_top(sort_by_score(lines)).len() <= TABLE_SIZE,
        lines.len() <= TABLE_SIZE ==> keep_top(sort_by_score(lines)).len() == lines.len(),
        lines.len() > TABLE_SIZE ==> keep_top(sort_by_score(lines)).len() == TABLE_SIZE,
{
    law_sort_orders_and_permutes(lines);
}

/// The table keeps the best lines: a line that was left out scores no more
/// than any line that was kept.
pub proof fn law_table_keeps_best(lines: Seq<ScoreLine>, line: ScoreLine)
    requires
        lines.contains(line),
        !keep_top(sort_by_score(lines)).contains(line),
    ensures
        forall|j: int|
            0 <= j < keep_top(sort_by_score(lines)).len() ==> #[trigger] keep_top(
                sort_by_score(lines),
            )[j].score >= line.score,
{
    broadcast use vstd::seq_lib::to_multiset_contains;

    law_sort_orders_and_permutes(lines);
    let sorted = sort_by_score(lines);
    let kept = keep_top(sorted);
    assert(lines.to_multiset().count(line) > 0);
    assert(sorted.contains(line));
    let p = choose|p: int| 0 <= p < sorted.len() && sorted[p] == line;
    if p < kept.len() {
        assert(kept[p] == line);
        assert(false);
    }
    assert forall|j: int| 0 <= j < kept.len() implies #[trigger] kept[j].score >= line.score by {
        assert(kept[j] == sorted[j]);
    }
}

/// While the table has room, every game entered makes it.
pub proof fn law_room_admits(lines: Seq<ScoreLine>, line: ScoreLine)
    requires
        lines.len() < TABLE_SIZE,
    ensures
        keep_top(sort_by_score(lines.push(line))).contains(line),
{
    broadcast use vstd::seq_lib::to_multiset_contains, vstd::seq_lib::to_multiset_build;

    law_sort_orders_and_permutes(lines.push(line));
    let sorted = sort_by_score(lines.push(line));
    assert(lines.push(line)[lines.len() as int] == line);
    assert(lines.push(line).to_multiset().count(line) > 0);
    assert(sorted.contains(line));
}

proof fn lemma_sort_of_ordered(lines: Seq<ScoreLine>)
    requires
        ordered_by_score(lines),
    ensures
        sort_by_score(lines) == lines,
    decreases lines.len(),
{
    if lines.len() > 0 {
        let rest = lines.drop_last();
        assert(ordered_by_score(rest));
        lemma_sort_of_ordered(rest);
        lemma_first_lower_is(rest, lines.last().score, rest.len() as int);
        assert(rest.insert(rest.len() as int, lines.last()) =~= lines);
    }
}

/// Entering a line into an ordered table puts it below every line that
/// scores as much or more (older lines of an equal score stay above it)
/// and above every line that scores less.
pub proof fn law_ordered_entry(lines: Seq<ScoreLine>, line: ScoreLine)
    requires
        ordered_by_score(lines),
    ensures
        sort_by_score(lines.push(line)) == lines.insert(
            first_lower(lines, line.score) as int,
            line,
        ),
        forall|k: int|
            0 <= k < first_lower(lines, line.score) ==> #[trigger] lines[k].score >= line.score,
        forall|k: int|
            first_lower(lines, line.score) <= k < lines.len() ==> #[trigger] lines[k].score
                < line.score,
{
    lemma_sort_of_ordered(lines);
    lemma_first_lower_bounds(lines, line.score);
    assert(lines.push(line).drop_last() =~= lines);
    let p = first_lower(lines, line.score) as int;
    assert forall|k: int| p <= k < lines.len() implies #[trigger] lines[k].score < line.score by {
        assert(lines[p].score >= lines[k].score);
    }
}

} // verus!

verus! {

spec fn days_from_month(index: int, leap: bool) -> int
    decreases 12 - index,
{
    if index >= 12 {
        0
    } else {
        month_length(index, leap) + days_from_month(index + 1, leap)
    }
}

proof fn lemma_count_off_months(days: int, index: int, leap: bool)
    requires
        0 <= index <= 12,
    ensures
        index <= count_off_months(days, index, leap).1 <= 12,
        count_off_months(days, index, leap).1 < 12 ==> count_off_months(days, index, leap).0
            < month_length(count_off_months(days, index, leap).1, leap),
        count_off_months(days, index, leap).1 < 12 ==> count_off_months(days, index, leap).0
            <= days,
        count_off_months(days, index, leap).1 == 12 ==> count_off_months(days, index, leap).0
            == days - days_from_month(index, leap),
    decreases 12 - index,
{
    if index < 12 && days >= month_length(index, leap) {
        lemma_count_off_months(days - month_length(index, leap), index + 1, leap);
    }
}

proof fn lemma_count_off_years(days: int, year: int)
    ensures
        count_off_years(days, year).0 < 365,
        days >= -1 ==> count_off_years(days, year).0 >= -1,
        days < -1 ==> count_off_years(days, year) == (days, year),
        count_off_years(days, year).1 >= year,
    decreases days + 1,
{
    if days >= 365 {
        lemma_count_off_years(days - year_length(year), year + 1);
    }
}

/// The date that `format_time` shows is a real one: a month from 1 to 12,
/// a day that exists in that month, an hour below 24 and a minute below 60.
pub proof fn law_calendar_is_valid(now: u64)
    ensures
        1 <= calendar(now).1 <= 12,
        1 <= calendar(now).0 <= month_length(calendar(now).1 - 1, is_leap_year(calendar(now).2)),
        calendar(now).2 >= 1969,
        0 <= calendar(now).3 < 24,
        0 <= calendar(now).4 < 60,
{
    let days = ((now / 86400) as i32) as int;
    lemma_count_off_years(days, 1970);
    let (left, year) = count_off_years(days, 1970);
    let leap = is_leap_year(year);
    lemma_count_off_months(left + 1, 0, leap);
    assert(days_from_month(0, false) == 365 && days_from_month(0, true) == 366) by {
        reveal_with_fuel(days_from_month, 13);
    }
    let rest = (now % 86400) as int;
    assert(rest / 3600 < 24);
    assert((rest % 3600) / 60 < 60);
}

} // verus!

verus! {

/// Entering a game into an ordered table whose lines are all of other
/// games: the game makes the table exactly when fewer than `TABLE_SIZE`
/// lines score as much or more.
pub proof fn law_entered_iff_ranked(lines: Seq<ScoreLine>, id: i32, score: i32, level: i32, now: u64)
    requires
        ordered_by_score(lines),
        forall|k: int| 0 <= k < lines.len() ==> #[trigger] lines[k].id != id,
    ensures
        holds_line(keep_top(sort_by_score(lines.push(new_line(id, score, level, now)))), id, score)
            <==> first_lower(lines, score) < TABLE_SIZE,
{
    let line = new_line(id, score, level, now);
    law_ordered_entry(lines, line);
    lemma_first_lower_bounds(lines, score);
    let p = first_lower(lines, score) as int;
    let sorted = lines.insert(p, line);
    let kept = keep_top(sorted);
    if p < TABLE_SIZE {
        assert(kept[p] == line);
        assert(holds_line(kept, id, score));
    }
    if holds_line(kept, id, score) {
        let i = choose|i: int| 0 <= i < kept.len() && #[trigger] kept[i].score == score && kept[i].id == id;
        assert(kept[i] == sorted[i]);
        if i < p {
            assert(sorted[i] == lines[i]);
        } else if i > p {
            assert(sorted[i] == lines[i - 1]);
        }
    }
}

} // verus!

verus! {

/// The lines of `lines` that score `score`, in their order.
pub open spec fn with_score(lines: Seq<ScoreLine>, score: i32) -> Seq<ScoreLine>
    decreases lines.len(),
{
    if lines.len() == 0 {
        lines
    } else if lines.last().score == score {
        with_score(lines.drop_last(), score).push(lines.last())
    } else {
        with_score(lines.drop_last(), score)
    }
}

proof fn lemma_with_score_add(a: Seq<ScoreLine>, b: Seq<ScoreLine>, score: i32)
    ensures
        with_score(a + b, score) == with_score(a, score) + with_score(b, score),
    decreases b.len(),
{
    if b.len() == 0 {
        assert(a + b =~= a);
        assert(with_score(a, score) + with_score(b, score) =~= with_score(a, score));
    } else {
        lemma_with_score_add(a, b.drop_last(), score);
        assert((a + b).drop_last() =~= a + b.drop_last());
        assert((a + b).last() == b.last());
        if b.last().score == score {
            assert(with_score(a, score) + with_score(b.drop_last(), score).push(b.last())
                =~= (with_score(a, score) + with_score(b.drop_last(), score)).push(b.last()));
        }
    }
}

proof fn lemma_with_score_none(lines: Seq<ScoreLine>, score: i32)
    requires
        forall|k: int| 0 <= k < lines.len() ==> #[trigger] lines[k].score < score,
    ensures
        with_score(lines, score) == Seq::<ScoreLine>::empty(),
    decreases lines.len(),
{
    if lines.len() > 0 {
        lemma_with_score_none(lines.drop_last(), score);
    }
}

/// Sorting is stable: the lines of any one score come out in the order in
/// which they were entered.
pub proof fn law_sort_is_stable(lines: Seq<ScoreLine>, score: i32)
    ensures
        with_score(sort_by_score(lines), score) == with_score(lines, score),
    decreases lines.len(),
{
    if lines.len() > 0 {
        let rest = lines.drop_last();
        let line = lines.last();
        law_sort_is_stable(rest, score);
        law_sort_orders_and_permutes(rest);
        let sorted = sort_by_score(rest);
        lemma_first_lower_bounds(sorted, line.score);
        let p = first_lower(sorted, line.score) as int;
        let front = sorted.take(p);
        let back = sorted.skip(p);
        assert(sorted.insert(p, line) =~= front + seq![line] + back);
        assert(sorted =~= front + back);
        lemma_with_score_add(front + seq![line], back, score);
        lemma_with_score_add(front, seq![line], score);
        lemma_with_score_add(front, back, score);
        assert(seq![line].drop_last() =~= Seq::<ScoreLine>::empty());
        assert(seq![line].last() == line);
        assert(with_score(Seq::<ScoreLine>::empty(), score) == Seq::<ScoreLine>::empty());
        assert(with_score(seq![line].drop_last(), score) == Seq::<ScoreLine>::empty());
        let single = with_score(seq![line], score);
        let wf = with_score(front, score);
        let wb = with_score(back, score);
        assert(sort_by_score(lines) == sorted.insert(p, line));
        assert(with_score(sort_by_score(lines), score) == wf + single + wb);
        assert(with_score(rest, score) == wf + wb);
        if line.score == score {
            assert forall|k: int| 0 <= k < back.len() implies #[trigger] back[k].score < score by {
                assert(back[k] == sorted[p + k]);
                assert(sorted[p].score >= sorted[p + k].score);
            }
            lemma_with_score_none(back, score);
            assert(single =~= seq![line]);
            assert(wf + single + wb =~= (wf + wb).push(line));
            assert(with_score(lines, score) == with_score(rest, score).push(line));
        } else {
            assert(single =~= Seq::<ScoreLine>::empty());
            assert(wf + single + wb =~= wf + wb);
            assert(with_score(lines, score) == with_score(rest, score));
        }
    }
}

} // verus!

verus! {

/// Naming a line changes only its name: the table keeps its length, its
/// order and every score and id.
pub proof fn law_naming_keeps_order(lines: Seq<ScoreLine>, id: i32, name: Seq<char>)
    ensures
        renamed(lines, id, name).len() == lines.len(),
        forall|i: int|
            0 <= i < lines.len() ==> (#[trigger] renamed(lines, id, name)[i]).score == lines[i].score
                && renamed(lines, id, name)[i].id == lines[i].id,
        ordered_by_score(lines) ==> ordered_by_score(renamed(lines, id, name)),
{
}

} // verus!

verus! {

/// Whether no two lines of `lines` belong to the same game.
pub open spec fn ids_distinct(lines: Seq<ScoreLine>) -> bool {
    forall|i: int, j: int| 0 <= i < j < lines.len() ==> lines[i].id != lines[j].id
}

/// Whether every line of `lines` belongs to a game with an id of at most
/// `bound`.
pub open spec fn ids_at_most(lines: Seq<ScoreLine>, bound: int) -> bool {
    forall|i: int| 0 <= i < lines.len() ==> #[trigger] lines[i].id <= bound
}

proof fn lemma_sort_members(lines: Seq<ScoreLine>)
    ensures
        forall|k: int|
            0 <= k < sort_by_score(lines).len() ==> lines.contains(#[trigger] sort_by_score(lines)[k]),
{
    broadcast use vstd::seq_lib::to_multiset_contains;

    law_sort_orders_and_permutes(lines);
    assert forall|k: int| 0 <= k < sort_by_score(lines).len() implies lines.contains(
        #[trigger] sort_by_score(lines)[k],
    ) by {
        let e = sort_by_score(lines)[k];
        assert(sort_by_score(lines).contains(e));
        assert(sort_by_score(lines).to_multiset().count(e) > 0);
    }
}

proof fn lemma_sort_keeps_ids(lines: Seq<ScoreLine>, bound: int)
    ensures
        ids_distinct(lines) ==> ids_distinct(sort_by_score(lines)),
        ids_at_most(lines, bound) ==> ids_at_most(sort_by_score(lines), bound),
    decreases lines.len(),
{
    lemma_sort_members(lines);
    law_sort_orders_and_permutes(lines);
    let sorted = sort_by_score(lines);
    if ids_at_most(lines, bound) {
        assert forall|k: int| 0 <= k < sorted.len() implies #[trigger] sorted[k].id <= bound by {
            assert(lines.contains(sorted[k]));
        }
    }
    if lines.len() > 0 && ids_distinct(lines) {
        let rest = lines.drop_last();
        let line = lines.last();
        lemma_sort_keeps_ids(rest, bound);
        lemma_sort_members(rest);
        let t = sort_by_score(rest);
        assert(ids_distinct(rest));
        assert forall|k: int| 0 <= k < t.len() implies #[trigger] t[k].id != line.id by {
            assert(rest.contains(t[k]));
            let m = choose|m: int| 0 <= m < rest.len() && rest[m] == t[k];
            assert(lines[m] == rest[m]);
            assert(lines[lines.len() - 1] == line);
        }
        let p = first_lower(t, line.score) as int;
        lemma_first_lower_bounds(t, line.score);
        let r = t.insert(p, line);
        assert(sorted == r);
        assert forall|i: int, j: int| 0 <= i < j < r.len() implies r[i].id != r[j].id by {
            if i < p {
                assert(r[i] == t[i]);
                if j == p {
                } else if j < p {
                    assert(r[j] == t[j]);
                } else {
                    assert(r[j] == t[j - 1]);
                }
            } else if i == p {
                assert(r[j] == t[j - 1]);
            } else {
                assert(r[i] == t[i - 1]);
                assert(r[j] == t[j - 1]);
            }
        }
    }
}

/// Ids stay distinct: entering a new game, whose id is above every id in
/// the table, leaves no two lines of the same game, and the new game's id
/// is the largest in the table.
pub proof fn law_ids_stay_distinct(lines: Seq<ScoreLine>, id: i32, score: i32, level: i32, now: u64)
    requires
        ids_distinct(lines),
        ids_at_most(lines, id - 1),
    ensures
        ids_distinct(keep_top(sort_by_score(lines.push(new_line(id, score, level, now))))),
        ids_at_most(keep_top(sort_by_score(lines.push(new_line(id, score, level, now)))), id as int),
{
    let all = lines.push(new_line(id, score, level, now));
    assert(ids_distinct(all)) by {
        assert forall|i: int, j: int| 0 <= i < j < all.len() implies all[i].id != all[j].id by {
            assert(all[i] == lines[i]);
            if j < lines.len() {
                assert(all[j] == lines[j]);
            }
        }
    }
    assert(ids_at_most(all, id as int)) by {
        assert forall|i: int| 0 <= i < all.len() implies #[trigger] all[i].id <= id by {
            if i < lines.len() {
                assert(all[i] == lines[i]);
            }
        }
    }
    lemma_sort_keeps_ids(all, id as int);
    let sorted = sort_by_score(all);
    let kept = keep_top(sorted);
    assert forall|i: int, j: int| 0 <= i < j < kept.len() implies kept[i].id != kept[j].id by {
        assert(kept[i] == sorted[i] && kept[j] == sorted[j]);
    }
    assert forall|i: int| 0 <= i < kept.len() implies #[trigger] kept[i].id <= id by {
        assert(kept[i] == sorted[i]);
    }
}

/// Naming after a game that missed the table renames nothing, when every
/// line already in the table belongs to an earlier game.
pub proof fn law_naming_after_miss(
    lines: Seq<ScoreLine>,
    id: i32,
    score: i32,
    level: i32,
    now: u64,
    name: Seq<char>,
)
    requires
        ids_at_most(lines, id - 1),
        !holds_line(keep_top(sort_by_score(lines.push(new_line(id, score, level, now)))), id, score),
    ensures
        renamed(keep_top(sort_by_score(lines.push(new_line(id, score, level, now)))), id, name)
            == keep_top(sort_by_score(lines.push(new_line(id, score, level, now)))),
{
    lemma_missed_has_no_line(lines, id, score, level, now);
    let kept = keep_top(sort_by_score(lines.push(new_line(id, score, level, now))));
    assert(renamed(kept, id, name) =~= kept);
}

/// Whether no line of `lines` belongs to game `id`.
pub open spec fn no_line_of(lines: Seq<ScoreLine>, id: i32) -> bool {
    forall|k: int| 0 <= k < lines.len() ==> #[trigger] lines[k].id != id
}

proof fn lemma_missed_has_no_line(lines: Seq<ScoreLine>, id: i32, score: i32, level: i32, now: u64)
    requires
        ids_at_most(lines, id - 1),
    ensures
        !holds_line(keep_top(sort_by_score(lines.push(new_line(id, score, level, now)))), id, score)
            ==> no_line_of(
            keep_top(sort_by_score(lines.push(new_line(id, score, level, now)))),
            id,
        ),
{
    let all = lines.push(new_line(id, score, level, now));
    let sorted = sort_by_score(all);
    let kept = keep_top(sorted);
    if !holds_line(kept, id, score) {
        lemma_sort_members(all);
        law_sort_orders_and_permutes(all);
        assert forall|k: int| 0 <= k < kept.len() implies #[trigger] kept[k].id != id by {
            assert(kept[k] == sorted[k]);
            assert(all.contains(sorted[k]));
            let m = choose|m: int| 0 <= m < all.len() && all[m] == sorted[k];
            if m < lines.len() {
                assert(all[m] == lines[m]);
            } else {
                assert(all[m] == new_line(id, score, level, now));
                if kept[k].id == id {
                    assert(kept[k].score == score);
                    assert(holds_line(kept, id, score));
                }
            }
        }
    }
}

/// On a table as the library builds it, naming right after a game that
/// missed the table renames nothing.
pub proof fn law_naming_after_missed_entry(table: HighScoreTable, name: Seq<char>)
    requires
        table.well_formed(),
        table.marked_entry() == -1,
    ensures
        renamed(table.entries(), table.newest_id(), name) == table.entries(),
{
    assert(renamed(table.entries(), table.newest_id(), name) =~= table.entries());
}

/// A call on the table, for following the id of the newest game.
pub enum TableCall {
    AddScore,
    SetName,
}

/// The newest game id after one call: `add_score` moves it on by one,
/// `set_name` keeps it (as their contracts state).
pub open spec fn newest_after_call(newest: int, call: TableCall) -> int {
    match call {
        TableCall::AddScore => newest + 1,
        TableCall::SetName => newest,
    }
}

/// The newest game id after `calls`, in order, from `newest`.
pub open spec fn newest_after_calls(newest: int, calls: Seq<TableCall>) -> int
    decreases calls.len(),
{
    if calls.len() == 0 {
        newest
    } else {
        newest_after_call(newest_after_calls(newest, calls.drop_last()), calls.last())
    }
}

/// The number of games entered by `calls`.
pub open spec fn games_entered(calls: Seq<TableCall>) -> int
    decreases calls.len(),
{
    if calls.len() == 0 {
        0
    } else {
        games_entered(calls.drop_first()) + if calls[0] is AddScore { 1int } else { 0int }
    }
}

proof fn lemma_games_entered_push(calls: Seq<TableCall>, call: TableCall)
    ensures
        games_entered(calls.push(call)) == games_entered(calls) + if call is AddScore {
            1int
        } else {
            0int
        },
    decreases calls.len(),
{
    if calls.len() > 0 {
        lemma_games_entered_push(calls.drop_first(), call);
        assert(calls.push(call).drop_first() =~= calls.drop_first().push(call));
        assert(calls.push(call)[0] == calls[0]);
    } else {
        assert(calls.push(call).drop_first() =~= Seq::<TableCall>::empty());
        assert(calls.push(call)[0] == call);
        assert(games_entered(Seq::<TableCall>::empty()) == 0);
        assert(games_entered(calls) == 0);
    }
}

/// From a new table (newest id 0), the newest id counts the games entered,
/// whatever names were set in between; `is_current_score` is true of that
/// id alone.
pub proof fn law_newest_id_counts_games(calls: Seq<TableCall>)
    ensures
        newest_after_calls(0, calls) == games_entered(calls),
    decreases calls.len(),
{
    if calls.len() > 0 {
        law_newest_id_counts_games(calls.drop_last());
        lemma_games_entered_push(calls.drop_last(), calls.last());
        assert(calls.drop_last().push(calls.last()) =~= calls);
    }
}

} // verus!

verus! {

/// Days from the first of January 1970 to the first of January of `year`.
pub open spec fn days_before_year(year: int) -> int
    decreases year - 1970,
{
    if year <= 1970 {
        0
    } else {
        days_before_year(year - 1) + year_length(year - 1)
    }
}

/// Days of a year before month `index` (January is 0) begins.
pub open spec fn days_before_month(index: int, leap: bool) -> int
    decreases index,
{
    if index <= 0 {
        0
    } else {
        days_before_month(index - 1, leap) + month_length(index - 1, leap)
    }
}

/// The number of days from the first of January 1970 to day `date` of
/// month `month` (1 to 12) of `year`, in the Gregorian calendar.
pub open spec fn day_number(year: int, month: int, date: int) -> int {
    days_before_year(year) + days_before_month(month - 1, is_leap_year(year)) + date - 1
}

proof fn lemma_years_counted(days: int, year: int)
    requires
        days >= -1,
        year >= 1970,
    ensures
        days_before_year(count_off_years(days, year).1) + count_off_years(days, year).0
            == days_before_year(year) + days,
        -1 <= count_off_years(days, year).0 < 365,
        count_off_years(days, year).1 >= year,
        days >= 0 && count_off_years(days, year).0 == -1 ==> count_off_years(days, year).1 > year,
    decreases days + 1,
{
    if days >= 365 {
        lemma_years_counted(days - year_length(year), year + 1);
    }
}

proof fn lemma_months_counted(days: int, index: int, leap: bool)
    requires
        0 <= index <= 12,
    ensures
        days - count_off_months(days, index, leap).0 == days_before_month(
            count_off_months(days, index, leap).1,
            leap,
        ) - days_before_month(index, leap),
        count_off_months(days, index, leap).1 > index ==> count_off_months(days, index, leap).0
            >= 0,
    decreases 12 - index,
{
    if index < 12 && days >= month_length(index, leap) {
        lemma_months_counted(days - month_length(index, leap), index + 1, leap);
    }
}

/// `format_time` shows the Gregorian date of day `now / 86400` after the
/// first of January 1970 (while the day count fits an `i32`), with the hour
/// and the minute of that day.
pub proof fn law_calendar_is_gregorian(now: u64)
    requires
        now / 86400 <= i32::MAX,
    ensures
        day_number(calendar(now).2, calendar(now).1, calendar(now).0) == now / 86400,
        calendar(now).2 >= 1970,
        calendar(now).3 == (now % 86400) / 3600,
        calendar(now).4 == ((now % 86400) % 3600) / 60,
{
    let days = ((now / 86400) as i32) as int;
    assert(days == now / 86400);
    law_calendar_is_valid(now);
    lemma_years_counted(days, 1970);
    lemma_count_off_years(days, 1970);
    let (left, year) = count_off_years(days, 1970);
    let leap = is_leap_year(year);
    lemma_count_off_months(left + 1, 0, leap);
    lemma_months_counted(left + 1, 0, leap);
    let (extra, month) = count_off_months(left + 1, 0, leap);
    assert(days_before_month(0, leap) == 0);
    assert(days_before_year(1970) == 0);
    if extra > 0 {
    } else if month == 2 && leap {
        assert(days_before_month(2, leap) == 60 && days_before_month(1, leap) == 31) by {
            reveal_with_fuel(days_before_month, 3);
        }
    } else if month == 0 {
        assert(left == -1);
        assert(days_before_year(year) == days_before_year(year - 1) + year_length(year - 1));
        let prev_leap = is_leap_year(year - 1);
        assert(days_before_month(11, prev_leap) + 31 == year_length(year - 1)) by {
            reveal_with_fuel(days_before_month, 12);
        }
    } else {
        assert(extra == 0);
        assert(days_before_month(month, leap) == days_before_month(month - 1, leap)
            + month_length(month - 1, leap));
        assert(month_length(month - 1, false) == month_length(month - 1, leap));
    }
}

} // verus!

verus! {

proof fn lemma_minute_fields(a: int)
    requires
        a >= 0,
    ensures
        a / 86400 == (a / 60) / 1440,
        (a % 86400) / 3600 == ((a / 60) % 1440) / 60,
        ((a % 86400) % 3600) / 60 == ((a / 60) % 1440) % 60,
        a / 60 == 1440 * (a / 86400) + 60 * ((a % 86400) / 3600) + ((a % 86400) % 3600) / 60,
{
    let q = a / 60;
    let r = a % 60;
    let q1 = q / 1440;
    let q2 = q % 1440;
    let h = q2 / 60;
    let m = q2 % 60;
    lemma_fundamental_div_mod(a, 60);
    lemma_fundamental_div_mod(q, 1440);
    lemma_fundamental_div_mod(q2, 60);
    assert(0 <= r < 60 && 0 <= q2 < 1440 && 0 <= m < 60 && 0 <= h < 24);
    assert(a == 86400 * q1 + (3600 * h + 60 * m + r));
    lemma_fundamental_div_mod_converse(a, 86400, q1, 3600 * h + 60 * m + r);
    lemma_fundamental_div_mod_converse(3600 * h + 60 * m + r, 3600, h, 60 * m + r);
    lemma_fundamental_div_mod_converse(60 * m + r, 60, m, r);
}

proof fn lemma_text_fields(now: u64)
    requires
        now / 86400 <= i32::MAX,
    ensures
        time_text(now).len() == (padded_decimal(calendar(now).2 as nat, 4).len() as int) + 12,
        time_text(now).subrange(0, 2) == padded_decimal(calendar(now).0 as nat, 2),
        time_text(now).subrange(3, 5) == padded_decimal(calendar(now).1 as nat, 2),
        time_text(now).subrange(6, 6 + (padded_decimal(calendar(now).2 as nat, 4).len() as int))
            == padded_decimal(calendar(now).2 as nat, 4),
        time_text(now).subrange(
            7 + (padded_decimal(calendar(now).2 as nat, 4).len() as int),
            9 + (padded_decimal(calendar(now).2 as nat, 4).len() as int),
        ) == padded_decimal(calendar(now).3 as nat, 2),
        time_text(now).subrange(
            10 + (padded_decimal(calendar(now).2 as nat, 4).len() as int),
            12 + (padded_decimal(calendar(now).2 as nat, 4).len() as int),
        ) == padded_decimal(calendar(now).4 as nat, 2),
{
    law_calendar_is_valid(now);
    let (date, month, year, hours, minutes) = calendar(now);
    let p1 = padded_decimal(date as nat, 2);
    let p2 = padded_decimal(month as nat, 2);
    let p3 = padded_decimal(year as nat, 4);
    let p4 = padded_decimal(hours as nat, 2);
    let p5 = padded_decimal(minutes as nat, 2);
    law_padded_decimal_reads_back(date as nat, 2);
    law_padded_decimal_reads_back(month as nat, 2);
    law_padded_decimal_reads_back(year as nat, 4);
    law_padded_decimal_reads_back(hours as nat, 2);
    law_padded_decimal_reads_back(minutes as nat, 2);
    let l = p3.len() as int;
    let t = time_text(now);
    assert(t == p1 + seq!['/'] + p2 + seq!['/'] + p3 + seq![' '] + p4 + seq![':'] + p5);
    assert(t.subrange(0, 2) =~= p1);
    assert(t.subrange(3, 5) =~= p2);
    assert(t.subrange(6, 6 + l) =~= p3);
    assert(t.subrange(7 + l, 9 + l) =~= p4);
    assert(t.subrange(10 + l, 12 + l) =~= p5);
}

/// `format_time` drops the seconds and keeps everything else: two times
/// give the same text exactly when they fall in the same minute (while the
/// day count fits an `i32`).
pub proof fn law_distinct_minutes_distinct_text(a: u64, b: u64)
    requires
        a / 86400 <= i32::MAX,
        b / 86400 <= i32::MAX,
    ensures
        (time_text(a) == time_text(b)) == (a / 60 == b / 60),
{
    lemma_minute_fields(a as int);
    lemma_minute_fields(b as int);
    law_calendar_is_valid(a);
    law_calendar_is_valid(b);
    law_calendar_is_gregorian(a);
    law_calendar_is_gregorian(b);
    if a / 60 == b / 60 {
        assert(calendar(a) == calendar(b));
    }
    if time_text(a) == time_text(b) {
        lemma_text_fields(a);
        lemma_text_fields(b);
        let (da, ma, ya, ha, ia) = calendar(a);
        let (db, mb, yb, hb, ib) = calendar(b);
        law_padded_decimal_reads_back(da as nat, 2);
        law_padded_decimal_reads_back(ma as nat, 2);
        law_padded_decimal_reads_back(ya as nat, 4);
        law_padded_decimal_reads_back(ha as nat, 2);
        law_padded_decimal_reads_back(ia as nat, 2);
        law_padded_decimal_reads_back(db as nat, 2);
        law_padded_decimal_reads_back(mb as nat, 2);
        law_padded_decimal_reads_back(yb as nat, 4);
        law_padded_decimal_reads_back(hb as nat, 2);
        law_padded_decimal_reads_back(ib as nat, 2);
        assert(da == db);
        assert(ma == mb);
        assert(ya == yb);
        assert(ha == hb);
        assert(ia == ib);
    }
}

} // verus!

verus! {

/// The month lengths of the Gregorian calendar, January to December.
pub proof fn law_month_lengths_are_gregorian(leap: bool)
    ensures
        month_length(0, leap) == 31,
        month_length(1, leap) == if leap { 29int } else { 28int },
        month_length(2, leap) == 31,
        month_length(3, leap) == 30,
        month_length(4, leap) == 31,
        month_length(5, leap) == 30,
        month_length(6, leap) == 31,
        month_length(7, leap) == 31,
        month_length(8, leap) == 30,
        month_length(9, leap) == 31,
        month_length(10, leap) == 30,
        month_length(11, leap) == 31,
        days_before_month(12, leap) == if leap { 366int } else { 365int },
{
    reveal_with_fuel(days_before_month, 13);
}

/// The Gregorian leap year rule: every fourth year, except whole centuries
/// that are not whole multiples of four centuries; a leap year has 366 days.
pub proof fn law_leap_years_are_gregorian(year: int)
    ensures
        is_leap_year(year) <==> (year % 4 == 0 && !(year % 100 == 0 && year % 400 != 0)),
        year_length(year) == if year % 4 == 0 && !(year % 100 == 0 && year % 400 != 0) {
            366int
        } else {
            365int
        },
{
    if year % 400 == 0 {
        assert(year % 4 == 0) by {
            vstd::arithmetic::div_mod::lemma_fundamental_div_mod(year, 400);
            vstd::arithmetic::div_mod::lemma_fundamental_div_mod_converse(
                year,
                4,
                100 * (year / 400),
                0,
            );
        }
    }
}

/// The digits are the characters '0' to '9', in order.
pub proof fn law_digits_are_decimal()
    ensures
        crate::decimal::digit_char(0) == '0',
        crate::decimal::digit_char(1) == '1',
        crate::decimal::digit_char(2) == '2',
        crate::decimal::digit_char(3) == '3',
        crate::decimal::digit_char(4) == '4',
        crate::decimal::digit_char(5) == '5',
        crate::decimal::digit_char(6) == '6',
        crate::decimal::digit_char(7) == '7',
        crate::decimal::digit_char(8) == '8',
        crate::decimal::digit_char(9) == '9',
        crate::decimal::decimal(0) == seq!['0'],
{
}

/// The time text reads `DD/MM/YYYY HH:MM`: two-digit day, month, hour and
/// minute, a year of at least four digits, and the separators '/', '/',
/// ' ' and ':' in between.
pub proof fn law_time_text_shape(now: u64)
    requires
        now / 86400 <= i32::MAX,
    ensures
        ({
            let t = time_text(now);
            let year_digits = t.len() - 12;
            &&& year_digits >= 4
            &&& t[2] == '/'
            &&& t[5] == '/'
            &&& t[6 + year_digits] == ' '
            &&& t[9 + year_digits] == ':'
            &&& crate::decimal::decimal_value(t.subrange(0, 2)) == calendar(now).0
            &&& crate::decimal::decimal_value(t.subrange(3, 5)) == calendar(now).1
            &&& crate::decimal::decimal_value(t.subrange(6, 6 + year_digits)) == calendar(now).2
            &&& crate::decimal::decimal_value(t.subrange(7 + year_digits, 9 + year_digits))
                == calendar(now).3
            &&& crate::decimal::decimal_value(t.subrange(10 + year_digits, 12 + year_digits))
                == calendar(now).4
        }),
{
    lemma_text_fields(now);
    law_calendar_is_valid(now);
    law_calendar_is_gregorian(now);
    let (date, month, year, hours, minutes) = calendar(now);
    law_padded_decimal_reads_back(date as nat, 2);
    law_padded_decimal_reads_back(month as nat, 2);
    law_padded_decimal_reads_back(year as nat, 4);
    law_padded_decimal_reads_back(hours as nat, 2);
    law_padded_decimal_reads_back(minutes as nat, 2);
    let p1 = padded_decimal(date as nat, 2);
    let p2 = padded_decimal(month as nat, 2);
    let p3 = padded_decimal(year as nat, 4);
    let p4 = padded_decimal(hours as nat, 2);
    let p5 = padded_decimal(minutes as nat, 2);
    let t = time_text(now);
    let l = p3.len() as int;
    assert(t == p1 + seq!['/'] + p2 + seq!['/'] + p3 + seq![' '] + p4 + seq![':'] + p5);
    assert(t[2] == '/');
    assert(t[5] == '/');
    assert(t[6 + l] == ' ');
    assert(t[9 + l] == ':');
}

/// Naming puts the name on every line of the given game, wherever it
/// ranks, and changes nothing else.
pub proof fn law_naming_names_every_line_of_the_game(
    lines: Seq<ScoreLine>,
    id: i32,
    name: Seq<char>,
)
    ensures
        renamed(lines, id, name).len() == lines.len(),
        forall|i: int|
            0 <= i < lines.len() && lines[i].id == id ==> (#[trigger] renamed(lines, id, name)[i])
                == (ScoreLine {
                id: lines[i].id,
                score: lines[i].score,
                level: lines[i].level,
                by: name,
                when: lines[i].when,
                formatted: lines[i].formatted,
            }),
        forall|i: int|
            0 <= i < lines.len() && lines[i].id != id ==> #[trigger] renamed(lines, id, name)[i]
                == lines[i],
{
}

} // verus!
