//! The holidays of one month, listed by day.

use crate::holiday::{
    all_valid, lemma_lookup_none, lookup, parse_rows, records_of, Holiday, HolidayRecord,
};
use vstd::prelude::*;

verus! {

/// The test for a record of the given month.
pub open spec fn in_month(year: int, month: int) -> spec_fn(HolidayRecord) -> bool {
    |r: HolidayRecord| r.year == year && r.month == month
}

/// The day and the label of a record.
pub open spec fn entry_of() -> spec_fn(HolidayRecord) -> (int, Seq<char>) {
    |r: HolidayRecord| (r.day, r.name)
}

/// The test for an entry of the given day.
pub open spec fn on_day(day: int) -> spec_fn((int, Seq<char>)) -> bool {
    |e: (int, Seq<char>)| e.0 == day
}

/// Day and label of the records of the given month, in the order of the
/// records.
pub open spec fn month_entries(records: Seq<HolidayRecord>, year: int, month: int) -> Seq<
    (int, Seq<char>),
> {
    records.filter(in_month(year, month)).map_values(entry_of())
}

/// The entries of day 1, then those of day 2, and so on through day `last`;
/// the entries of one day keep the order they have in `entries`.
pub open spec fn days_through(entries: Seq<(int, Seq<char>)>, last: int) -> Seq<(int, Seq<char>)>
    decreases last,
{
    if last < 1 {
        Seq::empty()
    } else {
        days_through(entries, last - 1) + entries.filter(on_day(last))
    }
}

/// The entries by ascending day of the month; entries of the same day keep
/// their order.
pub open spec fn sorted_by_day(entries: Seq<(int, Seq<char>)>) -> Seq<(int, Seq<char>)> {
    days_through(entries, 31)
}

/// The holidays of a month by ascending day, each with its day and label;
/// holidays of the same day stand in the order of their records.
pub open spec fn month_listing(records: Seq<HolidayRecord>, year: int, month: int) -> Seq<
    (int, Seq<char>),
> {
    sorted_by_day(month_entries(records, year, month))
}

/// What a listing says, entry by entry.
pub open spec fn entries_of(listed: Seq<(i32, String)>) -> Seq<(int, Seq<char>)> {
    listed.map_values(|e: (i32, String)| (e.0 as int, e.1@))
}

/// Whether every entry has a day of the month, 1 to 31.
pub open spec fn days_of_month(entries: Seq<(int, Seq<char>)>) -> bool {
    forall|i: int| 0 <= i < entries.len() ==> 1 <= (#[trigger] entries[i]).0 <= 31
}

/// Whether the days of the entries never go down.
pub open spec fn ascending(entries: Seq<(int, Seq<char>)>) -> bool {
    forall|i: int, j: int| 0 <= i < j < entries.len() ==> entries[i].0 <= entries[j].0
}

/// One more record adds its entry to those of its month, at the end, and
/// nothing to those of another month.
pub proof fn lemma_month_entries_push(
    records: Seq<HolidayRecord>,
    record: HolidayRecord,
    year: int,
    month: int,
)
    ensures
        month_entries(records.push(record), year, month) == if record.year == year && record.month
            == month {
            month_entries(records, year, month).push((record.day, record.name))
        } else {
            month_entries(records, year, month)
        },
{
    records.lemma_filter_push(record, in_month(year, month));
    if record.year == year && record.month == month {
        assert(records.filter(in_month(year, month)).push(record).map_values(entry_of())
            == month_entries(records, year, month).push((record.day, record.name)));
    }
}

/// The entries of valid records have days of the month.
pub proof fn lemma_month_entries_days(records: Seq<HolidayRecord>, year: int, month: int)
    requires
        all_valid(records),
    ensures
        days_of_month(month_entries(records, year, month)),
    decreases records.len(),
{
    if records.len() == 0 {
        reveal(Seq::filter);
    } else {
        let earlier = records.drop_last();
        assert(records == earlier.push(records.last()));
        assert(all_valid(earlier)) by {
            assert forall|i: int| 0 <= i < earlier.len() implies (#[trigger] earlier[i]).valid() by {
                assert(earlier[i] == records[i]);
            }
        }
        lemma_month_entries_days(earlier, year, month);
        lemma_month_entries_push(earlier, records.last(), year, month);
        assert(records.last().valid());
    }
}

/// Picking one day out of the entries of another leaves nothing; out of the
/// entries of the same day, all of them.
proof fn lemma_day_of_day(entries: Seq<(int, Seq<char>)>, first: int, second: int)
    ensures
        entries.filter(on_day(first)).filter(on_day(second)) == if first == second {
            entries.filter(on_day(first))
        } else {
            Seq::empty()
        },
    decreases entries.len(),
{
    reveal(Seq::filter);
    if entries.len() > 0 {
        let earlier = entries.drop_last();
        lemma_day_of_day(earlier, first, second);
        if entries.last().0 == first {
            earlier.filter(on_day(first)).lemma_filter_push(entries.last(), on_day(second));
        }
    }
}

/// What `days_through` holds of one day: all the entries of that day, in
/// their order, if the day is one of those gone through, and none otherwise.
pub proof fn lemma_days_through_day(entries: Seq<(int, Seq<char>)>, last: int, day: int)
    ensures
        days_through(entries, last).filter(on_day(day)) == if 1 <= day <= last {
            entries.filter(on_day(day))
        } else {
            Seq::empty()
        },
    decreases last,
{
    if last < 1 {
        reveal(Seq::filter);
    } else {
        lemma_days_through_day(entries, last - 1, day);
        lemma_day_of_day(entries, last, day);
        Seq::filter_distributes_over_add(
            days_through(entries, last - 1),
            entries.filter(on_day(last)),
            on_day(day),
        );
    }
}

/// `days_through` holds only days 1 to `last`, in ascending order.
pub proof fn lemma_days_through_ascending(entries: Seq<(int, Seq<char>)>, last: int)
    ensures
        ascending(days_through(entries, last)),
        forall|i: int|
            0 <= i < days_through(entries, last).len() ==> 1 <= (#[trigger] days_through(
                entries,
                last,
            )[i]).0 <= last,
    decreases last,
{
    if last >= 1 {
        lemma_days_through_ascending(entries, last - 1);
        let before = days_through(entries, last - 1);
        let today = entries.filter(on_day(last));
        assert forall|i: int| 0 <= i < today.len() implies (#[trigger] today[i]).0 == last by {
            entries.lemma_filter_pred(on_day(last), i);
        }
        let all = days_through(entries, last);
        assert forall|i: int| 0 <= i < all.len() implies 1 <= (#[trigger] all[i]).0 <= last by {
            if i < before.len() {
                assert(all[i] == before[i]);
            } else {
                assert(all[i] == today[i - before.len()]);
            }
        }
        assert forall|i: int, j: int| 0 <= i < j < all.len() implies all[i].0 <= all[j].0 by {
            if j < before.len() {
                assert(all[i] == before[i] && all[j] == before[j]);
            } else if i < before.len() {
                assert(all[i] == before[i] && all[j] == today[j - before.len()]);
            } else {
                assert(all[i] == today[i - before.len()] && all[j] == today[j - before.len()]);
            }
        }
    }
}

/// One more entry makes `days_through` longer by one if its day is one of
/// those gone through, and leaves its length otherwise.
proof fn lemma_days_through_len_push(
    entries: Seq<(int, Seq<char>)>,
    entry: (int, Seq<char>),
    last: int,
)
    ensures
        days_through(entries.push(entry), last).len() == days_through(entries, last).len() + if 1
            <= entry.0 <= last {
            1int
        } else {
            0int
        },
    decreases last,
{
    if last >= 1 {
        lemma_days_through_len_push(entries, entry, last - 1);
        entries.lemma_filter_len_push(on_day(last), entry);
    }
}

/// With days of the month only, `sorted_by_day` keeps every entry.
pub proof fn lemma_sorted_by_day_len(entries: Seq<(int, Seq<char>)>)
    requires
        days_of_month(entries),
    ensures
        sorted_by_day(entries).len() == entries.len(),
    decreases entries.len(),
{
    if entries.len() == 0 {
        lemma_days_through_empty(entries, 31);
    } else {
        let earlier = entries.drop_last();
        assert(entries == earlier.push(entries.last()));
        assert forall|i: int| 0 <= i < earlier.len() implies 1 <= (#[trigger] earlier[i]).0
            <= 31 by {
            assert(earlier[i] == entries[i]);
        }
        lemma_sorted_by_day_len(earlier);
        lemma_days_through_len_push(earlier, entries.last(), 31);
    }
}

proof fn lemma_days_through_empty(entries: Seq<(int, Seq<char>)>, last: int)
    requires
        entries.len() == 0,
    ensures
        days_through(entries, last).len() == 0,
    decreases last,
{
    if last >= 1 {
        lemma_days_through_empty(entries, last - 1);
        entries.lemma_filter_len(on_day(last));
    }
}

/// Sorting by day is a stable sort. Of entries with days of the month,
/// `sorted_by_day` loses none and adds none, its days never go down, and the
/// entries of any one day stand in it as they stand in `entries`.
pub proof fn lemma_sorted_by_day_is_stable_sort(entries: Seq<(int, Seq<char>)>)
    requires
        days_of_month(entries),
    ensures
        sorted_by_day(entries).len() == entries.len(),
        ascending(sorted_by_day(entries)),
        forall|day: int| #[trigger]
            sorted_by_day(entries).filter(on_day(day)) == entries.filter(on_day(day)),
{
    lemma_sorted_by_day_len(entries);
    lemma_days_through_ascending(entries, 31);
    assert forall|day: int| #[trigger]
        sorted_by_day(entries).filter(on_day(day)) == entries.filter(on_day(day)) by {
        lemma_days_through_day(entries, 31, day);
        if !(1 <= day <= 31) {
            entries.lemma_all_neg_filter_empty(on_day(day));
        }
    }
}

/// The holidays of valid records, listed for a month, are all the records of
/// that month and no others, by ascending day, those of one day in the order
/// of the records.
pub proof fn lemma_month_listing(records: Seq<HolidayRecord>, year: int, month: int)
    requires
        all_valid(records),
    ensures
        month_listing(records, year, month).len() == records.filter(in_month(year, month)).len(),
        ascending(month_listing(records, year, month)),
        forall|day: int| #[trigger]
            month_listing(records, year, month).filter(on_day(day)) == month_entries(
                records,
                year,
                month,
            ).filter(on_day(day)),
{
    lemma_month_entries_days(records, year, month);
    lemma_sorted_by_day_is_stable_sort(month_entries(records, year, month));
}

/// No listing without records.
pub proof fn lemma_month_listing_empty(year: int, month: int)
    ensures
        month_listing(Seq::empty(), year, month).len() == 0,
{
    let none = Seq::<HolidayRecord>::empty();
    none.lemma_filter_len(in_month(year, month));
    lemma_days_through_empty(month_entries(none, year, month), 31);
}

/// A source of a header alone, or of no row at all, gives an empty list: no
/// date has a name and no month has a listing.
pub proof fn lemma_empty_source(rows: Seq<Seq<char>>, year: int, month: int, day: int)
    requires
        rows.len() <= 1,
    ensures
        parse_rows(rows) == Seq::<HolidayRecord>::empty(),
        lookup(parse_rows(rows), year, month, day) is None,
        month_listing(parse_rows(rows), year, month) == Seq::<(int, Seq<char>)>::empty(),
{
    lemma_lookup_none(parse_rows(rows), year, month, day);
    lemma_month_listing_empty(year, month);
}

/// The holidays of a month by ascending day, each with its day and label.
/// Holidays of the same day come in the order of their records.
pub fn month_holidays(holidays: &[Holiday], year: i32, month: i32) -> (listed: Vec<(i32, String)>)
    ensures
        entries_of(listed@) == month_listing(records_of(holidays@), year as int, month as int),
        listed@.len() == records_of(holidays@).filter(in_month(year as int, month as int)).len(),
        ascending(entries_of(listed@)),
        forall|day: int| #[trigger]
            entries_of(listed@).filter(on_day(day)) == month_entries(
                records_of(holidays@),
                year as int,
                month as int,
            ).filter(on_day(day)),
{
    let ghost records = records_of(holidays@);
    let ghost entries = month_entries(records, year as int, month as int);
    let mut listed: Vec<(i32, String)> = Vec::new();
    let mut day: i32 = 1;
    while day <= 31
        invariant
            1 <= day <= 32,
            records == records_of(holidays@),
            entries == month_entries(records, year as int, month as int),
            entries_of(listed@) == days_through(entries, day - 1),
            day > 1 ==> all_valid(records),
        decreases 32 - day,
    {
        let mut i: usize = 0;
        assert(month_entries(records.take(0), year as int, month as int).filter(on_day(day as int))
            == Seq::<(int, Seq<char>)>::empty()) by {
            reveal(Seq::filter);
        }
        while i < holidays.len()
            invariant
                1 <= day <= 31,
                i <= holidays@.len(),
                records == records_of(holidays@),
                forall|j: int| 0 <= j < i ==> (#[trigger] records[j]).valid(),
                entries_of(listed@) == days_through(entries, day - 1) + month_entries(
                    records.take(i as int),
                    year as int,
                    month as int,
                ).filter(on_day(day as int)),
            decreases holidays@.len() - i,
        {
            let h = &holidays[i];
            let ghost before = entries_of(listed@);
            proof {
                let seen = records.take(i as int);
                assert(records.take(i as int + 1) == seen.push(records[i as int]));
                lemma_month_entries_push(seen, records[i as int], year as int, month as int);
                month_entries(seen, year as int, month as int).lemma_filter_push(
                    (h@.day, h@.name),
                    on_day(day as int),
                );
            }
            if h.year() == year && h.month() == month && h.day() == day {
                listed.push((day, h.name().to_owned()));
                assert(entries_of(listed@) == before.push((h@.day, h@.name)));
            }
            i += 1;
        }
        assert(records.take(i as int) == records);
        day += 1;
    }
    proof {
        lemma_month_listing(records, year as int, month as int);
    }
    listed
}

} // verus!
