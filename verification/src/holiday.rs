//! Dated holiday records: reading them from the rows of a holiday source,
//! finding the holiday of a date, and listing the holidays of a month.

use crate::text::{
    chars_of, parse_i32, parse_int, replace_char, replaced, split, split_spans, trim, trim_span,
};
use vstd::prelude::*;
use vstd::slice::slice_subrange;
use vstd::string::StrSliceExecFns;

verus! {

/// What a holiday record says: a date and a label.
pub struct HolidayRecord {
    pub year: int,
    pub month: int,
    pub day: int,
    pub name: Seq<char>,
}

/// The dates that a record may carry. The day is held to 1..=31 whatever the
/// month, so a record may name a day that its month does not have.
pub open spec fn in_range(year: int, month: int, day: int) -> bool {
    1900 <= year <= 2100 && 1 <= month <= 12 && 1 <= day <= 31
}

impl HolidayRecord {
    /// Whether the date of the record is in range.
    pub open spec fn valid(self) -> bool {
        in_range(self.year, self.month, self.day)
    }
}

/// Whether every record has its date in range.
pub open spec fn all_valid(records: Seq<HolidayRecord>) -> bool {
    forall|i: int| 0 <= i < records.len() ==> (#[trigger] records[i]).valid()
}

/// A holiday record. Its date always lies in the range of `in_range`.
#[derive(Debug)]
pub struct Holiday {
    year: i32,
    month: i32,
    day: i32,
    name: String,
}

impl View for Holiday {
    type V = HolidayRecord;

    closed spec fn view(&self) -> HolidayRecord {
        HolidayRecord {
            year: self.year as int,
            month: self.month as int,
            day: self.day as int,
            name: self.name@,
        }
    }
}

impl Clone for Holiday {
    fn clone(&self) -> (copy: Holiday)
        ensures
            copy@ == self@,
    {
        proof {
            use_type_invariant(self);
        }
        Holiday { year: self.year, month: self.month, day: self.day, name: self.name.clone() }
    }
}

/// What a list of holidays says, record by record.
pub open spec fn records_of(holidays: Seq<Holiday>) -> Seq<HolidayRecord> {
    holidays.map_values(|h: Holiday| h@)
}

/// The texts of a list of rows.
pub open spec fn texts_of(rows: Seq<String>) -> Seq<Seq<char>> {
    rows.map_values(|row: String| row@)
}

/// The record that a source row holds, if it holds one.
///
/// The row is trimmed and split at commas; it must be non-empty and have at
/// least two fields. The first field, trimmed, is the date: with every `/`
/// read as `-` it must split at `-` into exactly three integers, year, month
/// and day, within the range of `in_range`. The second field, trimmed, is the
/// label, which may be empty. Further fields are ignored.
pub open spec fn parse_row(row: Seq<char>) -> Option<HolidayRecord> {
    let line = trim(row);
    let fields = split(line, ',');
    if line.len() == 0 || fields.len() < 2 {
        None
    } else {
        let parts = split(replaced(trim(fields[0]), '/', '-'), '-');
        if parts.len() != 3 {
            None
        } else {
            match (parse_int(parts[0]), parse_int(parts[1]), parse_int(parts[2])) {
                (Some(year), Some(month), Some(day)) => if in_range(year, month, day) {
                    Some(HolidayRecord { year, month, day, name: trim(fields[1]) })
                } else {
                    None
                },
                _ => None,
            }
        }
    }
}

/// The records of a holiday source, in row order. The first row is a header
/// and is passed over unread; every later row gives one record or none.
pub open spec fn parse_rows(rows: Seq<Seq<char>>) -> Seq<HolidayRecord>
    decreases rows.len(),
{
    if rows.len() <= 1 {
        Seq::empty()
    } else {
        let earlier = parse_rows(rows.drop_last());
        match parse_row(rows.last()) {
            Some(record) => earlier.push(record),
            None => earlier,
        }
    }
}

/// The test for a record of the given date.
pub open spec fn on_date(year: int, month: int, day: int) -> spec_fn(HolidayRecord) -> bool {
    |r: HolidayRecord| r.year == year && r.month == month && r.day == day
}

/// The name of the first record of the given date, if there is one.
pub open spec fn lookup(records: Seq<HolidayRecord>, year: int, month: int, day: int) -> Option<
    Seq<char>,
> {
    let found = records.filter(on_date(year, month, day));
    if found.len() > 0 {
        Some(found.first().name)
    } else {
        None
    }
}

impl Holiday {
    #[verifier::type_invariant]
    spec fn date_in_range(self) -> bool {
        in_range(self.year as int, self.month as int, self.day as int)
    }

    /// A record of the given date and label, unless the date is out of range.
    pub fn new(year: i32, month: i32, day: i32, name: String) -> (made: Option<Holiday>)
        ensures
            in_range(year as int, month as int, day as int) ==> made is Some && made->0@ == (
            HolidayRecord { year: year as int, month: month as int, day: day as int, name: name@ }),
            !in_range(year as int, month as int, day as int) ==> made is None,
    {
        if year >= 1900 && year <= 2100 && month >= 1 && month <= 12 && day >= 1 && day <= 31 {
            Some(Holiday { year, month, day, name })
        } else {
            None
        }
    }

    /// The year of the record, 1900 to 2100.
    pub fn year(&self) -> (year: i32)
        ensures
            year == self@.year,
            self@.valid(),
    {
        proof {
            use_type_invariant(self);
        }
        self.year
    }

    /// The month of the record, 1 to 12.
    pub fn month(&self) -> (month: i32)
        ensures
            month == self@.month,
            self@.valid(),
    {
        proof {
            use_type_invariant(self);
        }
        self.month
    }

    /// The day of the record, 1 to 31.
    pub fn day(&self) -> (day: i32)
        ensures
            day == self@.day,
            self@.valid(),
    {
        proof {
            use_type_invariant(self);
        }
        self.day
    }

    /// The label of the record.
    pub fn name(&self) -> (name: &str)
        ensures
            name@ == self@.name,
    {
        self.name.as_str()
    }
}

/// Reads one row of a holiday source.
pub fn parse_holiday_row(row: &str) -> (parsed: Option<Holiday>)
    ensures
        parsed matches Some(h) ==> parse_row(row@) == Some(h@),
        parsed is None ==> parse_row(row@) is None,
{
    let chars = chars_of(row);
    let (line_from, line_to) = trim_span(chars.as_slice());
    let line = slice_subrange(chars.as_slice(), line_from, line_to);
    if line.len() == 0 {
        return None;
    }
    let fields = split_spans(line, ',');
    if fields.len() < 2 {
        return None;
    }
    let date_field = slice_subrange(line, fields[0].0, fields[0].1);
    let (date_from, date_to) = trim_span(date_field);
    let date = replace_char(slice_subrange(date_field, date_from, date_to), '/', '-');
    let parts = split_spans(date.as_slice(), '-');
    if parts.len() != 3 {
        return None;
    }
    let year = parse_i32(slice_subrange(date.as_slice(), parts[0].0, parts[0].1));
    let month = parse_i32(slice_subrange(date.as_slice(), parts[1].0, parts[1].1));
    let day = parse_i32(slice_subrange(date.as_slice(), parts[2].0, parts[2].1));
    match (year, month, day) {
        (Some(year), Some(month), Some(day)) => {
            let name_field = slice_subrange(line, fields[1].0, fields[1].1);
            let (name_from, name_to) = trim_span(name_field);
            let from = line_from + fields[1].0 + name_from;
            let to = line_from + fields[1].0 + name_to;
            assert(row@.subrange(from as int, to as int) == name_field@.subrange(
                name_from as int,
                name_to as int,
            ));
            let name = row.substring_char(from, to).to_owned();
            Holiday::new(year, month, day, name)
        },
        _ => None,
    }
}

/// Reads a holiday source: a header row, then one row for each holiday.
/// Rows that hold no record are passed over.
pub fn load_holidays(rows: &[String]) -> (holidays: Vec<Holiday>)
    ensures
        records_of(holidays@) == parse_rows(texts_of(rows@)),
        all_valid(records_of(holidays@)),
{
    let mut holidays: Vec<Holiday> = Vec::new();
    let ghost texts = texts_of(rows@);
    let mut i: usize = 1;
    if rows.len() == 0 {
        return holidays;
    }
    assert(parse_rows(texts.take(1)) == Seq::<HolidayRecord>::empty());
    while i < rows.len()
        invariant
            1 <= i <= rows@.len(),
            texts == texts_of(rows@),
            records_of(holidays@) == parse_rows(texts.take(i as int)),
            all_valid(records_of(holidays@)),
        decreases rows@.len() - i,
    {
        let ghost before = records_of(holidays@);
        assert(texts.take(i as int + 1).drop_last() == texts.take(i as int));
        assert(texts.take(i as int + 1).last() == rows@[i as int]@);
        match parse_holiday_row(rows[i].as_str()) {
            Some(holiday) => {
                let ghost record = holiday@;
                proof {
                    use_type_invariant(&holiday);
                }
                holidays.push(holiday);
                assert(records_of(holidays@) == before.push(record));
            },
            None => {},
        }
        i += 1;
    }
    assert(texts.take(i as int) == texts);
    holidays
}

/// The first record of a date gives the date its name.
pub proof fn lemma_lookup_first(
    records: Seq<HolidayRecord>,
    year: int,
    month: int,
    day: int,
    at: int,
)
    requires
        0 <= at < records.len(),
        on_date(year, month, day)(records[at]),
        forall|i: int| 0 <= i < at ==> !on_date(year, month, day)(#[trigger] records[i]),
    ensures
        lookup(records, year, month, day) == Some(records[at].name),
{
    let wanted = on_date(year, month, day);
    let head = records.take(at);
    let tail = records.skip(at + 1);
    head.lemma_all_neg_filter_empty(wanted);
    head.lemma_filter_push(records[at], wanted);
    Seq::filter_distributes_over_add(head.push(records[at]), tail, wanted);
    assert(records == head.push(records[at]) + tail);
    assert(head.filter(wanted).push(records[at]).first() == records[at]);
}

/// A date of which there is no record has no name.
pub proof fn lemma_lookup_none(records: Seq<HolidayRecord>, year: int, month: int, day: int)
    requires
        forall|i: int|
            0 <= i < records.len() ==> !on_date(year, month, day)(#[trigger] records[i]),
    ensures
        lookup(records, year, month, day) is None,
{
    records.lemma_all_neg_filter_empty(on_date(year, month, day));
}

/// A date has a name exactly if there is a record of it.
pub proof fn lemma_lookup_some(records: Seq<HolidayRecord>, year: int, month: int, day: int)
    ensures
        lookup(records, year, month, day) is Some <==> exists|i: int|
            0 <= i < records.len() && on_date(year, month, day)(#[trigger] records[i]),
{
    let wanted = on_date(year, month, day);
    if exists|i: int| 0 <= i < records.len() && wanted(#[trigger] records[i]) {
        let i = choose|i: int| 0 <= i < records.len() && wanted(#[trigger] records[i]);
        records.lemma_filter_contains(wanted, i);
    } else {
        lemma_lookup_none(records, year, month, day);
    }
}

/// Each row after the header adds its record, if it holds one, at the end.
pub proof fn lemma_parse_rows_push(rows: Seq<Seq<char>>, row: Seq<char>)
    requires
        rows.len() >= 1,
    ensures
        parse_rows(rows.push(row)) == match parse_row(row) {
            Some(record) => parse_rows(rows).push(record),
            None => parse_rows(rows),
        },
{
    assert(rows.push(row).drop_last() == rows);
}

/// Every record of a source has its date in range.
pub proof fn lemma_parse_rows_valid(rows: Seq<Seq<char>>)
    ensures
        all_valid(parse_rows(rows)),
    decreases rows.len(),
{
    if rows.len() > 1 {
        lemma_parse_rows_valid(rows.drop_last());
    }
}

/// Records are not merged. Two rows of the same date, at the end of a source
/// that has no earlier record of that date, give two records, and the date
/// has the name that the first of them gives it.
pub proof fn lemma_same_date_twice(rows: Seq<Seq<char>>, first: Seq<char>, second: Seq<char>)
    requires
        rows.len() >= 1,
        parse_row(first) is Some,
        parse_row(second) is Some,
        parse_row(first)->0.year == parse_row(second)->0.year,
        parse_row(first)->0.month == parse_row(second)->0.month,
        parse_row(first)->0.day == parse_row(second)->0.day,
        lookup(
            parse_rows(rows),
            parse_row(first)->0.year,
            parse_row(first)->0.month,
            parse_row(first)->0.day,
        ) is None,
    ensures
        parse_rows(rows.push(first).push(second)) == parse_rows(rows).push(
            parse_row(first)->0,
        ).push(parse_row(second)->0),
        lookup(
            parse_rows(rows.push(first).push(second)),
            parse_row(first)->0.year,
            parse_row(first)->0.month,
            parse_row(first)->0.day,
        ) == Some(parse_row(first)->0.name),
{
    let one = parse_row(first)->0;
    let earlier = parse_rows(rows);
    lemma_parse_rows_push(rows, first);
    lemma_parse_rows_push(rows.push(first), second);
    lemma_lookup_some(earlier, one.year, one.month, one.day);
    let all = parse_rows(rows.push(first).push(second));
    assert forall|i: int| 0 <= i < earlier.len() implies !on_date(one.year, one.month, one.day)(
        #[trigger] all[i],
    ) by {
        assert(all[i] == earlier[i]);
    }
    lemma_lookup_first(all, one.year, one.month, one.day, earlier.len() as int);
}

/// A row that holds a record, fed twice after a header, gives the record
/// twice.
pub proof fn lemma_row_twice(header: Seq<char>, row: Seq<char>)
    requires
        parse_row(row) is Some,
    ensures
        parse_rows(seq![header, row, row]) == seq![parse_row(row)->0, parse_row(row)->0],
        lookup(
            parse_rows(seq![header, row, row]),
            parse_row(row)->0.year,
            parse_row(row)->0.month,
            parse_row(row)->0.day,
        ) == Some(parse_row(row)->0.name),
{
    let record = parse_row(row)->0;
    lemma_lookup_none(parse_rows(seq![header]), record.year, record.month, record.day);
    lemma_same_date_twice(seq![header], row, row);
    assert(seq![header].push(row).push(row) == seq![header, row, row]);
    assert(parse_rows(seq![header]).push(record).push(record) == seq![record, record]);
}

/// The name of the holiday on the given date: that of the first record of
/// that date, where several records share it.
pub fn is_holiday(holidays: &[Holiday], year: i32, month: i32, day: i32) -> (name: Option<String>)
    ensures
        name matches Some(n) ==> lookup(records_of(holidays@), year as int, month as int, day as int)
            == Some(n@),
        name is None ==> lookup(records_of(holidays@), year as int, month as int, day as int)
            is None,
{
    let ghost records = records_of(holidays@);
    let mut i: usize = 0;
    while i < holidays.len()
        invariant
            i <= holidays@.len(),
            records == records_of(holidays@),
            forall|j: int|
                0 <= j < i ==> !on_date(year as int, month as int, day as int)(
                    #[trigger] records[j],
                ),
        decreases holidays@.len() - i,
    {
        let h = &holidays[i];
        if h.year == year && h.month == month && h.day == day {
            proof {
                lemma_lookup_first(records, year as int, month as int, day as int, i as int);
            }
            return Some(h.name.clone());
        }
        i += 1;
    }
    proof {
        lemma_lookup_none(records, year as int, month as int, day as int);
    }
    None
}

} // verus!
