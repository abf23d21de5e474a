use chrono::{TimeDelta, TimeZone, Utc};
use worktable::calendar::day_of;
use worktable::entries::Entry;
use worktable::tablers::month_proportional::{MonthProportional, Period};

#[test]
fn entry_default() {
    let day = Utc.with_ymd_and_hms(2024, 10, 12, 0, 0, 0).unwrap();
    let entries = vec![Entry {
        start: day.checked_add_signed(TimeDelta::hours(13)).unwrap().timestamp(),
        end: day.checked_add_signed(TimeDelta::hours(14)).unwrap().timestamp(),
        ..Default::default()
    }];
    let table = MonthProportional::default().process(entries);
    assert_eq!(table.col_headers().len(), 1);
    assert_eq!(table.row_headers().len(), 1);
}

#[test]
fn one_day_half_time() {
    let p1 = String::from("project1");
    let p2 = String::from("project2");
    let t1 = String::from("task1");
    let day = Utc.with_ymd_and_hms(2024, 10, 12, 0, 0, 0).unwrap();

    let e2 = Entry {
        project: p2.clone(),
        start: day.checked_add_signed(TimeDelta::hours(13)).unwrap().timestamp(),
        end: day.checked_add_signed(TimeDelta::hours(15)).unwrap().timestamp(),
        ..Default::default()
    };

    let entries = vec![
        Entry {
            project: p1.clone(),
            task: t1.clone(),
            start: day.checked_add_signed(TimeDelta::hours(11)).unwrap().timestamp(),
            end: day.checked_add_signed(TimeDelta::hours(12)).unwrap().timestamp(),
            ..Default::default()
        },
        Entry {
            project: p1.clone(),
            task: t1.clone(),
            start: day.checked_add_signed(TimeDelta::hours(12)).unwrap().timestamp(),
            end: day.checked_add_signed(TimeDelta::hours(13)).unwrap().timestamp(),
            ..Default::default()
        },
        e2.clone(),
    ];
    let table = MonthProportional::default().process(entries);
    let day = day_of(day.timestamp());

    assert_eq!(table.col_headers().len(), 1);
    assert_eq!(table.row_headers().len(), 2);
    assert_eq!(table.get(&p2, day), 50);
    assert_eq!(table.get(&e2.to_project_task().to_string(), day), 50);
}

#[test]
fn col_sum_should_be_100() {
    let p1 = String::from("project1");
    let p2 = String::from("project2");
    let p3 = String::from("project3");
    let day = Utc.with_ymd_and_hms(2024, 10, 12, 0, 0, 0).unwrap();

    let entries = vec![
        Entry {
            project: p1.clone(),
            start: day.checked_add_signed(TimeDelta::hours(11)).unwrap().timestamp(),
            end: day.checked_add_signed(TimeDelta::hours(12)).unwrap().timestamp(),
            ..Default::default()
        },
        Entry {
            project: p2.clone(),
            start: day.checked_add_signed(TimeDelta::hours(12)).unwrap().timestamp(),
            end: day.checked_add_signed(TimeDelta::hours(13)).unwrap().timestamp(),
            ..Default::default()
        },
        Entry {
            project: p3.clone(),
            start: day.checked_add_signed(TimeDelta::hours(13)).unwrap().timestamp(),
            end: day.checked_add_signed(TimeDelta::hours(14)).unwrap().timestamp(),
            ..Default::default()
        },
    ];
    let table = MonthProportional::default().process(entries);
    let day = day_of(day.timestamp());

    let sum: u8 = table.row_headers().iter().map(|r| table.get(r, day)).sum();

    assert_eq!(table.col_headers().len(), 1);
    assert_eq!(table.row_headers().len(), 3);
    assert_eq!(sum, 100);
}

fn entry(project: &str, task: &str, start: i64, end: i64) -> Entry {
    Entry {
        project: project.to_string(),
        task: task.to_string(),
        start,
        end,
        ..Default::default()
    }
}

const DAY: i64 = 86_400;
const HOUR: i64 = 3_600;
const D0: i64 = 20_008;

#[test]
fn single_entry_fills_its_day() {
    let table = MonthProportional::default().process(vec![entry(
        "a",
        "",
        D0 * DAY + 13 * HOUR,
        D0 * DAY + 14 * HOUR,
    )]);
    assert_eq!(table.row_headers(), vec!["a".to_string()]);
    assert_eq!(table.col_headers(), vec![D0]);
    assert_eq!(table.get("a", D0), 100);
    assert_eq!(table.column_total(D0), 100);
}

#[test]
fn three_equal_rows_share_the_day() {
    let entries = vec![
        entry("a", "", D0 * DAY + 11 * HOUR, D0 * DAY + 12 * HOUR),
        entry("b", "", D0 * DAY + 12 * HOUR, D0 * DAY + 13 * HOUR),
        entry("c", "", D0 * DAY + 13 * HOUR, D0 * DAY + 14 * HOUR),
    ];
    let table = MonthProportional::default().process(entries);
    assert_eq!(table.get("a", D0), 34);
    assert_eq!(table.get("b", D0), 33);
    assert_eq!(table.get("c", D0), 33);
    assert_eq!(table.column_total(D0), 100);
}

#[test]
fn two_hours_against_two_single_hours() {
    let entries = vec![
        entry("a", "", D0 * DAY + 9 * HOUR, D0 * DAY + 10 * HOUR),
        entry("a", "", D0 * DAY + 10 * HOUR, D0 * DAY + 11 * HOUR),
        entry("b", "", D0 * DAY + 11 * HOUR, D0 * DAY + 13 * HOUR),
    ];
    let table = MonthProportional::default().process(entries);
    assert_eq!(table.get("a", D0), 50);
    assert_eq!(table.get("b", D0), 50);
}

#[test]
fn one_hour_against_two_hours() {
    let entries = vec![
        entry("a", "", D0 * DAY + 9 * HOUR, D0 * DAY + 10 * HOUR),
        entry("b", "", D0 * DAY + 10 * HOUR, D0 * DAY + 12 * HOUR),
    ];
    let table = MonthProportional::default().process(entries);
    // 33 1/3 and 66 2/3 slots: the slot left goes to the larger remainder.
    assert_eq!(table.get("a", D0), 33);
    assert_eq!(table.get("b", D0), 67);
}

#[test]
fn override_comes_before_durations() {
    let mut half = entry("a", "", D0 * DAY + 9 * HOUR, D0 * DAY + 10 * HOUR);
    half.absolute = Some(250);
    let entries = vec![
        half,
        entry("b", "", D0 * DAY + 10 * HOUR, D0 * DAY + 11 * HOUR),
        entry("c", "", D0 * DAY + 11 * HOUR, D0 * DAY + 14 * HOUR),
    ];
    let table = MonthProportional::default().process(entries);
    // a: 0.25 day = 25 slots; the other 75 go 1 : 3, that is 18.75 and 56.25,
    // and the one slot left to the larger remainder.
    assert_eq!(table.get("a", D0), 25);
    assert_eq!(table.get("b", D0), 19);
    assert_eq!(table.get("c", D0), 56);
}

#[test]
fn overrides_beyond_the_day_are_cut() {
    let mut first = entry("a", "", D0 * DAY, D0 * DAY + HOUR);
    first.absolute = Some(800);
    let mut second = entry("b", "", D0 * DAY, D0 * DAY + HOUR);
    second.absolute = Some(800);
    let third = entry("c", "", D0 * DAY, D0 * DAY + HOUR);
    let table = MonthProportional::default().process(vec![first, second, third]);
    assert_eq!(table.get("a", D0), 80);
    assert_eq!(table.get("b", D0), 20);
    assert_eq!(table.get("c", D0), 0);
    assert_eq!(table.row_headers().len(), 2);
    assert_eq!(table.column_total(D0), 100);
}

#[test]
fn entries_without_duration_claim_nothing() {
    let table = MonthProportional::default().process(vec![entry("a", "", D0 * DAY, D0 * DAY)]);
    assert_eq!(table.len(), 0);
    assert_eq!(table.get("a", D0), 0);
}

#[test]
fn out_of_office_is_no_work() {
    let mut away = entry("holiday", "", (D0 + 1) * DAY, (D0 + 1) * DAY + 8 * HOUR);
    away.tags = vec!["out-of-office".to_string()];
    let entries = vec![entry("a", "", D0 * DAY, D0 * DAY + HOUR), away];
    let tabler = MonthProportional { period: Period::All, granularity: 100 };
    let table = tabler.process(entries);
    assert_eq!(table.col_headers(), vec![D0]);
    assert_eq!(table.row_headers(), vec!["a".to_string()]);
    assert_eq!(table.get("a", D0), 100);
    assert_eq!(table.get("holiday", D0 + 1), 0);
}

#[test]
fn coarse_granularity_gives_coarse_points() {
    let entries = vec![
        entry("a", "", D0 * DAY + 9 * HOUR, D0 * DAY + 10 * HOUR),
        entry("b", "", D0 * DAY + 10 * HOUR, D0 * DAY + 12 * HOUR),
    ];
    let tabler = MonthProportional { period: Period::Day, granularity: 4 };
    let table = tabler.process(entries);
    // a: 4/3 slots, b: 8/3 slots; the slot left goes to b.
    assert_eq!(table.get("a", D0), 25);
    assert_eq!(table.get("b", D0), 75);
}

#[test]
fn a_month_is_shared_across_its_days() {
    // 2024-10-12 and 2024-10-13: a works both days, b only the second.
    let entries = vec![
        entry("a", "", D0 * DAY + 9 * HOUR, D0 * DAY + 12 * HOUR),
        entry("a", "", (D0 + 1) * DAY + 9 * HOUR, (D0 + 1) * DAY + 10 * HOUR),
        entry("b", "", (D0 + 1) * DAY + 10 * HOUR, (D0 + 1) * DAY + 14 * HOUR),
    ];
    let tabler = MonthProportional { period: Period::Month, granularity: 100 };
    let table = tabler.process(entries);
    assert_eq!(table.column_total(D0), 100);
    assert_eq!(table.column_total(D0 + 1), 100);
    assert_eq!(table.get("a", D0) as u32 + table.get("a", D0 + 1) as u32, 100);
    assert_eq!(table.get("b", D0) as u32 + table.get("b", D0 + 1) as u32, 100);
    // a comes first and puts 75 and 25 on its days, each entry's own share;
    // b finds 75 left on its day and puts the rest on the other.
    assert_eq!(table.get("a", D0), 75);
    assert_eq!(table.get("a", D0 + 1), 25);
    assert_eq!(table.get("b", D0 + 1), 75);
    assert_eq!(table.get("b", D0), 25);
}

#[test]
fn days_are_apportioned_apart() {
    let entries = vec![
        entry("a", "", (D0 + 1) * DAY, (D0 + 1) * DAY + HOUR),
        entry("b", "", D0 * DAY, D0 * DAY + HOUR),
        entry("a", "", D0 * DAY, D0 * DAY + 3 * HOUR),
    ];
    let table = MonthProportional::default().process(entries);
    assert_eq!(table.get("b", D0), 25);
    assert_eq!(table.get("a", D0), 75);
    assert_eq!(table.get("a", D0 + 1), 100);
    assert_eq!(table.col_headers(), vec![D0, D0 + 1]);
}

#[test]
fn no_day_sums_to_more_than_a_hundred() {
    let mut entries = Vec::new();
    for i in 0..40i64 {
        let day = D0 + i % 7;
        let mut e = entry(
            ["a", "b", "c", "d", "e"][(i % 5) as usize],
            ["", "x"][(i % 2) as usize],
            day * DAY + (i % 11) * HOUR,
            day * DAY + (i % 11) * HOUR + (i % 4) * 1_000 + 7,
        );
        if i % 6 == 0 {
            e.absolute = Some((i * 37 % 900) as u32);
        }
        entries.push(e);
    }
    for period in [Period::Day, Period::Week, Period::Month, Period::Year, Period::All] {
        for granularity in [1u8, 2, 4, 5, 10, 20, 25, 50, 100] {
            let table = MonthProportional { period, granularity }.process(entries.clone());
            for day in table.col_headers() {
                assert!(table.column_total(day) <= 100);
            }
        }
    }
}

#[test]
fn the_same_entries_give_the_same_table() {
    let entries = vec![
        entry("a", "", D0 * DAY + 11 * HOUR, D0 * DAY + 12 * HOUR),
        entry("b", "", D0 * DAY + 12 * HOUR, D0 * DAY + 13 * HOUR),
        entry("c", "", D0 * DAY + 13 * HOUR, D0 * DAY + 14 * HOUR),
    ];
    let tabler = MonthProportional { period: Period::Week, granularity: 100 };
    let one = tabler.process(entries.clone());
    let other = tabler.process(entries);
    assert_eq!(one.row_headers(), other.row_headers());
    assert_eq!(one.col_headers(), other.col_headers());
    for row in one.row_headers() {
        for day in one.col_headers() {
            assert_eq!(one.get(&row, day), other.get(&row, day));
        }
    }
}

#[test]
fn validity_of_the_granularity() {
    assert!(MonthProportional::default().is_valid());
    assert!(MonthProportional { period: Period::Day, granularity: 25 }.is_valid());
    assert!(!MonthProportional { period: Period::Day, granularity: 0 }.is_valid());
    assert!(!MonthProportional { period: Period::Day, granularity: 3 }.is_valid());
    assert!(!MonthProportional { period: Period::Day, granularity: 200 }.is_valid());
}

#[test]
fn days_without_overrides_are_filled() {
    let mut entries = Vec::new();
    for i in 0..60i64 {
        let day = D0 + (i * 5) % 23;
        entries.push(entry(
            ["a", "b", "c", "d", "e", "f", "g"][(i % 7) as usize],
            ["", "x", "y"][(i % 3) as usize],
            day * DAY + (i % 13) * HOUR,
            day * DAY + (i % 13) * HOUR + 1 + (i * 977) % 9_000,
        ));
    }
    for period in [Period::Day, Period::Week, Period::Month, Period::Year, Period::All] {
        for granularity in [1u8, 2, 4, 5, 10, 20, 25, 50, 100] {
            let table = MonthProportional { period, granularity }.process(entries.clone());
            assert_eq!(table.col_headers().len(), 23);
            for day in table.col_headers() {
                assert_eq!(table.column_total(day), 100);
            }
        }
    }
}

#[test]
fn a_day_of_overrides_alone_may_stay_open() {
    // Overrides of 0.3 days are all that is asked for: 30 of the 100 slots.
    let mut only = entry("a", "", D0 * DAY, D0 * DAY);
    only.absolute = Some(300);
    let table = MonthProportional::default().process(vec![only]);
    assert_eq!(table.get("a", D0), 30);
    assert_eq!(table.column_total(D0), 30);
}

#[test]
fn many_entries_in_any_order() {
    let mut entries = Vec::new();
    for i in 0..3_000i64 {
        let day = D0 + 299 - (i * 7) % 300;
        entries.push(entry(
            ["a", "b", "c", "d", "e", "f", "g", "h", "i", "j"][(i % 10) as usize],
            "",
            day * DAY + (i % 9) * HOUR,
            day * DAY + (i % 9) * HOUR + 60 + (i * 131) % 7_000,
        ));
    }
    for period in [Period::Day, Period::Month, Period::All] {
        let table = MonthProportional { period, granularity: 100 }.process(entries.clone());
        let days = table.col_headers();
        assert_eq!(days.len(), 300);
        assert!(days.windows(2).all(|pair| pair[0] < pair[1]));
        for day in days {
            assert_eq!(table.column_total(day), 100);
        }
    }
}

#[test]
fn no_entries_no_cells() {
    for period in [Period::Day, Period::Week, Period::Month, Period::Year, Period::All] {
        let table = MonthProportional { period, granularity: 100 }.process(Vec::new());
        assert_eq!(table.len(), 0);
        assert!(table.row_headers().is_empty());
        assert!(table.col_headers().is_empty());
    }
}
