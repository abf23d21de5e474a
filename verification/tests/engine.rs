use chrono::{DateTime, NaiveDate, Utc};
use worktable::calendar::{day_of, MAX_DAY, MAX_TIMESTAMP, MIN_DAY, MIN_TIMESTAMP};
use worktable::entries::Entry;
use worktable::interning::intern;
use worktable::ordering::sort_indices;
use worktable::tablers::bucket::{survey, working_items, Item};
use worktable::tablers::month_proportional::{itemize, MonthProportional, Period};
use worktable::tablers::partition::{in_same_period, partition, sort_by_start_day};
use worktable::tablers::placement::{allocate, place_quotas};
use worktable::tablers::quota::{apportion, calculate_quotas, claims_of, scale_of};
use worktable::tablers::Table;

const DAY: i64 = 86_400;

fn at(day: i64, project: &str) -> Entry {
    Entry { project: project.to_string(), start: day * DAY, end: day * DAY + 60, ..Default::default() }
}

fn item(row: usize, day: i64, seconds: u64, absolute: Option<u32>) -> Item {
    Item { row, day, seconds, absolute, working: true }
}

fn placed(log: &[worktable::tablers::placement::Placement]) -> Vec<(usize, i64, u8)> {
    log.iter().map(|p| (p.row, p.day, p.amount)).collect()
}

#[test]
fn the_range_of_days_is_that_of_chrono() {
    assert_eq!(NaiveDate::MIN.to_epoch_days() as i64, MIN_DAY);
    assert_eq!(NaiveDate::MAX.to_epoch_days() as i64, MAX_DAY);
    assert_eq!(DateTime::<Utc>::MIN_UTC.timestamp(), MIN_TIMESTAMP);
    assert_eq!(DateTime::<Utc>::MAX_UTC.timestamp(), MAX_TIMESTAMP);
    assert!(NaiveDate::from_epoch_days(MIN_DAY as i32 - 1).is_none());
    assert!(NaiveDate::from_epoch_days(MAX_DAY as i32 + 1).is_none());
}

#[test]
fn the_day_of_a_timestamp() {
    assert_eq!(day_of(0), 0);
    assert_eq!(day_of(86_399), 0);
    assert_eq!(day_of(86_400), 1);
    assert_eq!(day_of(-1), -1);
    assert_eq!(day_of(-86_400), -1);
    assert_eq!(day_of(-86_401), -2);
    assert_eq!(day_of(1_728_738_000), 20_008);
    assert_eq!(day_of(MIN_TIMESTAMP), MIN_DAY);
    assert_eq!(day_of(MAX_TIMESTAMP), MAX_DAY);
}

#[test]
fn entries_at_the_ends_of_the_calendar() {
    let first = Entry { start: MIN_TIMESTAMP, end: MIN_TIMESTAMP, ..Default::default() };
    let last = Entry { start: MAX_TIMESTAMP, end: MAX_TIMESTAMP, ..Default::default() };
    for period in [Period::Day, Period::Week, Period::Month, Period::Year] {
        assert!(!in_same_period(&period, &first, &last));
        assert!(in_same_period(&period, &first, &first));
        assert!(in_same_period(&period, &last, &last));
    }
    assert!(in_same_period(&Period::All, &first, &last));
    let longest = Entry { start: MIN_TIMESTAMP, end: MAX_TIMESTAMP, ..Default::default() };
    assert!(longest.is_valid());
    assert_eq!(longest.duration(), 16_544_868_105_599);
    let table = MonthProportional::default().process(vec![longest]);
    assert_eq!(table.get("", MIN_DAY), 100);
}

#[test]
fn periods_of_the_civil_calendar() {
    // 2024-12-30 is a Monday; with 2025-01-01 it lies in the first ISO week of 2025.
    let monday = at(20_087, "a");
    let tuesday = at(20_088, "a");
    let new_year = at(20_089, "a");
    assert!(in_same_period(&Period::Week, &monday, &new_year));
    assert!(!in_same_period(&Period::Month, &tuesday, &new_year));
    assert!(!in_same_period(&Period::Year, &tuesday, &new_year));
    assert!(in_same_period(&Period::Month, &monday, &tuesday));
    assert!(in_same_period(&Period::Year, &monday, &tuesday));
    assert!(!in_same_period(&Period::Day, &monday, &tuesday));
    // 2024-12-29 is the Sunday before: another week, the same month.
    let sunday = at(20_086, "a");
    assert!(!in_same_period(&Period::Week, &sunday, &monday));
    assert!(in_same_period(&Period::Month, &sunday, &monday));
    // 1969-12-31 and 1970-01-01: a Wednesday and the Thursday behind it.
    assert!(in_same_period(&Period::Week, &at(-1, "a"), &at(0, "a")));
    assert!(!in_same_period(&Period::Month, &at(-1, "a"), &at(0, "a")));
    assert!(!in_same_period(&Period::Year, &at(-1, "a"), &at(0, "a")));
    assert!(in_same_period(&Period::Year, &at(-365, "a"), &at(-1, "a")));
    assert!(!in_same_period(&Period::Year, &at(-366, "a"), &at(-1, "a")));
    // 2024-01-31 and 2024-02-01; 2023-02-01 and 2024-02-01.
    assert!(!in_same_period(&Period::Month, &at(19_753, "a"), &at(19_754, "a")));
    assert!(!in_same_period(&Period::Month, &at(19_389, "a"), &at(19_754, "a")));
    assert!(in_same_period(&Period::Year, &at(19_753, "a"), &at(19_754, "a")));
}

#[test]
fn runs_of_one_period() {
    let entries = vec![
        at(20_086, "a"),
        at(20_087, "a"),
        at(20_087, "b"),
        at(20_088, "a"),
        at(20_089, "a"),
    ];
    assert_eq!(partition(&entries, &Period::Day), vec![1, 3, 4, 5]);
    assert_eq!(partition(&entries, &Period::Week), vec![1, 5]);
    assert_eq!(partition(&entries, &Period::Month), vec![4, 5]);
    assert_eq!(partition(&entries, &Period::Year), vec![4, 5]);
    assert_eq!(partition(&entries, &Period::All), vec![5]);
    assert_eq!(partition(&[], &Period::Day), Vec::<usize>::new());
    assert_eq!(partition(&entries[..1], &Period::Day), vec![1]);
}

#[test]
fn runs_are_not_joined_across_other_periods() {
    let entries = vec![at(5, "a"), at(6, "a"), at(5, "a")];
    assert_eq!(partition(&entries, &Period::Day), vec![1, 2, 3]);
}

#[test]
fn sorting_keeps_the_order_within_a_day() {
    let mut entries = vec![at(3, "c1"), at(1, "a1"), at(3, "c2"), at(2, "b"), at(1, "a2"), at(0, "z")];
    sort_by_start_day(&mut entries);
    let order: Vec<&str> = entries.iter().map(|e| e.project.as_str()).collect();
    assert_eq!(order, vec!["z", "a1", "a2", "b", "c1", "c2"]);
    let mut none: Vec<Entry> = Vec::new();
    sort_by_start_day(&mut none);
    assert!(none.is_empty());
}

#[test]
fn sorting_goes_by_the_day_and_not_by_the_hour() {
    let late = Entry { project: "late".to_string(), start: 7 * DAY + 80_000, end: 7 * DAY + 80_000, ..Default::default() };
    let early = Entry { project: "early".to_string(), start: 7 * DAY + 5, end: 7 * DAY + 5, ..Default::default() };
    let mut entries = vec![late, early];
    sort_by_start_day(&mut entries);
    assert_eq!(entries[0].project, "late");
    assert_eq!(entries[1].project, "early");
}

#[test]
fn positions_by_key() {
    assert_eq!(sort_indices(&vec![3, 1, 2]), vec![1, 2, 0]);
    assert_eq!(sort_indices(&vec![5, 5, 1, 5, 1]), vec![2, 4, 0, 1, 3]);
    assert_eq!(sort_indices(&vec![-1, i128::MIN, i128::MAX, 0]), vec![1, 0, 3, 2]);
    assert_eq!(sort_indices(&vec![]), Vec::<usize>::new());
    assert_eq!(sort_indices(&vec![1, 2, 3, 4]), vec![0, 1, 2, 3]);
    assert_eq!(sort_indices(&vec![4, 3, 2, 1]), vec![3, 2, 1, 0]);
}

#[test]
fn distinct_keys_in_order() {
    let (labels, slots) = intern(&vec![7, 3, 7, 9, 3, 7]);
    assert_eq!(labels, vec![7, 3, 9]);
    assert_eq!(slots, vec![0, 1, 0, 2, 1, 0]);
    let (labels, slots) = intern(&vec![]);
    assert!(labels.is_empty() && slots.is_empty());
}

#[test]
fn whole_slots_first_then_the_largest_remainders() {
    assert_eq!(apportion(&vec![25, 0, 0], &vec![0, 18, 56], &vec![0, 3, 1], 100), vec![25, 19, 56]);
    assert_eq!(apportion(&vec![0, 0, 0], &vec![33, 33, 33], &vec![1, 1, 1], 100), vec![34, 33, 33]);
    assert_eq!(apportion(&vec![0, 0, 0], &vec![33, 33, 33], &vec![1, 2, 1], 100), vec![33, 34, 33]);
    assert_eq!(apportion(&vec![0, 0], &vec![50, 50], &vec![0, 0], 100), vec![50, 50]);
}

#[test]
fn claims_beyond_the_budget_are_cut() {
    assert_eq!(apportion(&vec![80, 80], &vec![0, 0], &vec![0, 0], 100), vec![80, 20]);
    assert_eq!(apportion(&vec![60, 0], &vec![0, 70], &vec![0, 0], 100), vec![60, 40]);
    assert_eq!(apportion(&vec![99, 0, 0], &vec![0, 0, 0], &vec![5, 5, 5], 100), vec![100, 0, 0]);
    assert_eq!(apportion(&vec![7, 8], &vec![1, 2], &vec![1, 0], 0), vec![0, 0]);
    assert_eq!(apportion(&vec![u128::MAX], &vec![u128::MAX], &vec![1], u64::MAX), vec![u64::MAX]);
}

#[test]
fn a_remainder_gives_one_slot_only() {
    // Three slots are left and two rows have a remainder: one slot stays.
    assert_eq!(apportion(&vec![0, 0], &vec![49, 48], &vec![3, 3], 100), vec![50, 49]);
    assert_eq!(apportion(&vec![10, 10], &vec![0, 0], &vec![0, 0], 100), vec![10, 10]);
    assert_eq!(apportion(&vec![], &vec![], &vec![], 100), Vec::<u64>::new());
}

#[test]
fn only_working_items_are_surveyed() {
    let mut away = item(4, 9, 100, None);
    away.working = false;
    let items = vec![item(2, 5, 60, None), away, item(2, 6, 30, Some(500)), item(0, 5, 10, None)];
    assert_eq!(working_items(&items).len(), 3);
    let s = survey(&items);
    assert_eq!(s.rows, vec![2, 0]);
    assert_eq!(s.days, vec![5, 6]);
    assert_eq!(s.row_of, vec![0, 0, 1]);
    assert_eq!(s.day_of, vec![0, 1, 0]);
    assert_eq!(s.absolute, vec![500, 0]);
    assert_eq!(s.relative, vec![60, 10]);
    assert_eq!(s.total_absolute, 500);
    assert_eq!(s.total_relative, 70);
}

#[test]
fn placements_in_their_order() {
    // Row 1 has the smaller quota and is served first.
    let items = vec![item(0, 5, 3 * 3600, None), item(1, 5, 3600, None)];
    assert_eq!(placed(&allocate(&items, 100)), vec![(1, 5, 25), (0, 5, 75)]);
    assert_eq!(placed(&allocate(&items, 4)), vec![(1, 5, 1), (0, 5, 3)]);
    assert_eq!(placed(&allocate(&[].to_vec(), 100)), vec![]);
}

#[test]
fn a_full_day_sends_the_rest_elsewhere() {
    // Two days, 200 slots, 100 for each row. Row 0 puts 75 and 25 on its days;
    // row 1 finds 75 on its day and then goes by what the days have left.
    let items = vec![item(0, 5, 3 * 3600, None), item(0, 6, 3600, None), item(1, 6, 4 * 3600, None)];
    assert_eq!(
        placed(&allocate(&items, 100)),
        vec![(0, 5, 75), (0, 6, 25), (1, 6, 75), (1, 6, 0), (1, 6, 0), (1, 5, 25)]
    );
}

#[test]
fn the_second_pass_lifts_the_bound_of_the_items() {
    // One row, two days: 200 slots for it; each item's own share is 100.
    let items = vec![item(0, 5, 60, None), item(0, 6, 60, None)];
    assert_eq!(placed(&allocate(&items, 100)), vec![(0, 5, 100), (0, 6, 100)]);
    // The override claims 1.5 days of two: 150 slots; the seconds get the other 50.
    let items = vec![item(0, 5, 60, Some(1500)), item(1, 6, 60, None)];
    assert_eq!(
        placed(&allocate(&items, 100)),
        vec![(1, 6, 50), (0, 5, 100), (0, 5, 0), (0, 5, 0), (0, 6, 50)]
    );
}

#[test]
fn rows_are_numbered_by_first_appearance() {
    let entries = vec![
        Entry { project: "p".to_string(), task: "t".to_string(), start: 10, end: 20, ..Default::default() },
        Entry { project: "q".to_string(), start: DAY, end: DAY + 5, absolute: Some(250), ..Default::default() },
        Entry { project: "p".to_string(), task: "t".to_string(), start: 30, end: 31, tags: vec!["out-of-office".to_string()], ..Default::default() },
        Entry { project: "p:t".to_string(), start: 40, end: 41, ..Default::default() },
    ];
    let (names, items) = itemize(&entries);
    assert_eq!(names, vec!["p:t".to_string(), "q".to_string()]);
    let rows: Vec<usize> = items.iter().map(|i| i.row).collect();
    assert_eq!(rows, vec![0, 1, 0, 0]);
    assert_eq!(items[0].seconds, 10);
    assert_eq!(items[1].day, 1);
    assert_eq!(items[1].absolute, Some(250));
    assert!(items[0].working && !items[2].working);
}

#[test]
fn a_table_adds_nothing_by_itself() {
    let mut table = Table::new();
    assert_eq!(table.len(), 0);
    assert_eq!(table.get("a", 1), 0);
    assert_eq!(table.insert("a".to_string(), 1, 10), None);
    assert_eq!(table.insert("b".to_string(), 1, 20), None);
    assert_eq!(table.insert("a".to_string(), 2, 30), None);
    assert_eq!(table.insert("a".to_string(), 1, 5), Some(10));
    assert_eq!(table.get("a", 1), 5);
    assert_eq!(table.get("b", 1), 20);
    assert_eq!(table.get("b", 2), 0);
    assert_eq!(table.len(), 3);
    assert_eq!(table.row_headers(), vec!["a".to_string(), "b".to_string()]);
    assert_eq!(table.col_headers(), vec![1, 2]);
    assert_eq!(table.column_total(1), 25);
    assert_eq!(table.column_total(2), 30);
    assert_eq!(table.column_total(3), 0);
    assert_eq!(Table::default().len(), 0);
}

#[test]
fn one_bucket_on_a_table_that_holds_other_days() {
    let mut table = Table::new();
    table.insert("old".to_string(), 1, 40);
    let entries = vec![at(7, "a"), at(7, "b")];
    MonthProportional::default().process_slice(&mut table, &entries);
    assert_eq!(table.get("old", 1), 40);
    assert_eq!(table.get("a", 7), 50);
    assert_eq!(table.get("b", 7), 50);
    assert_eq!(table.column_total(7), 100);
    assert_eq!(table.column_total(1), 40);
}

#[test]
fn the_row_key_of_an_entry() {
    let with_task = Entry { project: "p".to_string(), task: "t".to_string(), ..Default::default() };
    let without = Entry { project: "p".to_string(), ..Default::default() };
    assert_eq!(with_task.to_project_task(), "p:t");
    assert_eq!(without.to_project_task(), "p");
    assert_eq!(Entry::default().to_project_task(), "");
    assert!(!without.is_out_of_office());
    let away = Entry { tags: vec!["x".to_string(), "out-of-office".to_string()], ..Default::default() };
    assert!(away.is_out_of_office());
    let backwards = Entry { start: 5, end: 4, ..Default::default() };
    assert!(!backwards.is_valid());
    assert!(!Entry { start: MIN_TIMESTAMP - 1, end: 0, ..Default::default() }.is_valid());
    assert!(!Entry { start: 0, end: MAX_TIMESTAMP + 1, ..Default::default() }.is_valid());
    assert_eq!(Entry { start: -1, end: 5, ..Default::default() }.get_start_day(), -1);
}

#[test]
fn rounding_that_leaves_a_day_short() {
    // Two rows with 0.007 days of override each and seconds as 498 to 488: the
    // shares are 0.7 + 49.8 and 0.7 + 48.8 slots. Three slots are left after
    // the whole ones, and only two rows to take one each.
    let entries = vec![
        Entry { project: "a".to_string(), start: 0, end: 1, absolute: Some(7), ..Default::default() },
        Entry { project: "a".to_string(), start: 0, end: 498, ..Default::default() },
        Entry { project: "b".to_string(), start: 0, end: 1, absolute: Some(7), ..Default::default() },
        Entry { project: "b".to_string(), start: 0, end: 488, ..Default::default() },
    ];
    let table = MonthProportional::default().process(entries);
    assert_eq!(table.get("a", 0), 50);
    assert_eq!(table.get("b", 0), 49);
    assert_eq!(table.column_total(0), 99);
}

#[test]
fn the_shares_of_a_bucket() {
    // Two days; a claims 0.25 days by override, b and c share the rest 1 : 3.
    let items = vec![
        item(0, 5, 600, Some(250)),
        item(1, 5, 3_600, None),
        item(2, 6, 10_800, None),
    ];
    let s = survey(&items);
    let scale = scale_of(&s, 100);
    assert_eq!(scale.budget, 200);
    assert_eq!(scale.pool, 175_000);
    assert_eq!(scale.weight, 14_400);
    let claims = claims_of(&s, &scale);
    assert_eq!(claims.absolute, vec![25, 0, 0]);
    assert_eq!(claims.relative, vec![0, 43, 131]);
    assert_eq!(claims.remainder, vec![0, 10_800_000, 3_600_000]);
    assert_eq!(calculate_quotas(&s, &scale), vec![25, 44, 131]);
    let coarse = scale_of(&s, 1);
    assert_eq!(calculate_quotas(&s, &coarse), vec![0, 1, 1]);
}

#[test]
fn shares_without_seconds_or_without_days() {
    let s = survey(&vec![item(0, 5, 0, None), item(1, 5, 0, Some(2_500))]);
    let scale = scale_of(&s, 100);
    assert_eq!((scale.budget, scale.pool, scale.weight), (100, 0, 1));
    assert_eq!(calculate_quotas(&s, &scale), vec![0, 100]);
    let none = survey(&vec![]);
    let scale = scale_of(&none, 100);
    assert_eq!((scale.budget, scale.pool, scale.weight), (0, 0, 1));
    assert_eq!(calculate_quotas(&none, &scale), Vec::<u64>::new());
}

#[test]
fn quotas_beyond_the_days_are_dropped() {
    let s = survey(&vec![item(0, 5, 60, None), item(1, 6, 60, None)]);
    let scale = scale_of(&s, 100);
    let log = place_quotas(&s, &scale, &vec![500, 7]);
    assert_eq!(placed(&log), vec![(1, 6, 7), (0, 5, 100), (0, 5, 0), (0, 5, 0), (0, 6, 93)]);
    let total: u32 = log.iter().map(|p| p.amount as u32).sum();
    assert_eq!(total, 200);
}
