use name_distribution::boundary::{boundary, boundary_width, next_boundary, SEARCH_RADIUS};
use name_distribution::buckets::{
    checked_ranges, distributed_name_boundaries, distributed_ranges, RangeError,
};
use name_distribution::table::{cumulative_table, get_entry_index, is_well_formed, Entry};

fn entry(count: u32, key: &str) -> Entry {
    Entry { count, key: key.as_bytes().to_vec() }
}

/// A small table whose cuts for four buckets fall after "D", "L" and "P".
fn surnames() -> Vec<Entry> {
    vec![
        entry(10000, "ADAMS"),
        entry(20000, "BAKER"),
        entry(30000, "DAVIS"),
        entry(33233, "EVANS"),
        entry(34000, "EVERETT"),
        entry(60000, "LANE"),
        entry(66000, "LEE"),
        entry(67197, "MARTIN"),
        entry(68000, "MILLER"),
        entry(95000, "PARKER"),
        entry(102399, "QUINN"),
        entry(134823, "YOUNG"),
    ]
}

fn bytes(s: &str) -> Vec<u8> {
    s.as_bytes().to_vec()
}

#[test]
fn test_distribute_names_for_four_buckets() {
    let table = surnames();
    let x = distributed_name_boundaries(&table, 4, 10000);
    assert_eq!((x[0].count, x[0].end.clone(), x[0].start.clone()), (33233, bytes("D"), bytes("E")));
    assert_eq!((x[1].count, x[1].end.clone(), x[1].start.clone()), (67197, bytes("L"), bytes("M")));
    assert_eq!((x[2].count, x[2].end.clone(), x[2].start.clone()), (102399, bytes("P"), bytes("Q")));
    let s1 = x[0].count;
    let s2 = x[1].count - s1;
    let s3 = x[2].count - x[1].count;
    let s4 = table[table.len() - 1].count - x[2].count;
    assert_eq!(s1, 33233);
    assert_eq!(s2, 33964);
    assert_eq!(s3, 35202);
    assert_eq!(s4, 32424);
}

#[test]
fn four_buckets_are_contiguous_and_cover_the_total() {
    let table = surnames();
    let b = distributed_ranges(&table, 4, 10000);
    assert_eq!(b.len(), 4);
    let starts: Vec<Vec<u8>> = b.iter().map(|x| x.start.clone()).collect();
    let ends: Vec<Vec<u8>> = b.iter().map(|x| x.end.clone()).collect();
    let counts: Vec<u32> = b.iter().map(|x| x.count).collect();
    assert_eq!(starts, vec![bytes("A"), bytes("E"), bytes("M"), bytes("Q")]);
    assert_eq!(ends, vec![bytes("D"), bytes("L"), bytes("P"), bytes("Z")]);
    assert_eq!(counts, vec![33233, 33964, 35202, 32424]);
    assert_eq!(counts.iter().sum::<u32>(), 134823);
    for k in 0..3 {
        assert!(b[k].end < b[k + 1].start);
        assert_eq!(next_boundary(&b[k].end), b[k + 1].start);
    }
}

#[test]
fn bucket_shares_stay_within_the_allowance() {
    let table = surnames();
    let total = 134823.0f32;
    let b = distributed_ranges(&table, 4, 10000);
    for x in &b {
        let share = x.count as f32 / total;
        assert!((share - 0.25).abs() <= 0.02);
    }
}

#[test]
fn one_bucket_spans_the_whole_range() {
    let table = surnames();
    let b = distributed_ranges(&table, 1, 1000);
    assert_eq!(b.len(), 1);
    assert_eq!(b[0].start, bytes("A"));
    assert_eq!(b[0].end, bytes("Z"));
    assert_eq!(b[0].count, 134823);
}

#[test]
fn next_boundary_raises_the_last_character() {
    assert_eq!(next_boundary(b"SMIT"), bytes("SMIU"));
    assert_eq!(next_boundary(b"D"), bytes("E"));
}

#[test]
fn next_boundary_passes_z_unguarded() {
    assert_eq!(next_boundary(b"AZ"), bytes("A["));
}

#[test]
fn boundary_width_counts_the_shared_prefix() {
    let table = surnames();
    assert_eq!(boundary_width(&table, 3), 1);
    assert_eq!(boundary_width(&table, 4), 3);
    assert_eq!(boundary_width(&table, 8), 2);
    let same = vec![entry(1, "SMITH"), entry(2, "SMITHSON")];
    assert_eq!(boundary_width(&same, 1), 6);
}

#[test]
fn locate_is_deterministic() {
    let table = surnames();
    let first = get_entry_index(&table, 33705, 0, table.len());
    let second = get_entry_index(&table, 33705, 0, table.len());
    assert_eq!(first, 4);
    assert_eq!(first, second);
    assert_eq!(get_entry_index(&table, 0, 0, table.len()), 0);
    assert_eq!(get_entry_index(&table, 10000, 0, table.len()), 1);
    assert_eq!(get_entry_index(&table, 134822, 0, table.len()), 11);
}

#[test]
fn refiner_keeps_the_located_entry_without_a_window() {
    let table = surnames();
    let c = boundary(&table, 33705, 10000, 0);
    assert_eq!((c.count, c.end, c.start), (34000, bytes("EVA"), bytes("EVB")));
    let c = boundary(&table, 33705, 10000, 1);
    assert_eq!((c.count, c.end, c.start), (33233, bytes("D"), bytes("E")));
}

#[test]
fn refiner_moves_to_a_narrower_entry_in_reach() {
    let table = surnames();
    let c = boundary(&table, 33705, 10000, SEARCH_RADIUS);
    assert_eq!((c.count, c.end, c.start), (33233, bytes("D"), bytes("E")));
}

#[test]
fn refiner_ignores_entries_outside_the_allowance() {
    let table = surnames();
    let c = boundary(&table, 33705, 900, SEARCH_RADIUS);
    assert_eq!((c.count, c.end, c.start), (34000, bytes("EVA"), bytes("EVB")));
}

#[test]
fn checked_ranges_rejects_zero_buckets() {
    assert_eq!(checked_ranges(&surnames(), 0, 100).err(), Some(RangeError::InvalidBucketCount));
}

#[test]
fn checked_ranges_rejects_a_malformed_table() {
    let table = vec![entry(5, "B"), entry(3, "C")];
    assert_eq!(checked_ranges(&table, 2, 0).err(), Some(RangeError::MalformedTable));
    assert_eq!(checked_ranges(&[], 2, 0).err(), Some(RangeError::MalformedTable));
}

#[test]
fn checked_ranges_rejects_a_heavy_first_entry() {
    assert_eq!(checked_ranges(&surnames(), 20, 100).err(), Some(RangeError::FirstEntryTooLarge));
}

#[test]
fn checked_ranges_accepts_a_wide_allowance() {
    let b = checked_ranges(&surnames(), 4, 40000).unwrap();
    let counts: Vec<u32> = b.iter().map(|x| x.count).collect();
    assert_eq!(counts, vec![33233, 33964, 35202, 32424]);
}

#[test]
fn two_buckets_at_a_sixty_percent_allowance() {
    let b = distributed_ranges(&surnames(), 2, 80893);
    assert_eq!(b.len(), 2);
    assert_eq!((b[0].start.clone(), b[0].end.clone(), b[0].count), (bytes("A"), bytes("L"), 67197));
    assert_eq!((b[1].start.clone(), b[1].end.clone(), b[1].count), (bytes("M"), bytes("Z"), 67626));
}

#[test]
fn checked_ranges_assembles_valid_input() {
    let b = checked_ranges(&surnames(), 4, 10000).unwrap();
    let counts: Vec<u32> = b.iter().map(|x| x.count).collect();
    assert_eq!(counts, vec![33233, 33964, 35202, 32424]);
}

#[test]
fn well_formed_tables() {
    assert!(is_well_formed(&surnames()));
    assert!(!is_well_formed(&[entry(0, "A")]));
    assert!(!is_well_formed(&[entry(4, "")]));
    assert!(!is_well_formed(&[Entry { count: 4, key: vec![200] }]));
}

#[test]
fn cumulative_table_runs_totals() {
    let rows = vec![(bytes("ADAMS"), 7), (bytes("BAKER"), 0), (bytes("CLARK"), 5)];
    let t = cumulative_table(&rows).unwrap();
    let counts: Vec<u32> = t.iter().map(|e| e.count).collect();
    assert_eq!(counts, vec![7, 7, 12]);
    assert_eq!(t[2].key, bytes("CLARK"));
}

#[test]
fn cumulative_table_reports_overflow() {
    let rows = vec![(bytes("A"), u32::MAX), (bytes("B"), 1)];
    assert!(cumulative_table(&rows).is_none());
}
