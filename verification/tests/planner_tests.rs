use idm_rs::planner::plan;
use idm_rs::range::ByteRange;

fn bounds(total: u64, connections: u32) -> Vec<(u64, u64)> {
    plan(total, connections).ranges().iter().map(|r: &ByteRange| (r.start, r.end)).collect()
}

fn assert_partition(total: u64, connections: u32) {
    let ranges = bounds(total, connections);
    if total == 0 {
        assert!(ranges.is_empty());
        return;
    }
    assert!(!ranges.is_empty());
    assert_eq!(ranges[0].0, 0);
    assert_eq!(ranges[ranges.len() - 1].1, total - 1);
    for r in &ranges {
        assert!(r.0 <= r.1);
    }
    for pair in ranges.windows(2) {
        assert_eq!(pair[0].1 + 1, pair[1].0);
    }
    assert!(ranges.len() as u64 <= total);
    assert!(ranges.len() as u64 <= connections as u64);
}

#[test]
fn one_mebibyte_over_four_connections() {
    assert_eq!(
        bounds(1_048_576, 4),
        vec![(0, 262_143), (262_144, 524_287), (524_288, 786_431), (786_432, 1_048_575)]
    );
}

#[test]
fn ten_bytes_over_eight_connections() {
    let ranges = bounds(10, 8);
    assert_eq!(ranges, vec![(0, 1), (2, 3), (4, 5), (6, 7), (8, 9)]);
    assert!(ranges.len() <= 10);
    assert!(ranges.iter().all(|r| r.0 <= r.1 && r.1 <= 9));
}

#[test]
fn plans_partition_the_resource() {
    for total in 1..=60u64 {
        for connections in 1..=total as u32 {
            assert_partition(total, connections);
        }
    }
}

#[test]
fn surplus_connections_are_dropped() {
    for total in 1..=20u64 {
        for connections in (total as u32 + 1)..=(total as u32 + 12) {
            assert_partition(total, connections);
            let ranges = bounds(total, connections);
            assert_eq!(ranges.len() as u64, total);
            for (i, r) in ranges.iter().enumerate() {
                assert_eq!(*r, (i as u64, i as u64));
            }
        }
    }
}

#[test]
fn chunk_size_rounds_up() {
    assert_eq!(bounds(10, 3), vec![(0, 3), (4, 7), (8, 9)]);
    assert_eq!(bounds(10, 4), vec![(0, 2), (3, 5), (6, 8), (9, 9)]);
    assert_eq!(bounds(9, 4), vec![(0, 2), (3, 5), (6, 8)]);
    assert_eq!(bounds(7, 1), vec![(0, 6)]);
}

#[test]
fn empty_resource_has_no_ranges() {
    assert!(bounds(0, 1).is_empty());
    assert!(bounds(0, 8).is_empty());
    assert_eq!(plan(0, 8).total_length(), 0);
}

#[test]
fn largest_resource_does_not_overflow() {
    let ranges = bounds(u64::MAX, 2);
    assert_eq!(ranges, vec![(0, (1u64 << 63) - 1), (1u64 << 63, u64::MAX - 1)]);
    let ranges = bounds(u64::MAX, 1);
    assert_eq!(ranges, vec![(0, u64::MAX - 1)]);
    assert_eq!(plan(u64::MAX, 3).total_length(), u64::MAX);
}

#[test]
fn range_header_names_both_bounds() {
    assert_eq!(ByteRange::new(0, 262_143).range_header(), "bytes=0-262143");
    assert_eq!(ByteRange::new(8, 9).range_header(), "bytes=8-9");
    assert_eq!(
        ByteRange::new(10, u64::MAX).range_header(),
        "bytes=10-18446744073709551615"
    );
}
