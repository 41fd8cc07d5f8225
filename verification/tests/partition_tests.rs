use parcrypt::partition::{partition, partition_at, Partition};

fn range(index: usize, workers: usize, start: usize, end: usize) -> Partition {
    Partition { index, workers, start, end }
}

#[test]
fn partition_sixteen_bytes_for_two_workers() {
    assert_eq!(partition(16, 2), vec![range(0, 2, 0, 8), range(1, 2, 8, 16)]);
}

#[test]
fn partition_gives_remainder_to_last_worker() {
    assert_eq!(
        partition(100, 3),
        vec![range(0, 3, 0, 32), range(1, 3, 32, 64), range(2, 3, 64, 100)]
    );
}

#[test]
fn partition_rounds_share_down_to_whole_blocks() {
    // 17 / 2 = 8, already a whole block; 30 / 2 = 15 rounds down to 8.
    assert_eq!(partition(17, 2), vec![range(0, 2, 0, 8), range(1, 2, 8, 17)]);
    assert_eq!(partition(30, 2), vec![range(0, 2, 0, 8), range(1, 2, 8, 30)]);
    assert_eq!(partition(32, 2), vec![range(0, 2, 0, 16), range(1, 2, 16, 32)]);
}

#[test]
fn partition_short_buffer_leaves_all_to_last_worker() {
    assert_eq!(
        partition(5, 4),
        vec![range(0, 4, 0, 0), range(1, 4, 0, 0), range(2, 4, 0, 0), range(3, 4, 0, 5)]
    );
    assert_eq!(partition(15, 2), vec![range(0, 2, 0, 0), range(1, 2, 0, 15)]);
}

#[test]
fn partition_empty_buffer() {
    assert_eq!(
        partition(0, 3),
        vec![range(0, 3, 0, 0), range(1, 3, 0, 0), range(2, 3, 0, 0)]
    );
}

#[test]
fn partition_for_no_worker_is_empty() {
    assert_eq!(partition(0, 0), Vec::<Partition>::new());
    assert_eq!(partition(1000, 0), Vec::<Partition>::new());
}

#[test]
fn partition_single_worker_takes_whole_buffer() {
    assert_eq!(partition(0, 1), vec![range(0, 1, 0, 0)]);
    assert_eq!(partition(7, 1), vec![range(0, 1, 0, 7)]);
    assert_eq!(partition(1000, 1), vec![range(0, 1, 0, 1000)]);
}

#[test]
fn partition_default_of_eight_workers() {
    let parts = partition(1_000_000, 8);
    assert_eq!(parts.len(), 8);
    assert_eq!(parts[0], range(0, 8, 0, 125_000));
    assert_eq!(parts[7], range(7, 8, 875_000, 1_000_000));
}

#[test]
fn partition_covers_buffer_without_gap_or_overlap() {
    for total_len in 0..200usize {
        for workers in 1..12usize {
            let parts = partition(total_len, workers);
            assert_eq!(parts.len(), workers);
            assert_eq!(parts[0].start, 0);
            assert_eq!(parts[workers - 1].end, total_len);
            for i in 0..workers {
                assert_eq!(parts[i].index, i);
                assert_eq!(parts[i].workers, workers);
                assert!(parts[i].start <= parts[i].end);
                if i + 1 < workers {
                    assert_eq!(parts[i].end, parts[i + 1].start);
                }
            }
            for offset in 0..total_len {
                let owners = parts
                    .iter()
                    .filter(|p| p.start <= offset && offset < p.end)
                    .count();
                assert_eq!(owners, 1);
            }
        }
    }
}

#[test]
fn partition_aligns_all_ranges_but_the_last() {
    for total_len in 0..200usize {
        for workers in 1..12usize {
            let unit = total_len / workers / 8 * 8;
            let parts = partition(total_len, workers);
            for i in 0..workers - 1 {
                assert_eq!(parts[i].end - parts[i].start, unit);
                assert_eq!((parts[i].end - parts[i].start) % 8, 0);
            }
            let last = parts[workers - 1];
            assert_eq!(last.end - last.start, total_len - unit * (workers - 1));
        }
    }
}

#[test]
fn partition_at_agrees_with_partition() {
    for total_len in [0usize, 1, 8, 15, 16, 17, 64, 99, 4096] {
        for workers in 1..9usize {
            let parts = partition(total_len, workers);
            for index in 0..workers {
                assert_eq!(partition_at(total_len, workers, index), parts[index]);
            }
        }
    }
}

#[test]
fn partition_handles_largest_length() {
    let parts = partition(usize::MAX, 2);
    let unit = usize::MAX / 2 / 8 * 8;
    assert_eq!(parts, vec![range(0, 2, 0, unit), range(1, 2, unit, usize::MAX)]);
}

#[test]
fn idle_is_an_empty_range_that_is_not_the_last() {
    assert!(range(0, 2, 0, 0).idle());
    assert!(range(1, 3, 8, 8).idle());
    assert!(!range(1, 2, 0, 0).idle());
    assert!(!range(0, 1, 0, 0).idle());
    assert!(!range(0, 2, 0, 8).idle());
    assert!(range(0, 0, 0, 0).idle());
}
