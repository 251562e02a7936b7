use reorg_calc::chain::{accumulate_work, BlockMetadataSource, ReorgError};
use reorg_calc::rational::Ratio;
use reorg_calc::reorg::{evaluate, find_viable_heights};
use reorg_calc::target::MAX_TARGET_BITS;

fn uniform_source(
    first_height: u64,
    count: usize,
    bits: u32,
    current_height: u64,
    difficulty: Option<Ratio>,
) -> BlockMetadataSource {
    BlockMetadataSource::new(first_height, vec![bits; count], current_height, difficulty)
}

#[test]
fn source_lookups() {
    let s = uniform_source(990, 11, MAX_TARGET_BITS, 1000, Some(Ratio::new(1, 1)));
    assert_eq!(s.current_height(), 1000);
    assert_eq!(s.compact_target_at(990), Some(MAX_TARGET_BITS));
    assert_eq!(s.compact_target_at(1000), Some(MAX_TARGET_BITS));
    assert_eq!(s.compact_target_at(989), None);
    assert_eq!(s.compact_target_at(1001), None);
    let d = s.current_difficulty().unwrap();
    assert_eq!((d.num(), d.den()), (1, 1));
}

#[test]
fn work_over_single_height_is_block_difficulty() {
    let s = uniform_source(990, 11, MAX_TARGET_BITS, 1000, Some(Ratio::new(1, 1)));
    let w = accumulate_work(&s, 995, 995).unwrap();
    assert_eq!((w.num(), w.den()), (1, 1));
}

#[test]
fn work_sums_difficulties_in_range() {
    let s = uniform_source(990, 11, MAX_TARGET_BITS, 1000, Some(Ratio::new(1, 1)));
    let w = accumulate_work(&s, 990, 1000).unwrap();
    assert_eq!((w.num(), w.den()), (11, 1));
}

#[test]
fn work_is_additive_over_contiguous_subranges() {
    let s = uniform_source(990, 11, 0x1d7fffff, 1000, Some(Ratio::new(1, 1)));
    let whole = accumulate_work(&s, 990, 1000).unwrap();
    let left = accumulate_work(&s, 990, 995).unwrap();
    let right = accumulate_work(&s, 996, 1000).unwrap();
    let sum = left.checked_add(&right).unwrap();
    assert_eq!((whole.num(), whole.den()), (sum.num(), sum.den()));
}

#[test]
fn work_fails_when_a_height_is_missing() {
    let s = uniform_source(990, 11, MAX_TARGET_BITS, 1000, Some(Ratio::new(1, 1)));
    assert_eq!(accumulate_work(&s, 985, 1000), Err(ReorgError::DataUnavailable));
}

#[test]
fn work_fails_on_zero_mantissa_block() {
    let s = uniform_source(990, 11, 0x1d000000, 1000, Some(Ratio::new(1, 1)));
    assert_eq!(accumulate_work(&s, 990, 1000), Err(ReorgError::Unrepresentable));
}

#[test]
fn evaluate_rejects_fork_above_current_height() {
    let s = uniform_source(990, 11, MAX_TARGET_BITS, 1000, Some(Ratio::new(1, 1)));
    let hashrate = Ratio::new(4294967296, 600);
    let days = Ratio::new(3, 1);
    let r = evaluate(&s, 1001, &hashrate, &days);
    assert_eq!(r.err(), Some(ReorgError::InvalidForkHeight));
}

#[test]
fn evaluate_rejects_zero_parameters() {
    let s = uniform_source(990, 11, MAX_TARGET_BITS, 1000, Some(Ratio::new(1, 1)));
    let good = Ratio::new(4294967296, 600);
    let zero = Ratio::new(0, 1);
    assert_eq!(evaluate(&s, 990, &zero, &good).err(), Some(ReorgError::InvalidParameter));
    assert_eq!(evaluate(&s, 990, &good, &zero).err(), Some(ReorgError::InvalidParameter));
}

#[test]
fn evaluate_requires_a_readable_difficulty() {
    let s = uniform_source(990, 11, MAX_TARGET_BITS, 1000, None);
    let hashrate = Ratio::new(4294967296, 600);
    let days = Ratio::new(3, 1);
    assert_eq!(evaluate(&s, 990, &hashrate, &days).err(), Some(ReorgError::DataUnavailable));
}

#[test]
fn blocks_needed_is_a_ceiling() {
    // Ten blocks of difficulty one against a current difficulty of three:
    // total work 10, so 4 new blocks are needed (the least integer at or
    // above 10 / 3).
    let s = uniform_source(991, 10, MAX_TARGET_BITS, 1000, Some(Ratio::new(3, 1)));
    let hashrate = Ratio::new(4294967296, 600);
    let days = Ratio::new(3, 1);
    let calc = evaluate(&s, 991, &hashrate, &days).unwrap();
    assert_eq!((calc.total_work.num(), calc.total_work.den()), (10, 1));
    assert_eq!(calc.blocks_needed, 4);
}

#[test]
fn end_to_end_eleven_block_reorg() {
    // Eleven blocks of difficulty one, current difficulty one, and a
    // hashrate of exactly one block every 600 seconds: 11 blocks needed,
    // 6600 seconds, 11/6 hours, 11/144 days (about 0.076).
    let s = uniform_source(990, 11, MAX_TARGET_BITS, 1000, Some(Ratio::new(1, 1)));
    let hashrate = Ratio::new(4294967296, 600);
    let days = Ratio::new(3, 1);
    let calc = evaluate(&s, 990, &hashrate, &days).unwrap();
    assert_eq!(calc.fork_height, 990);
    assert_eq!(calc.current_height, 1000);
    assert_eq!(calc.blocks_to_reorg, 11);
    assert_eq!((calc.total_work.num(), calc.total_work.den()), (11, 1));
    assert_eq!(calc.blocks_needed, 11);
    assert_eq!((calc.time_required_hours.num(), calc.time_required_hours.den()), (11, 6));
    assert_eq!((calc.time_required_days.num(), calc.time_required_days.den()), (11, 144));
    assert_eq!(
        (calc.hashrate_required.num(), calc.hashrate_required.den()),
        (369098752, 2025)
    );
}

#[test]
fn end_to_end_near_double_difficulty() {
    // The same scenario with every block near difficulty two (the closest
    // a compact target comes to 2.0 exactly): the per-block time is still
    // exactly 600 seconds when the hashrate is difficulty * 2^32 / 600.
    let d = Ratio::new(16777215, 8388607);
    let s = uniform_source(990, 11, 0x1d7fffff, 1000, Some(d));
    let hashrate = Ratio::new(600479914524672, 41943035);
    let days = Ratio::new(3, 1);
    let calc = evaluate(&s, 990, &hashrate, &days).unwrap();
    assert_eq!(calc.blocks_to_reorg, 11);
    assert_eq!((calc.total_work.num(), calc.total_work.den()), (184549365, 8388607));
    assert_eq!(calc.blocks_needed, 11);
    assert_eq!((calc.time_required_hours.num(), calc.time_required_hours.den()), (11, 6));
    assert_eq!((calc.time_required_days.num(), calc.time_required_days.den()), (11, 144));
}

#[test]
fn viable_heights_keep_candidate_order() {
    // Window over heights 500..=1000, difficulty one everywhere, one block
    // every 600 seconds.  Candidate depths 1, 10, 50 and 100 fit within a
    // one-day budget; depth 500 takes about 3.5 days; depths 1000 and 5000
    // reach height zero and are skipped.
    let s = uniform_source(500, 501, MAX_TARGET_BITS, 1000, Some(Ratio::new(1, 1)));
    let hashrate = Ratio::new(4294967296, 600);
    let heights = find_viable_heights(&s, &hashrate, &Ratio::new(1, 1));
    assert_eq!(heights, vec![999, 990, 950, 900]);
}

#[test]
fn raising_the_budget_never_removes_a_height() {
    let s = uniform_source(500, 501, MAX_TARGET_BITS, 1000, Some(Ratio::new(1, 1)));
    let hashrate = Ratio::new(4294967296, 600);
    let smaller = find_viable_heights(&s, &hashrate, &Ratio::new(2, 5));
    let larger = find_viable_heights(&s, &hashrate, &Ratio::new(1, 1));
    let largest = find_viable_heights(&s, &hashrate, &Ratio::new(4, 1));
    assert_eq!(smaller, vec![999, 990, 950]);
    assert_eq!(larger, vec![999, 990, 950, 900]);
    assert_eq!(largest, vec![999, 990, 950, 900, 500]);
    for h in &smaller {
        assert!(larger.contains(h));
    }
    for h in &larger {
        assert!(largest.contains(h));
    }
}

#[test]
fn failing_candidates_are_skipped_not_fatal() {
    // The window only covers heights 950..=1000, so deeper candidates fail
    // with unavailable data and are skipped.
    let s = uniform_source(950, 51, MAX_TARGET_BITS, 1000, Some(Ratio::new(1, 1)));
    let hashrate = Ratio::new(4294967296, 600);
    let heights = find_viable_heights(&s, &hashrate, &Ratio::new(30, 1));
    assert_eq!(heights, vec![999, 990, 950]);
}

#[test]
fn zero_budget_yields_no_heights() {
    let s = uniform_source(500, 501, MAX_TARGET_BITS, 1000, Some(Ratio::new(1, 1)));
    let hashrate = Ratio::new(4294967296, 600);
    let heights = find_viable_heights(&s, &hashrate, &Ratio::new(0, 1));
    assert!(heights.is_empty());
}

#[test]
fn evaluation_records_are_stamped() {
    let s = uniform_source(990, 11, MAX_TARGET_BITS, 1000, Some(Ratio::new(1, 1)));
    let hashrate = Ratio::new(4294967296, 600);
    let days = Ratio::new(3, 1);
    let calc = evaluate(&s, 990, &hashrate, &days).unwrap();
    // A wall-clock reading taken after 2020 and not in the far future.
    assert!(calc.timestamp > 1_577_836_800);
    assert!(calc.timestamp < 4_102_444_800);
}
