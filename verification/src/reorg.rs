//! Reorg feasibility: block count, time and hashrate for a fork point.
//!
//! `evaluate` turns a fork height, a hashrate and a time budget into a
//! `ReorgCalculation`: how many blocks a new chain needs to out-work the
//! existing range, how long mining them takes at the given hashrate, and
//! what hashrate would finish within the budget.  `find_viable_heights`
//! runs the evaluation over a fixed list of candidate fork depths and
//! keeps the heights that fit the budget.

use vstd::prelude::*;
use crate::rational::{
    Frac, Ratio, frac_wf, frac_le, fits_u64, frac_div_ceil, spec_mul, spec_div,
    lemma_spec_mul_wf, lemma_spec_div_wf, lemma_frac_le_trans,
};
use crate::chain::{
    BlockMetadataSource, SourceView, ReorgError, source_wf, spec_accumulate, accumulate_work,
    lemma_accumulate_exact,
};
use crate::rational::lemma_div_ceil_least;

verus! {

/// Expected hash attempts per unit of difficulty in this proof-of-work
/// scheme.
pub const HASHES_PER_DIFFICULTY: u64 = 4294967296;

/// Seconds in an hour.
pub const SECONDS_PER_HOUR: u64 = 3600;

/// Seconds in a day.
pub const SECONDS_PER_DAY: u64 = 86400;

/// Model of one feasibility evaluation (the creation timestamp is left
/// out: it carries no promise).
pub ghost struct CalcView {
    pub fork_height: int,
    pub current_height: int,
    pub blocks_to_reorg: int,
    pub total_work: Frac,
    pub current_difficulty: Frac,
    pub blocks_needed: int,
    pub time_required_hours: Frac,
    pub time_required_days: Frac,
    pub hashrate_required: Frac,
}

/// The result record of one feasibility evaluation.
#[derive(Clone, Copy, Debug)]
pub struct ReorgCalculation {
    pub fork_height: u64,
    pub current_height: u64,
    pub blocks_to_reorg: u64,
    pub total_work: Ratio,
    pub current_difficulty: Ratio,
    pub blocks_needed: u128,
    pub time_required_hours: Ratio,
    pub time_required_days: Ratio,
    pub hashrate_required: Ratio,
    pub timestamp: i64,
}

impl View for ReorgCalculation {
    type V = CalcView;

    open spec fn view(&self) -> CalcView {
        CalcView {
            fork_height: self.fork_height as int,
            current_height: self.current_height as int,
            blocks_to_reorg: self.blocks_to_reorg as int,
            total_work: self.total_work@,
            current_difficulty: self.current_difficulty@,
            blocks_needed: self.blocks_needed as int,
            time_required_hours: self.time_required_hours@,
            time_required_days: self.time_required_days@,
            hashrate_required: self.hashrate_required@,
        }
    }
}

impl ReorgCalculation {
    /// All rational fields are represented well-formed fractions.
    pub open spec fn wf(self) -> bool {
        &&& self.total_work.wf()
        &&& self.current_difficulty.wf()
        &&& self.time_required_hours.wf()
        &&& self.time_required_days.wf()
        &&& self.hashrate_required.wf()
    }
}

/// The whole feasibility evaluation, mirrored step for step: which inputs
/// succeed, which error each failing input gets, and every field of the
/// resulting record.
pub open spec fn spec_evaluate(
    s: SourceView,
    fork_height: int,
    hashrate: Frac,
    target_days: Frac,
) -> Result<CalcView, ReorgError> {
    if hashrate.num <= 0 || target_days.num <= 0 {
        Err(ReorgError::InvalidParameter)
    } else if fork_height > s.height {
        Err(ReorgError::InvalidForkHeight)
    } else if s.difficulty is None {
        Err(ReorgError::DataUnavailable)
    } else {
        let diff = s.difficulty->0;
        match spec_accumulate(s, fork_height, s.height) {
            Err(e) => Err(e),
            Ok(work) => {
                if s.height - fork_height == u64::MAX {
                    Err(ReorgError::Unrepresentable)
                } else {
                    let blocks_needed = frac_div_ceil(work, diff);
                    let hashes = Frac { num: HASHES_PER_DIFFICULTY as int, den: 1 };
                    match spec_mul(diff, hashes) {
                        None => Err(ReorgError::Unrepresentable),
                        Some(block_hashes) => match spec_div(block_hashes, hashrate) {
                            None => Err(ReorgError::Unrepresentable),
                            Some(time_per_block) => {
                                if blocks_needed > u64::MAX {
                                    Err(ReorgError::Unrepresentable)
                                } else {
                                    let bn = Frac { num: blocks_needed, den: 1 };
                                    match spec_mul(bn, time_per_block) {
                                        None => Err(ReorgError::Unrepresentable),
                                        Some(total_seconds) => {
                                            spec_evaluate_times(
                                                s,
                                                fork_height,
                                                target_days,
                                                diff,
                                                work,
                                                blocks_needed,
                                                total_seconds,
                                            )
                                        },
                                    }
                                }
                            },
                        },
                    }
                }
            },
        }
    }
}

/// Tail of the evaluation: derive the time and hashrate figures and fill
/// the record.
pub open spec fn spec_evaluate_times(
    s: SourceView,
    fork_height: int,
    target_days: Frac,
    diff: Frac,
    work: Frac,
    blocks_needed: int,
    total_seconds: Frac,
) -> Result<CalcView, ReorgError> {
    let hashes = Frac { num: HASHES_PER_DIFFICULTY as int, den: 1 };
    let hour = Frac { num: SECONDS_PER_HOUR as int, den: 1 };
    let day = Frac { num: SECONDS_PER_DAY as int, den: 1 };
    let bn = Frac { num: blocks_needed, den: 1 };
    match spec_div(total_seconds, hour) {
        None => Err(ReorgError::Unrepresentable),
        Some(hours) => match spec_div(total_seconds, day) {
            None => Err(ReorgError::Unrepresentable),
            Some(days) => match spec_mul(target_days, day) {
                None => Err(ReorgError::Unrepresentable),
                Some(target_seconds) => match spec_mul(bn, diff) {
                    None => Err(ReorgError::Unrepresentable),
                    Some(needed_work) => match spec_mul(needed_work, hashes) {
                        None => Err(ReorgError::Unrepresentable),
                        Some(needed_hashes) => match spec_div(needed_hashes, target_seconds) {
                            None => Err(ReorgError::Unrepresentable),
                            Some(required) => Ok(
                                CalcView {
                                    fork_height,
                                    current_height: s.height,
                                    blocks_to_reorg: s.height - fork_height + 1,
                                    total_work: work,
                                    current_difficulty: diff,
                                    blocks_needed,
                                    time_required_hours: hours,
                                    time_required_days: days,
                                    hashrate_required: required,
                                },
                            ),
                        },
                    },
                },
            },
        },
    }
}

/// Relies on std::time::SystemTime::now for the record's creation
/// timestamp: a wall-clock reading, of which nothing is promised.  The
/// body is total: a clock before the Unix epoch yields zero instead of a
/// panic.
#[verifier::external_body]
fn now_unix_timestamp() -> (r: i64) {
    match std::time::SystemTime::now().duration_since(std::time::UNIX_EPOCH) {
        Ok(d) => d.as_secs() as i64,
        Err(_) => 0,
    }
}

/// Evaluate the feasibility of a reorganization from `fork_height`.
///
/// Fails with `InvalidParameter` when the hashrate or the time budget is
/// zero, with `InvalidForkHeight` when the fork height lies above the
/// current height, with `DataUnavailable` when the difficulty or a block
/// in range cannot be supplied, and with `Unrepresentable` when an exact
/// value has no representation; otherwise every field of the record is
/// the one `spec_evaluate` gives.
pub fn evaluate(
    source: &BlockMetadataSource,
    fork_height: u64,
    hashrate: &Ratio,
    target_days: &Ratio,
) -> (r: Result<ReorgCalculation, ReorgError>)
    requires
        source.wf(),
        hashrate.wf(),
        target_days.wf(),
    ensures
        r is Ok <==> spec_evaluate(source@, fork_height as int, hashrate@, target_days@) is Ok,
        r is Ok ==> r->Ok_0@ == spec_evaluate(
            source@,
            fork_height as int,
            hashrate@,
            target_days@,
        )->Ok_0 && r->Ok_0.wf(),
        r is Err ==> r->Err_0 == spec_evaluate(
            source@,
            fork_height as int,
            hashrate@,
            target_days@,
        )->Err_0,
        hashrate@.num >= 1 && target_days@.num >= 1 && fork_height > source@.height ==> r
            == Err::<ReorgCalculation, ReorgError>(ReorgError::InvalidForkHeight),
{
    if !hashrate.is_positive() || !target_days.is_positive() {
        return Err(ReorgError::InvalidParameter);
    }
    let current_height = source.current_height();
    if fork_height > current_height {
        return Err(ReorgError::InvalidForkHeight);
    }
    let current_difficulty = match source.current_difficulty() {
        Some(d) => d,
        None => {
            return Err(ReorgError::DataUnavailable);
        },
    };
    let total_work = match accumulate_work(source, fork_height, current_height) {
        Ok(w) => w,
        Err(e) => {
            return Err(e);
        },
    };
    let span = current_height - fork_height;
    if span == u64::MAX {
        return Err(ReorgError::Unrepresentable);
    }
    let blocks_to_reorg = span + 1;
    proof {
        lemma_accumulate_exact(source@, fork_height as int, source@.height);
    }
    let blocks_needed: u128 = total_work.div_ceil(&current_difficulty);
    let hashes = Ratio::from_u64(HASHES_PER_DIFFICULTY);
    let block_hashes = match current_difficulty.checked_mul(&hashes) {
        Some(x) => x,
        None => {
            return Err(ReorgError::Unrepresentable);
        },
    };
    let time_per_block = match block_hashes.checked_div(hashrate) {
        Some(x) => x,
        None => {
            return Err(ReorgError::Unrepresentable);
        },
    };
    if blocks_needed > u64::MAX as u128 {
        return Err(ReorgError::Unrepresentable);
    }
    let bn = Ratio::from_u64(blocks_needed as u64);
    let total_seconds = match bn.checked_mul(&time_per_block) {
        Some(x) => x,
        None => {
            return Err(ReorgError::Unrepresentable);
        },
    };
    let hours = match total_seconds.checked_div(&Ratio::from_u64(SECONDS_PER_HOUR)) {
        Some(x) => x,
        None => {
            return Err(ReorgError::Unrepresentable);
        },
    };
    let days = match total_seconds.checked_div(&Ratio::from_u64(SECONDS_PER_DAY)) {
        Some(x) => x,
        None => {
            return Err(ReorgError::Unrepresentable);
        },
    };
    let target_seconds = match target_days.checked_mul(&Ratio::from_u64(SECONDS_PER_DAY)) {
        Some(x) => x,
        None => {
            return Err(ReorgError::Unrepresentable);
        },
    };
    let needed_work = match bn.checked_mul(&current_difficulty) {
        Some(x) => x,
        None => {
            return Err(ReorgError::Unrepresentable);
        },
    };
    let needed_hashes = match needed_work.checked_mul(&hashes) {
        Some(x) => x,
        None => {
            return Err(ReorgError::Unrepresentable);
        },
    };
    let hashrate_required = match needed_hashes.checked_div(&target_seconds) {
        Some(x) => x,
        None => {
            return Err(ReorgError::Unrepresentable);
        },
    };
    Ok(
        ReorgCalculation {
            fork_height,
            current_height,
            blocks_to_reorg,
            total_work,
            current_difficulty,
            blocks_needed,
            time_required_hours: hours,
            time_required_days: days,
            hashrate_required,
            timestamp: now_unix_timestamp(),
        },
    )
}

/// The fixed candidate fork depths, nearest first.
pub open spec fn candidate_depths() -> Seq<u64> {
    seq![1u64, 10u64, 50u64, 100u64, 500u64, 1000u64, 5000u64]
}

/// The fork height a candidate depth names: the current height less the
/// depth, floored at zero.
pub open spec fn fork_candidate(height: int, depth: int) -> int {
    if height - depth >= 0 {
        height - depth
    } else {
        0
    }
}

/// A candidate fork height is viable when it is above zero, its
/// evaluation (with the budget as the target time) succeeds, and the
/// required days fit within the budget.
pub open spec fn spec_viable(s: SourceView, h: int, hashrate: Frac, max_days: Frac) -> bool {
    &&& h >= 1
    &&& spec_evaluate(s, h, hashrate, max_days) is Ok
    &&& frac_le(spec_evaluate(s, h, hashrate, max_days)->Ok_0.time_required_days, max_days)
}

/// The viable heights among the first `n` candidate depths, in list order.
pub open spec fn viable_prefix(s: SourceView, hashrate: Frac, max_days: Frac, n: int) -> Seq<u64>
    decreases n,
{
    if n <= 0 {
        Seq::empty()
    } else {
        let prev = viable_prefix(s, hashrate, max_days, n - 1);
        let h = fork_candidate(s.height, candidate_depths()[n - 1] as int);
        if spec_viable(s, h, hashrate, max_days) {
            prev.push(h as u64)
        } else {
            prev
        }
    }
}

/// Every viable candidate height, in candidate-list order.
pub open spec fn viable_heights(s: SourceView, hashrate: Frac, max_days: Frac) -> Seq<u64> {
    viable_prefix(s, hashrate, max_days, 7)
}

/// Whether the candidate height `h` is viable, decided by evaluation.
fn candidate_viable(source: &BlockMetadataSource, h: u64, hashrate: &Ratio, max_days: &Ratio) -> (b:
    bool)
    requires
        source.wf(),
        hashrate.wf(),
        max_days.wf(),
    ensures
        b == spec_viable(source@, h as int, hashrate@, max_days@),
{
    if h == 0 {
        return false;
    }
    match evaluate(source, h, hashrate, max_days) {
        Ok(c) => c.time_required_days.le(max_days),
        Err(_) => false,
    }
}

/// Search the fixed candidate fork depths and keep, in candidate order,
/// every height whose required days fit within `max_days`; candidates
/// whose evaluation fails are skipped.
pub fn find_viable_heights(source: &BlockMetadataSource, hashrate: &Ratio, max_days: &Ratio) -> (r:
    Vec<u64>)
    requires
        source.wf(),
        hashrate.wf(),
        max_days.wf(),
    ensures
        r@ == viable_heights(source@, hashrate@, max_days@),
{
    let mut depths: Vec<u64> = Vec::new();
    depths.push(1);
    depths.push(10);
    depths.push(50);
    depths.push(100);
    depths.push(500);
    depths.push(1000);
    depths.push(5000);
    proof {
        assert(depths@ =~= candidate_depths());
    }
    let current_height = source.current_height();
    let mut out: Vec<u64> = Vec::new();
    let mut i: usize = 0;
    while i < 7
        invariant
            i <= 7,
            depths@ == candidate_depths(),
            out@ == viable_prefix(source@, hashrate@, max_days@, i as int),
            source.wf(),
            hashrate.wf(),
            max_days.wf(),
            current_height == source@.height,
        decreases 7 - i,
    {
        let depth = depths[i];
        let h = if depth > current_height {
            0
        } else {
            current_height - depth
        };
        proof {
            assert(h as int == fork_candidate(
                source@.height,
                candidate_depths()[i as int] as int,
            ));
        }
        let viable = candidate_viable(source, h, hashrate, max_days);
        if viable {
            out.push(h);
        }
        i = i + 1;
    }
    out
}

/// The block count is a true ceiling: writing the quotient of the total
/// work by the current difficulty over the common denominator as `p / q`
/// (`p` and `q` the two cross products), `blocks_needed * q` reaches `p`,
/// and no smaller integer does.
pub proof fn lemma_blocks_needed_is_ceiling(
    s: SourceView,
    fork_height: int,
    hashrate: Frac,
    target_days: Frac,
)
    requires
        source_wf(s),
        spec_evaluate(s, fork_height, hashrate, target_days) is Ok,
    ensures
        ({
            let c = spec_evaluate(s, fork_height, hashrate, target_days)->Ok_0;
            let p = c.total_work.num * c.current_difficulty.den;
            let q = c.total_work.den * c.current_difficulty.num;
            &&& c.blocks_needed * q >= p
            &&& forall|k: int| #[trigger] (k * q) >= p ==> k >= c.blocks_needed
        }),
{
    let c = spec_evaluate(s, fork_height, hashrate, target_days)->Ok_0;
    lemma_accumulate_exact(s, fork_height, s.height);
    let work = spec_accumulate(s, fork_height, s.height)->Ok_0;
    let diff = s.difficulty->0;
    assert(c.total_work == work && c.current_difficulty == diff);
    assert(c.blocks_needed == frac_div_ceil(work, diff));
    lemma_div_ceil_least(work, diff);
}

/// A successful evaluation yields well-formed represented fractions and a
/// block range of at least one block.
pub proof fn lemma_evaluate_ok_wf(s: SourceView, h: int, hashrate: Frac, target_days: Frac)
    requires
        source_wf(s),
        frac_wf(hashrate),
        frac_wf(target_days),
        spec_evaluate(s, h, hashrate, target_days) is Ok,
    ensures
        ({
            let c = spec_evaluate(s, h, hashrate, target_days)->Ok_0;
            &&& frac_wf(c.total_work) && fits_u64(c.total_work)
            &&& frac_wf(c.current_difficulty) && c.current_difficulty.num >= 1
            &&& 0 <= c.blocks_needed <= u64::MAX
            &&& frac_wf(c.time_required_hours)
            &&& frac_wf(c.time_required_days)
            &&& frac_wf(c.hashrate_required)
            &&& c.blocks_to_reorg >= 1
        }),
{
    let diff = s.difficulty->0;
    lemma_accumulate_exact(s, h, s.height);
    let work = spec_accumulate(s, h, s.height)->Ok_0;
    let hashes = Frac { num: HASHES_PER_DIFFICULTY as int, den: 1 };
    let hour = Frac { num: SECONDS_PER_HOUR as int, den: 1 };
    let day = Frac { num: SECONDS_PER_DAY as int, den: 1 };
    lemma_spec_mul_wf(diff, hashes);
    let block_hashes = spec_mul(diff, hashes)->0;
    lemma_spec_div_wf(block_hashes, hashrate);
    let time_per_block = spec_div(block_hashes, hashrate)->0;
    lemma_div_ceil_least(work, diff);
    let bn = Frac { num: frac_div_ceil(work, diff), den: 1 };
    lemma_spec_mul_wf(bn, time_per_block);
    let total_seconds = spec_mul(bn, time_per_block)->0;
    lemma_spec_div_wf(total_seconds, hour);
    lemma_spec_div_wf(total_seconds, day);
    lemma_spec_mul_wf(target_days, day);
    let target_seconds = spec_mul(target_days, day)->0;
    lemma_spec_mul_wf(bn, diff);
    let needed_work = spec_mul(bn, diff)->0;
    lemma_spec_mul_wf(needed_work, hashes);
    let needed_hashes = spec_mul(needed_work, hashes)->0;
    lemma_spec_div_wf(needed_hashes, target_seconds);
}

/// The time a reorganization needs does not depend on the time budget:
/// two successful evaluations that differ only in the target days report
/// the same required hours and days (and the same work and block counts).
pub proof fn lemma_time_required_independent_of_budget(
    s: SourceView,
    h: int,
    hashrate: Frac,
    td1: Frac,
    td2: Frac,
)
    requires
        spec_evaluate(s, h, hashrate, td1) is Ok,
        spec_evaluate(s, h, hashrate, td2) is Ok,
    ensures
        ({
            let c1 = spec_evaluate(s, h, hashrate, td1)->Ok_0;
            let c2 = spec_evaluate(s, h, hashrate, td2)->Ok_0;
            &&& c1.time_required_days == c2.time_required_days
            &&& c1.time_required_hours == c2.time_required_hours
            &&& c1.total_work == c2.total_work
            &&& c1.blocks_needed == c2.blocks_needed
            &&& c1.blocks_to_reorg == c2.blocks_to_reorg
        }),
{
}

/// Raising the time budget never removes a viable height: every height
/// the search keeps under `md1` it also keeps under a budget `md2` at
/// least as large, provided its evaluation still succeeds under `md2`.
pub proof fn lemma_viable_monotonic(s: SourceView, hashrate: Frac, md1: Frac, md2: Frac)
    requires
        source_wf(s),
        frac_wf(hashrate),
        frac_wf(md1),
        frac_wf(md2),
        frac_le(md1, md2),
        forall|h: int|
            (#[trigger] spec_evaluate(s, h, hashrate, md1)) is Ok ==> spec_evaluate(
                s,
                h,
                hashrate,
                md2,
            ) is Ok,
    ensures
        forall|x: u64|
            viable_heights(s, hashrate, md1).contains(x) ==> viable_heights(
                s,
                hashrate,
                md2,
            ).contains(x),
{
    assert forall|h: int| #[trigger] spec_viable(s, h, hashrate, md1) implies spec_viable(
        s,
        h,
        hashrate,
        md2,
    ) by {
        lemma_time_required_independent_of_budget(s, h, hashrate, md1, md2);
        lemma_evaluate_ok_wf(s, h, hashrate, md1);
        let days = spec_evaluate(s, h, hashrate, md1)->Ok_0.time_required_days;
        lemma_frac_le_trans(days, md1, md2);
    }
    lemma_viable_prefix_monotonic(s, hashrate, md1, md2, 7);
}

/// Pointwise-implied viability carries over to the filtered prefixes.
proof fn lemma_viable_prefix_monotonic(s: SourceView, hashrate: Frac, md1: Frac, md2: Frac, n: int)
    requires
        forall|h: int|
            (#[trigger] spec_viable(s, h, hashrate, md1)) ==> spec_viable(s, h, hashrate, md2),
    ensures
        forall|x: u64|
            viable_prefix(s, hashrate, md1, n).contains(x) ==> viable_prefix(
                s,
                hashrate,
                md2,
                n,
            ).contains(x),
    decreases n,
{
    if n > 0 {
        lemma_viable_prefix_monotonic(s, hashrate, md1, md2, n - 1);
        let prev1 = viable_prefix(s, hashrate, md1, n - 1);
        let prev2 = viable_prefix(s, hashrate, md2, n - 1);
        let cur1 = viable_prefix(s, hashrate, md1, n);
        let cur2 = viable_prefix(s, hashrate, md2, n);
        let h = fork_candidate(s.height, candidate_depths()[n - 1] as int);
        assert forall|x: u64| cur1.contains(x) implies cur2.contains(x) by {
            let i = choose|i: int| 0 <= i < cur1.len() && cur1[i] == x;
            if spec_viable(s, h, hashrate, md1) {
                if i < prev1.len() {
                    assert(prev1.contains(x));
                } else {
                    assert(x == h as u64);
                    assert(cur2[prev2.len() as int] == h as u64);
                }
            } else {
                assert(prev1.contains(x));
            }
            if prev1.contains(x) {
                assert(prev2.contains(x));
                let j = choose|j: int| 0 <= j < prev2.len() && prev2[j] == x;
                if spec_viable(s, h, hashrate, md2) {
                    assert(cur2[j] == x);
                } else {
                    assert(cur2[j] == x);
                }
            }
        }
    }
}

/// Successive candidate depths grow strictly along the fixed list.
proof fn lemma_candidate_depths_increase(k: int)
    requires
        0 <= k < 6,
    ensures
        candidate_depths()[k] < candidate_depths()[k + 1],
{
    let d = candidate_depths();
    if k == 0 {
        assert(d[0] == 1u64 && d[1] == 10u64);
    } else if k == 1 {
        assert(d[1] == 10u64 && d[2] == 50u64);
    } else if k == 2 {
        assert(d[2] == 50u64 && d[3] == 100u64);
    } else if k == 3 {
        assert(d[3] == 100u64 && d[4] == 500u64);
    } else if k == 4 {
        assert(d[4] == 500u64 && d[5] == 1000u64);
    } else {
        assert(d[5] == 1000u64 && d[6] == 5000u64);
    }
}

/// The heights the search returns strictly decrease along the result: no
/// height appears twice, and they stand exactly in the fixed
/// candidate-depth order (nearest depth first), a subsequence of the
/// candidate heights.
pub proof fn lemma_viable_heights_strictly_decreasing(
    s: SourceView,
    hashrate: Frac,
    max_days: Frac,
)
    requires
        0 <= s.height <= u64::MAX,
    ensures
        forall|i: int, j: int|
            0 <= i < j < viable_heights(s, hashrate, max_days).len() ==> viable_heights(
                s,
                hashrate,
                max_days,
            )[i] > viable_heights(s, hashrate, max_days)[j],
        forall|i: int|
            0 <= i < viable_heights(s, hashrate, max_days).len() ==> viable_heights(
                s,
                hashrate,
                max_days,
            )[i] >= 1,
{
    lemma_viable_prefix_decreasing(s, hashrate, max_days, 7);
}

/// Prefix form: every kept height is positive, the kept heights strictly
/// decrease, and each lies strictly above the next candidate height.
proof fn lemma_viable_prefix_decreasing(s: SourceView, hashrate: Frac, max_days: Frac, n: int)
    requires
        0 <= n <= 7,
        0 <= s.height <= u64::MAX,
    ensures
        ({
            let p = viable_prefix(s, hashrate, max_days, n);
            &&& forall|i: int| 0 <= i < p.len() ==> 1 <= p[i]
            &&& forall|i: int, j: int| 0 <= i < j < p.len() ==> p[i] > p[j]
            &&& n < 7 ==> forall|i: int|
                0 <= i < p.len() ==> p[i] as int > fork_candidate(
                    s.height,
                    candidate_depths()[n] as int,
                )
        }),
    decreases n,
{
    if n > 0 {
        lemma_viable_prefix_decreasing(s, hashrate, max_days, n - 1);
        let prev = viable_prefix(s, hashrate, max_days, n - 1);
        let p = viable_prefix(s, hashrate, max_days, n);
        let dep = candidate_depths()[n - 1] as int;
        let h = fork_candidate(s.height, dep);
        if spec_viable(s, h, hashrate, max_days) {
            assert(h >= 1);
            assert(0 <= h <= s.height);
            assert(p == prev.push(h as u64));
            assert(p[p.len() - 1] == h as u64);
            assert(forall|i: int| 0 <= i < prev.len() ==> p[i] == prev[i]);
            if n - 1 >= 1 {
                // Every earlier kept height lies strictly above this
                // candidate.
                assert(forall|i: int| 0 <= i < prev.len() ==> prev[i] as int > h);
            }
        } else {
            assert(p == prev);
        }
        if n < 7 {
            lemma_candidate_depths_increase(n - 1);
            let dep2 = candidate_depths()[n] as int;
            let h2 = fork_candidate(s.height, dep2);
            assert(h2 <= fork_candidate(s.height, dep));
            if spec_viable(s, h, hashrate, max_days) {
                assert(h > h2);
            }
        }
    }
}

/// With a zero time budget every candidate evaluation is rejected, so the
/// search returns no heights at all.
pub proof fn lemma_zero_budget_empty(s: SourceView, hashrate: Frac, max_days: Frac)
    requires
        max_days.num <= 0,
    ensures
        viable_heights(s, hashrate, max_days).len() == 0,
{
    lemma_zero_budget_prefix(s, hashrate, max_days, 7);
}

/// Prefix form of the zero-budget law.
proof fn lemma_zero_budget_prefix(s: SourceView, hashrate: Frac, max_days: Frac, n: int)
    requires
        max_days.num <= 0,
    ensures
        viable_prefix(s, hashrate, max_days, n).len() == 0,
    decreases n,
{
    if n > 0 {
        lemma_zero_budget_prefix(s, hashrate, max_days, n - 1);
        let h = fork_candidate(s.height, candidate_depths()[n - 1] as int);
        assert(spec_evaluate(s, h, hashrate, max_days) is Err);
    }
}

} // verus!
