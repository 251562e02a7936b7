//! Block metadata and chain-work accumulation.
//!
//! A `BlockMetadataSource` holds, as plain values, everything the
//! calculator reads about the chain: the compact target of each block in a
//! contiguous height window, the current chain height, and the current
//! network difficulty (absent when it could not be supplied).  Chain work
//! over an inclusive height range is the exact sum of the per-block
//! difficulties, accumulated in ascending height order.

use vstd::prelude::*;
use crate::rational::{
    Frac, Ratio, frac_wf, frac_eq, frac_add, fits_u64, spec_add, lemma_norm_facts,
    lemma_frac_add_wf, lemma_frac_add_congruence, lemma_frac_add_assoc, lemma_frac_eq_trans,
};
use crate::target::{
    spec_difficulty, difficulty_frac, difficulty_from_compact_target, mantissa_of,
    lemma_difficulty_positive,
};

verus! {

/// Failure conditions of the calculator.
#[derive(Clone, Copy, Debug, PartialEq, Eq, Structural)]
pub enum ReorgError {
    /// The fork height lies above the current chain height.
    InvalidForkHeight,
    /// A block's metadata, or the network difficulty, could not be supplied.
    DataUnavailable,
    /// A non-positive hashrate or time budget was supplied.
    InvalidParameter,
    /// An exact value has no representation: a zero mantissa (the ratio is
    /// undefined), or a reduced fraction beyond the 64-bit range.
    Unrepresentable,
}

/// Model of a metadata snapshot: compact targets for the heights
/// `[first, first + targets.len())`, the chain tip and the difficulty.
pub ghost struct SourceView {
    pub first: int,
    pub targets: Seq<u32>,
    pub height: int,
    pub difficulty: Option<Frac>,
}

/// Whether the snapshot can resolve height `h`.
pub open spec fn source_has(s: SourceView, h: int) -> bool {
    s.first <= h < s.first + s.targets.len()
}

/// The compact target the snapshot holds for height `h`.
pub open spec fn source_bits(s: SourceView, h: int) -> u32 {
    s.targets[h - s.first]
}

/// Per-height block metadata together with the chain tip and the network
/// difficulty, held as plain values.
pub struct BlockMetadataSource {
    first_height: u64,
    targets: Vec<u32>,
    current_height: u64,
    current_difficulty: Option<Ratio>,
}

impl View for BlockMetadataSource {
    type V = SourceView;

    closed spec fn view(&self) -> SourceView {
        SourceView {
            first: self.first_height as int,
            targets: self.targets@,
            height: self.current_height as int,
            difficulty: match self.current_difficulty {
                Some(d) => Some(d@),
                None => None,
            },
        }
    }
}

/// A snapshot model is well-formed when the difficulty it reports, if
/// any, is a represented positive rational.
pub open spec fn source_wf(s: SourceView) -> bool {
    match s.difficulty {
        Some(d) => frac_wf(d) && fits_u64(d) && d.num >= 1,
        None => true,
    }
}

impl BlockMetadataSource {
    /// A source is well-formed when its model is.
    pub open spec fn wf(self) -> bool {
        source_wf(self@)
    }

    /// Assemble a snapshot.  `targets[i]` is the compact target of height
    /// `first_height + i`; the difficulty, when present, must be positive.
    pub fn new(
        first_height: u64,
        targets: Vec<u32>,
        current_height: u64,
        current_difficulty: Option<Ratio>,
    ) -> (s: BlockMetadataSource)
        requires
            match current_difficulty {
                Some(d) => d.wf() && d@.num >= 1,
                None => true,
            },
        ensures
            s.wf(),
            s@.first == first_height,
            s@.targets == targets@,
            s@.height == current_height,
            s@.difficulty == (match current_difficulty {
                Some(d) => Some(d@),
                None => None::<Frac>,
            }),
    {
        BlockMetadataSource { first_height, targets, current_height, current_difficulty }
    }

    /// The chain height the snapshot reports.
    pub fn current_height(&self) -> (r: u64)
        ensures
            r == self@.height,
    {
        self.current_height
    }

    /// The network difficulty the snapshot reports, if it could be read.
    pub fn current_difficulty(&self) -> (r: Option<Ratio>)
        ensures
            r is Some <==> self@.difficulty is Some,
            r is Some ==> r->0@ == self@.difficulty->0,
    {
        self.current_difficulty
    }

    /// The compact target at `height`; `None` when the snapshot cannot
    /// resolve that height.
    pub fn compact_target_at(&self, height: u64) -> (r: Option<u32>)
        ensures
            r is Some <==> source_has(self@, height as int),
            r is Some ==> r->0 == source_bits(self@, height as int),
    {
        if height >= self.first_height {
            let idx = height - self.first_height;
            if idx < self.targets.len() as u64 {
                Some(self.targets[idx as usize])
            } else {
                None
            }
        } else {
            None
        }
    }
}

/// The accumulated work over the inclusive range `[from, to]`, with the
/// exact running total reduced after every addition; this mirrors the
/// executable loop step for step, including which failure comes first.
pub open spec fn spec_accumulate(s: SourceView, from: int, to: int) -> Result<Frac, ReorgError>
    decreases to - from + 1,
{
    if from > to {
        Ok(Frac { num: 0, den: 1 })
    } else {
        match spec_accumulate(s, from, to - 1) {
            Ok(w) => {
                if !source_has(s, to) {
                    Err(ReorgError::DataUnavailable)
                } else {
                    match spec_difficulty(source_bits(s, to)) {
                        Some(d) => match spec_add(w, d) {
                            Some(w2) => Ok(w2),
                            None => Err(ReorgError::Unrepresentable),
                        },
                        None => Err(ReorgError::Unrepresentable),
                    }
                }
            },
            Err(e) => Err(e),
        }
    }
}

/// The exact mathematical chain work: the unreduced sum of the per-block
/// difficulty fractions over `[from, to]`.
pub open spec fn work_sum(s: SourceView, from: int, to: int) -> Frac
    decreases to - from + 1,
{
    if from > to {
        Frac { num: 0, den: 1 }
    } else {
        frac_add(work_sum(s, from, to - 1), difficulty_frac(source_bits(s, to)))
    }
}

/// A successful accumulation stays successful on every prefix of the range.
pub proof fn lemma_accumulate_prefix(s: SourceView, from: int, t: int, to: int)
    requires
        from <= t <= to,
        spec_accumulate(s, from, to) is Ok,
    ensures
        spec_accumulate(s, from, t) is Ok,
    decreases to - t,
{
    if t < to {
        lemma_accumulate_prefix(s, from, t, to - 1);
    }
}

/// A failed accumulation keeps its error over any wider range.
pub proof fn lemma_accumulate_err_persists(s: SourceView, from: int, t: int, to: int)
    requires
        from <= t <= to,
        spec_accumulate(s, from, t) is Err,
    ensures
        spec_accumulate(s, from, to) == spec_accumulate(s, from, t),
    decreases to - t,
{
    if t < to {
        lemma_accumulate_err_persists(s, from, t, to - 1);
    }
}

/// A successful accumulation is a well-formed representable fraction whose
/// value is exactly the mathematical sum of the per-block difficulties.
pub proof fn lemma_accumulate_exact(s: SourceView, from: int, to: int)
    requires
        spec_accumulate(s, from, to) is Ok,
    ensures
        frac_wf(spec_accumulate(s, from, to)->Ok_0),
        fits_u64(spec_accumulate(s, from, to)->Ok_0),
        frac_wf(work_sum(s, from, to)),
        frac_eq(spec_accumulate(s, from, to)->Ok_0, work_sum(s, from, to)),
    decreases to - from + 1,
{
    if from > to {
        assert(frac_eq(Frac { num: 0, den: 1 }, Frac { num: 0, den: 1 }));
    } else {
        lemma_accumulate_exact(s, from, to - 1);
        let w = spec_accumulate(s, from, to - 1)->Ok_0;
        let ws = work_sum(s, from, to - 1);
        let bits = source_bits(s, to);
        let d = spec_difficulty(bits)->0;
        let df = difficulty_frac(bits);
        lemma_difficulty_positive(bits);
        assert(frac_wf(d) && fits_u64(d) && frac_eq(d, df) && frac_wf(df)) by {
            lemma_norm_facts(df.num, df.den);
        }
        let raw = frac_add(w, d);
        lemma_frac_add_wf(w, d);
        assert(raw.num <= u128::MAX);
        lemma_norm_facts(raw.num, raw.den);
        let w2 = spec_accumulate(s, from, to)->Ok_0;
        assert(frac_wf(w2) && fits_u64(w2) && frac_eq(w2, raw));
        lemma_frac_add_congruence(w, ws, d, df);
        lemma_frac_add_wf(ws, df);
        lemma_frac_eq_trans(w2, raw, frac_add(ws, df));
    }
}

/// Work over a range of a single height is that height's difficulty.
pub proof fn lemma_single_height_work(s: SourceView, h: int)
    requires
        spec_accumulate(s, h, h) is Ok,
    ensures
        frac_eq(spec_accumulate(s, h, h)->Ok_0, difficulty_frac(source_bits(s, h))),
{
    lemma_accumulate_exact(s, h, h);
    let df = difficulty_frac(source_bits(s, h));
    assert(work_sum(s, h, h - 1) == (Frac { num: 0, den: 1 }));
    assert(work_sum(s, h, h) == frac_add(Frac { num: 0, den: 1 }, df));
    assert(frac_add(Frac { num: 0, den: 1 }, df) == df);
    assert(frac_eq(spec_accumulate(s, h, h)->Ok_0, df));
}

/// Work is additive over contiguous sub-ranges: the value accumulated over
/// `[a, c]` equals the sum of the values accumulated over `[a, b]` and
/// `[b + 1, c]`, whenever all three accumulations succeed.
pub proof fn lemma_work_additive(s: SourceView, a: int, b: int, c: int)
    requires
        a <= b < c,
        spec_accumulate(s, a, b) is Ok,
        spec_accumulate(s, b + 1, c) is Ok,
        spec_accumulate(s, a, c) is Ok,
    ensures
        frac_eq(
            spec_accumulate(s, a, c)->Ok_0,
            frac_add(spec_accumulate(s, a, b)->Ok_0, spec_accumulate(s, b + 1, c)->Ok_0),
        ),
{
    lemma_work_sum_additive(s, a, b, c);
    lemma_accumulate_exact(s, a, b);
    lemma_accumulate_exact(s, b + 1, c);
    lemma_accumulate_exact(s, a, c);
    let vac = spec_accumulate(s, a, c)->Ok_0;
    let vab = spec_accumulate(s, a, b)->Ok_0;
    let vbc = spec_accumulate(s, b + 1, c)->Ok_0;
    let wac = work_sum(s, a, c);
    let wab = work_sum(s, a, b);
    let wbc = work_sum(s, b + 1, c);
    lemma_frac_add_wf(wab, wbc);
    lemma_frac_add_wf(vab, vbc);
    lemma_frac_eq_trans(vac, wac, frac_add(wab, wbc));
    lemma_frac_add_congruence(wab, vab, wbc, vbc);
    lemma_frac_eq_trans(vac, frac_add(wab, wbc), frac_add(vab, vbc));
}

/// The mathematical sum itself splits over contiguous sub-ranges.
proof fn lemma_work_sum_additive(s: SourceView, a: int, b: int, c: int)
    requires
        a <= b < c,
        spec_accumulate(s, a, b) is Ok,
        spec_accumulate(s, b + 1, c) is Ok,
    ensures
        frac_wf(work_sum(s, a, c)),
        frac_eq(work_sum(s, a, c), frac_add(work_sum(s, a, b), work_sum(s, b + 1, c))),
    decreases c - b,
{
    lemma_accumulate_exact(s, a, b);
    let wab = work_sum(s, a, b);
    let bits = source_bits(s, c);
    let df = difficulty_frac(bits);
    assert(spec_difficulty(bits) is Some);
    assert(mantissa_of(bits) >= 1);
    lemma_difficulty_positive(bits);
    if c == b + 1 {
        assert(work_sum(s, b + 1, c) == frac_add(Frac { num: 0, den: 1 }, df));
        assert(frac_add(Frac { num: 0, den: 1 }, df) == df);
        assert(work_sum(s, a, c) == frac_add(wab, df));
        lemma_frac_add_wf(wab, df);
        assert(frac_eq(frac_add(wab, df), frac_add(wab, df)));
    } else {
        lemma_accumulate_prefix(s, b + 1, c - 1, c);
        lemma_work_sum_additive(s, a, b, c - 1);
        lemma_accumulate_exact(s, b + 1, c - 1);
        let wac1 = work_sum(s, a, c - 1);
        let wbc1 = work_sum(s, b + 1, c - 1);
        assert(work_sum(s, a, c) == frac_add(wac1, df));
        assert(work_sum(s, b + 1, c) == frac_add(wbc1, df));
        lemma_frac_add_wf(wac1, df);
        lemma_frac_add_wf(wbc1, df);
        lemma_frac_add_wf(wab, wbc1);
        lemma_frac_add_wf(wab, frac_add(wbc1, df));
        lemma_frac_add_congruence(wac1, frac_add(wab, wbc1), df, df);
        lemma_frac_add_assoc(wab, wbc1, df);
        lemma_frac_eq_trans(
            frac_add(wac1, df),
            frac_add(frac_add(wab, wbc1), df),
            frac_add(wab, frac_add(wbc1, df)),
        );
    }
}

/// Sum the difficulty of every block in the inclusive height range, in
/// ascending order; the whole accumulation aborts on the first height that
/// cannot be resolved or whose difficulty has no representation.
pub fn accumulate_work(source: &BlockMetadataSource, from_height: u64, to_height: u64) -> (r:
    Result<Ratio, ReorgError>)
    requires
        from_height <= to_height,
    ensures
        r is Ok <==> spec_accumulate(source@, from_height as int, to_height as int) is Ok,
        r is Ok ==> r->Ok_0@ == spec_accumulate(source@, from_height as int, to_height as int)->Ok_0
            && r->Ok_0.wf(),
        r is Err ==> r->Err_0 == spec_accumulate(
            source@,
            from_height as int,
            to_height as int,
        )->Err_0,
{
    let ghost s = source@;
    let ghost fr = from_height as int;
    let ghost to = to_height as int;
    let mut total = Ratio::from_u64(0);
    let mut h = from_height;
    loop
        invariant_except_break
            from_height <= h <= to_height,
            total.wf(),
            spec_accumulate(s, fr, h - 1) == Ok::<Frac, ReorgError>(total@),
            s == source@,
            fr == from_height as int,
            to == to_height as int,
        ensures
            total.wf(),
            spec_accumulate(s, fr, to) == Ok::<Frac, ReorgError>(total@),
            s == source@,
            fr == from_height as int,
            to == to_height as int,
        decreases to_height - h,
    {
        let bits = match source.compact_target_at(h) {
            Some(b) => b,
            None => {
                proof {
                    assert(spec_accumulate(s, fr, h as int) is Err);
                    lemma_accumulate_err_persists(s, fr, h as int, to);
                }
                return Err(ReorgError::DataUnavailable);
            },
        };
        let d = match difficulty_from_compact_target(bits) {
            Some(d) => d,
            None => {
                proof {
                    assert(spec_accumulate(s, fr, h as int) is Err);
                    lemma_accumulate_err_persists(s, fr, h as int, to);
                }
                return Err(ReorgError::Unrepresentable);
            },
        };
        total = match total.checked_add(&d) {
            Some(t) => t,
            None => {
                proof {
                    assert(spec_accumulate(s, fr, h as int) is Err);
                    lemma_accumulate_err_persists(s, fr, h as int, to);
                }
                return Err(ReorgError::Unrepresentable);
            },
        };
        if h == to_height {
            break;
        }
        h = h + 1;
    }
    Ok(total)
}

} // verus!
