//! Random sampling of records, under a quota on their number or a budget on
//! their bytes. Records are decided one at a time, in the order they are given.

use crate::records::SeqRecord;
use rand::rngs::StdRng;
use rand::Rng;
use vstd::prelude::*;

verus! {

/// rand's standard generator, carried through as an opaque value.
#[verifier::external_type_specification]
#[verifier::external_body]
pub struct ExStdRng(StdRng);

/// Relies on `rand::Rng::gen_range` over `0..bound`: a value below the bound.
/// It panics on an empty range, so the bound is positive.
#[verifier::external_body]
fn draw_below(rng: &mut StdRng, bound: u128) -> (r: u128)
    requires
        bound > 0,
    ensures
        r < bound,
{
    rng.gen_range(0..bound)
}

/// Why a sample could not be drawn.
#[derive(Debug, Clone, Copy, PartialEq, Eq, Structural)]
pub enum SampleError {
    /// More records were asked for than there are.
    QuotaExceedsPopulation,
}

/// Each index is smaller than the next.
pub open spec fn strictly_increasing(v: Seq<usize>) -> bool {
    forall|a: int, b: int| 0 <= a < b < v.len() ==> v[a] < v[b]
}

/// Each index is below `n`.
pub open spec fn all_below(v: Seq<usize>, n: nat) -> bool {
    forall|a: int| 0 <= a < v.len() ==> #[trigger] v[a] < n
}

/// Each index is one of `candidates`.
pub open spec fn drawn_from(v: Seq<usize>, candidates: Seq<usize>) -> bool {
    forall|a: int| 0 <= a < v.len() ==> candidates.contains(#[trigger] v[a])
}

/// The summed sizes of the records at the given indices.
pub open spec fn picked_total(sizes: Seq<usize>, picks: Seq<usize>) -> int
    decreases picks.len(),
{
    if picks.len() == 0 {
        0
    } else {
        picked_total(sizes, picks.drop_last()) + sizes[picks.last() as int]
    }
}

proof fn lemma_picked_total_push(sizes: Seq<usize>, picks: Seq<usize>, x: usize)
    ensures
        picked_total(sizes, picks.push(x)) == picked_total(sizes, picks) + sizes[x as int],
{
    assert(picks.push(x).drop_last() =~= picks);
}

/// The state of a draw under a quota: how many records are still to be taken
/// and how many are still to be decided.
pub struct QuotaSampler {
    pub remaining_quota: usize,
    pub remaining_population: usize,
}

impl QuotaSampler {
    /// The quota never exceeds the records left, so it can always be met.
    pub open spec fn wf(&self) -> bool {
        self.remaining_quota <= self.remaining_population
    }

    /// A sampler that takes `quota` of `population` records; fails where the
    /// quota exceeds the population.
    pub fn new(population: usize, quota: usize) -> (r: Result<QuotaSampler, SampleError>)
        ensures
            r is Err <==> quota > population,
            r matches Err(e) ==> e == SampleError::QuotaExceedsPopulation,
            r matches Ok(q) ==> q.wf() && q.remaining_quota == quota && q.remaining_population
                == population,
    {
        if quota > population {
            Err(SampleError::QuotaExceedsPopulation)
        } else {
            Ok(QuotaSampler { remaining_quota: quota, remaining_population: population })
        }
    }

    /// Decides the next record from a draw that is uniform below the number of
    /// records left: it is taken when the draw falls below the quota left, so
    /// with probability `remaining_quota / remaining_population`.
    pub fn offer(&mut self, draw: u128) -> (take: bool)
        requires
            old(self).wf(),
            old(self).remaining_population > 0,
            draw < old(self).remaining_population as u128,
        ensures
            take == (draw < old(self).remaining_quota as u128),
            final(self).wf(),
            final(self).remaining_population == old(self).remaining_population - 1,
            final(self).remaining_quota == if take {
                old(self).remaining_quota - 1
            } else {
                old(self).remaining_quota as int
            },
    {
        let take = draw < self.remaining_quota as u128;
        if take {
            self.remaining_quota = self.remaining_quota - 1;
        }
        self.remaining_population = self.remaining_population - 1;
        take
    }
}

/// The exclusive bound of the draw that decides a record of `record_bytes`
/// bytes with `remaining` records left, counting it: their product.
pub fn budget_bound(record_bytes: usize, remaining: usize) -> (r: u128)
    requires
        record_bytes > 0,
        remaining > 0,
    ensures
        r == record_bytes * remaining,
        r > 0,
{
    proof {
        vstd::arithmetic::mul::lemma_mul_strictly_positive(record_bytes as int, remaining as int);
        vstd::arithmetic::mul::lemma_mul_upper_bound(
            record_bytes as int,
            usize::MAX as int,
            remaining as int,
            usize::MAX as int,
        );
        assert(usize::MAX * usize::MAX < u128::MAX) by (nonlinear_arith);
    }
    (record_bytes as u128) * (remaining as u128)
}

/// What becomes of a record offered under a byte budget.
#[derive(Debug, Clone, Copy, PartialEq, Eq, Structural)]
pub enum Admission {
    /// The record is written.
    Emit,
    /// The record is passed over.
    Skip,
    /// The record was drawn but does not fit: the scan ends here.
    Stop,
}

/// The state of a draw under a byte budget: the budget, the bytes written so
/// far and the records still to be decided.
pub struct BudgetSampler {
    pub budget: usize,
    pub written: usize,
    pub remaining_records: usize,
}

impl BudgetSampler {
    /// Nothing beyond the budget has been written.
    pub open spec fn wf(&self) -> bool {
        self.written <= self.budget
    }

    /// A sampler with nothing written yet.
    pub fn new(budget: usize, records: usize) -> (r: BudgetSampler)
        ensures
            r.wf(),
            r.budget == budget,
            r.written == 0,
            r.remaining_records == records,
    {
        BudgetSampler { budget, written: 0, remaining_records: records }
    }

    /// The exclusive bound of the draw that decides a record of `record_bytes`
    /// bytes: its size times the records left.
    pub fn draw_bound(&self, record_bytes: usize) -> (r: u128)
        requires
            record_bytes > 0,
            self.remaining_records > 0,
        ensures
            r == record_bytes * self.remaining_records,
            r > 0,
    {
        budget_bound(record_bytes, self.remaining_records)
    }

    /// Decides a record of `record_bytes` bytes from a draw below
    /// [`draw_bound`](Self::draw_bound). It is drawn when the draw falls below
    /// the budget left, so with probability `left / (record_bytes * remaining)`
    /// clamped to one. A drawn record is written if it fits the budget, and
    /// otherwise ends the scan.
    pub fn offer(&mut self, record_bytes: usize, draw: u128) -> (r: Admission)
        requires
            old(self).wf(),
            old(self).remaining_records > 0,
        ensures
            final(self).wf(),
            final(self).budget == old(self).budget,
            r == if draw >= (old(self).budget - old(self).written) as u128 {
                Admission::Skip
            } else if old(self).written + record_bytes > old(self).budget {
                Admission::Stop
            } else {
                Admission::Emit
            },
            r == Admission::Emit ==> final(self).written == old(self).written + record_bytes,
            r != Admission::Emit ==> final(self).written == old(self).written,
            r == Admission::Stop ==> final(self).remaining_records == old(
                self,
            ).remaining_records,
            r != Admission::Stop ==> final(self).remaining_records == old(
                self,
            ).remaining_records - 1,
    {
        let left = self.budget - self.written;
        if draw >= left as u128 {
            self.remaining_records = self.remaining_records - 1;
            Admission::Skip
        } else if record_bytes > left {
            Admission::Stop
        } else {
            self.written = self.written + record_bytes;
            self.remaining_records = self.remaining_records - 1;
            Admission::Emit
        }
    }
}

/// The records that a quota draw takes, from index `i` on, with `quota`
/// records still to take out of `population`: record `i` is taken when its
/// draw falls below the quota left, and the scan ends once the quota is met.
pub open spec fn quota_scan(population: int, quota: int, draws: Seq<u128>, i: int) -> Seq<usize>
    decreases population - i,
{
    if i < 0 || i >= population || quota <= 0 {
        Seq::empty()
    } else if draws[i] < quota {
        seq![i as usize] + quota_scan(population, quota - 1, draws, i + 1)
    } else {
        quota_scan(population, quota, draws, i + 1)
    }
}

/// Draws for a quota over `population` records: one per record, the draw for
/// record `i` below the number of records from `i` on.
pub open spec fn quota_draws(population: nat, draws: Seq<u128>) -> bool {
    &&& draws.len() == population
    &&& forall|i: int| 0 <= i < population ==> #[trigger] draws[i] < population - i
}

/// The records that a budget draw takes from `candidates`, from position `pos`
/// on, with `written` bytes already taken: a candidate whose draw is not below
/// the budget left is passed over; one whose draw is below it is taken if it
/// fits, and otherwise ends the scan.
pub open spec fn budget_scan(
    sizes: Seq<usize>,
    candidates: Seq<usize>,
    budget: int,
    draws: Seq<u128>,
    pos: int,
    written: int,
) -> Seq<usize>
    decreases candidates.len() - pos,
{
    if pos < 0 || pos >= candidates.len() {
        Seq::empty()
    } else if draws[pos] >= budget - written {
        budget_scan(sizes, candidates, budget, draws, pos + 1, written)
    } else if written + sizes[candidates[pos] as int] > budget {
        Seq::empty()
    } else {
        seq![candidates[pos]] + budget_scan(
            sizes,
            candidates,
            budget,
            draws,
            pos + 1,
            written + sizes[candidates[pos] as int],
        )
    }
}

/// Draws for a budget over `candidates`: one per candidate, the draw at
/// position `p` below its size times the candidates from `p` on.
pub open spec fn budget_draws(sizes: Seq<usize>, candidates: Seq<usize>, draws: Seq<u128>) -> bool {
    &&& draws.len() == candidates.len()
    &&& forall|p: int|
        0 <= p < candidates.len() ==> #[trigger] draws[p] < sizes[candidates[p] as int] * (
        candidates.len() - p)
}

/// Takes `quota` of `population` records as the given draws decide, in
/// ascending order: record `i` is taken when `draws[i]` falls below the quota
/// left, so with probability quota left over records left where each draw is
/// uniform below the records left.
pub fn select_by_number(population: usize, quota: usize, draws: &Vec<u128>) -> (r: Vec<usize>)
    requires
        quota <= population,
        quota_draws(population as nat, draws@),
    ensures
        r@ == quota_scan(population as int, quota as int, draws@, 0),
        r@.len() == quota,
        strictly_increasing(r@),
        all_below(r@, population as nat),
{
    let mut sampler = QuotaSampler { remaining_quota: quota, remaining_population: population };
    let mut picked: Vec<usize> = Vec::new();
    let mut idx: usize = 0;
    while idx < population && sampler.remaining_quota > 0
        invariant
            sampler.wf(),
            idx <= population,
            quota_draws(population as nat, draws@),
            sampler.remaining_population == population - idx,
            picked@.len() + sampler.remaining_quota == quota,
            strictly_increasing(picked@),
            all_below(picked@, idx as nat),
            picked@ + quota_scan(
                population as int,
                sampler.remaining_quota as int,
                draws@,
                idx as int,
            ) == quota_scan(population as int, quota as int, draws@, 0),
        decreases population - idx,
    {
        let ghost before = picked@;
        let ghost q = sampler.remaining_quota as int;
        let draw = draws[idx];
        if sampler.offer(draw) {
            picked.push(idx);
            assert(before + quota_scan(population as int, q, draws@, idx as int) =~= picked@
                + quota_scan(population as int, q - 1, draws@, idx + 1));
        }
        idx += 1;
    }
    assert(picked@ + quota_scan(
        population as int,
        sampler.remaining_quota as int,
        draws@,
        idx as int,
    ) =~= picked@);
    picked
}

/// Draws `quota` of `population` records uniformly without replacement,
/// returning their indices in ascending order; fails, drawing nothing, where
/// the quota exceeds the population. Each record is decided in turn, taken
/// with probability quota left over records left.
pub fn sample_by_number(rng: &mut StdRng, population: usize, quota: usize) -> (r: Result<
    Vec<usize>,
    SampleError,
>)
    ensures
        r is Err <==> quota > population,
        r matches Err(e) ==> e == SampleError::QuotaExceedsPopulation,
        r matches Ok(v) ==> v@.len() == quota && strictly_increasing(v@) && all_below(
            v@,
            population as nat,
        ),
        r matches Ok(v) ==> exists|d: Seq<u128>|
            quota_draws(population as nat, d) && v@ == quota_scan(
                population as int,
                quota as int,
                d,
                0,
            ),
{
    if quota > population {
        return Err(SampleError::QuotaExceedsPopulation);
    }
    let mut draws: Vec<u128> = Vec::with_capacity(population);
    let mut i: usize = 0;
    while i < population
        invariant
            i <= population,
            draws@.len() == i,
            forall|k: int| 0 <= k < i ==> #[trigger] draws@[k] < population - k,
        decreases population - i,
    {
        draws.push(draw_below(rng, (population - i) as u128));
        i += 1;
    }
    let v = select_by_number(population, quota, &draws);
    assert(quota_draws(population as nat, draws@));
    Ok(v)
}

/// Takes records from `candidates` under a byte budget as the given draws
/// decide: a candidate is drawn when its draw falls below the budget left, a
/// drawn candidate is taken if it fits, and the first drawn one that does not
/// fit ends the scan. The bytes taken never exceed `budget`.
pub fn select_by_size(
    sizes: &Vec<usize>,
    candidates: &Vec<usize>,
    budget: usize,
    draws: &Vec<u128>,
) -> (r: Vec<usize>)
    requires
        strictly_increasing(candidates@),
        all_below(candidates@, sizes@.len()),
        draws@.len() == candidates@.len(),
    ensures
        r@ == budget_scan(sizes@, candidates@, budget as int, draws@, 0, 0),
        strictly_increasing(r@),
        drawn_from(r@, candidates@),
        all_below(r@, sizes@.len()),
        picked_total(sizes@, r@) <= budget,
{
    let mut sampler = BudgetSampler::new(budget, candidates.len());
    let mut picked: Vec<usize> = Vec::new();
    let mut pos: usize = 0;
    let ghost mut stopped = false;
    while pos < candidates.len()
        invariant
            stopped ==> picked@ == budget_scan(sizes@, candidates@, budget as int, draws@, 0, 0),
            sampler.wf(),
            sampler.budget == budget,
            pos <= candidates@.len(),
            draws@.len() == candidates@.len(),
            sampler.remaining_records == candidates@.len() - pos,
            strictly_increasing(candidates@),
            all_below(candidates@, sizes@.len()),
            strictly_increasing(picked@),
            drawn_from(picked@, candidates@),
            all_below(picked@, sizes@.len()),
            pos < candidates@.len() ==> forall|a: int|
                0 <= a < picked@.len() ==> #[trigger] picked@[a] < candidates@[pos as int],
            picked_total(sizes@, picked@) == sampler.written,
            picked@ + budget_scan(
                sizes@,
                candidates@,
                budget as int,
                draws@,
                pos as int,
                sampler.written as int,
            ) == budget_scan(sizes@, candidates@, budget as int, draws@, 0, 0),
        ensures
            !stopped ==> pos == candidates@.len(),
            stopped ==> picked@ == budget_scan(sizes@, candidates@, budget as int, draws@, 0, 0),
        decreases candidates@.len() - pos,
    {
        let idx = candidates[pos];
        let bytes = sizes[idx];
        let ghost before = picked@;
        let ghost w = sampler.written as int;
        match sampler.offer(bytes, draws[pos]) {
            Admission::Emit => {
                proof {
                    lemma_picked_total_push(sizes@, picked@, idx);
                    assert(candidates@.contains(candidates@[pos as int]));
                }
                picked.push(idx);
                assert(before + budget_scan(
                    sizes@,
                    candidates@,
                    budget as int,
                    draws@,
                    pos as int,
                    w,
                ) =~= picked@ + budget_scan(
                    sizes@,
                    candidates@,
                    budget as int,
                    draws@,
                    pos + 1,
                    w + bytes,
                ));
            },
            Admission::Skip => {},
            Admission::Stop => {
                assert(picked@ + budget_scan(
                    sizes@,
                    candidates@,
                    budget as int,
                    draws@,
                    pos as int,
                    w,
                ) =~= picked@);
                proof {
                    stopped = true;
                }
                break ;
            },
        }
        pos += 1;
    }
    proof {
        if !stopped {
            assert(picked@ + budget_scan(
                sizes@,
                candidates@,
                budget as int,
                draws@,
                pos as int,
                sampler.written as int,
            ) =~= picked@);

        }
    }
    picked
}

/// Scans the records at `candidates` in order and draws records under a byte
/// budget: the bytes of the records returned never exceed `budget`. Each
/// record is drawn with a probability that spreads the budget left over the
/// records left; the scan ends at the first drawn record that does not fit.
pub fn sample_by_size(
    rng: &mut StdRng,
    sizes: &Vec<usize>,
    candidates: &Vec<usize>,
    budget: usize,
) -> (r: Vec<usize>)
    requires
        strictly_increasing(candidates@),
        all_below(candidates@, sizes@.len()),
        forall|i: int| 0 <= i < sizes@.len() ==> #[trigger] sizes@[i] > 0,
    ensures
        strictly_increasing(r@),
        drawn_from(r@, candidates@),
        all_below(r@, sizes@.len()),
        picked_total(sizes@, r@) <= budget,
        exists|d: Seq<u128>|
            budget_draws(sizes@, candidates@, d) && r@ == budget_scan(
                sizes@,
                candidates@,
                budget as int,
                d,
                0,
                0,
            ),
{
    let n = candidates.len();
    let mut draws: Vec<u128> = Vec::with_capacity(n);
    let mut p: usize = 0;
    while p < n
        invariant
            n == candidates@.len(),
            p <= n,
            draws@.len() == p,
            all_below(candidates@, sizes@.len()),
            forall|i: int| 0 <= i < sizes@.len() ==> #[trigger] sizes@[i] > 0,
            forall|k: int|
                0 <= k < p ==> #[trigger] draws@[k] < sizes@[candidates@[k] as int] * (n - k),
        decreases n - p,
    {
        let bound = budget_bound(sizes[candidates[p]], n - p);
        draws.push(draw_below(rng, bound));
        p += 1;
    }
    assert(budget_draws(sizes@, candidates@, draws@));
    select_by_size(sizes, candidates, budget, &draws)
}

/// The reckoned sizes of a list of records.
pub open spec fn costs_of(records: Seq<SeqRecord>) -> Seq<usize> {
    Seq::new(records.len(), |i: int| records[i].cost() as usize)
}

/// Every index below `n`, in order.
pub open spec fn all_indices(n: nat) -> Seq<usize> {
    Seq::new(n, |i: int| i as usize)
}

/// The records left after the quota, if any, as the draws `d1` decide.
pub open spec fn chosen_by_quota(n: nat, sample_number: Option<usize>, d1: Seq<u128>) -> Seq<
    usize,
> {
    match sample_number {
        Some(q) => quota_scan(n as int, q as int, d1, 0),
        None => all_indices(n),
    }
}

/// The records a sample takes as the draws decide: those left after the
/// quota, then those of them taken under the budget, if any.
pub open spec fn sample_outcome(
    costs: Seq<usize>,
    sample_number: Option<usize>,
    sample_size: Option<usize>,
    d1: Seq<u128>,
    d2: Seq<u128>,
) -> Seq<usize> {
    let c = chosen_by_quota(costs.len(), sample_number, d1);
    match sample_size {
        Some(b) => budget_scan(costs, c, b as int, d2, 0, 0),
        None => c,
    }
}

/// The draws fit the quota's bounds, if there is a quota, and the budget's,
/// if there is a budget.
pub open spec fn sample_draws(
    costs: Seq<usize>,
    sample_number: Option<usize>,
    sample_size: Option<usize>,
    d1: Seq<u128>,
    d2: Seq<u128>,
) -> bool {
    &&& sample_number is Some ==> quota_draws(costs.len(), d1)
    &&& sample_size is Some ==> budget_draws(
        costs,
        chosen_by_quota(costs.len(), sample_number, d1),
        d2,
    )
}

/// Samples records under a quota on their number, a budget on their bytes, or
/// both, and returns the indices of the records to write, in the order the
/// records are given. With a quota the records are first drawn uniformly without
/// replacement, failing where the quota exceeds the records given; with a
/// budget the records (those drawn under the quota, if any) are then drawn so
/// that their bytes stay within it, the scan ending at the first drawn record
/// that does not fit.
pub fn sample(
    rng: &mut StdRng,
    records: &Vec<SeqRecord>,
    sample_number: Option<usize>,
    sample_size: Option<usize>,
) -> (r: Result<Vec<usize>, SampleError>)
    ensures
        r is Err <==> (sample_number matches Some(n) && n > records@.len()),
        r matches Err(e) ==> e == SampleError::QuotaExceedsPopulation,
        r matches Ok(v) ==> {
            &&& strictly_increasing(v@)
            &&& all_below(v@, records@.len())
            &&& sample_number matches Some(n) ==> v@.len() <= n
            &&& sample_size is None ==> (sample_number matches Some(n) ==> v@.len() == n)
            &&& (sample_number is None && sample_size is None) ==> v@.len() == records@.len()
            &&& sample_size matches Some(b) ==> picked_total(costs_of(records@), v@) <= b
            &&& exists|d1: Seq<u128>, d2: Seq<u128>|
                sample_draws(costs_of(records@), sample_number, sample_size, d1, d2) && v@
                    == sample_outcome(costs_of(records@), sample_number, sample_size, d1, d2)
        },
{
    let ghost costs = costs_of(records@);
    let mut sizes: Vec<usize> = Vec::with_capacity(records.len());
    let mut i: usize = 0;
    while i < records.len()
        invariant
            i <= records@.len(),
            sizes@.len() == i,
            costs.len() == records@.len(),
            forall|k: int| 0 <= k < records@.len() ==> #[trigger] costs[k] == records@[k].cost(),
            forall|k: int| 0 <= k < i ==> #[trigger] sizes@[k] == costs[k] && sizes@[k] > 0,
        decreases records@.len() - i,
    {
        sizes.push(records[i].record_size());
        i += 1;
    }
    assert(sizes@ =~= costs);
    let ghost mut d1: Seq<u128> = Seq::empty();
    let chosen = match sample_number {
        Some(n) => match sample_by_number(rng, records.len(), n) {
            Ok(v) => {
                proof {
                    d1 = choose|d: Seq<u128>|
                        quota_draws(records@.len(), d) && v@ == quota_scan(
                            records@.len() as int,
                            n as int,
                            d,
                            0,
                        );
                }
                v
            },
            Err(e) => return Err(e),
        },
        None => {
            let mut all: Vec<usize> = Vec::with_capacity(records.len());
            let mut k: usize = 0;
            while k < records.len()
                invariant
                    k <= records@.len(),
                    all@.len() == k,
                    forall|a: int| 0 <= a < k ==> #[trigger] all@[a] == a,
                decreases records@.len() - k,
            {
                all.push(k);
                k += 1;
            }
            assert(all@ =~= all_indices(records@.len()));
            all
        },
    };
    assert(chosen@ == chosen_by_quota(costs.len(), sample_number, d1));
    match sample_size {
        Some(b) => {
            let v = sample_by_size(rng, &sizes, &chosen, b);
            proof {
                let d2 = choose|d: Seq<u128>|
                    budget_draws(sizes@, chosen@, d) && v@ == budget_scan(
                        sizes@,
                        chosen@,
                        b as int,
                        d,
                        0,
                        0,
                    );
                assert(sample_draws(costs, sample_number, sample_size, d1, d2));
                assert(v@ == sample_outcome(costs, sample_number, sample_size, d1, d2));
                assert forall|x: int, y: int| 0 <= x < y < v@.len() implies v@[x] < v@[y] by {}
                if sample_number is Some {
                    assert(v@.to_set().subset_of(chosen@.to_set())) by {
                        assert forall|e: usize| v@.to_set().contains(e) implies chosen@.to_set().contains(e) by {
                            let a = choose|a: int| 0 <= a < v@.len() && v@[a] == e;
                            assert(chosen@.contains(v@[a]));
                        }
                    }
                    v@.unique_seq_to_set();
                    chosen@.unique_seq_to_set();
                    vstd::set_lib::lemma_len_subset(v@.to_set(), chosen@.to_set());
                }
            }
            Ok(v)
        },
        None => {
            assert(sample_draws(costs, sample_number, sample_size, d1, Seq::empty()));
            assert(chosen@ == sample_outcome(costs, sample_number, sample_size, d1, Seq::empty()));
            Ok(chosen)
        },
    }
}

} // verus!
