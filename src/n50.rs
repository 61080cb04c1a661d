//! The N50 of a set of sequence lengths.

use vstd::prelude::*;
use vstd::relations::{sorted_by, total_ordering};

verus! {

/// The order of the lengths: ascending.
pub open spec fn ascending() -> spec_fn(usize, usize) -> bool {
    |a: usize, b: usize| a <= b
}

/// The sum of a sequence of lengths.
pub open spec fn sum_of(s: Seq<usize>) -> int
    decreases s.len(),
{
    if s.len() == 0 {
        0
    } else {
        sum_of(s.drop_last()) + s.last()
    }
}

/// Position `i` is the first where the running sum passes half of `total`.
pub open spec fn first_past_half(numbers: Seq<usize>, total: int, i: int) -> bool {
    &&& 0 <= i < numbers.len()
    &&& sum_of(numbers.take(i + 1)) > total / 2
    &&& forall|j: int| 0 <= j < i ==> #[trigger] sum_of(numbers.take(j + 1)) <= total / 2
}

/// The N50 of lengths taken in the given order: the length at which the
/// running sum first passes half of `total`, or the last length if it never does.
pub open spec fn n50_of(numbers: Seq<usize>, total: int) -> usize {
    if exists|i: int| first_past_half(numbers, total, i) {
        numbers[choose|i: int| first_past_half(numbers, total, i)]
    } else {
        numbers.last()
    }
}

/// A prefix never sums to more than the whole.
pub(crate) proof fn lemma_sum_prefix(s: Seq<usize>, i: int)
    requires
        0 <= i <= s.len(),
    ensures
        0 <= sum_of(s.take(i)) <= sum_of(s),
    decreases s.len() - i,
{
    if i < s.len() {
        lemma_sum_prefix(s, i + 1);
        assert(s.take(i + 1).drop_last() =~= s.take(i));
        lemma_sum_nonneg(s.take(i));
    } else {
        assert(s.take(i) =~= s);
        lemma_sum_nonneg(s);
    }
}

proof fn lemma_sum_nonneg(s: Seq<usize>)
    ensures
        sum_of(s) >= 0,
    decreases s.len(),
{
    if s.len() > 0 {
        lemma_sum_nonneg(s.drop_last());
    }
}

/// The N50 of `numbers` in the order given, against `nb_bases_total`: the first
/// length at which the running sum passes half the total, or the last length.
pub fn inner_n50(numbers: &[usize], nb_bases_total: usize) -> (r: usize)
    requires
        numbers@.len() > 0,
        sum_of(numbers@) <= usize::MAX,
    ensures
        r == n50_of(numbers@, nb_bases_total as int),
{
    let mut acc: usize = 0;
    let mut i: usize = 0;
    while i < numbers.len()
        invariant
            i <= numbers@.len(),
            sum_of(numbers@) <= usize::MAX,
            acc == sum_of(numbers@.take(i as int)),
            forall|j: int| 0 <= j < i ==> #[trigger] sum_of(numbers@.take(j + 1)) <= nb_bases_total
                / 2,
        decreases numbers@.len() - i,
    {
        proof {
            assert(numbers@.take(i + 1).drop_last() =~= numbers@.take(i as int));
            lemma_sum_prefix(numbers@, i + 1);
        }
        acc = acc + numbers[i];
        if acc > nb_bases_total / 2 {
            proof {
                assert(first_past_half(numbers@, nb_bases_total as int, i as int));
                let c = choose|c: int| first_past_half(numbers@, nb_bases_total as int, c);
                if c < i {
                    assert(sum_of(numbers@.take(c + 1)) <= nb_bases_total / 2);
                } else if c > i {
                    assert(sum_of(numbers@.take(i + 1)) <= nb_bases_total / 2);
                }
            }
            return numbers[i];
        }
        i += 1;
    }
    proof {
        if exists|c: int| first_past_half(numbers@, nb_bases_total as int, c) {
            let c = choose|c: int| first_past_half(numbers@, nb_bases_total as int, c);
            assert(sum_of(numbers@.take(c + 1)) <= nb_bases_total / 2);
        }
    }
    numbers[numbers.len() - 1]
}

/// Relies on `slice::sort_unstable`: afterwards the elements are the same and
/// in ascending order.
#[verifier::external_body]
fn sort_ascending(v: &mut Vec<usize>)
    ensures
        sorted_by(final(v)@, ascending()),
        final(v)@.to_multiset() == old(v)@.to_multiset(),
{
    v.sort_unstable()
}

/// The N50 of a set of lengths: the lengths in ascending order, against their
/// total. `None` where there are no lengths or their total does not fit a `usize`.
pub fn n50(lengths: &Vec<usize>) -> (r: Option<usize>)
    ensures
        r is None <==> lengths@.len() == 0 || sum_of(lengths@.sort_by(ascending())) > usize::MAX,
        r matches Some(x) ==> x == n50_of(
            lengths@.sort_by(ascending()),
            sum_of(lengths@.sort_by(ascending())),
        ),
{
    let mut sorted = lengths.clone();
    sort_ascending(&mut sorted);
    proof {
        assert(total_ordering(ascending()));
        lengths@.lemma_sort_by_ensures(ascending());
        vstd::seq_lib::lemma_sorted_unique(sorted@, lengths@.sort_by(ascending()), ascending());
        broadcast use vstd::seq_lib::group_to_multiset_ensures;
        assert(sorted@.len() == sorted@.to_multiset().len());
        assert(lengths@.len() == lengths@.to_multiset().len());
    }
    if sorted.len() == 0 {
        return None;
    }
    let mut total: usize = 0;
    let mut i: usize = 0;
    while i < sorted.len()
        invariant
            i <= sorted@.len(),
            total == sum_of(sorted@.take(i as int)),
            sorted@ == lengths@.sort_by(ascending()),
        decreases sorted@.len() - i,
    {
        proof {
            assert(sorted@.take(i + 1).drop_last() =~= sorted@.take(i as int));
        }
        match total.checked_add(sorted[i]) {
            Some(t) => {
                total = t;
            },
            None => {
                proof {
                    assert(sum_of(sorted@.take(i + 1)) == total + sorted@[i as int]);
                    lemma_sum_prefix(sorted@, i + 1);
                }
                return None;
            },
        }
        i += 1;
    }
    assert(sorted@.take(i as int) =~= sorted@);
    Some(inner_n50(sorted.as_slice(), total))
}

} // verus!
