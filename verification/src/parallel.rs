//! The data-parallel workload: every value is doubled, spread out into a run
//! of copies, and kept where it is even.

use rayon::iter::{IntoParallelIterator, ParallelIterator};
use vstd::prelude::*;

verus! {

/// Twice `value`, wrapped to 128 bits.
pub open spec fn doubled(value: u128) -> u128 {
    ((value + value) % (u128::MAX + 1)) as u128
}

/// `count` copies of `value`.
pub open spec fn copies(value: u128, count: nat) -> Seq<u128> {
    Seq::new(count, |i: int| value)
}

/// Whether the filter keeps `value`.
pub open spec fn is_even(value: u128) -> bool {
    value % 2 == 0
}

/// The workload stage by stage: double each value, expand it into
/// `expand_size` copies, flatten, and keep the even values.
pub open spec fn pipeline(data: Seq<u128>, expand_size: nat) -> Seq<u128> {
    data.map_values(|x: u128| copies(doubled(x), expand_size)).flatten().filter(
        |v: u128| is_even(v),
    )
}

/// What the workload comes to: for each value in turn, `expand_size` copies
/// of its double.
pub open spec fn expanded(data: Seq<u128>, expand_size: nat) -> Seq<u128>
    decreases data.len(),
{
    if data.len() == 0 {
        Seq::empty()
    } else {
        expanded(data.drop_last(), expand_size) + copies(doubled(data.last()), expand_size)
    }
}

/// The first stage: `value + value`, wrapping.
pub fn double(value: u128) -> (twice: u128)
    ensures
        twice == doubled(value),
        is_even(twice),
{
    value.wrapping_add(value)
}

/// The second stage: `count` copies of `value`.
pub fn replicate(value: u128, count: usize) -> (run: Vec<u128>)
    ensures
        run@ == copies(value, count as nat),
{
    let mut run: Vec<u128> = Vec::new();
    let mut i: usize = 0;
    while i < count
        invariant
            i <= count,
            run@ == copies(value, i as nat),
        decreases count - i,
    {
        run.push(value);
        i += 1;
        assert(run@ =~= copies(value, i as nat));
    }
    assert(run@ =~= copies(value, count as nat));
    run
}

/// The last stage: whether `value` is even.
pub fn keeps(value: &u128) -> (kept: bool)
    ensures
        kept == is_even(*value),
{
    let low: u128 = *value & 1;
    assert(low == 0 <==> *value % 2 == 0) by (bit_vector)
        requires
            low == *value & 1,
    ;
    low == 0
}

/// A run of copies of an even value passes the filter whole.
proof fn lemma_even_copies_kept(value: u128, count: nat)
    requires
        is_even(value),
    ensures
        copies(value, count).filter(|v: u128| is_even(v)) == copies(value, count),
    decreases count,
{
    reveal(Seq::filter);
    let keep = |v: u128| is_even(v);
    if count > 0 {
        lemma_even_copies_kept(value, (count - 1) as nat);
        assert(copies(value, count).drop_last() =~= copies(value, (count - 1) as nat));
        assert(copies(value, count).filter(keep) =~= copies(value, count));
    } else {
        assert(copies(value, count).filter(keep) =~= copies(value, count));
    }
}

/// Doubling makes every value even, so the filter drops nothing: the
/// pipeline yields, for each value in turn, `expand_size` copies of its
/// double.
pub proof fn lemma_pipeline_expands(data: Seq<u128>, expand_size: nat)
    ensures
        pipeline(data, expand_size) == expanded(data, expand_size),
    decreases data.len(),
{
    let spread = |x: u128| copies(doubled(x), expand_size);
    let keep = |v: u128| is_even(v);
    if data.len() == 0 {
        reveal(Seq::filter);
        assert(data.map_values(spread) =~= Seq::<Seq<u128>>::empty());
        assert(data.map_values(spread).flatten() =~= Seq::<u128>::empty());
        assert(pipeline(data, expand_size) =~= Seq::<u128>::empty());
    } else {
        let front = data.drop_last();
        let run = copies(doubled(data.last()), expand_size);
        lemma_pipeline_expands(front, expand_size);
        assert(data.map_values(spread) =~= front.map_values(spread).push(run));
        front.map_values(spread).lemma_flatten_push(run);
        Seq::filter_distributes_over_add(front.map_values(spread).flatten(), run, keep);
        lemma_even_copies_kept(doubled(data.last()), expand_size);
    }
}

/// The workload yields `expand_size` values for each value of its input, all
/// of them even.
pub proof fn lemma_expanded_shape(data: Seq<u128>, expand_size: nat)
    ensures
        expanded(data, expand_size).len() == data.len() * expand_size,
        forall|i: int|
            0 <= i < expanded(data, expand_size).len() ==> is_even(
                #[trigger] expanded(data, expand_size)[i],
            ),
    decreases data.len(),
{
    if data.len() > 0 {
        lemma_expanded_shape(data.drop_last(), expand_size);
        assert(data.len() * expand_size == (data.len() - 1) * expand_size + expand_size)
            by (nonlinear_arith);
    } else {
        assert(data.len() * expand_size == 0) by (nonlinear_arith)
            requires
                data.len() == 0,
        ;
    }
}

/// Every value that the workload yields is the double of a value of its
/// input.
pub proof fn lemma_expanded_values(data: Seq<u128>, expand_size: nat)
    ensures
        forall|i: int|
            0 <= i < expanded(data, expand_size).len() ==> exists|j: int|
                0 <= j < data.len() && #[trigger] expanded(data, expand_size)[i] == doubled(
                    data[j],
                ),
    decreases data.len(),
{
    if data.len() > 0 {
        let front = data.drop_last();
        lemma_expanded_values(front, expand_size);
        assert forall|i: int| 0 <= i < expanded(data, expand_size).len() implies exists|j: int|
            0 <= j < data.len() && #[trigger] expanded(data, expand_size)[i] == doubled(
                data[j],
            ) by {
            if i < expanded(front, expand_size).len() {
                assert(expanded(data, expand_size)[i] == expanded(front, expand_size)[i]);
                let j = choose|j: int|
                    0 <= j < front.len() && expanded(front, expand_size)[i] == doubled(front[j]);
                assert(data[j] == front[j]);
            } else {
                assert(expanded(data, expand_size)[i] == doubled(data[data.len() - 1]));
            }
        }
    }
}

/// The workload on two inputs in a row yields what it yields on the first,
/// then what it yields on the second; as bags, the sum of the two.
pub proof fn lemma_expanded_concat(first: Seq<u128>, second: Seq<u128>, expand_size: nat)
    ensures
        expanded(first + second, expand_size) == expanded(first, expand_size) + expanded(
            second,
            expand_size,
        ),
        pipeline(first + second, expand_size).to_multiset() == pipeline(
            first,
            expand_size,
        ).to_multiset().add(pipeline(second, expand_size).to_multiset()),
    decreases second.len(),
{
    if second.len() == 0 {
        assert(first + second =~= first);
        assert(expanded(first, expand_size) + expanded(second, expand_size) =~= expanded(
            first,
            expand_size,
        ));
    } else {
        lemma_expanded_concat(first, second.drop_last(), expand_size);
        assert((first + second).drop_last() =~= first + second.drop_last());
        assert((first + second).last() == second.last());
        assert(expanded(first + second, expand_size) =~= expanded(first, expand_size) + expanded(
            second,
            expand_size,
        ));
    }
    lemma_pipeline_expands(first, expand_size);
    lemma_pipeline_expands(second, expand_size);
    lemma_pipeline_expands(first + second, expand_size);
    vstd::seq_lib::lemma_multiset_commutative(
        expanded(first, expand_size),
        expanded(second, expand_size),
    );
}

/// How often a run of copies holds a value.
proof fn lemma_copies_count(value: u128, count: nat, probe: u128)
    ensures
        copies(value, count).to_multiset().count(probe) == if probe == value {
            count
        } else {
            0
        },
    decreases count,
{
    if count == 0 {
        assert(copies(value, count) =~= Seq::<u128>::empty());
        copies(value, count).to_multiset_ensures();
        assert(copies(value, count).to_multiset().len() == 0);
        if copies(value, count).to_multiset().count(probe) > 0 {
            assert(copies(value, count).contains(probe));
        }
    } else {
        let shorter = copies(value, (count - 1) as nat);
        lemma_copies_count(value, (count - 1) as nat, probe);
        assert(copies(value, count) =~= shorter.push(value));
        shorter.to_multiset_ensures();
    }
}

/// The half of `value`: where `value` is even, the smaller of the two values
/// whose double it is.
pub open spec fn low_half(value: u128) -> u128 {
    value / 2
}

/// The half of `value` with the top bit set: where `value` is even, the
/// larger of the two values whose double it is.
pub open spec fn high_half(value: u128) -> u128 {
    (value / 2 + 0x8000_0000_0000_0000_0000_0000_0000_0000) as u128
}

/// How often the workload yields a value: `expand_size` times for each
/// occurrence in the input of one of the two values whose double it is, and
/// never where it is odd.
pub proof fn lemma_expanded_count(data: Seq<u128>, expand_size: nat, value: u128)
    ensures
        expanded(data, expand_size).to_multiset().count(value) == if is_even(value) {
            expand_size * (data.to_multiset().count(low_half(value)) + data.to_multiset().count(
                high_half(value),
            ))
        } else {
            0
        },
    decreases data.len(),
{
    if data.len() == 0 {
        data.to_multiset_ensures();
        expanded(data, expand_size).to_multiset_ensures();
        if data.to_multiset().count(low_half(value)) > 0 {
            assert(data.contains(low_half(value)));
        }
        if data.to_multiset().count(high_half(value)) > 0 {
            assert(data.contains(high_half(value)));
        }
        if expanded(data, expand_size).to_multiset().count(value) > 0 {
            assert(expanded(data, expand_size).contains(value));
        }
        assert(expand_size * 0 == 0);
    } else {
        let front = data.drop_last();
        let last = data.last();
        let run = copies(doubled(last), expand_size);
        lemma_expanded_count(front, expand_size, value);
        vstd::seq_lib::lemma_multiset_commutative(expanded(front, expand_size), run);
        lemma_copies_count(doubled(last), expand_size, value);
        assert(data =~= front.push(last));
        front.to_multiset_ensures();
        let lo = front.to_multiset().count(low_half(value));
        let hi = front.to_multiset().count(high_half(value));
        assert(doubled(last) == value <==> is_even(value) && (last == low_half(value) || last
            == high_half(value)));
        assert(low_half(value) != high_half(value));
        if is_even(value) {
            assert(expand_size * (lo + hi + 1) == expand_size * (lo + hi) + expand_size)
                by (nonlinear_arith);
        }
    }
}

/// The bag that the workload yields depends on the bag of its input alone:
/// the order of the input does not matter.
pub proof fn lemma_pipeline_of_bag(first: Seq<u128>, second: Seq<u128>, expand_size: nat)
    requires
        first.to_multiset() == second.to_multiset(),
    ensures
        pipeline(first, expand_size).to_multiset() == pipeline(second, expand_size).to_multiset(),
{
    lemma_pipeline_expands(first, expand_size);
    lemma_pipeline_expands(second, expand_size);
    assert forall|value: u128|
        expanded(first, expand_size).to_multiset().count(value) == expanded(
            second,
            expand_size,
        ).to_multiset().count(value) by {
        lemma_expanded_count(first, expand_size, value);
        lemma_expanded_count(second, expand_size, value);
    }
    assert(expanded(first, expand_size).to_multiset() =~= expanded(
        second,
        expand_size,
    ).to_multiset());
}

/// The workload on one thread: the values of the pipeline, in the order of
/// the input.
pub fn reference(data: &Vec<u128>, expand_size: usize) -> (out: Vec<u128>)
    requires
        data@.len() * expand_size <= usize::MAX,
    ensures
        out@ == pipeline(data@, expand_size as nat),
{
    let mut out: Vec<u128> = Vec::new();
    let mut i: usize = 0;
    while i < data.len()
        invariant
            i <= data.len(),
            out@ == expanded(data@.take(i as int), expand_size as nat),
        decreases data.len() - i,
    {
        let twice = double(data[i]);
        let ghost before = out@;
        let mut j: usize = 0;
        while j < expand_size
            invariant
                j <= expand_size,
                is_even(twice),
                out@ == before + copies(twice, j as nat),
            decreases expand_size - j,
        {
            if keeps(&twice) {
                out.push(twice);
            }
            j += 1;
            assert(out@ =~= before + copies(twice, j as nat));
        }
        i += 1;
        proof {
            assert(data@.take(i as int).drop_last() =~= data@.take(i - 1));
        }
    }
    proof {
        assert(data@.take(i as int) =~= data@);
        lemma_pipeline_expands(data@, expand_size as nat);
    }
    out
}

/// Runs the stages on `rayon`'s parallel iterators: `into_par_iter`, `map`
/// twice, `flatten`, `filter` and `collect` into a vector. Trusted: the
/// vector holds what the stages yield for the input, each value as often as
/// they yield it; nothing is claimed of the order.
#[verifier::external_body]
fn par_pipeline(data: Vec<u128>, expand_size: usize) -> (out: Vec<u128>)
    requires
        data@.len() * expand_size <= usize::MAX,
    ensures
        out@.to_multiset() == pipeline(data@, expand_size as nat).to_multiset(),
{
    data.into_par_iter()
        .map(|x: u128| double(x))
        .map(|x: u128| replicate(x, expand_size))
        .flatten()
        .filter(|x: &u128| keeps(x))
        .collect::<Vec<u128>>()
}

/// The data-parallel workload. Whatever the number of threads, the result
/// holds what one thread would have produced, each value as often: for each
/// value of the input, `expand_size` copies of its double.
pub fn rayon(data: Vec<u128>, expand_size: usize) -> (out: Vec<u128>)
    requires
        data@.len() * expand_size <= usize::MAX,
    ensures
        out@.to_multiset() == pipeline(data@, expand_size as nat).to_multiset(),
        out@.to_multiset() == expanded(data@, expand_size as nat).to_multiset(),
        out@.len() == data@.len() * expand_size,
        forall|i: int| 0 <= i < out@.len() ==> is_even(#[trigger] out@[i]),
        forall|i: int|
            0 <= i < out@.len() ==> exists|j: int|
                0 <= j < data@.len() && #[trigger] out@[i] == doubled(data@[j]),
{
    let ghost input = data@;
    let ghost want = expanded(data@, expand_size as nat);
    proof {
        lemma_pipeline_expands(data@, expand_size as nat);
        lemma_expanded_shape(data@, expand_size as nat);
        lemma_expanded_values(data@, expand_size as nat);
    }
    let out = par_pipeline(data, expand_size);
    proof {
        out@.to_multiset_ensures();
        want.to_multiset_ensures();
        assert forall|i: int| 0 <= i < out@.len() implies is_even(#[trigger] out@[i]) && (
        exists|j: int| 0 <= j < input.len() && out@[i] == doubled(input[j])) by {
            assert(out@.to_multiset().count(out@[i]) > 0);
            assert(want.contains(out@[i]));
            let at = choose|at: int| 0 <= at < want.len() && want[at] == out@[i];
            assert(is_even(want[at]));
        }
    }
    out
}

} // verus!
