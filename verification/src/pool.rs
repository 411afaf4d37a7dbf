//! The candidate pool of a weighted draw: which choices are eligible, with
//! what weight each is drawn, and how a uniform draw over the summed weights
//! selects one of them.

use vstd::prelude::*;

use crate::config::InventoryChoice;
use crate::config::LotteryChoice;
use crate::config::WeightedChoice;

verus! {

/// One entry of a working candidate pool: the position of the choice in the
/// category's own list, and the weight it is drawn with.
#[derive(Clone, Copy, Debug, PartialEq, Eq, Structural)]
pub struct Candidate {
    pub index: usize,
    pub weight: u64,
}

/// The sum of the weights of a pool.
pub open spec fn total_weight(pool: Seq<Candidate>) -> int
    decreases pool.len(),
{
    if pool.len() == 0 {
        0
    } else {
        total_weight(pool.drop_last()) + pool.last().weight
    }
}

/// The sum of the weights of the first `k` pool entries.
pub open spec fn prefix_weight(pool: Seq<Candidate>, k: int) -> int {
    total_weight(pool.take(k))
}

/// Every pool entry points into a list of `len` choices and carries a
/// positive weight: zero-weight entries are excluded by construction.
pub open spec fn pool_wf(pool: Seq<Candidate>, len: nat) -> bool {
    forall|k: int|
        0 <= k < pool.len() ==> (#[trigger] pool[k]).index < len && pool[k].weight > 0
}

/// The weight sum of a pool is never negative.
pub proof fn lemma_total_weight_nonneg(pool: Seq<Candidate>)
    ensures
        total_weight(pool) >= 0,
    decreases pool.len(),
{
    if pool.len() > 0 {
        lemma_total_weight_nonneg(pool.drop_last());
    }
}

/// Extending a prefix by one entry adds that entry's weight.
pub proof fn lemma_prefix_weight_step(pool: Seq<Candidate>, k: int)
    requires
        0 <= k < pool.len(),
    ensures
        prefix_weight(pool, k + 1) == prefix_weight(pool, k) + pool[k].weight,
{
    assert(pool.take(k + 1).drop_last() =~= pool.take(k));
    assert(pool.take(k + 1).last() == pool[k]);
}

/// A prefix never weighs more than the whole pool.
pub proof fn lemma_prefix_weight_le_total(pool: Seq<Candidate>, k: int)
    requires
        0 <= k <= pool.len(),
    ensures
        prefix_weight(pool, k) <= total_weight(pool),
    decreases pool.len() - k,
{
    if k == pool.len() {
        assert(pool.take(k) =~= pool);
    } else {
        lemma_prefix_weight_step(pool, k);
        lemma_prefix_weight_le_total(pool, k + 1);
    }
}

/// A pool of positive weights weighs at least its length.
pub proof fn lemma_total_weight_lower_bound(pool: Seq<Candidate>)
    requires
        forall|k: int| 0 <= k < pool.len() ==> (#[trigger] pool[k]).weight > 0,
    ensures
        total_weight(pool) >= pool.len(),
    decreases pool.len(),
{
    if pool.len() > 0 {
        assert(pool.last() == pool[pool.len() - 1]);
        lemma_total_weight_lower_bound(pool.drop_last());
    }
}

/// Removing one entry subtracts exactly that entry's weight.
pub proof fn lemma_total_weight_remove(pool: Seq<Candidate>, i: int)
    requires
        0 <= i < pool.len(),
    ensures
        total_weight(pool.remove(i)) == total_weight(pool) - pool[i].weight,
    decreases pool.len(),
{
    if i == pool.len() - 1 {
        assert(pool.remove(i) =~= pool.drop_last());
    } else {
        assert(pool.remove(i).drop_last() =~= pool.drop_last().remove(i));
        assert(pool.remove(i).last() == pool.last());
        lemma_total_weight_remove(pool.drop_last(), i);
    }
}

/// An exact copy of a pool.
pub fn copy_pool(pool: &Vec<Candidate>) -> (r: Vec<Candidate>)
    ensures
        r@ == pool@,
{
    let mut r: Vec<Candidate> = Vec::new();
    let mut i: usize = 0;
    while i < pool.len()
        invariant
            i <= pool.len(),
            r@ == pool@.take(i as int),
        decreases pool.len() - i,
    {
        r.push(pool[i]);
        proof {
            assert(pool@.take(i + 1) =~= pool@.take(i as int).push(pool@[i as int]));
        }
        i = i + 1;
    }
    proof {
        assert(pool@.take(pool@.len() as int) =~= pool@);
    }
    r
}

/// The summed weight of a pool, as a machine integer.
pub fn total_of(pool: &Vec<Candidate>) -> (t: u64)
    requires
        total_weight(pool@) <= u64::MAX,
    ensures
        t == total_weight(pool@),
{
    let mut acc: u64 = 0;
    let mut i: usize = 0;
    while i < pool.len()
        invariant
            i <= pool.len(),
            acc == prefix_weight(pool@, i as int),
            total_weight(pool@) <= u64::MAX,
        decreases pool.len() - i,
    {
        proof {
            lemma_prefix_weight_step(pool@, i as int);
            lemma_prefix_weight_le_total(pool@, i + 1);
        }
        acc = acc + pool[i].weight;
        i = i + 1;
    }
    proof {
        assert(pool@.take(pool@.len() as int) =~= pool@);
    }
    acc
}

/// The summed weight of a pool, or nothing where the sum would not fit a
/// machine word: how a caller tests that a pool is small enough to draw
/// from before handing it to the consent loop.
pub fn checked_total(pool: &Vec<Candidate>) -> (t: Option<u64>)
    ensures
        match t {
            Option::Some(v) => v == total_weight(pool@),
            Option::None => total_weight(pool@) > u64::MAX,
        },
{
    let mut acc: u64 = 0;
    let mut i: usize = 0;
    while i < pool.len()
        invariant
            i <= pool.len(),
            acc == prefix_weight(pool@, i as int),
        decreases pool.len() - i,
    {
        proof {
            lemma_prefix_weight_step(pool@, i as int);
            lemma_prefix_weight_le_total(pool@, i + 1);
        }
        if acc > u64::MAX - pool[i].weight {
            return Option::None;
        }
        acc = acc + pool[i].weight;
        i = i + 1;
    }
    proof {
        assert(pool@.take(pool@.len() as int) =~= pool@);
    }
    Option::Some(acc)
}

/// The entry a cumulative-weight draw lands on: the unique position whose
/// half-open weight interval contains the uniformly drawn value `r`.
pub fn index_for_draw(pool: &Vec<Candidate>, r: u64) -> (pos: usize)
    requires
        total_weight(pool@) <= u64::MAX,
        r < total_weight(pool@),
    ensures
        pos < pool@.len(),
        prefix_weight(pool@, pos as int) <= r < prefix_weight(pool@, pos as int + 1),
        pos == spec_draw(pool@, r as int),
{
    let mut acc: u64 = 0;
    let mut i: usize = 0;
    while i < pool.len()
        invariant
            i <= pool.len(),
            acc == prefix_weight(pool@, i as int),
            acc <= r < total_weight(pool@),
            total_weight(pool@) <= u64::MAX,
        decreases pool.len() - i,
    {
        proof {
            lemma_prefix_weight_step(pool@, i as int);
            lemma_prefix_weight_le_total(pool@, i + 1);
        }
        if r - acc < pool[i].weight {
            proof {
                lemma_spec_draw_interval(pool@, r as int, i as int);
            }
            return i;
        }
        acc = acc + pool[i].weight;
        i = i + 1;
    }
    proof {
        assert(pool@.take(pool@.len() as int) =~= pool@);
    }
    // acc now equals the total weight, yet acc <= r < total: no draw can get here.
    unreached()
}

/// The position a cumulative-weight draw lands on: weights are laid out
/// end to end, and the drawn value `r` falls in exactly one entry's span.
pub open spec fn spec_draw(pool: Seq<Candidate>, r: int) -> int
    decreases pool.len(),
{
    if pool.len() == 0 {
        0
    } else if r < pool.first().weight {
        0
    } else {
        1 + spec_draw(pool.drop_first(), r - pool.first().weight)
    }
}

/// Dropping the front entry shifts every prefix sum down by its weight.
proof fn lemma_prefix_weight_drop_first(pool: Seq<Candidate>, k: int)
    requires
        pool.len() > 0,
        0 <= k <= pool.len() - 1,
    ensures
        prefix_weight(pool.drop_first(), k) == prefix_weight(pool, k + 1) - pool[0].weight,
    decreases k,
{
    if k == 0 {
        assert(pool.drop_first().take(0) =~= Seq::<Candidate>::empty());
        assert(pool.take(1).drop_last() =~= Seq::<Candidate>::empty());
        assert(pool.take(1).last() == pool[0]);
    } else {
        lemma_prefix_weight_drop_first(pool, k - 1);
        lemma_prefix_weight_step(pool.drop_first(), k - 1);
        lemma_prefix_weight_step(pool, k);
        assert(pool.drop_first()[k - 1] == pool[k]);
    }
}

/// The cumulative-draw position is the unique one whose weight span
/// contains the drawn value.
pub proof fn lemma_spec_draw_interval(pool: Seq<Candidate>, r: int, pos: int)
    requires
        0 <= pos < pool.len(),
        prefix_weight(pool, pos) <= r < prefix_weight(pool, pos + 1),
    ensures
        spec_draw(pool, r) == pos,
    decreases pos,
{
    assert(pool.take(1).drop_last() =~= Seq::<Candidate>::empty());
    assert(pool.take(1).last() == pool[0]);
    assert(total_weight(Seq::<Candidate>::empty()) == 0);
    assert(pool.take(1).len() == 1);
    assert(total_weight(pool.take(1)) == total_weight(pool.take(1).drop_last()) + pool.take(
        1,
    ).last().weight);
    assert(prefix_weight(pool, 1) == pool[0].weight);
    if pos == 0 {
        assert(pool.take(0) =~= Seq::<Candidate>::empty());
        assert(r < pool.first().weight);
    } else {
        lemma_prefix_weight_le_total(pool.take(pos), 1);
        assert(pool.take(pos).take(1) =~= pool.take(1));
        assert(prefix_weight(pool, 1) <= prefix_weight(pool, pos));
        assert(r >= pool.first().weight);
        lemma_prefix_weight_drop_first(pool, pos - 1);
        lemma_prefix_weight_drop_first(pool, pos);
        lemma_spec_draw_interval(pool.drop_first(), r - pool[0].weight, pos - 1);
    }
}

/// The whole pool weighs the front entry plus the rest.
proof fn lemma_total_weight_drop_first(pool: Seq<Candidate>)
    requires
        pool.len() > 0,
    ensures
        total_weight(pool) == pool[0].weight + total_weight(pool.drop_first()),
    decreases pool.len(),
{
    if pool.len() == 1 {
        assert(pool.drop_last() =~= Seq::<Candidate>::empty());
        assert(pool.drop_first() =~= Seq::<Candidate>::empty());
        assert(pool.last() == pool[0]);
    } else {
        lemma_total_weight_drop_first(pool.drop_last());
        assert(pool.drop_last()[0] == pool[0]);
        assert(pool.drop_first().drop_last() =~= pool.drop_last().drop_first());
        assert(pool.drop_first().last() == pool.last());
    }
}

/// A draw below the total weight lands on a real pool position.
pub proof fn lemma_spec_draw_in_range(pool: Seq<Candidate>, r: int)
    requires
        0 <= r < total_weight(pool),
    ensures
        0 <= spec_draw(pool, r) < pool.len(),
    decreases pool.len(),
{
    assert(pool.len() > 0);
    if r >= pool.first().weight {
        lemma_total_weight_drop_first(pool);
        lemma_spec_draw_in_range(pool.drop_first(), r - pool.first().weight);
    }
}

/// Pool entries in ascending order of weight.
pub open spec fn sorted_by_weight(s: Seq<Candidate>) -> bool {
    forall|i: int, j: int|
        0 <= i <= j < s.len() ==> (#[trigger] s[i]).weight <= (#[trigger] s[j]).weight
}

/// The insertion step of a stable sort by weight: a later-arriving entry
/// goes behind every earlier entry of equal or smaller weight.
pub open spec fn insert_by_weight(s: Seq<Candidate>, x: Candidate) -> Seq<Candidate>
    decreases s.len(),
{
    if s.len() == 0 {
        seq![x]
    } else if s.last().weight <= x.weight {
        s.push(x)
    } else {
        insert_by_weight(s.drop_last(), x).push(s.last())
    }
}

/// A pool rearranged in ascending order of weight, stably: entries of equal
/// weight keep their original relative order.
pub open spec fn stable_sorted_by_weight(s: Seq<Candidate>) -> Seq<Candidate>
    decreases s.len(),
{
    if s.len() == 0 {
        Seq::empty()
    } else {
        insert_by_weight(stable_sorted_by_weight(s.drop_last()), s.last())
    }
}

/// The insertion step keeps sortedness, adds exactly the new entry, and
/// adds exactly its weight.
pub proof fn lemma_insert_by_weight(s: Seq<Candidate>, x: Candidate)
    requires
        sorted_by_weight(s),
    ensures
        insert_by_weight(s, x).len() == s.len() + 1,
        sorted_by_weight(insert_by_weight(s, x)),
        insert_by_weight(s, x).to_multiset() == s.to_multiset().insert(x),
        total_weight(insert_by_weight(s, x)) == total_weight(s) + x.weight,
    decreases s.len(),
{
    broadcast use vstd::seq_lib::group_to_multiset_ensures;
    broadcast use vstd::multiset::group_multiset_axioms;

    let r = insert_by_weight(s, x);
    if s.len() == 0 {
        assert(r =~= Seq::empty().push(x));
        assert(r.to_multiset() =~= s.to_multiset().insert(x));
        assert(r.drop_last() =~= Seq::<Candidate>::empty());
        assert(r.last() == x);
        assert(total_weight(r) == total_weight(r.drop_last()) + x.weight);
        assert(total_weight(r.drop_last()) == 0);
    } else if s.last().weight <= x.weight {
        assert(r.drop_last() =~= s);
        assert(r.last() == x);
        assert(total_weight(r) == total_weight(r.drop_last()) + x.weight);
        assert(r.to_multiset() =~= s.to_multiset().insert(x));
    } else {
        let dl = s.drop_last();
        lemma_insert_by_weight(dl, x);
        let inner = insert_by_weight(dl, x);
        assert(r == inner.push(s.last()));
        assert(r.drop_last() =~= inner);
        assert(r.last() == s.last());
        assert(total_weight(r) == total_weight(inner) + s.last().weight);
        assert(total_weight(s) == total_weight(dl) + s.last().weight);
        assert(s =~= dl.push(s.last()));
        assert(s.to_multiset() =~= dl.to_multiset().insert(s.last()));
        assert(r.to_multiset() =~= inner.to_multiset().insert(s.last()));
        assert(r.to_multiset() =~= s.to_multiset().insert(x));
        assert forall|i: int, j: int| 0 <= i <= j < r.len() implies (#[trigger] r[i]).weight <= (
        #[trigger] r[j]).weight by {
            if j == r.len() - 1 && i < j {
                assert(r[i] == inner[i]);
                vstd::seq_lib::to_multiset_contains(inner, inner[i]);
                assert(inner.contains(inner[i]));
                vstd::seq_lib::to_multiset_contains(dl, inner[i]);
                if dl.to_multiset().count(inner[i]) > 0 {
                    let q = choose|q: int| 0 <= q < dl.len() && dl[q] == inner[i];
                    assert(s[q].weight <= s.last().weight);
                } else {
                    assert(inner[i] == x);
                }
            }
        }
    }
}

/// The stable sort by weight is sorted, holds exactly the entries of its
/// input, and keeps its weight sum.
pub proof fn lemma_stable_sorted_by_weight(s: Seq<Candidate>)
    ensures
        stable_sorted_by_weight(s).len() == s.len(),
        sorted_by_weight(stable_sorted_by_weight(s)),
        stable_sorted_by_weight(s).to_multiset() == s.to_multiset(),
        total_weight(stable_sorted_by_weight(s)) == total_weight(s),
        forall|k: int|
            0 <= k < stable_sorted_by_weight(s).len() ==> s.contains(
                #[trigger] stable_sorted_by_weight(s)[k],
            ),
    decreases s.len(),
{
    broadcast use vstd::seq_lib::group_to_multiset_ensures;
    broadcast use vstd::multiset::group_multiset_axioms;

    let r = stable_sorted_by_weight(s);
    if s.len() == 0 {
        assert(r.to_multiset() =~= s.to_multiset());
    } else {
        let dl = s.drop_last();
        lemma_stable_sorted_by_weight(dl);
        lemma_insert_by_weight(stable_sorted_by_weight(dl), s.last());
        assert(s =~= dl.push(s.last()));
        assert(s.to_multiset() =~= dl.to_multiset().insert(s.last()));
        assert(r.to_multiset() =~= s.to_multiset());
        assert forall|k: int| 0 <= k < r.len() implies s.contains(#[trigger] r[k]) by {
            vstd::seq_lib::to_multiset_contains(r, r[k]);
            assert(r.contains(r[k]));
            vstd::seq_lib::to_multiset_contains(s, r[k]);
        }
    }
}

/// Inserting at the position found by scanning back over the strictly
/// heavier suffix is exactly the stable insertion step.
proof fn lemma_insert_at_position(s: Seq<Candidate>, x: Candidate, p: int)
    requires
        sorted_by_weight(s),
        0 <= p <= s.len(),
        forall|q: int| p <= q < s.len() ==> (#[trigger] s[q]).weight > x.weight,
        p > 0 ==> s[p - 1].weight <= x.weight,
    ensures
        s.insert(p, x) == insert_by_weight(s, x),
    decreases s.len(),
{
    if p == s.len() {
        assert(s.insert(p, x) =~= s.push(x));
        if s.len() == 0 {
            assert(s.push(x) =~= insert_by_weight(s, x));
        }
    } else {
        let dl = s.drop_last();
        assert(s[s.len() - 1].weight > x.weight);
        lemma_insert_at_position(dl, x, p);
        assert(s.insert(p, x) =~= dl.insert(p, x).push(s.last()));
    }
}

/// Rearrange a pool in ascending order of weight, stably: the result is
/// exactly the stable sort of the input, so it holds exactly the input's
/// entries, entries of equal weight keep their order, and the weight sum is
/// kept.
pub fn sort_by_weight_asc(pool: &Vec<Candidate>) -> (s: Vec<Candidate>)
    ensures
        s@ == stable_sorted_by_weight(pool@),
        s@.len() == pool@.len(),
        sorted_by_weight(s@),
        s@.to_multiset() == pool@.to_multiset(),
        total_weight(s@) == total_weight(pool@),
        forall|k: int| 0 <= k < s@.len() ==> pool@.contains(#[trigger] s@[k]),
{
    let mut out: Vec<Candidate> = Vec::new();
    let mut i: usize = 0;
    while i < pool.len()
        invariant
            i <= pool.len(),
            out@ == stable_sorted_by_weight(pool@.take(i as int)),
            sorted_by_weight(out@),
        decreases pool.len() - i,
    {
        let x = pool[i];
        let mut p: usize = out.len();
        while p > 0 && out[p - 1].weight > x.weight
            invariant
                p <= out@.len(),
                forall|q: int| p <= q < out@.len() ==> (#[trigger] out@[q]).weight > x.weight,
            decreases p,
        {
            p = p - 1;
        }
        let ghost before = out@;
        out.insert(p, x);
        proof {
            lemma_insert_at_position(before, x, p as int);
            lemma_insert_by_weight(before, x);
            assert(pool@.take(i + 1).drop_last() =~= pool@.take(i as int));
            assert(pool@.take(i + 1).last() == pool@[i as int]);
        }
        i = i + 1;
    }
    proof {
        assert(pool@.take(pool@.len() as int) =~= pool@);
        lemma_stable_sorted_by_weight(pool@);
    }
    out
}

/// The candidate pool of the even model: every choice, with weight one.
pub open spec fn spec_even_pool(len: nat) -> Seq<Candidate> {
    Seq::new(len, |i: int| Candidate { index: i as usize, weight: 1u64 })
}

/// The candidate pool of the weighted model: every choice with a positive
/// weight, in list order, drawn with its configured weight.
pub open spec fn spec_weighted_pool(choices: Seq<WeightedChoice>) -> Seq<Candidate>
    decreases choices.len(),
{
    if choices.len() == 0 {
        Seq::empty()
    } else if choices.last().weight > 0 {
        spec_weighted_pool(choices.drop_last()).push(
            Candidate { index: (choices.len() - 1) as usize, weight: choices.last().weight },
        )
    } else {
        spec_weighted_pool(choices.drop_last())
    }
}

/// The candidate pool of the inventory model: every choice that still has
/// tickets, drawn with its ticket count as weight.
pub open spec fn spec_inventory_pool(choices: Seq<InventoryChoice>) -> Seq<Candidate>
    decreases choices.len(),
{
    if choices.len() == 0 {
        Seq::empty()
    } else if choices.last().tickets > 0 {
        spec_inventory_pool(choices.drop_last()).push(
            Candidate { index: (choices.len() - 1) as usize, weight: choices.last().tickets },
        )
    } else {
        spec_inventory_pool(choices.drop_last())
    }
}

/// The candidate pool of the lottery model: every choice that still has
/// tickets, drawn with its ticket count as weight.
pub open spec fn spec_lottery_pool(choices: Seq<LotteryChoice>) -> Seq<Candidate>
    decreases choices.len(),
{
    if choices.len() == 0 {
        Seq::empty()
    } else if choices.last().tickets > 0 {
        spec_lottery_pool(choices.drop_last()).push(
            Candidate { index: (choices.len() - 1) as usize, weight: choices.last().tickets },
        )
    } else {
        spec_lottery_pool(choices.drop_last())
    }
}

/// The even pool is well formed and its weight sum is the list length.
pub proof fn lemma_even_pool_wf(len: nat)
    ensures
        pool_wf(spec_even_pool(len), len),
        spec_even_pool(len).len() == len,
        total_weight(spec_even_pool(len)) == len,
    decreases len,
{
    if len > 0 {
        lemma_even_pool_wf((len - 1) as nat);
        assert(spec_even_pool(len).drop_last() =~= spec_even_pool((len - 1) as nat));
    }
}

/// The weighted pool is well formed, mirrors the choices' own weights, and
/// is non-empty exactly when some choice has a positive weight.
pub proof fn lemma_weighted_pool_wf(choices: Seq<WeightedChoice>)
    requires
        choices.len() <= usize::MAX,
    ensures
        pool_wf(spec_weighted_pool(choices), choices.len()),
        forall|k: int|
            0 <= k < spec_weighted_pool(choices).len()
                ==> choices[(#[trigger] spec_weighted_pool(choices)[k]).index as int].weight
                == spec_weighted_pool(choices)[k].weight,
        (exists|i: int| 0 <= i < choices.len() && (#[trigger] choices[i]).weight > 0)
            <==> spec_weighted_pool(choices).len() > 0,
    decreases choices.len(),
{
    if choices.len() > 0 {
        lemma_weighted_pool_wf(choices.drop_last());
        let pool = spec_weighted_pool(choices);
        let prev = spec_weighted_pool(choices.drop_last());
        assert forall|k: int| 0 <= k < pool.len() implies choices[(#[trigger] pool[k]).index
            as int].weight == pool[k].weight by {
            if k < prev.len() {
                assert(pool[k] == prev[k]);
                assert(choices.drop_last()[prev[k].index as int] == choices[prev[k].index as int]);
            }
        }
        if spec_weighted_pool(choices).len() > 0 && spec_weighted_pool(choices.drop_last()).len()
            == 0 {
            assert(choices.last().weight > 0);
            assert(choices[choices.len() - 1].weight > 0);
        }
        if exists|i: int| 0 <= i < choices.len() && (#[trigger] choices[i]).weight > 0 {
            let i = choose|i: int| 0 <= i < choices.len() && (#[trigger] choices[i]).weight > 0;
            if i < choices.len() - 1 {
                assert(choices.drop_last()[i].weight > 0);
            }
        }
    }
}

/// The inventory pool is well formed, mirrors the choices' ticket counts,
/// and is non-empty exactly when some choice still has tickets.
pub proof fn lemma_inventory_pool_wf(choices: Seq<InventoryChoice>)
    requires
        choices.len() <= usize::MAX,
    ensures
        pool_wf(spec_inventory_pool(choices), choices.len()),
        forall|k: int|
            0 <= k < spec_inventory_pool(choices).len()
                ==> choices[(#[trigger] spec_inventory_pool(choices)[k]).index as int].tickets
                == spec_inventory_pool(choices)[k].weight,
        (exists|i: int| 0 <= i < choices.len() && (#[trigger] choices[i]).tickets > 0)
            <==> spec_inventory_pool(choices).len() > 0,
    decreases choices.len(),
{
    if choices.len() > 0 {
        lemma_inventory_pool_wf(choices.drop_last());
        let pool = spec_inventory_pool(choices);
        let prev = spec_inventory_pool(choices.drop_last());
        assert forall|k: int| 0 <= k < pool.len() implies choices[(#[trigger] pool[k]).index
            as int].tickets == pool[k].weight by {
            if k < prev.len() {
                assert(pool[k] == prev[k]);
                assert(choices.drop_last()[prev[k].index as int] == choices[prev[k].index as int]);
            }
        }
        if exists|i: int| 0 <= i < choices.len() && (#[trigger] choices[i]).tickets > 0 {
            let i = choose|i: int| 0 <= i < choices.len() && (#[trigger] choices[i]).tickets > 0;
            if i < choices.len() - 1 {
                assert(choices.drop_last()[i].tickets > 0);
            }
        }
    }
}

/// The lottery pool is well formed, mirrors the choices' ticket counts, and
/// is non-empty exactly when some choice still has tickets.
pub proof fn lemma_lottery_pool_wf(choices: Seq<LotteryChoice>)
    requires
        choices.len() <= usize::MAX,
    ensures
        pool_wf(spec_lottery_pool(choices), choices.len()),
        forall|k: int|
            0 <= k < spec_lottery_pool(choices).len()
                ==> choices[(#[trigger] spec_lottery_pool(choices)[k]).index as int].tickets
                == spec_lottery_pool(choices)[k].weight,
        (exists|i: int| 0 <= i < choices.len() && (#[trigger] choices[i]).tickets > 0)
            <==> spec_lottery_pool(choices).len() > 0,
    decreases choices.len(),
{
    if choices.len() > 0 {
        lemma_lottery_pool_wf(choices.drop_last());
        let pool = spec_lottery_pool(choices);
        let prev = spec_lottery_pool(choices.drop_last());
        assert forall|k: int| 0 <= k < pool.len() implies choices[(#[trigger] pool[k]).index
            as int].tickets == pool[k].weight by {
            if k < prev.len() {
                assert(pool[k] == prev[k]);
                assert(choices.drop_last()[prev[k].index as int] == choices[prev[k].index as int]);
            }
        }
        if exists|i: int| 0 <= i < choices.len() && (#[trigger] choices[i]).tickets > 0 {
            let i = choose|i: int| 0 <= i < choices.len() && (#[trigger] choices[i]).tickets > 0;
            if i < choices.len() - 1 {
                assert(choices.drop_last()[i].tickets > 0);
            }
        }
    }
}

/// The least pool position whose candidate bears the target name, or the
/// pool's length when no candidate does.
pub open spec fn first_pool_position(
    names: Seq<String>,
    pool: Seq<Candidate>,
    target: Seq<char>,
) -> int
    decreases pool.len(),
{
    if pool.len() == 0 {
        0
    } else if names[pool[0].index as int]@ == target {
        0
    } else {
        1 + first_pool_position(names, pool.drop_first(), target)
    }
}

/// A position that bears the target name and is preceded by none that does
/// is the first such position.
pub proof fn lemma_first_pool_position(
    names: Seq<String>,
    pool: Seq<Candidate>,
    target: Seq<char>,
    p: int,
)
    requires
        0 <= p < pool.len(),
        names[pool[p].index as int]@ == target,
        forall|q: int| 0 <= q < p ==> names[(#[trigger] pool[q]).index as int]@ != target,
    ensures
        first_pool_position(names, pool, target) == p,
    decreases p,
{
    if p > 0 {
        assert(names[pool[0].index as int]@ != target);
        assert(pool.drop_first()[p - 1] == pool[p]);
        assert(forall|q: int|
            0 <= q < p - 1 ==> (#[trigger] pool.drop_first()[q]) == pool[q + 1]);
        lemma_first_pool_position(names, pool.drop_first(), target, p - 1);
    }
}

/// The pool after one rejected draw of the weighted-consent loop: while more
/// than one candidate remains, the first entry bearing the rejected
/// candidate's name leaves; rejecting the last remaining candidate resets
/// the pool to the full one.
pub open spec fn pool_after_rejection(
    names: Seq<String>,
    full_pool: Seq<Candidate>,
    pool: Seq<Candidate>,
    r: int,
) -> Seq<Candidate> {
    if pool.len() <= 1 {
        full_pool
    } else {
        let drawn = pool[spec_draw(pool, r)];
        pool.remove(first_pool_position(names, pool, names[drawn.index as int]@))
    }
}

/// The pool the weighted-consent loop holds at the start of its iteration
/// `j`, given the uniform value recorded for each earlier iteration's draw:
/// the full pool at first, then shrunk or reset by one rejection per
/// completed iteration.
pub open spec fn pool_at(
    names: Seq<String>,
    full_pool: Seq<Candidate>,
    draws: Seq<u64>,
    j: int,
) -> Seq<Candidate>
    decreases j,
{
    if j <= 0 {
        full_pool
    } else {
        pool_after_rejection(
            names,
            full_pool,
            pool_at(names, full_pool, draws, j - 1),
            draws[j - 1] as int,
        )
    }
}

/// How many of the first `j` iterations of the weighted-consent loop
/// rejected the last remaining candidate — each such iteration emits exactly
/// one disapproval notification and resets the pool.
pub open spec fn resets_before(
    names: Seq<String>,
    full_pool: Seq<Candidate>,
    draws: Seq<u64>,
    j: int,
) -> int
    decreases j,
{
    if j <= 0 {
        0
    } else {
        resets_before(names, full_pool, draws, j - 1) + (if pool_at(
            names,
            full_pool,
            draws,
            j - 1,
        ).len() <= 1 {
            1int
        } else {
            0int
        })
    }
}

/// The candidate the episode's last draw lands on: the winner of a
/// weighted-consent episode whose per-iteration draw record is `draws`.
pub open spec fn episode_winner(
    names: Seq<String>,
    full_pool: Seq<Candidate>,
    draws: Seq<u64>,
) -> Candidate {
    let lp = pool_at(names, full_pool, draws, draws.len() - 1);
    lp[spec_draw(lp, draws.last() as int)]
}

/// The pool at iteration `j` reads only the first `j` recorded draws, so
/// extending the record leaves it unchanged, and the reset count with it.
pub proof fn lemma_pool_at_grow(
    names: Seq<String>,
    full_pool: Seq<Candidate>,
    d1: Seq<u64>,
    d2: Seq<u64>,
    j: int,
)
    requires
        j <= d1.len(),
        d1.len() <= d2.len(),
        forall|i: int| 0 <= i < d1.len() ==> d1[i] == d2[i],
    ensures
        pool_at(names, full_pool, d2, j) == pool_at(names, full_pool, d1, j),
        resets_before(names, full_pool, d2, j) == resets_before(names, full_pool, d1, j),
    decreases j,
{
    if j > 0 {
        lemma_pool_at_grow(names, full_pool, d1, d2, j - 1);
    }
}

/// The names of a list of weighted choices, in order.
pub open spec fn weighted_names_of(choices: Seq<WeightedChoice>) -> Seq<String> {
    choices.map_values(|c: WeightedChoice| c.name)
}

/// The names of a list of inventory choices, in order.
pub open spec fn inventory_names_of(choices: Seq<InventoryChoice>) -> Seq<String> {
    choices.map_values(|c: InventoryChoice| c.name)
}

/// The names of a list of lottery choices, in order.
pub open spec fn lottery_names_of(choices: Seq<LotteryChoice>) -> Seq<String> {
    choices.map_values(|c: LotteryChoice| c.name)
}

/// A list of choices, each taken with weight one.
pub open spec fn unit_weighted(choices: Seq<String>) -> Seq<WeightedChoice> {
    choices.map(|i: int, name: String| WeightedChoice { name, weight: 1u64 })
}

/// Law: the even model is the weighted model with every weight fixed at one.
/// Giving each choice weight one yields exactly the even candidate pool,
/// over the same names in the same order, so the two models share the
/// acceptance semantics of the weighted-consent core.
pub proof fn lemma_even_is_unit_weighted(choices: Seq<String>)
    ensures
        spec_weighted_pool(unit_weighted(choices)) == spec_even_pool(choices.len()),
        unit_weighted(choices).len() == choices.len(),
        forall|i: int|
            0 <= i < choices.len() ==> (#[trigger] unit_weighted(choices)[i]).name == choices[i]
                && unit_weighted(choices)[i].weight == 1,
    decreases choices.len(),
{
    if choices.len() == 0 {
        assert(spec_weighted_pool(unit_weighted(choices)) =~= spec_even_pool(choices.len()));
    } else {
        lemma_even_is_unit_weighted(choices.drop_last());
        assert(unit_weighted(choices).drop_last() =~= unit_weighted(choices.drop_last()));
        assert(unit_weighted(choices).last().weight == 1);
        lemma_even_pool_wf(choices.len());
        assert(spec_weighted_pool(unit_weighted(choices)) =~= spec_even_pool(choices.len()));
    }
}

/// Build the even pool for a list of `len` choices.
pub fn make_even_pool(len: usize) -> (pool: Vec<Candidate>)
    ensures
        pool@ == spec_even_pool(len as nat),
{
    let mut pool: Vec<Candidate> = Vec::new();
    let mut i: usize = 0;
    while i < len
        invariant
            i <= len,
            pool@ == spec_even_pool(i as nat),
        decreases len - i,
    {
        pool.push(Candidate { index: i, weight: 1 });
        proof {
            assert(spec_even_pool((i + 1) as nat) =~= spec_even_pool(i as nat).push(
                Candidate { index: i, weight: 1u64 },
            ));
        }
        i = i + 1;
    }
    pool
}

/// Build the weighted pool: the choices with positive weight, in order.
pub fn make_weighted_pool(choices: &Vec<WeightedChoice>) -> (pool: Vec<Candidate>)
    ensures
        pool@ == spec_weighted_pool(choices@),
{
    let mut pool: Vec<Candidate> = Vec::new();
    let mut i: usize = 0;
    while i < choices.len()
        invariant
            i <= choices.len(),
            pool@ == spec_weighted_pool(choices@.take(i as int)),
        decreases choices.len() - i,
    {
        proof {
            assert(choices@.take(i + 1).drop_last() =~= choices@.take(i as int));
            assert(choices@.take(i + 1).last() == choices@[i as int]);
        }
        if choices[i].weight > 0 {
            pool.push(Candidate { index: i, weight: choices[i].weight });
        }
        i = i + 1;
    }
    proof {
        assert(choices@.take(choices@.len() as int) =~= choices@);
    }
    pool
}

/// Build the inventory pool: the choices that still have tickets, in order.
pub fn make_inventory_pool(choices: &Vec<InventoryChoice>) -> (pool: Vec<Candidate>)
    ensures
        pool@ == spec_inventory_pool(choices@),
{
    let mut pool: Vec<Candidate> = Vec::new();
    let mut i: usize = 0;
    while i < choices.len()
        invariant
            i <= choices.len(),
            pool@ == spec_inventory_pool(choices@.take(i as int)),
        decreases choices.len() - i,
    {
        proof {
            assert(choices@.take(i + 1).drop_last() =~= choices@.take(i as int));
            assert(choices@.take(i + 1).last() == choices@[i as int]);
        }
        if choices[i].tickets > 0 {
            pool.push(Candidate { index: i, weight: choices[i].tickets });
        }
        i = i + 1;
    }
    proof {
        assert(choices@.take(choices@.len() as int) =~= choices@);
    }
    pool
}

/// Build the lottery pool: the choices that still have tickets, in order.
pub fn make_lottery_pool(choices: &Vec<LotteryChoice>) -> (pool: Vec<Candidate>)
    ensures
        pool@ == spec_lottery_pool(choices@),
{
    let mut pool: Vec<Candidate> = Vec::new();
    let mut i: usize = 0;
    while i < choices.len()
        invariant
            i <= choices.len(),
            pool@ == spec_lottery_pool(choices@.take(i as int)),
        decreases choices.len() - i,
    {
        proof {
            assert(choices@.take(i + 1).drop_last() =~= choices@.take(i as int));
            assert(choices@.take(i + 1).last() == choices@[i as int]);
        }
        if choices[i].tickets > 0 {
            pool.push(Candidate { index: i, weight: choices[i].tickets });
        }
        i = i + 1;
    }
    proof {
        assert(choices@.take(choices@.len() as int) =~= choices@);
    }
    pool
}

} // verus!

