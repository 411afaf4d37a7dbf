//! The selection engine: six models that each draw a candidate, present it
//! for human acceptance or rejection, and mutate the category's persisted
//! state once a candidate is accepted.

use vstd::prelude::*;
use vstd::string::StringExecFns;

use crate::config::ConfigCategory;
use crate::config::ConfigEntry;
use crate::config::InventoryChoice;
use crate::config::LotteryChoice;
use crate::config::ValueError;
use crate::config::WeightedChoice;
use crate::pool::Candidate;
use crate::pool::checked_total;
use crate::pool::copy_pool;
use crate::pool::episode_winner;
use crate::pool::first_pool_position;
use crate::pool::index_for_draw;
use crate::pool::inventory_names_of;
use crate::pool::lemma_first_pool_position;
use crate::pool::lemma_pool_at_grow;
use crate::pool::lottery_names_of;
use crate::pool::pool_at;
use crate::pool::resets_before;
use crate::pool::weighted_names_of;
use crate::pool::lemma_even_pool_wf;
use crate::pool::lemma_inventory_pool_wf;
use crate::pool::lemma_lottery_pool_wf;
use crate::pool::lemma_total_weight_lower_bound;
use crate::pool::lemma_total_weight_remove;
use crate::pool::lemma_weighted_pool_wf;
use crate::pool::make_even_pool;
use crate::pool::make_inventory_pool;
use crate::pool::make_lottery_pool;
use crate::pool::make_weighted_pool;
use crate::pool::pool_wf;
use crate::pool::spec_draw;
use crate::pool::spec_even_pool;
use crate::pool::spec_inventory_pool;
use crate::pool::spec_lottery_pool;
use crate::pool::spec_weighted_pool;
use crate::pool::total_of;
use crate::pool::total_weight;
use crate::table::Table;
use crate::table::build_lru_table;
use crate::table::build_weighted_table;

verus! {

/// The consent interface: the boundary capability through which the engine
/// asks whether to render a results table, renders one, emits messages, and
/// asks yes/no for a named candidate. The engine never renders anything
/// itself.
pub trait Ui {
    /// An upper bound on the number of rejections still to come: every
    /// rejection answered through `prompt_choice` strictly decreases it.
    /// This states, as a ghost measure, the assumption the consent loop is
    /// built on — that some candidate is eventually accepted. A user who
    /// would reject forever lies outside this interface's contract, and no
    /// termination is promised on their behalf. Unverified implementations
    /// may leave the default in place; nothing is checked of them anyway.
    open spec fn patience(&self) -> nat {
        0
    }

    /// The ghost record of the interaction so far: every candidate name
    /// consent has been asked for, in order. `prompts()[j]` was answered by
    /// `replies()[j]`. Contracts over this record tie what a pick returns to
    /// what the user accepted. Unverified implementations may leave the
    /// defaults in place; nothing is checked of them anyway.
    open spec fn prompts(&self) -> Seq<Seq<char>> {
        Seq::empty()
    }

    /// The answers given so far, in order; `true` accepted the candidate.
    open spec fn replies(&self) -> Seq<bool> {
        Seq::empty()
    }

    /// The informational messages shown so far, in order.
    open spec fn notices(&self) -> Seq<Seq<char>> {
        Seq::empty()
    }

    /// The answer the interface would give to the `j`-th prompt still to
    /// come, counting from zero. A deterministic interface — one that answers
    /// from a script — determines its future answers from its state, and
    /// `prompt_choice` returns exactly this value for `j == 0` and shifts the
    /// rest down by one; through it a caller can derive which candidate a
    /// whole consent loop accepts. Unverified implementations may leave the
    /// default in place; nothing is checked of them anyway.
    open spec fn reply_ahead(&self, j: int) -> bool {
        true
    }

    /// Whether a chance table should be rendered for the current draw;
    /// queried once per consent-loop iteration, so that no table is built
    /// when nobody would see it.
    fn call_display_table(&mut self) -> (b: bool)
        ensures
            final(self).patience() <= old(self).patience(),
            final(self).prompts() == old(self).prompts(),
            final(self).replies() == old(self).replies(),
            final(self).notices() == old(self).notices(),
            forall|j: int| #[trigger] final(self).reply_ahead(j) == old(self).reply_ahead(j),
    ;

    /// Render a table of candidates.
    fn display_table(&mut self, table: &Table)
        ensures
            final(self).patience() <= old(self).patience(),
            final(self).prompts() == old(self).prompts(),
            final(self).replies() == old(self).replies(),
            final(self).notices() == old(self).notices(),
            forall|j: int| #[trigger] final(self).reply_ahead(j) == old(self).reply_ahead(j),
    ;

    /// Render the chance table of a gaussian draw over `candidates`: the
    /// drawn position is `index`, and each position's chance comes from the
    /// CDF of a zero-mean normal distribution with standard deviation
    /// `candidates.len() / factor` — floating point that stays with the
    /// renderer, which is why the engine hands the raw inputs across.
    /// `factor` is the binary64 value with bit pattern
    /// `stddev_scaling_factor_bits`.
    fn display_gaussian_table(
        &mut self,
        index: usize,
        candidates: &Vec<String>,
        stddev_scaling_factor_bits: u64,
    )
        ensures
            final(self).patience() <= old(self).patience(),
            final(self).prompts() == old(self).prompts(),
            final(self).replies() == old(self).replies(),
            final(self).notices() == old(self).notices(),
            forall|j: int| #[trigger] final(self).reply_ahead(j) == old(self).reply_ahead(j),
    ;

    /// Show a fire-and-forget informational message.
    fn info(&mut self, message: &str)
        ensures
            final(self).patience() <= old(self).patience(),
            final(self).prompts() == old(self).prompts(),
            final(self).replies() == old(self).replies(),
            final(self).notices() == old(self).notices().push(message@),
            forall|j: int| #[trigger] final(self).reply_ahead(j) == old(self).reply_ahead(j),
    ;

    /// Ask yes/no for one named candidate. The answer is the first planned
    /// reply, and the remaining planned replies shift down by one.
    fn prompt_choice(&mut self, choice: &str) -> (b: bool)
        ensures
            !b ==> final(self).patience() < old(self).patience(),
            final(self).prompts() == old(self).prompts().push(choice@),
            final(self).replies() == old(self).replies().push(b),
            final(self).notices() == old(self).notices(),
            b == old(self).reply_ahead(0),
            forall|j: int|
                j >= 0 ==> #[trigger] final(self).reply_ahead(j) == old(self).reply_ahead(j + 1),
    ;
}

/// The injectable source of randomness. The default process-level generator
/// and any seeded replacement both live behind this interface, so a
/// deterministic source gives reproducible picks.
pub trait RandomSource {
    /// An upper bound on the number of consecutive out-of-range gaussian
    /// draws still to come: every draw past the end of the candidate list
    /// strictly decreases it. This states, as a ghost measure, that the
    /// distribution eventually yields an index the gaussian model can use.
    /// Unverified implementations may leave the default in place; nothing is
    /// checked of them anyway.
    open spec fn overshoot(&self) -> nat {
        0
    }

    /// The ghost record of the uniform values handed out so far, in order.
    /// Unverified implementations may leave the defaults in place; nothing
    /// is checked of them anyway.
    open spec fn draws(&self) -> Seq<u64> {
        Seq::empty()
    }

    /// The ghost record of the gaussian draws handed out so far, in order.
    open spec fn gaussian_draws(&self) -> Seq<usize> {
        Seq::empty()
    }

    /// The ghost record of the candidate-list length each gaussian draw was
    /// taken over, in order: entry `m` is the `len` passed with the `m`-th
    /// gaussian draw, so a contract can state that the standard deviation is
    /// recomputed over the shrinking working pool.
    open spec fn gaussian_lens(&self) -> Seq<usize> {
        Seq::empty()
    }

    /// The raw value the source would hand to the `j`-th uniform draw still
    /// to come, before reduction modulo the requested bound. A deterministic
    /// source determines its future values from its state; `random_below`
    /// hands out exactly this value for `j == 0`, reduced, and shifts the
    /// rest down by one. Unverified implementations may leave the default in
    /// place; nothing is checked of them anyway.
    open spec fn draw_ahead(&self, j: int) -> u64 {
        0
    }

    /// The index the source would hand to the `j`-th gaussian draw still to
    /// come. Unverified implementations may leave the default in place;
    /// nothing is checked of them anyway.
    open spec fn gaussian_ahead(&self, j: int) -> usize {
        0
    }

    /// One uniform draw from `[0, bound)`: the first planned value reduced
    /// modulo the bound; the remaining planned values shift down by one.
    fn random_below(&mut self, bound: u64) -> (r: u64)
        requires
            bound > 0,
        ensures
            r < bound,
            r == old(self).draw_ahead(0) % bound,
            final(self).draws() == old(self).draws().push(r),
            final(self).gaussian_draws() == old(self).gaussian_draws(),
            final(self).gaussian_lens() == old(self).gaussian_lens(),
            forall|j: int|
                j >= 0 ==> #[trigger] final(self).draw_ahead(j) == old(self).draw_ahead(j + 1),
            forall|j: int| #[trigger] final(self).gaussian_ahead(j) == old(self).gaussian_ahead(j),
    ;

    /// One draw of `floor(|x|)` with `x ~ Normal(0, len / factor)`, where
    /// `factor` is the binary64 value with bit pattern
    /// `stddev_scaling_factor_bits`: the first planned index; the remaining
    /// planned indexes shift down by one. The result may lie past the end of
    /// the candidate list; the caller redraws in that case.
    fn gaussian_index(&mut self, len: usize, stddev_scaling_factor_bits: u64) -> (r: usize)
        ensures
            len > 0 && r >= len ==> final(self).overshoot() < old(self).overshoot(),
            r == old(self).gaussian_ahead(0),
            final(self).gaussian_draws() == old(self).gaussian_draws().push(r),
            final(self).gaussian_lens() == old(self).gaussian_lens().push(len),
            final(self).draws() == old(self).draws(),
            forall|j: int|
                j >= 0 ==> #[trigger] final(self).gaussian_ahead(j) == old(self).gaussian_ahead(
                    j + 1,
                ),
            forall|j: int| #[trigger] final(self).draw_ahead(j) == old(self).draw_ahead(j),
    ;
}

/// The fixed message of a disapproval notification, emitted exactly once
/// each time every remaining candidate of a pool has been rejected.
pub open spec fn disapproval_message() -> Seq<char> {
    "🤨"@
}

/// The consent-loop interaction one pick appends to the ghost record: both
/// records only grow, prompts and replies stay in lockstep, at least one
/// prompt was answered, every answer but the last was a rejection, the last
/// answer was an acceptance, and it was given for `accepted` — the name the
/// pick returns.
pub open spec fn consent_episode(
    prompts0: Seq<Seq<char>>,
    replies0: Seq<bool>,
    prompts1: Seq<Seq<char>>,
    replies1: Seq<bool>,
    accepted: Seq<char>,
) -> bool {
    &&& replies1.len() > replies0.len()
    &&& prompts1.len() - prompts0.len() == replies1.len() - replies0.len()
    &&& forall|j: int| 0 <= j < prompts0.len() ==> prompts1[j] == prompts0[j]
    &&& forall|j: int| 0 <= j < replies0.len() ==> replies1[j] == replies0[j]
    &&& forall|j: int| replies0.len() <= j < replies1.len() - 1 ==> !replies1[j]
    &&& replies1.last() == true
    &&& prompts1.last() == accepted
}

/// The prompt text is one of the given names.
pub open spec fn prompt_among(prompt: Seq<char>, choices: Seq<String>) -> bool {
    exists|i: int| 0 <= i < choices.len() && prompt == (#[trigger] choices[i])@
}

/// The notice record only grows during a pick, and everything appended to
/// it is a disapproval notification.
pub open spec fn notices_are_disapprovals(
    notices0: Seq<Seq<char>>,
    notices1: Seq<Seq<char>>,
) -> bool {
    &&& notices1.len() >= notices0.len()
    &&& forall|j: int| 0 <= j < notices0.len() ==> notices1[j] == notices0[j]
    &&& forall|j: int| notices0.len() <= j < notices1.len() ==> notices1[j]
        == disapproval_message()
}

/// A name drawn from the given list: the even model's postcondition.
pub open spec fn even_picked(choices: Seq<String>, name: Seq<char>) -> bool {
    exists|i: int| 0 <= i < choices.len() && name == (#[trigger] choices[i])@
}

/// A name drawn from the choices that have a positive weight: the weighted
/// model's postcondition.
pub open spec fn weighted_picked(choices: Seq<WeightedChoice>, name: Seq<char>) -> bool {
    exists|i: int|
        0 <= i < choices.len() && (#[trigger] choices[i]).weight > 0 && name == choices[i].name@
}

/// The inventory model's postcondition with the winner's position made
/// explicit: the choice at `w` held tickets, lost exactly one, and every
/// other choice is untouched.
pub open spec fn inventory_picked_at(
    before: Seq<InventoryChoice>,
    after: Seq<InventoryChoice>,
    name: Seq<char>,
    w: int,
) -> bool {
    &&& 0 <= w < before.len()
    &&& before[w].tickets > 0
    &&& name == before[w].name@
    &&& after == before.update(
        w,
        InventoryChoice { name: before[w].name, tickets: (before[w].tickets - 1) as u64 },
    )
}

/// The inventory model's postcondition: the winner held tickets, lost
/// exactly one, and every other choice is untouched.
pub open spec fn inventory_picked(
    before: Seq<InventoryChoice>,
    after: Seq<InventoryChoice>,
    name: Seq<char>,
) -> bool {
    exists|w: int| #[trigger] inventory_picked_at(before, after, name, w)
}

/// The lottery model's postcondition with the winner's position made
/// explicit: the choice at `w` held tickets and drops to zero, while every
/// other choice accrues its own weight in new tickets.
pub open spec fn lottery_picked_at(
    before: Seq<LotteryChoice>,
    after: Seq<LotteryChoice>,
    name: Seq<char>,
    w: int,
) -> bool {
    &&& after.len() == before.len()
    &&& 0 <= w < before.len()
    &&& before[w].tickets > 0
    &&& name == before[w].name@
    &&& after[w] == LotteryChoice { name: before[w].name, tickets: 0u64, weight: before[w].weight }
    &&& forall|j: int|
        0 <= j < before.len() && j != w ==> after[j] == LotteryChoice {
            name: (#[trigger] before[j]).name,
            tickets: (before[j].tickets + before[j].weight) as u64,
            weight: before[j].weight,
        }
}

/// The lottery model's postcondition: the winner held tickets and drops to
/// zero, while every other choice accrues its own weight in new tickets.
pub open spec fn lottery_picked(
    before: Seq<LotteryChoice>,
    after: Seq<LotteryChoice>,
    name: Seq<char>,
) -> bool {
    exists|w: int| #[trigger] lottery_picked_at(before, after, name, w)
}

/// The list equals its old value with the element at position `i` moved to
/// the end, order otherwise preserved, and `name` is that element's text.
pub open spec fn moved_to_end(
    before: Seq<String>,
    after: Seq<String>,
    name: Seq<char>,
    i: int,
) -> bool {
    &&& 0 <= i < before.len()
    &&& name == before[i]@
    &&& after == before.remove(i).push(before[i])
}

/// The LRU model's postcondition: some element moved to the end of the list.
pub open spec fn lru_picked(before: Seq<String>, after: Seq<String>, name: Seq<char>) -> bool {
    exists|i: int| #[trigger] moved_to_end(before, after, name, i)
}

/// The gaussian model's postcondition: the first occurrence of the accepted
/// name moved to the end of the list.
pub open spec fn gaussian_picked(before: Seq<String>, after: Seq<String>, name: Seq<char>) -> bool {
    exists|i: int|
        #[trigger] moved_to_end(before, after, name, i) && (forall|j: int|
            0 <= j < i ==> (#[trigger] before[j])@ != name)
}

/// The least position in a list of names that bears the target name, or the
/// list's length when none does.
pub open spec fn first_name_index(list: Seq<String>, target: Seq<char>) -> int
    decreases list.len(),
{
    if list.len() == 0 {
        0
    } else if list[0]@ == target {
        0
    } else {
        1 + first_name_index(list.drop_first(), target)
    }
}

/// A position that bears the target name and is preceded by none that does
/// is the first such position.
pub proof fn lemma_first_name_index(list: Seq<String>, target: Seq<char>, p: int)
    requires
        0 <= p < list.len(),
        list[p]@ == target,
        forall|q: int| 0 <= q < p ==> (#[trigger] list[q])@ != target,
    ensures
        first_name_index(list, target) == p,
    decreases p,
{
    if p > 0 {
        assert(list[0]@ != target);
        assert(list.drop_first()[p - 1] == list[p]);
        assert(forall|q: int| 0 <= q < p - 1 ==> (#[trigger] list.drop_first()[q]) == list[q + 1]);
        lemma_first_name_index(list.drop_first(), target, p - 1);
    }
}

/// The state of the gaussian model's consent loop after some number of
/// draws: the working copy it holds, how many prompts its in-range draws
/// have consumed so far, and how many times the working copy was reset
/// after its last candidate was rejected.
pub struct GaussianTrace {
    /// The working copy the next draw is taken over.
    pub working: Seq<String>,
    /// How many prompts the in-range draws so far have consumed.
    pub prompted: int,
    /// How many resets — each after one disapproval — have happened.
    pub resets: int,
}

/// The state of the gaussian model's consent loop after its first `m`
/// draws, given the recorded draws and the recorded prompt answers: an
/// out-of-range draw changes nothing; an in-range draw consumes one answer,
/// and on rejection the first entry bearing the drawn name leaves the
/// working copy, or — when it was the last — the copy resets to the
/// original list after one disapproval.
pub open spec fn gaussian_trace_at(
    original: Seq<String>,
    gdraws: Seq<usize>,
    replies: Seq<bool>,
    m: int,
) -> GaussianTrace
    decreases m,
{
    if m <= 0 {
        GaussianTrace { working: original, prompted: 0, resets: 0 }
    } else {
        let t = gaussian_trace_at(original, gdraws, replies, m - 1);
        let g = gdraws[m - 1];
        if g >= t.working.len() {
            t
        } else if t.prompted < replies.len() && replies[t.prompted] {
            GaussianTrace { working: t.working, prompted: t.prompted + 1, resets: t.resets }
        } else if t.working.len() <= 1 {
            GaussianTrace { working: original, prompted: t.prompted + 1, resets: t.resets + 1 }
        } else {
            GaussianTrace {
                working: t.working.remove(
                    first_name_index(t.working, t.working[g as int]@),
                ),
                prompted: t.prompted + 1,
                resets: t.resets,
            }
        }
    }
}

/// A list holding the target name somewhere has its first occurrence at a
/// real position, and that position bears the target.
pub proof fn lemma_first_name_index_bounds(list: Seq<String>, target: Seq<char>)
    requires
        exists|q: int| 0 <= q < list.len() && (#[trigger] list[q])@ == target,
    ensures
        0 <= first_name_index(list, target) < list.len(),
        list[first_name_index(list, target)]@ == target,
    decreases list.len(),
{
    if list[0]@ != target {
        let q = choose|q: int| 0 <= q < list.len() && (#[trigger] list[q])@ == target;
        assert(list.drop_first()[q - 1] == list[q]);
        lemma_first_name_index_bounds(list.drop_first(), target);
    }
}

/// Basic shape facts of a gaussian trace: the counters never go negative,
/// and the working copy is never empty while the original list is not.
pub proof fn lemma_gaussian_trace_shape(
    original: Seq<String>,
    gdraws: Seq<usize>,
    replies: Seq<bool>,
    m: int,
)
    ensures
        gaussian_trace_at(original, gdraws, replies, m).prompted >= 0,
        gaussian_trace_at(original, gdraws, replies, m).resets >= 0,
        original.len() > 0 ==> gaussian_trace_at(original, gdraws, replies, m).working.len() > 0,
    decreases m,
{
    if m > 0 {
        lemma_gaussian_trace_shape(original, gdraws, replies, m - 1);
        let t = gaussian_trace_at(original, gdraws, replies, m - 1);
        let g = gdraws[m - 1];
        if g < t.working.len() && !(t.prompted < replies.len() && replies[t.prompted])
            && t.working.len() > 1 {
            assert((t.working[g as int])@ == t.working[g as int]@);
            lemma_first_name_index_bounds(t.working, t.working[g as int]@);
        }
    }
}

/// A later trace never has consumed fewer prompts than an earlier one.
pub proof fn lemma_gaussian_trace_prompted_monotone(
    original: Seq<String>,
    gdraws: Seq<usize>,
    replies: Seq<bool>,
    m1: int,
    m2: int,
)
    requires
        m1 <= m2,
    ensures
        gaussian_trace_at(original, gdraws, replies, m1).prompted <= gaussian_trace_at(
            original,
            gdraws,
            replies,
            m2,
        ).prompted,
    decreases m2 - m1,
{
    if m1 < m2 {
        lemma_gaussian_trace_prompted_monotone(original, gdraws, replies, m1, m2 - 1);
    }
}

/// The trace after `m` draws reads only the first `m` recorded draws and
/// the answers its in-range draws consumed, so extending either record
/// leaves it unchanged.
pub proof fn lemma_gaussian_trace_grow(
    original: Seq<String>,
    g1: Seq<usize>,
    r1: Seq<bool>,
    g2: Seq<usize>,
    r2: Seq<bool>,
    m: int,
)
    requires
        m <= g1.len(),
        g1.len() <= g2.len(),
        forall|i: int| 0 <= i < g1.len() ==> g1[i] == g2[i],
        r1.len() <= r2.len(),
        forall|i: int| 0 <= i < r1.len() ==> r1[i] == r2[i],
        gaussian_trace_at(original, g1, r1, m).prompted <= r1.len(),
    ensures
        gaussian_trace_at(original, g2, r2, m) == gaussian_trace_at(original, g1, r1, m),
    decreases m,
{
    if m > 0 {
        let t = gaussian_trace_at(original, g1, r1, m - 1);
        assert(gaussian_trace_at(original, g1, r1, m).prompted >= t.prompted);
        lemma_gaussian_trace_grow(original, g1, r1, g2, r2, m - 1);
        let g = g1[m - 1];
        assert(g2[m - 1] == g);
        if g < t.working.len() {
            lemma_gaussian_trace_shape(original, g1, r1, m - 1);
            assert(gaussian_trace_at(original, g1, r1, m).prompted == t.prompted + 1);
            assert(t.prompted < r1.len());
            assert(r2[t.prompted] == r1[t.prompted]);
        }
    }
}

/// The inputs on which a category can complete a pick without overflowing a
/// weight sum: its eligible pool is non-empty (every draw needs a positive
/// weight total), the pool's weight sum fits a machine word, and — for the
/// lottery — so does every choice's ticket accrual.
pub open spec fn category_pickable(c: ConfigCategory) -> bool {
    match c {
        ConfigCategory::Even { choices } => choices@.len() > 0,
        ConfigCategory::Gaussian { stddev_scaling_factor_bits, choices } => choices@.len() > 0,
        ConfigCategory::Inventory { choices } => spec_inventory_pool(choices@).len() > 0
            && total_weight(spec_inventory_pool(choices@)) <= u64::MAX,
        ConfigCategory::LRU { choices } => choices@.len() > 0,
        ConfigCategory::Lottery { choices } => spec_lottery_pool(choices@).len() > 0
            && total_weight(spec_lottery_pool(choices@)) <= u64::MAX && (forall|j: int|
            0 <= j < choices@.len() ==> (#[trigger] choices@[j]).tickets + choices@[j].weight
                <= u64::MAX),
        ConfigCategory::Weighted { choices } => spec_weighted_pool(choices@).len() > 0
            && total_weight(spec_weighted_pool(choices@)) <= u64::MAX,
    }
}

/// Test [`category_pickable`] for one category: whether its eligible pool
/// is non-empty and its weight sums fit a machine word. With this an
/// unverified caller can establish the precondition of [`Engine::pick`]
/// before calling it.
pub fn is_category_pickable(c: &ConfigCategory) -> (b: bool)
    ensures
        b == category_pickable(*c),
{
    match *c {
        ConfigCategory::Even { ref choices } => choices.len() > 0,
        ConfigCategory::Gaussian { stddev_scaling_factor_bits: _, ref choices } => choices.len()
            > 0,
        ConfigCategory::LRU { ref choices } => choices.len() > 0,
        ConfigCategory::Inventory { ref choices } => {
            let pool = make_inventory_pool(choices);
            if pool.len() == 0 {
                false
            } else {
                match checked_total(&pool) {
                    Option::Some(_) => true,
                    Option::None => false,
                }
            }
        },
        ConfigCategory::Lottery { ref choices } => {
            let pool = make_lottery_pool(choices);
            if pool.len() == 0 {
                return false;
            }
            match checked_total(&pool) {
                Option::Some(_) => {},
                Option::None => {
                    return false;
                },
            }
            let mut j: usize = 0;
            while j < choices.len()
                invariant
                    *c is Lottery,
                    (*c)->Lottery_choices == *choices,
                    j <= choices@.len(),
                    forall|q: int|
                        0 <= q < j ==> (#[trigger] choices@[q]).tickets + choices@[q].weight
                            <= u64::MAX,
                    spec_lottery_pool(choices@).len() > 0,
                    total_weight(spec_lottery_pool(choices@)) <= u64::MAX,
                decreases choices@.len() - j,
            {
                if choices[j].tickets > u64::MAX - choices[j].weight {
                    proof {
                        assert((choices@[j as int]).tickets + choices@[j as int].weight
                            > u64::MAX);
                        assert(!category_pickable(*c));
                    }
                    return false;
                }
                j = j + 1;
            }
            true
        },
        ConfigCategory::Weighted { ref choices } => {
            let pool = make_weighted_pool(choices);
            if pool.len() == 0 {
                false
            } else {
                match checked_total(&pool) {
                    Option::Some(_) => true,
                    Option::None => false,
                }
            }
        },
    }
}

/// How a pick relates a category's state after the call to its state before
/// it, per model, together with the name it returned.
pub open spec fn picked_from(
    before: ConfigCategory,
    after: ConfigCategory,
    name: Seq<char>,
) -> bool {
    match before {
        ConfigCategory::Even { choices } => after == before && even_picked(choices@, name),
        ConfigCategory::Gaussian { stddev_scaling_factor_bits, choices } => (after matches
            ConfigCategory::Gaussian { stddev_scaling_factor_bits: b2, choices: c2 }
            && b2 == stddev_scaling_factor_bits && gaussian_picked(choices@, c2@, name)),
        ConfigCategory::Inventory { choices } => (after matches ConfigCategory::Inventory {
            choices: c2 } && inventory_picked(choices@, c2@, name)),
        ConfigCategory::LRU { choices } => (after matches ConfigCategory::LRU { choices: c2 }
            && lru_picked(choices@, c2@, name)),
        ConfigCategory::Lottery { choices } => (after matches ConfigCategory::Lottery {
            choices: c2 } && lottery_picked(choices@, c2@, name)),
        ConfigCategory::Weighted { choices } => after == before && weighted_picked(choices@, name),
    }
}

/// The message carried by the error a pick returns when no category of the
/// configuration bears the requested name.
pub open spec fn not_found_message(category: Seq<char>) -> Seq<char> {
    "Category "@ + category + " not found in config."@
}

/// The selection engine. It draws candidates from an injected
/// [`RandomSource`] and settles each draw with the human behind the injected
/// [`Ui`].
pub struct Engine<U, R> {
    ui: U,
    rng: R,
}

/// The first pool position whose candidate bears the target name.
fn position_of_pool_name(names: &Vec<String>, pool: &Vec<Candidate>, target: &String) -> (p: usize)
    requires
        pool_wf(pool@, names@.len()),
        exists|q: int|
            0 <= q < pool@.len() && names@[(#[trigger] pool@[q]).index as int]@ == target@,
    ensures
        p < pool@.len(),
        names@[pool@[p as int].index as int]@ == target@,
        forall|q: int| 0 <= q < p ==> names@[(#[trigger] pool@[q]).index as int]@ != target@,
{
    let mut j: usize = 0;
    while j < pool.len()
        invariant
            j <= pool@.len(),
            pool_wf(pool@, names@.len()),
            forall|q: int| 0 <= q < j ==> names@[(#[trigger] pool@[q]).index as int]@ != target@,
        decreases pool@.len() - j,
    {
        if names[pool[j].index] == *target {
            return j;
        }
        j = j + 1;
    }
    unreached()
}

/// The first position in a list of names that bears the target name.
fn position_of_name(list: &Vec<String>, target: &String) -> (p: usize)
    requires
        exists|q: int| 0 <= q < list@.len() && (#[trigger] list@[q])@ == target@,
    ensures
        p < list@.len(),
        list@[p as int]@ == target@,
        forall|q: int| 0 <= q < p ==> (#[trigger] list@[q])@ != target@,
{
    let mut j: usize = 0;
    while j < list.len()
        invariant
            j <= list@.len(),
            forall|q: int| 0 <= q < j ==> (#[trigger] list@[q])@ != target@,
        decreases list@.len() - j,
    {
        if list[j] == *target {
            return j;
        }
        j = j + 1;
    }
    unreached()
}

/// An exact copy of a list of names.
fn clone_names(list: &Vec<String>) -> (r: Vec<String>)
    ensures
        r@ == list@,
{
    let mut r: Vec<String> = Vec::new();
    let mut i: usize = 0;
    while i < list.len()
        invariant
            i <= list@.len(),
            r@ == list@.take(i as int),
        decreases list@.len() - i,
    {
        r.push(list[i].clone());
        proof {
            assert(list@.take(i + 1) =~= list@.take(i as int).push(list@[i as int]));
        }
        i = i + 1;
    }
    proof {
        assert(list@.take(list@.len() as int) =~= list@);
    }
    r
}

/// The names of a list of weighted choices, in order.
fn weighted_names(choices: &Vec<WeightedChoice>) -> (names: Vec<String>)
    ensures
        names@.len() == choices@.len(),
        forall|i: int| 0 <= i < choices@.len() ==> names@[i] == (#[trigger] choices@[i]).name,
{
    let mut names: Vec<String> = Vec::new();
    let mut i: usize = 0;
    while i < choices.len()
        invariant
            i <= choices@.len(),
            names@.len() == i,
            forall|j: int| 0 <= j < i ==> names@[j] == (#[trigger] choices@[j]).name,
        decreases choices@.len() - i,
    {
        names.push(choices[i].name.clone());
        i = i + 1;
    }
    names
}

/// The names of a list of inventory choices, in order.
fn inventory_names(choices: &Vec<InventoryChoice>) -> (names: Vec<String>)
    ensures
        names@.len() == choices@.len(),
        forall|i: int| 0 <= i < choices@.len() ==> names@[i] == (#[trigger] choices@[i]).name,
{
    let mut names: Vec<String> = Vec::new();
    let mut i: usize = 0;
    while i < choices.len()
        invariant
            i <= choices@.len(),
            names@.len() == i,
            forall|j: int| 0 <= j < i ==> names@[j] == (#[trigger] choices@[j]).name,
        decreases choices@.len() - i,
    {
        names.push(choices[i].name.clone());
        i = i + 1;
    }
    names
}

/// The names of a list of lottery choices, in order.
fn lottery_names(choices: &Vec<LotteryChoice>) -> (names: Vec<String>)
    ensures
        names@.len() == choices@.len(),
        forall|i: int| 0 <= i < choices@.len() ==> names@[i] == (#[trigger] choices@[i]).name,
{
    let mut names: Vec<String> = Vec::new();
    let mut i: usize = 0;
    while i < choices.len()
        invariant
            i <= choices@.len(),
            names@.len() == i,
            forall|j: int| 0 <= j < i ==> names@[j] == (#[trigger] choices@[j]).name,
        decreases choices@.len() - i,
    {
        names.push(choices[i].name.clone());
        i = i + 1;
    }
    names
}

impl<U: Ui, R: RandomSource> Engine<U, R> {
    /// How many rejections the engine's consent interface still answers for.
    pub closed spec fn patience(&self) -> nat {
        self.ui.patience()
    }

    /// How many out-of-range gaussian draws the engine's random source still
    /// answers for.
    pub closed spec fn overshoot(&self) -> nat {
        self.rng.overshoot()
    }

    /// The consent interface's ghost record of prompted names.
    pub closed spec fn prompts(&self) -> Seq<Seq<char>> {
        self.ui.prompts()
    }

    /// The consent interface's ghost record of answers given.
    pub closed spec fn replies(&self) -> Seq<bool> {
        self.ui.replies()
    }

    /// The consent interface's ghost record of messages shown.
    pub closed spec fn notices(&self) -> Seq<Seq<char>> {
        self.ui.notices()
    }

    /// The random source's ghost record of uniform values handed out.
    pub closed spec fn draws(&self) -> Seq<u64> {
        self.rng.draws()
    }

    /// The random source's ghost record of gaussian draws handed out.
    pub closed spec fn gaussian_draws(&self) -> Seq<usize> {
        self.rng.gaussian_draws()
    }

    /// The random source's ghost record of the candidate-list length each
    /// gaussian draw was taken over.
    pub closed spec fn gaussian_lens(&self) -> Seq<usize> {
        self.rng.gaussian_lens()
    }

    /// The answer the engine's consent interface would give to the `j`-th
    /// prompt still to come.
    pub closed spec fn reply_ahead(&self, j: int) -> bool {
        self.ui.reply_ahead(j)
    }

    /// The raw value the engine's random source would hand to the `j`-th
    /// uniform draw still to come.
    pub closed spec fn draw_ahead(&self, j: int) -> u64 {
        self.rng.draw_ahead(j)
    }

    /// The index the engine's random source would hand to the `j`-th
    /// gaussian draw still to come.
    pub closed spec fn gaussian_ahead(&self, j: int) -> usize {
        self.rng.gaussian_ahead(j)
    }

    /// Instantiate an Engine around a consent interface and a source of
    /// randomness.
    pub fn new(ui: U, rng: R) -> (e: Engine<U, R>)
        ensures
            e.patience() == ui.patience(),
            e.overshoot() == rng.overshoot(),
            e.prompts() == ui.prompts(),
            e.replies() == ui.replies(),
            e.notices() == ui.notices(),
            e.draws() == rng.draws(),
            e.gaussian_draws() == rng.gaussian_draws(),
            e.gaussian_lens() == rng.gaussian_lens(),
            forall|j: int| #[trigger] e.reply_ahead(j) == ui.reply_ahead(j),
            forall|j: int| #[trigger] e.draw_ahead(j) == rng.draw_ahead(j),
            forall|j: int| #[trigger] e.gaussian_ahead(j) == rng.gaussian_ahead(j),
    {
        Engine { ui, rng }
    }

    /// Use the given random source rather than the current one: afterwards
    /// the engine draws from `rng`, and the consent interface is untouched.
    pub fn set_rng(&mut self, rng: R)
        ensures
            final(self).overshoot() == rng.overshoot(),
            final(self).draws() == rng.draws(),
            final(self).gaussian_draws() == rng.gaussian_draws(),
            final(self).gaussian_lens() == rng.gaussian_lens(),
            forall|j: int| #[trigger] final(self).draw_ahead(j) == rng.draw_ahead(j),
            forall|j: int| #[trigger] final(self).gaussian_ahead(j) == rng.gaussian_ahead(j),
            final(self).patience() == old(self).patience(),
            final(self).prompts() == old(self).prompts(),
            final(self).replies() == old(self).replies(),
            final(self).notices() == old(self).notices(),
            forall|j: int| #[trigger] final(self).reply_ahead(j) == old(self).reply_ahead(j),
    {
        self.rng = rng;
    }

    /// The consent interface the engine was built around.
    pub fn ui(&self) -> &U {
        &self.ui
    }

    /// Express disapproval to the user: emitted exactly once each time every
    /// remaining candidate of a pool has been rejected, just before the pool
    /// is reset.
    fn express_disapproval(&mut self)
        ensures
            final(self).patience() <= old(self).patience(),
            final(self).prompts() == old(self).prompts(),
            final(self).replies() == old(self).replies(),
            final(self).notices() == old(self).notices().push(disapproval_message()),
            forall|j: int| #[trigger] final(self).reply_ahead(j) == old(self).reply_ahead(j),
            final(self).rng == old(self).rng,
    {
        self.ui.info("🤨");
    }

    /// Prompt the user for consent for the given choice, returning true if
    /// they accept the choice, or false if they do not.
    /// Prompting appends the name and the answer to the interaction record
    /// and leaves the random source untouched.
    pub fn get_consent(&mut self, choice: &str) -> (b: bool)
        ensures
            !b ==> final(self).patience() < old(self).patience(),
            final(self).prompts() == old(self).prompts().push(choice@),
            final(self).replies() == old(self).replies().push(b),
            final(self).notices() == old(self).notices(),
            b == old(self).reply_ahead(0),
            forall|j: int|
                j >= 0 ==> #[trigger] final(self).reply_ahead(j) == old(self).reply_ahead(j + 1),
            final(self).overshoot() == old(self).overshoot(),
            final(self).draws() == old(self).draws(),
            final(self).gaussian_draws() == old(self).gaussian_draws(),
            final(self).gaussian_lens() == old(self).gaussian_lens(),
            forall|j: int| #[trigger] final(self).draw_ahead(j) == old(self).draw_ahead(j),
            forall|j: int| #[trigger] final(self).gaussian_ahead(j) == old(self).gaussian_ahead(j),
    {
        self.ui.prompt_choice(choice)
    }

    /// Handle one rejection of the weighted-consent loop. While more than
    /// one candidate remains, only the first pool entry bearing the rejected
    /// name leaves the pool. Rejecting the last remaining candidate triggers
    /// exactly one disapproval notification, and exactly then the pool is
    /// reset to the full pool: the returned flag says whether that happened,
    /// and it is set if and only if the rejected candidate was the last one.
    fn handle_rejection(
        &mut self,
        names: &Vec<String>,
        full_pool: &Vec<Candidate>,
        pool: Vec<Candidate>,
        rejected_name: &String,
    ) -> (r: (Vec<Candidate>, bool))
        requires
            full_pool@.len() > 0,
            pool_wf(full_pool@, names@.len()),
            total_weight(full_pool@) <= u64::MAX,
            pool@.len() > 0,
            pool_wf(pool@, names@.len()),
            total_weight(pool@) <= u64::MAX,
            forall|p: int| 0 <= p < pool@.len() ==> full_pool@.contains(#[trigger] pool@[p]),
            exists|q: int|
                0 <= q < pool@.len() && names@[(#[trigger] pool@[q]).index as int]@
                    == rejected_name@,
        ensures
            final(self).patience() <= old(self).patience(),
            final(self).prompts() == old(self).prompts(),
            final(self).replies() == old(self).replies(),
            r.1 ==> final(self).notices() == old(self).notices().push(disapproval_message()),
            !r.1 ==> final(self).notices() == old(self).notices(),
            forall|j: int| #[trigger] final(self).reply_ahead(j) == old(self).reply_ahead(j),
            final(self).rng == old(self).rng,
            r.1 == (pool@.len() <= 1),
            r.1 ==> r.0@ == full_pool@,
            !r.1 ==> r.0@ == pool@.remove(first_pool_position(names@, pool@, rejected_name@)),
            r.0@.len() > 0,
            pool_wf(r.0@, names@.len()),
            total_weight(r.0@) <= u64::MAX,
            forall|p: int| 0 <= p < r.0@.len() ==> full_pool@.contains(#[trigger] r.0@[p]),
    {
        if pool.len() > 1 {
            let rm = position_of_pool_name(names, &pool, rejected_name);
            let mut shrunk = pool;
            let ghost old_pool = shrunk@;
            shrunk.remove(rm);
            proof {
                lemma_first_pool_position(names@, old_pool, rejected_name@, rm as int);
                lemma_total_weight_remove(old_pool, rm as int);
                assert forall|p: int| 0 <= p < shrunk@.len() implies full_pool@.contains(
                    #[trigger] shrunk@[p],
                ) && shrunk@[p].index < names@.len() && shrunk@[p].weight > 0 by {
                    if p < rm {
                        assert(shrunk@[p] == old_pool[p]);
                    } else {
                        assert(shrunk@[p] == old_pool[p + 1]);
                    }
                }
            }
            (shrunk, false)
        } else {
            self.express_disapproval();
            (copy_pool(full_pool), true)
        }
    }

    /// Everything one run of the weighted-consent core appends to the ghost
    /// records, as a function of the engine's state before the call. For
    /// every iteration `j` of the consent loop: the pool it held is
    /// [`pool_at`] over this call's draw record, its draw is the `j`-th
    /// planned value reduced modulo that pool's weight sum, its prompt names
    /// the pool entry the cumulative-weight draw lands on, and its answer is
    /// the `j`-th planned reply. Exactly the iterations that rejected the
    /// last remaining candidate pushed a notification.
    /// What iteration `j` of one weighted-consent episode did, read off the
    /// ghost records: over the pool [`pool_at`] holds for that iteration, it
    /// drew the `j`-th planned value reduced modulo the pool's weight sum,
    /// prompted the name of the pool entry the cumulative-weight draw lands
    /// on, and was answered with the `j`-th planned reply.
    pub open spec fn core_iteration_law(
        pre: Self,
        post: Self,
        names: Seq<String>,
        full_pool: Seq<Candidate>,
        j: int,
    ) -> bool {
        let dnew = post.draws().skip(pre.draws().len() as int);
        let pj = pool_at(names, full_pool, dnew, j);
        &&& dnew[j] == pre.draw_ahead(j) % (total_weight(pj) as u64)
        &&& dnew[j] < total_weight(pj)
        &&& post.prompts()[pre.prompts().len() + j] == names[pj[spec_draw(
            pj,
            dnew[j] as int,
        )].index as int]@
        &&& post.replies()[pre.replies().len() + j] == pre.reply_ahead(j)
    }

    pub open spec fn weighted_core_episode(
        pre: Self,
        post: Self,
        names: Seq<String>,
        full_pool: Seq<Candidate>,
    ) -> bool {
        let k = post.replies().len() - pre.replies().len();
        let dnew = post.draws().skip(pre.draws().len() as int);
        &&& post.draws().len() == pre.draws().len() + k
        &&& forall|j: int| 0 <= j < pre.draws().len() ==> post.draws()[j] == pre.draws()[j]
        &&& post.gaussian_draws() == pre.gaussian_draws()
        &&& post.gaussian_lens() == pre.gaussian_lens()
        &&& forall|j: int|
            0 <= j < post.replies().len() - pre.replies().len()
                ==> #[trigger] Self::core_iteration_law(pre, post, names, full_pool, j)
        &&& post.notices().len() == pre.notices().len() + resets_before(
            names,
            full_pool,
            dnew,
            k - 1,
        )
    }

    /// The weighted-consent core shared by the even, weighted, inventory and
    /// lottery models. Draws from the pool with probability proportional to
    /// weight, asks for consent, and repeats on rejection — dropping the
    /// first pool entry bearing the rejected name while more than one
    /// candidate remains, and resetting to the full pool, after exactly one
    /// disapproval message, once the last one is rejected. Returns the
    /// original-list index carried by the accepted candidate, which is
    /// always the index of some entry of the given pool; the whole
    /// interaction, iteration by iteration, is pinned by
    /// [`Self::weighted_core_episode`].
    pub fn pick_weighted_common(&mut self, names: &Vec<String>, full_pool: &Vec<Candidate>) -> (
        choice: usize)
        requires
            full_pool@.len() > 0,
            pool_wf(full_pool@, names@.len()),
            total_weight(full_pool@) <= u64::MAX,
        ensures
            exists|k: int| 0 <= k < full_pool@.len() && (#[trigger] full_pool@[k]).index == choice,
            consent_episode(
                old(self).prompts(),
                old(self).replies(),
                final(self).prompts(),
                final(self).replies(),
                names@[choice as int]@,
            ),
            forall|j: int|
                old(self).prompts().len() <= j < final(self).prompts().len() ==> exists|k: int|
                    0 <= k < full_pool@.len() && #[trigger] final(self).prompts()[j] == names@[(
                    full_pool@[k]).index as int]@,
            notices_are_disapprovals(old(self).notices(), final(self).notices()),
            final(self).draws().len() == old(self).draws().len() + (final(self).replies().len()
                - old(self).replies().len()),
            Self::weighted_core_episode(*old(self), *final(self), names@, full_pool@),
            choice == episode_winner(
                names@,
                full_pool@,
                final(self).draws().skip(old(self).draws().len() as int),
            ).index,
    {
        let ghost pre = *self;
        let ghost p0 = self.prompts();
        let ghost r0 = self.replies();
        let ghost n0 = self.notices();
        let ghost d0 = self.draws();
        let ghost g0 = self.gaussian_draws();
        let mut pool = copy_pool(full_pool);
        loop
            invariant
                pool@.len() > 0,
                full_pool@.len() > 0,
                pool_wf(full_pool@, names@.len()),
                pool_wf(pool@, names@.len()),
                total_weight(full_pool@) <= u64::MAX,
                total_weight(pool@) <= u64::MAX,
                forall|p: int| 0 <= p < pool@.len() ==> full_pool@.contains(#[trigger] pool@[p]),
                pre == *old(self),
                p0 == old(self).prompts(),
                r0 == old(self).replies(),
                n0 == old(self).notices(),
                d0 == old(self).draws(),
                g0 == old(self).gaussian_draws(),
                self.replies().len() >= r0.len(),
                self.prompts().len() - p0.len() == self.replies().len() - r0.len(),
                forall|j: int| 0 <= j < p0.len() ==> self.prompts()[j] == p0[j],
                forall|j: int| 0 <= j < r0.len() ==> self.replies()[j] == r0[j],
                forall|j: int| 0 <= j < d0.len() ==> self.draws()[j] == d0[j],
                forall|j: int| r0.len() <= j < self.replies().len() ==> !self.replies()[j],
                forall|j: int|
                    p0.len() <= j < self.prompts().len() ==> exists|k: int|
                        0 <= k < full_pool@.len() && #[trigger] self.prompts()[j] == names@[(
                        full_pool@[k]).index as int]@,
                notices_are_disapprovals(n0, self.notices()),
                self.draws().len() == d0.len() + (self.replies().len() - r0.len()),
                self.gaussian_draws() == g0,
                self.gaussian_lens() == pre.gaussian_lens(),
                pool@ == pool_at(
                    names@,
                    full_pool@,
                    self.draws().skip(d0.len() as int),
                    self.replies().len() - r0.len(),
                ),
                self.notices().len() == n0.len() + resets_before(
                    names@,
                    full_pool@,
                    self.draws().skip(d0.len() as int),
                    self.replies().len() - r0.len(),
                ),
                forall|j: int|
                    0 <= j < self.replies().len() - r0.len()
                        ==> #[trigger] Self::core_iteration_law(pre, *self, names@, full_pool@, j),
                forall|j: int|
                    j >= 0 ==> #[trigger] self.reply_ahead(j) == pre.reply_ahead(
                        j + (self.replies().len() - r0.len()),
                    ),
                forall|j: int|
                    j >= 0 ==> #[trigger] self.draw_ahead(j) == pre.draw_ahead(
                        j + (self.replies().len() - r0.len()),
                    ),
            decreases self.patience(),
        {
            let ghost prev = *self;
            let ghost iters: int = self.replies().len() - r0.len();
            let ghost dprev = self.draws().skip(d0.len() as int);
            proof {
                lemma_total_weight_lower_bound(pool@);
            }
            let total = total_of(&pool);
            let r = self.rng.random_below(total);
            proof {
                assert(self.draws().skip(d0.len() as int) =~= dprev.push(r));
                lemma_pool_at_grow(names@, full_pool@, dprev, dprev.push(r), iters);
            }
            let pos = index_for_draw(&pool, r);
            let chosen_index = pool[pos].index;
            let chosen_name = names[chosen_index].clone();
            if self.ui.call_display_table() {
                let t = build_weighted_table(names, &pool, chosen_index);
                self.ui.display_table(&t);
            }
            let ghost mid = *self;
            let accepted = self.get_consent(chosen_name.as_str());
            proof {
                let dnew = self.draws().skip(d0.len() as int);
                assert(dnew =~= dprev.push(r));
                assert(prev.draw_ahead(0) == pre.draw_ahead(iters));
                assert(r == prev.draw_ahead(0) % total);
                assert(mid.reply_ahead(0) == prev.reply_ahead(0));
                assert(prev.reply_ahead(0) == pre.reply_ahead(iters));
                assert(accepted == pre.reply_ahead(iters));
                assert forall|j: int| j >= 0 implies #[trigger] self.reply_ahead(j)
                    == pre.reply_ahead(j + iters + 1) by {
                    assert(mid.reply_ahead(j + 1) == prev.reply_ahead(j + 1));
                    assert(prev.reply_ahead(j + 1) == pre.reply_ahead(j + 1 + iters));
                }
                assert forall|j: int| j >= 0 implies #[trigger] self.draw_ahead(j)
                    == pre.draw_ahead(j + iters + 1) by {
                    assert(prev.draw_ahead(j + 1) == pre.draw_ahead(j + 1 + iters));
                }
                assert(full_pool@.contains(pool@[pos as int]));
                let k = choose|k: int|
                    0 <= k < full_pool@.len() && full_pool@[k] == pool@[pos as int];
                assert(chosen_name@ == names@[chosen_index as int]@);
                assert(self.prompts()[self.prompts().len() - 1] == chosen_name@);
                assert forall|j: int|
                    p0.len() <= j < self.prompts().len() implies exists|k2: int|
                        0 <= k2 < full_pool@.len() && #[trigger] self.prompts()[j] == names@[(
                        full_pool@[k2]).index as int]@ by {
                    if j == self.prompts().len() - 1 {
                        assert(self.prompts()[j] == names@[(full_pool@[k]).index as int]@);
                    }
                }
                assert forall|j: int| 0 <= j < iters + 1 implies #[trigger] Self::core_iteration_law(
                    pre,
                    *self,
                    names@,
                    full_pool@,
                    j,
                ) by {
                    lemma_pool_at_grow(names@, full_pool@, dprev, dnew, j);
                    if j < iters {
                        assert(Self::core_iteration_law(pre, prev, names@, full_pool@, j));
                        assert(pool_at(names@, full_pool@, dprev, j) == pool_at(
                            names@,
                            full_pool@,
                            dnew,
                            j,
                        ));
                        assert(dnew[j] == dprev[j]);
                    } else {
                        lemma_pool_at_grow(names@, full_pool@, dprev, dnew, iters);
                        assert(pool_at(names@, full_pool@, dnew, j) == pool@);
                        assert(dnew[j] == r);
                        assert((total_weight(pool@) as u64) == total);
                        assert(r == pre.draw_ahead(iters) % (total_weight(pool@) as u64));
                        assert(spec_draw(pool@, r as int) == pos);
                        assert(self.prompts().len() == p0.len() + iters + 1);
                        assert(self.prompts()[p0.len() + j] == chosen_name@);
                        assert(names@[pool@[pos as int].index as int]@ == chosen_name@);
                        assert(self.replies()[r0.len() + j] == accepted);
                    }
                }
            }
            if accepted {
                proof {
                    let dnew = self.draws().skip(d0.len() as int);
                    assert(consent_episode(
                        p0,
                        r0,
                        self.prompts(),
                        self.replies(),
                        names@[chosen_index as int]@,
                    ));
                    lemma_pool_at_grow(names@, full_pool@, dprev, dnew, iters);
                    assert(pool_at(names@, full_pool@, dnew, dnew.len() - 1) == pool@);
                    assert(dnew.last() == r);
                    assert(episode_winner(names@, full_pool@, dnew) == pool@[pos as int]);
                    assert(resets_before(names@, full_pool@, dnew, iters) == resets_before(
                        names@,
                        full_pool@,
                        dprev,
                        iters,
                    ));
                }
                return chosen_index;
            } else {
                proof {
                    assert(names@[(pool@[pos as int]).index as int]@ == chosen_name@);
                }
                let ghost answered = *self;
                let (next, _disapproved) = self.handle_rejection(
                    names,
                    full_pool,
                    pool,
                    &chosen_name,
                );
                pool = next;
                proof {
                    let dnew = self.draws().skip(d0.len() as int);
                    assert forall|j: int| 0 <= j < iters + 1 implies
                        #[trigger] Self::core_iteration_law(pre, *self, names@, full_pool@, j) by {
                        assert(Self::core_iteration_law(pre, answered, names@, full_pool@, j));
                    }
                    assert forall|j: int| j >= 0 implies #[trigger] self.draw_ahead(j)
                        == pre.draw_ahead(j + iters + 1) by {
                        assert(self.draw_ahead(j) == answered.draw_ahead(j));
                        assert(answered.draw_ahead(j) == pre.draw_ahead(j + iters + 1));
                    }
                    assert(dnew =~= dprev.push(r));
                    lemma_pool_at_grow(names@, full_pool@, dprev, dnew, iters);
                    assert(pool_at(names@, full_pool@, dnew, iters) == pool_at(
                        names@,
                        full_pool@,
                        dprev,
                        iters,
                    ));
                    assert(dnew[iters] == r);
                    assert(pool@ == pool_at(names@, full_pool@, dnew, iters + 1));
                    assert(resets_before(names@, full_pool@, dnew, iters + 1) == resets_before(
                        names@,
                        full_pool@,
                        dprev,
                        iters,
                    ) + (if pool_at(names@, full_pool@, dnew, iters).len() <= 1 {
                        1int
                    } else {
                        0int
                    }));
                }
            }
        }
    }

    /// Use an even distribution random model to pick from the given choices:
    /// every choice is drawn with weight one. The accepted choice is one of
    /// the given names; the list itself is never mutated.
    pub fn pick_even(&mut self, choices: &Vec<String>) -> (choice: String)
        requires
            choices@.len() > 0,
        ensures
            even_picked(choices@, choice@),
            consent_episode(
                old(self).prompts(),
                old(self).replies(),
                final(self).prompts(),
                final(self).replies(),
                choice@,
            ),
            forall|j: int|
                old(self).prompts().len() <= j < final(self).prompts().len() ==> exists|i: int|
                    0 <= i < choices@.len() && #[trigger] final(self).prompts()[j] == choices@[i]@,
            notices_are_disapprovals(old(self).notices(), final(self).notices()),
            final(self).draws().len() == old(self).draws().len() + (final(self).replies().len()
                - old(self).replies().len()),
            Self::weighted_core_episode(
                *old(self),
                *final(self),
                choices@,
                spec_even_pool(choices@.len()),
            ),
            choice@ == choices@[episode_winner(
                choices@,
                spec_even_pool(choices@.len()),
                final(self).draws().skip(old(self).draws().len() as int),
            ).index as int]@,
    {
        let pool = make_even_pool(choices.len());
        proof {
            lemma_even_pool_wf(choices@.len());
        }
        let ghost p1 = self.prompts();
        let index = self.pick_weighted_common(choices, &pool);
        proof {
            let k = choose|k: int| 0 <= k < pool@.len() && (#[trigger] pool@[k]).index == index;
            assert(pool@[k].index < choices@.len());
            assert forall|j: int|
                p1.len() <= j < self.prompts().len() implies exists|i: int|
                    0 <= i < choices@.len() && #[trigger] self.prompts()[j] == choices@[i]@ by {
                let q = choose|q: int|
                    0 <= q < pool@.len() && #[trigger] self.prompts()[j] == choices@[(
                    pool@[q]).index as int]@;
                assert(self.prompts()[j] == choices@[(pool@[q]).index as int]@);
            }
        }
        choices[index].clone()
    }

    /// Run the weighted model for the given choices: each is drawn with its
    /// configured weight, zero-weight choices are left out of the pool, and
    /// the list is never mutated.
    pub fn pick_weighted(&mut self, choices: &Vec<WeightedChoice>) -> (choice: String)
        requires
            spec_weighted_pool(choices@).len() > 0,
            total_weight(spec_weighted_pool(choices@)) <= u64::MAX,
        ensures
            weighted_picked(choices@, choice@),
            consent_episode(
                old(self).prompts(),
                old(self).replies(),
                final(self).prompts(),
                final(self).replies(),
                choice@,
            ),
            forall|j: int|
                old(self).prompts().len() <= j < final(self).prompts().len() ==> exists|i: int|
                    0 <= i < choices@.len() && choices@[i].weight > 0
                        && #[trigger] final(self).prompts()[j] == choices@[i].name@,
            notices_are_disapprovals(old(self).notices(), final(self).notices()),
            final(self).draws().len() == old(self).draws().len() + (final(self).replies().len()
                - old(self).replies().len()),
            Self::weighted_core_episode(
                *old(self),
                *final(self),
                weighted_names_of(choices@),
                spec_weighted_pool(choices@),
            ),
            choice@ == choices@[episode_winner(
                weighted_names_of(choices@),
                spec_weighted_pool(choices@),
                final(self).draws().skip(old(self).draws().len() as int),
            ).index as int].name@,
    {
        let names = weighted_names(choices);
        let pool = make_weighted_pool(choices);
        proof {
            assert(choices@.len() == choices.len());
            lemma_weighted_pool_wf(choices@);
            assert(names@ =~= weighted_names_of(choices@));
        }
        let ghost p1 = self.prompts();
        let ghost d1 = self.draws();
        let index = self.pick_weighted_common(&names, &pool);
        proof {
            let k = choose|k: int| 0 <= k < pool@.len() && (#[trigger] pool@[k]).index == index;
            assert(choices@[index as int].weight == pool@[k].weight);
            assert forall|j: int|
                p1.len() <= j < self.prompts().len() implies exists|i: int|
                    0 <= i < choices@.len() && choices@[i].weight > 0 && #[trigger] self.prompts()[
                j] == choices@[i].name@ by {
                let q = choose|q: int|
                    0 <= q < pool@.len() && #[trigger] self.prompts()[j] == names@[(
                    pool@[q]).index as int]@;
                let i = pool@[q].index as int;
                assert(choices@[i].weight == pool@[q].weight);
                assert(names@[i] == choices@[i].name);
                assert(self.prompts()[j] == choices@[i].name@);
            }
            assert(names@[index as int] == choices@[index as int].name);
        }
        choices[index].name.clone()
    }

    /// Run the inventory model for the given choices: only choices that
    /// still have tickets are drawn, each with its ticket count as weight,
    /// and the accepted winner loses exactly one ticket.
    pub fn pick_inventory(&mut self, choices: &mut Vec<InventoryChoice>) -> (choice: String)
        requires
            spec_inventory_pool(old(choices)@).len() > 0,
            total_weight(spec_inventory_pool(old(choices)@)) <= u64::MAX,
        ensures
            inventory_picked(old(choices)@, final(choices)@, choice@),
            consent_episode(
                old(self).prompts(),
                old(self).replies(),
                final(self).prompts(),
                final(self).replies(),
                choice@,
            ),
            forall|j: int|
                old(self).prompts().len() <= j < final(self).prompts().len() ==> exists|i: int|
                    0 <= i < old(choices)@.len() && old(choices)@[i].tickets > 0
                        && #[trigger] final(self).prompts()[j] == old(choices)@[i].name@,
            notices_are_disapprovals(old(self).notices(), final(self).notices()),
            final(self).draws().len() == old(self).draws().len() + (final(self).replies().len()
                - old(self).replies().len()),
            Self::weighted_core_episode(
                *old(self),
                *final(self),
                inventory_names_of(old(choices)@),
                spec_inventory_pool(old(choices)@),
            ),
            inventory_picked_at(
                old(choices)@,
                final(choices)@,
                choice@,
                episode_winner(
                    inventory_names_of(old(choices)@),
                    spec_inventory_pool(old(choices)@),
                    final(self).draws().skip(old(self).draws().len() as int),
                ).index as int,
            ),
    {
        let names = inventory_names(choices);
        let pool = make_inventory_pool(choices);
        proof {
            assert(choices@.len() == choices.len());
            lemma_inventory_pool_wf(choices@);
            assert(names@ =~= inventory_names_of(choices@));
        }
        let ghost p1 = self.prompts();
        let ghost d1 = self.draws();
        let index = self.pick_weighted_common(&names, &pool);
        proof {
            let k = choose|k: int| 0 <= k < pool@.len() && (#[trigger] pool@[k]).index == index;
            assert(choices@[index as int].tickets == pool@[k].weight);
            assert forall|j: int|
                p1.len() <= j < self.prompts().len() implies exists|i: int|
                    0 <= i < choices@.len() && choices@[i].tickets > 0
                        && #[trigger] self.prompts()[j] == choices@[i].name@ by {
                let q = choose|q: int|
                    0 <= q < pool@.len() && #[trigger] self.prompts()[j] == names@[(
                    pool@[q]).index as int]@;
                let i = pool@[q].index as int;
                assert(choices@[i].tickets == pool@[q].weight);
                assert(names@[i] == choices@[i].name);
                assert(self.prompts()[j] == choices@[i].name@);
            }
            assert(names@[index as int] == choices@[index as int].name);
        }
        let name = choices[index].name.clone();
        let updated = InventoryChoice { name: choices[index].name.clone(), tickets: choices[
            index].tickets - 1 };
        choices[index] = updated;
        proof {
            assert(inventory_picked_at(old(choices)@, choices@, name@, index as int));
        }
        name
    }

    /// Run the lottery model for the given choices: only choices that still
    /// have tickets are drawn, each with its ticket count as weight. The
    /// accepted winner's tickets drop to zero; every other choice accrues
    /// its own weight in new tickets.
    pub fn pick_lottery(&mut self, choices: &mut Vec<LotteryChoice>) -> (choice: String)
        requires
            spec_lottery_pool(old(choices)@).len() > 0,
            total_weight(spec_lottery_pool(old(choices)@)) <= u64::MAX,
            forall|j: int|
                0 <= j < old(choices)@.len() ==> (#[trigger] old(choices)@[j]).tickets + old(
                    choices,
                )@[j].weight <= u64::MAX,
        ensures
            lottery_picked(old(choices)@, final(choices)@, choice@),
            consent_episode(
                old(self).prompts(),
                old(self).replies(),
                final(self).prompts(),
                final(self).replies(),
                choice@,
            ),
            forall|j: int|
                old(self).prompts().len() <= j < final(self).prompts().len() ==> exists|i: int|
                    0 <= i < old(choices)@.len() && old(choices)@[i].tickets > 0
                        && #[trigger] final(self).prompts()[j] == old(choices)@[i].name@,
            notices_are_disapprovals(old(self).notices(), final(self).notices()),
            final(self).draws().len() == old(self).draws().len() + (final(self).replies().len()
                - old(self).replies().len()),
            Self::weighted_core_episode(
                *old(self),
                *final(self),
                lottery_names_of(old(choices)@),
                spec_lottery_pool(old(choices)@),
            ),
            lottery_picked_at(
                old(choices)@,
                final(choices)@,
                choice@,
                episode_winner(
                    lottery_names_of(old(choices)@),
                    spec_lottery_pool(old(choices)@),
                    final(self).draws().skip(old(self).draws().len() as int),
                ).index as int,
            ),
    {
        let names = lottery_names(choices);
        let pool = make_lottery_pool(choices);
        proof {
            assert(choices@.len() == choices.len());
            lemma_lottery_pool_wf(choices@);
            assert(names@ =~= lottery_names_of(choices@));
        }
        let ghost p1 = self.prompts();
        let ghost d1 = self.draws();
        let index = self.pick_weighted_common(&names, &pool);
        proof {
            let k = choose|k: int| 0 <= k < pool@.len() && (#[trigger] pool@[k]).index == index;
            assert(choices@[index as int].tickets == pool@[k].weight);
            assert forall|j: int|
                p1.len() <= j < self.prompts().len() implies exists|i: int|
                    0 <= i < choices@.len() && choices@[i].tickets > 0
                        && #[trigger] self.prompts()[j] == choices@[i].name@ by {
                let q = choose|q: int|
                    0 <= q < pool@.len() && #[trigger] self.prompts()[j] == names@[(
                    pool@[q]).index as int]@;
                let i = pool@[q].index as int;
                assert(choices@[i].tickets == pool@[q].weight);
                assert(names@[i] == choices@[i].name);
                assert(self.prompts()[j] == choices@[i].name@);
            }
            assert(names@[index as int] == choices@[index as int].name);
        }
        let name = choices[index].name.clone();
        let mut j: usize = 0;
        while j < choices.len()
            invariant
                j <= choices@.len(),
                choices@.len() == old(choices)@.len(),
                index < choices@.len(),
                forall|q: int|
                    0 <= q < choices@.len() ==> (#[trigger] old(choices)@[q]).tickets + old(
                        choices,
                    )@[q].weight <= u64::MAX,
                forall|q: int| j <= q < choices@.len() ==> choices@[q] == old(choices)@[q],
                forall|q: int|
                    0 <= q < j ==> choices@[q] == (LotteryChoice {
                        name: (#[trigger] old(choices)@[q]).name,
                        tickets: (old(choices)@[q].tickets + old(choices)@[q].weight) as u64,
                        weight: old(choices)@[q].weight,
                    }),
            decreases choices@.len() - j,
        {
            let accrued = LotteryChoice {
                name: choices[j].name.clone(),
                tickets: choices[j].tickets + choices[j].weight,
                weight: choices[j].weight,
            };
            choices[j] = accrued;
            j = j + 1;
        }
        let winner = LotteryChoice {
            name: choices[index].name.clone(),
            tickets: 0,
            weight: choices[index].weight,
        };
        choices[index] = winner;
        proof {
            assert(lottery_picked_at(old(choices)@, choices@, name@, index as int));
        }
        name
    }

    /// Run the LRU model for the given choices: scan the list front to back,
    /// asking consent for each name in turn; when the whole list has been
    /// scanned without an acceptance, emit one disapproval and restart the
    /// scan. The accepted choice moves to the end of the list.
    pub fn pick_lru(&mut self, choices: &mut Vec<String>) -> (choice: String)
        requires
            old(choices)@.len() > 0,
        ensures
            lru_picked(old(choices)@, final(choices)@, choice@),
            consent_episode(
                old(self).prompts(),
                old(self).replies(),
                final(self).prompts(),
                final(self).replies(),
                choice@,
            ),
            ({
                let n = old(choices)@.len() as int;
                let k = final(self).replies().len() - old(self).replies().len();
                &&& forall|j: int|
                    0 <= j < k ==> #[trigger] final(self).prompts()[old(self).prompts().len() + j]
                        == old(choices)@[j % n]@
                &&& final(self).notices().len() == old(self).notices().len() + (k - 1) / n
                &&& choice@ == old(choices)@[(k - 1) % n]@
                &&& final(choices)@ == old(choices)@.remove((k - 1) % n).push(
                    old(choices)@[(k - 1) % n],
                )
            }),
            notices_are_disapprovals(old(self).notices(), final(self).notices()),
            forall|j: int|
                0 <= j < final(self).replies().len() - old(self).replies().len()
                    ==> #[trigger] final(self).replies()[old(self).replies().len() + j] == old(
                    self,
                ).reply_ahead(j),
            final(self).draws() == old(self).draws(),
            final(self).gaussian_draws() == old(self).gaussian_draws(),
            final(self).gaussian_lens() == old(self).gaussian_lens(),
    {
        let ghost pre = *self;
        let ghost p0 = self.prompts();
        let ghost r0 = self.replies();
        let ghost n0 = self.notices();
        let ghost d0 = self.draws();
        let ghost g0 = self.gaussian_draws();
        let ghost n = old(choices)@.len() as int;
        let ghost mut rounds: int = 0;
        let mut i: usize = 0;
        loop
            invariant
                i < choices@.len(),
                choices@ == old(choices)@,
                n == old(choices)@.len() as int,
                n > 0,
                pre == *old(self),
                p0 == old(self).prompts(),
                r0 == old(self).replies(),
                n0 == old(self).notices(),
                d0 == old(self).draws(),
                g0 == old(self).gaussian_draws(),
                rounds >= 0,
                self.replies().len() - r0.len() == rounds * n + i,
                self.prompts().len() - p0.len() == self.replies().len() - r0.len(),
                forall|j: int| 0 <= j < p0.len() ==> self.prompts()[j] == p0[j],
                forall|j: int| 0 <= j < r0.len() ==> self.replies()[j] == r0[j],
                forall|j: int| r0.len() <= j < self.replies().len() ==> !self.replies()[j],
                forall|j: int|
                    0 <= j < self.replies().len() - r0.len() ==> #[trigger] self.prompts()[p0.len()
                        + j] == old(choices)@[j % n]@,
                forall|j: int|
                    0 <= j < self.replies().len() - r0.len() ==> #[trigger] self.replies()[r0.len()
                        + j] == pre.reply_ahead(j),
                forall|j: int|
                    j >= 0 ==> #[trigger] self.reply_ahead(j) == pre.reply_ahead(
                        j + (self.replies().len() - r0.len()),
                    ),
                notices_are_disapprovals(n0, self.notices()),
                self.notices().len() == n0.len() + rounds,
                self.draws() == d0,
                self.gaussian_draws() == g0,
                self.gaussian_lens() == pre.gaussian_lens(),
            decreases self.patience(),
        {
            let ghost prev = *self;
            let ghost scanned = self.replies().len() - r0.len();
            proof {
                vstd::arithmetic::div_mod::lemma_fundamental_div_mod_converse(
                    scanned,
                    n,
                    rounds,
                    i as int,
                );
            }
            if self.ui.call_display_table() {
                let t = build_lru_table(choices, i);
                self.ui.display_table(&t);
            }
            let name = choices[i].clone();
            let ghost mid = *self;
            let agreed = self.get_consent(name.as_str());
            proof {
                assert(mid.reply_ahead(0) == prev.reply_ahead(0));
                assert(prev.reply_ahead(0) == pre.reply_ahead(scanned));
                assert(agreed == pre.reply_ahead(scanned));
                assert forall|j: int| 0 <= j < scanned + 1 implies #[trigger] self.replies()[
                r0.len() + j] == pre.reply_ahead(j) by {
                    if j < scanned {
                        assert(prev.replies()[r0.len() + j] == pre.reply_ahead(j));
                    }
                }
                assert forall|j: int| j >= 0 implies #[trigger] self.reply_ahead(j)
                    == pre.reply_ahead(j + scanned + 1) by {
                    assert(mid.reply_ahead(j + 1) == prev.reply_ahead(j + 1));
                    assert(prev.reply_ahead(j + 1) == pre.reply_ahead(j + 1 + scanned));
                }
            }
            if agreed {
                proof {
                    assert(self.prompts()[p0.len() + scanned] == old(choices)@[scanned % n]@);
                }
                let chosen = choices.remove(i);
                choices.push(chosen.clone());
                proof {
                    assert(moved_to_end(old(choices)@, choices@, chosen@, i as int));
                }
                return chosen;
            }
            if i < choices.len() - 1 {
                i = i + 1;
            } else {
                self.express_disapproval();
                proof {
                    assert((rounds + 1) * n == rounds * n + n) by (nonlinear_arith);
                    rounds = rounds + 1;
                }
                i = 0;
            }
        }
    }

    /// What draw `m` of one gaussian episode did, read off the ghost
    /// records: over the working copy [`gaussian_trace_at`] holds for that
    /// draw, it drew the `m`-th planned index, it was taken over the working
    /// copy's current length — so the standard deviation is recomputed as
    /// the pool shrinks — and, when the index was in range, the prompt it
    /// led to names the working copy's entry at that index.
    pub open spec fn gaussian_iteration_law(
        pre: Self,
        post: Self,
        original: Seq<String>,
        m: int,
    ) -> bool {
        let gnew = post.gaussian_draws().skip(pre.gaussian_draws().len() as int);
        let rnew = post.replies().skip(pre.replies().len() as int);
        let t = gaussian_trace_at(original, gnew, rnew, m);
        &&& gnew[m] == pre.gaussian_ahead(m)
        &&& post.gaussian_lens()[pre.gaussian_lens().len() + m] == t.working.len()
        &&& (gnew[m] < t.working.len() ==> post.prompts()[pre.prompts().len() + t.prompted]
            == t.working[gnew[m] as int]@)
    }

    /// Everything one run of the gaussian model appends to the ghost
    /// records, as a function of the engine's state before the call: every
    /// draw obeys [`Self::gaussian_iteration_law`], every answer is the
    /// planned one, the last draw was in range and accepted the working
    /// copy's entry at the drawn index, and exactly the rejections of a
    /// last remaining candidate pushed a notification.
    pub open spec fn gaussian_episode(
        pre: Self,
        post: Self,
        original: Seq<String>,
        name: Seq<char>,
    ) -> bool {
        let k = post.replies().len() - pre.replies().len();
        let mnum = post.gaussian_draws().len() - pre.gaussian_draws().len();
        let gnew = post.gaussian_draws().skip(pre.gaussian_draws().len() as int);
        let rnew = post.replies().skip(pre.replies().len() as int);
        &&& post.draws() == pre.draws()
        &&& mnum >= 1
        &&& forall|j: int|
            0 <= j < pre.gaussian_draws().len() ==> post.gaussian_draws()[j]
                == pre.gaussian_draws()[j]
        &&& post.gaussian_lens().len() == pre.gaussian_lens().len() + mnum
        &&& forall|j: int|
            0 <= j < pre.gaussian_lens().len() ==> post.gaussian_lens()[j]
                == pre.gaussian_lens()[j]
        &&& forall|m: int|
            0 <= m < post.gaussian_draws().len() - pre.gaussian_draws().len()
                ==> #[trigger] Self::gaussian_iteration_law(pre, post, original, m)
        &&& forall|j: int|
            0 <= j < post.replies().len() - pre.replies().len() ==> #[trigger] post.replies()[
            pre.replies().len() + j] == pre.reply_ahead(j)
        &&& gaussian_trace_at(original, gnew, rnew, mnum).prompted == k
        &&& post.notices().len() == pre.notices().len() + gaussian_trace_at(
            original,
            gnew,
            rnew,
            mnum,
        ).resets
        &&& ({
            let t = gaussian_trace_at(original, gnew, rnew, mnum - 1);
            &&& gnew[mnum - 1] < t.working.len()
            &&& t.prompted == k - 1
            &&& name == t.working[gnew[mnum - 1] as int]@
        })
    }

    /// Run the gaussian model for the given choices: indexes are drawn from
    /// a folded normal distribution whose standard deviation is the working
    /// pool's length over the scaling factor, recomputed as the pool
    /// shrinks, so that choices near the front of the list are preferred.
    /// Out-of-range draws are redrawn without counting as rejections. The
    /// first occurrence of the accepted name moves to the end of the list;
    /// the whole interaction, draw by draw, is pinned by
    /// [`Self::gaussian_episode`].
    pub fn pick_gaussian(&mut self, choices: &mut Vec<String>, stddev_scaling_factor_bits: u64) -> (
        choice: String)
        requires
            old(choices)@.len() > 0,
        ensures
            gaussian_picked(old(choices)@, final(choices)@, choice@),
            consent_episode(
                old(self).prompts(),
                old(self).replies(),
                final(self).prompts(),
                final(self).replies(),
                choice@,
            ),
            forall|j: int|
                old(self).prompts().len() <= j < final(self).prompts().len() ==> prompt_among(
                    #[trigger] final(self).prompts()[j],
                    old(choices)@,
                ),
            notices_are_disapprovals(old(self).notices(), final(self).notices()),
            final(self).draws() == old(self).draws(),
            Self::gaussian_episode(*old(self), *final(self), old(choices)@, choice@),
    {
        let ghost pre = *self;
        let ghost p0 = self.prompts();
        let ghost r0 = self.replies();
        let ghost n0 = self.notices();
        let ghost d0 = self.draws();
        let ghost g0 = self.gaussian_draws();
        let ghost l0 = self.gaussian_lens();
        let mut candidates = clone_names(choices);
        loop
            invariant
                choices@ == old(choices)@,
                choices@.len() > 0,
                candidates@.len() > 0,
                forall|p: int|
                    0 <= p < candidates@.len() ==> choices@.contains(#[trigger] candidates@[p]),
                pre == *old(self),
                p0 == old(self).prompts(),
                r0 == old(self).replies(),
                n0 == old(self).notices(),
                d0 == old(self).draws(),
                g0 == old(self).gaussian_draws(),
                l0 == old(self).gaussian_lens(),
                self.replies().len() >= r0.len(),
                self.prompts().len() - p0.len() == self.replies().len() - r0.len(),
                forall|j: int| 0 <= j < p0.len() ==> self.prompts()[j] == p0[j],
                forall|j: int| 0 <= j < r0.len() ==> self.replies()[j] == r0[j],
                forall|j: int| r0.len() <= j < self.replies().len() ==> !self.replies()[j],
                forall|j: int|
                    p0.len() <= j < self.prompts().len() ==> prompt_among(
                        #[trigger] self.prompts()[j],
                        old(choices)@,
                    ),
                notices_are_disapprovals(n0, self.notices()),
                self.draws() == d0,
                self.gaussian_draws().len() >= g0.len(),
                forall|j: int| 0 <= j < g0.len() ==> self.gaussian_draws()[j] == g0[j],
                self.gaussian_lens().len() == l0.len() + (self.gaussian_draws().len() - g0.len()),
                forall|j: int| 0 <= j < l0.len() ==> self.gaussian_lens()[j] == l0[j],
                candidates@ == gaussian_trace_at(
                    choices@,
                    self.gaussian_draws().skip(g0.len() as int),
                    self.replies().skip(r0.len() as int),
                    self.gaussian_draws().len() - g0.len(),
                ).working,
                gaussian_trace_at(
                    choices@,
                    self.gaussian_draws().skip(g0.len() as int),
                    self.replies().skip(r0.len() as int),
                    self.gaussian_draws().len() - g0.len(),
                ).prompted == self.replies().len() - r0.len(),
                gaussian_trace_at(
                    choices@,
                    self.gaussian_draws().skip(g0.len() as int),
                    self.replies().skip(r0.len() as int),
                    self.gaussian_draws().len() - g0.len(),
                ).resets == self.notices().len() - n0.len(),
                forall|m: int|
                    0 <= m < self.gaussian_draws().len() - g0.len()
                        ==> #[trigger] Self::gaussian_iteration_law(pre, *self, choices@, m),
                forall|j: int|
                    0 <= j < self.replies().len() - r0.len() ==> #[trigger] self.replies()[r0.len()
                        + j] == pre.reply_ahead(j),
                forall|j: int|
                    j >= 0 ==> #[trigger] self.reply_ahead(j) == pre.reply_ahead(
                        j + (self.replies().len() - r0.len()),
                    ),
                forall|j: int|
                    j >= 0 ==> #[trigger] self.gaussian_ahead(j) == pre.gaussian_ahead(
                        j + (self.gaussian_draws().len() - g0.len()),
                    ),
            decreases self.patience(), self.overshoot(),
        {
            let ghost prev = *self;
            let ghost m: int = self.gaussian_draws().len() - g0.len();
            let ghost gprev = self.gaussian_draws().skip(g0.len() as int);
            let ghost rprev = self.replies().skip(r0.len() as int);
            let index = self.rng.gaussian_index(candidates.len(), stddev_scaling_factor_bits);
            proof {
                let gnew = self.gaussian_draws().skip(g0.len() as int);
                assert(gnew =~= gprev.push(index));
                lemma_gaussian_trace_grow(choices@, gprev, rprev, gnew, rprev, m);
                assert(prev.gaussian_ahead(0) == pre.gaussian_ahead(m));
                assert(index == pre.gaussian_ahead(m));
                assert forall|j: int| j >= 0 implies #[trigger] self.gaussian_ahead(j)
                    == pre.gaussian_ahead(j + m + 1) by {
                    assert(prev.gaussian_ahead(j + 1) == pre.gaussian_ahead(j + 1 + m));
                }
                assert forall|j: int| j >= 0 implies #[trigger] self.reply_ahead(j)
                    == pre.reply_ahead(j + rprev.len()) by {
                    assert(self.reply_ahead(j) == prev.reply_ahead(j));
                    assert(prev.reply_ahead(j) == pre.reply_ahead(j + rprev.len()));
                }
                assert forall|m2: int| 0 <= m2 < m implies
                    #[trigger] Self::gaussian_iteration_law(pre, *self, choices@, m2) by {
                    lemma_gaussian_trace_prompted_monotone(choices@, gprev, rprev, m2, m);
                    lemma_gaussian_trace_grow(choices@, gprev, rprev, gnew, rprev, m2);
                    assert(Self::gaussian_iteration_law(pre, prev, choices@, m2));
                    assert(gnew[m2] == gprev[m2]);
                }
                if index >= candidates.len() {
                    assert(gaussian_trace_at(choices@, gnew, rprev, m + 1) == gaussian_trace_at(
                        choices@,
                        gnew,
                        rprev,
                        m,
                    ));
                    assert(gaussian_trace_at(choices@, gnew, rprev, m).working == candidates@);
                    assert(self.gaussian_lens()[l0.len() + m] == candidates@.len());
                    assert(Self::gaussian_iteration_law(pre, *self, choices@, m));
                }
            }
            let ghost drawn = *self;
            if index < candidates.len() {
                if self.ui.call_display_table() {
                    self.ui.display_gaussian_table(index, &candidates, stddev_scaling_factor_bits);
                }
                let value = candidates[index].clone();
                let ghost ph = self.prompts();
                let ghost mid = *self;
                let agreed = self.get_consent(value.as_str());
                proof {
                    let gnew = self.gaussian_draws().skip(g0.len() as int);
                    let rnew = self.replies().skip(r0.len() as int);
                    assert(gnew =~= gprev.push(index));
                    assert(rnew =~= rprev.push(agreed));
                    assert(mid.reply_ahead(0) == prev.reply_ahead(0));
                    assert(prev.reply_ahead(0) == pre.reply_ahead(rprev.len() as int));
                    assert(agreed == pre.reply_ahead(rprev.len() as int));
                    assert forall|j: int| j >= 0 implies #[trigger] self.reply_ahead(j)
                        == pre.reply_ahead(j + rprev.len() + 1) by {
                        assert(mid.reply_ahead(j + 1) == prev.reply_ahead(j + 1));
                        assert(prev.reply_ahead(j + 1) == pre.reply_ahead(j + 1 + rprev.len()));
                    }
                    assert forall|j: int| j >= 0 implies #[trigger] self.gaussian_ahead(j)
                        == pre.gaussian_ahead(j + m + 1) by {
                        assert(self.gaussian_ahead(j) == mid.gaussian_ahead(j));
                        assert(mid.gaussian_ahead(j) == drawn.gaussian_ahead(j));
                        assert(drawn.gaussian_ahead(j) == pre.gaussian_ahead(j + m + 1));
                    }
                    assert forall|j: int| 0 <= j < rprev.len() + 1 implies #[trigger] self.replies()[
                    r0.len() + j] == pre.reply_ahead(j) by {
                        if j < rprev.len() {
                            assert(prev.replies()[r0.len() + j] == pre.reply_ahead(j));
                        }
                    }
                    lemma_gaussian_trace_grow(choices@, gprev, rprev, gnew, rnew, m);
                    assert(gaussian_trace_at(choices@, gnew, rnew, m).working == candidates@);
                    assert(gaussian_trace_at(choices@, gnew, rnew, m).prompted == rprev.len());
                    assert(choices@.contains(candidates@[index as int]));
                    let q = choose|q: int|
                        0 <= q < choices@.len() && choices@[q] == candidates@[index as int];
                    assert(choices@[q]@ == value@);
                    assert(self.prompts()[self.prompts().len() - 1] == value@);
                    assert forall|j: int|
                        p0.len() <= j < self.prompts().len() implies prompt_among(
                        #[trigger] self.prompts()[j],
                        old(choices)@,
                    ) by {
                        if j == self.prompts().len() - 1 {
                            assert(self.prompts()[j] == old(choices)@[q]@);
                        } else {
                            assert(self.prompts()[j] == ph[j]);
                        }
                    }
                    assert forall|m2: int| 0 <= m2 < m implies
                        #[trigger] Self::gaussian_iteration_law(pre, *self, choices@, m2) by {
                        assert(Self::gaussian_iteration_law(pre, prev, choices@, m2));
                        lemma_gaussian_trace_shape(choices@, gprev, rprev, m2);
                        lemma_gaussian_trace_prompted_monotone(choices@, gprev, rprev, m2, m);
                        lemma_gaussian_trace_prompted_monotone(choices@, gprev, rprev, m2 + 1, m);
                        lemma_gaussian_trace_grow(choices@, gprev, rprev, gnew, rnew, m2);
                        lemma_gaussian_trace_grow(choices@, gprev, rprev, gnew, rnew, m2 + 1);
                        assert(gnew[m2] == gprev[m2]);
                        let t = gaussian_trace_at(choices@, gnew, rnew, m2);
                        assert(t == gaussian_trace_at(choices@, gprev, rprev, m2));
                        assert(gnew[m2] == pre.gaussian_ahead(m2));
                        assert(self.gaussian_lens()[l0.len() + m2] == prev.gaussian_lens()[l0.len()
                            + m2]);
                        assert(self.gaussian_lens()[l0.len() + m2] == t.working.len());
                        if gnew[m2] < t.working.len() {
                            assert(gaussian_trace_at(choices@, gprev, rprev, m2 + 1).prompted
                                == t.prompted + 1);
                            assert(t.prompted < rprev.len());
                            assert(self.prompts()[p0.len() + t.prompted] == prev.prompts()[p0.len()
                                + t.prompted]);
                            assert(self.prompts()[p0.len() + t.prompted] == t.working[gnew[m2] as int]@);
                        }
                    }
                    lemma_gaussian_trace_grow(choices@, gnew, rprev, gnew, rnew, m);
                    assert(gaussian_trace_at(choices@, gnew, rnew, m).working == candidates@);
                    assert(gaussian_trace_at(choices@, gnew, rnew, m).prompted == rprev.len());
                    assert(self.gaussian_lens() == mid.gaussian_lens());
                    assert(mid.gaussian_lens() == drawn.gaussian_lens());
                    assert(self.gaussian_lens()[l0.len() + m] == candidates@.len());
                    assert(self.prompts()[p0.len() + rprev.len() as int] == value@);
                    assert(gnew[m] == index);
                    assert(Self::gaussian_iteration_law(pre, *self, choices@, m));
                }
                if agreed {
                    let accepted = position_of_name(choices, &value);
                    let chosen = choices.remove(accepted);
                    choices.push(chosen.clone());
                    proof {
                        let gnew = self.gaussian_draws().skip(g0.len() as int);
                        let rnew = self.replies().skip(r0.len() as int);
                        assert(moved_to_end(old(choices)@, choices@, chosen@, accepted as int));
                        assert(gaussian_picked(old(choices)@, choices@, chosen@));
                        assert(consent_episode(p0, r0, self.prompts(), self.replies(), chosen@));
                        assert(gaussian_trace_at(old(choices)@, gnew, rnew, m).working
                            == candidates@);
                        assert(gaussian_trace_at(old(choices)@, gnew, rnew, m).prompted
                            == rnew.len() - 1);
                        assert(rnew[rprev.len() as int] == true);
                        assert(gaussian_trace_at(old(choices)@, gnew, rnew, m + 1).prompted
                            == rnew.len());
                        assert(gaussian_trace_at(old(choices)@, gnew, rnew, m + 1).resets
                            == gaussian_trace_at(old(choices)@, gnew, rnew, m).resets);
                        assert(chosen@ == gaussian_trace_at(old(choices)@, gnew, rnew, m).working[
                        index as int]@);
                    }
                    return chosen;
                } else if candidates.len() > 1 {
                    proof {
                        assert(candidates@[index as int]@ == value@);
                    }
                    let rm = position_of_name(&candidates, &value);
                    let ghost old_candidates = candidates@;
                    candidates.remove(rm);
                    proof {
                        lemma_first_name_index(old_candidates, value@, rm as int);
                        let gnew = self.gaussian_draws().skip(g0.len() as int);
                        let rnew = self.replies().skip(r0.len() as int);
                        assert(gaussian_trace_at(choices@, gnew, rnew, m + 1).working
                            == old_candidates.remove(rm as int));
                        assert forall|p: int| 0 <= p < candidates@.len() implies choices@.contains(
                            #[trigger] candidates@[p],
                        ) by {
                            if p < rm {
                                assert(candidates@[p] == old_candidates[p]);
                            } else {
                                assert(candidates@[p] == old_candidates[p + 1]);
                            }
                        }
                    }
                } else {
                    let ghost answered = *self;
                    self.express_disapproval();
                    candidates = clone_names(choices);
                    proof {
                        let gnew = self.gaussian_draws().skip(g0.len() as int);
                        let rnew = self.replies().skip(r0.len() as int);
                        assert(gaussian_trace_at(choices@, gnew, rnew, m + 1).working == choices@);
                        assert(gaussian_trace_at(choices@, gnew, rnew, m + 1).resets
                            == gaussian_trace_at(choices@, gnew, rnew, m).resets + 1);
                        assert forall|j: int| j >= 0 implies #[trigger] self.gaussian_ahead(j)
                            == pre.gaussian_ahead(j + m + 1) by {
                            assert(self.gaussian_ahead(j) == answered.gaussian_ahead(j));
                            assert(answered.gaussian_ahead(j) == pre.gaussian_ahead(j + m + 1));
                        }
                        assert forall|j: int| j >= 0 implies #[trigger] self.reply_ahead(j)
                            == pre.reply_ahead(j + rprev.len() + 1) by {
                            assert(answered.reply_ahead(j) == pre.reply_ahead(
                                j + rprev.len() + 1,
                            ));
                        }
                        assert forall|m2: int| 0 <= m2 < m + 1 implies
                            #[trigger] Self::gaussian_iteration_law(pre, *self, choices@, m2) by {
                            assert(Self::gaussian_iteration_law(pre, answered, choices@, m2));
                        }
                    }
                }
            }
        }
    }

    /// Everything one run of the LRU model appends to the ghost records, as
    /// a function of the engine's state before the call: the scan prompts
    /// the list's names cyclically from the front, every answer is the
    /// planned one, one notification per completed fruitless scan, and the
    /// accepted name — the one the final planned reply accepts — moves to
    /// the end of the list.
    pub open spec fn lru_episode(
        pre: Self,
        post: Self,
        before: Seq<String>,
        after: Seq<String>,
        name: Seq<char>,
    ) -> bool {
        let k = post.replies().len() - pre.replies().len();
        let n = before.len() as int;
        &&& post.draws() == pre.draws()
        &&& post.gaussian_draws() == pre.gaussian_draws()
        &&& post.gaussian_lens() == pre.gaussian_lens()
        &&& forall|j: int|
            0 <= j < post.replies().len() - pre.replies().len() ==> #[trigger] post.prompts()[
            pre.prompts().len() + j] == before[j % n]@
        &&& forall|j: int|
            0 <= j < post.replies().len() - pre.replies().len() ==> #[trigger] post.replies()[
            pre.replies().len() + j] == pre.reply_ahead(j)
        &&& post.notices().len() == pre.notices().len() + (k - 1) / n
        &&& name == before[(k - 1) % n]@
        &&& after == before.remove((k - 1) % n).push(before[(k - 1) % n])
    }

    /// How one pick's whole interaction — every draw, prompt, answer and
    /// notification — follows from the engine's state before the call,
    /// model by model. Together with [`picked_from`] this pins a pick's
    /// result and state change completely for deterministic collaborators.
    pub open spec fn picked_episode(
        pre: Self,
        post: Self,
        before: ConfigCategory,
        after: ConfigCategory,
        name: Seq<char>,
    ) -> bool {
        match before {
            ConfigCategory::Even { choices } => {
                &&& Self::weighted_core_episode(
                    pre,
                    post,
                    choices@,
                    spec_even_pool(choices@.len()),
                )
                &&& name == choices@[episode_winner(
                    choices@,
                    spec_even_pool(choices@.len()),
                    post.draws().skip(pre.draws().len() as int),
                ).index as int]@
            },
            ConfigCategory::Gaussian { stddev_scaling_factor_bits, choices } => {
                Self::gaussian_episode(pre, post, choices@, name)
            },
            ConfigCategory::Inventory { choices } => {
                &&& Self::weighted_core_episode(
                    pre,
                    post,
                    inventory_names_of(choices@),
                    spec_inventory_pool(choices@),
                )
                &&& (after matches ConfigCategory::Inventory { choices: c2 }
                    && inventory_picked_at(
                    choices@,
                    c2@,
                    name,
                    episode_winner(
                        inventory_names_of(choices@),
                        spec_inventory_pool(choices@),
                        post.draws().skip(pre.draws().len() as int),
                    ).index as int,
                ))
            },
            ConfigCategory::LRU { choices } => (after matches ConfigCategory::LRU { choices: c2 }
                && Self::lru_episode(pre, post, choices@, c2@, name)),
            ConfigCategory::Lottery { choices } => {
                &&& Self::weighted_core_episode(
                    pre,
                    post,
                    lottery_names_of(choices@),
                    spec_lottery_pool(choices@),
                )
                &&& (after matches ConfigCategory::Lottery { choices: c2 }
                    && lottery_picked_at(
                    choices@,
                    c2@,
                    name,
                    episode_winner(
                        lottery_names_of(choices@),
                        spec_lottery_pool(choices@),
                        post.draws().skip(pre.draws().len() as int),
                    ).index as int,
                ))
            },
            ConfigCategory::Weighted { choices } => {
                &&& Self::weighted_core_episode(
                    pre,
                    post,
                    weighted_names_of(choices@),
                    spec_weighted_pool(choices@),
                )
                &&& name == choices@[episode_winner(
                    weighted_names_of(choices@),
                    spec_weighted_pool(choices@),
                    post.draws().skip(pre.draws().len() as int),
                ).index as int].name@
            },
        }
    }

    /// Pick an item from the category named `category`, mutating that
    /// category's persisted state as its model prescribes and leaving every
    /// other entry untouched. When no entry bears the name, the
    /// configuration is unchanged and the pick fails with the not-found
    /// error.
    pub fn pick(&mut self, config: &mut Vec<ConfigEntry>, category: String) -> (r: Result<
        String,
        ValueError,
    >)
        requires
            forall|k: int|
                0 <= k < old(config)@.len() && (#[trigger] old(config)@[k]).name@ == category@ && (
                forall|j: int| 0 <= j < k ==> (#[trigger] old(config)@[j]).name@ != category@)
                    ==> category_pickable(old(config)@[k].category),
        ensures
            match r {
                Result::Err(e) => {
                    &&& final(config)@ == old(config)@
                    &&& forall|k: int|
                        0 <= k < old(config)@.len() ==> (#[trigger] old(config)@[k]).name@
                            != category@
                    &&& e@ == not_found_message(category@)
                    &&& final(self).prompts() == old(self).prompts()
                    &&& final(self).replies() == old(self).replies()
                    &&& final(self).notices() == old(self).notices()
                    &&& final(self).draws() == old(self).draws()
                    &&& final(self).gaussian_draws() == old(self).gaussian_draws()
                },
                Result::Ok(name) => {
                    &&& exists|k: int|
                        {
                            &&& 0 <= k < old(config)@.len()
                            &&& (#[trigger] old(config)@[k]).name@ == category@
                            &&& forall|j: int|
                                0 <= j < k ==> (#[trigger] old(config)@[j]).name@ != category@
                            &&& final(config)@.len() == old(config)@.len()
                            &&& forall|j: int|
                                0 <= j < final(config)@.len() && j != k ==> final(config)@[j]
                                    == old(config)@[j]
                            &&& final(config)@[k].name == old(config)@[k].name
                            &&& picked_from(
                                old(config)@[k].category,
                                final(config)@[k].category,
                                name@,
                            )
                            &&& Self::picked_episode(
                                *old(self),
                                *final(self),
                                old(config)@[k].category,
                                final(config)@[k].category,
                                name@,
                            )
                        }
                    &&& consent_episode(
                        old(self).prompts(),
                        old(self).replies(),
                        final(self).prompts(),
                        final(self).replies(),
                        name@,
                    )
                    &&& notices_are_disapprovals(old(self).notices(), final(self).notices())
                    &&& final(self).draws().len() >= old(self).draws().len()
                    &&& forall|j: int|
                        0 <= j < old(self).draws().len() ==> final(self).draws()[j] == old(
                            self,
                        ).draws()[j]
                    &&& final(self).gaussian_draws().len() >= old(self).gaussian_draws().len()
                    &&& forall|j: int|
                        0 <= j < old(self).gaussian_draws().len() ==> final(self).gaussian_draws()[
                        j] == old(self).gaussian_draws()[j]
                },
            },
    {
        let mut k: usize = 0;
        let mut found = false;
        while k < config.len() && !found
            invariant
                k <= config@.len(),
                found ==> k < config@.len() && config@[k as int].name@ == category@,
                forall|j: int| 0 <= j < k ==> (#[trigger] config@[j]).name@ != category@,
            decreases config@.len() - k + (if found { 0int } else { 1int }),
        {
            if config[k].name == category {
                found = true;
            } else {
                k = k + 1;
            }
        }
        if !found {
            let mut message = "Category ".to_owned();
            message.append(category.as_str());
            message.append(" not found in config.");
            return Result::Err(ValueError::new(message));
        }
        let entry = config.remove(k);
        let ConfigEntry { name: entry_name, category: entry_category } = entry;
        proof {
            assert(category_pickable(old(config)@[k as int].category));
        }
        let (picked, new_category): (String, ConfigCategory) = match entry_category {
            ConfigCategory::Even { choices } => {
                let picked = self.pick_even(&choices);
                (picked, ConfigCategory::Even { choices })
            },
            ConfigCategory::Gaussian { stddev_scaling_factor_bits, choices } => {
                let mut choices = choices;
                let picked = self.pick_gaussian(&mut choices, stddev_scaling_factor_bits);
                (picked, ConfigCategory::Gaussian { stddev_scaling_factor_bits, choices })
            },
            ConfigCategory::Inventory { choices } => {
                let mut choices = choices;
                let picked = self.pick_inventory(&mut choices);
                (picked, ConfigCategory::Inventory { choices })
            },
            ConfigCategory::LRU { choices } => {
                let mut choices = choices;
                let picked = self.pick_lru(&mut choices);
                (picked, ConfigCategory::LRU { choices })
            },
            ConfigCategory::Lottery { choices } => {
                let mut choices = choices;
                let picked = self.pick_lottery(&mut choices);
                (picked, ConfigCategory::Lottery { choices })
            },
            ConfigCategory::Weighted { choices } => {
                let picked = self.pick_weighted(&choices);
                (picked, ConfigCategory::Weighted { choices })
            },
        };
        let new_entry = ConfigEntry { name: entry_name, category: new_category };
        config.insert(k, new_entry);
        proof {
            assert(config@ =~= old(config)@.update(k as int, config@[k as int]));
            assert(Self::picked_episode(
                *old(self),
                *self,
                old(config)@[k as int].category,
                config@[k as int].category,
                picked@,
            ));
        }
        Result::Ok(picked)
    }
}

} // verus!
