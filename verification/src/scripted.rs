//! Deterministic test doubles for the engine's two capabilities: a consent
//! interface that answers from a script and records what it was shown, and
//! a random source that replays scripted draws. With these, a pick is fully
//! reproducible: the contracts below state the replay exactly.

use vstd::prelude::*;

use crate::engine::RandomSource;
use crate::engine::Ui;
use crate::table::Table;

verus! {

/// How many of the scripted answers from position `at` on are rejections.
pub open spec fn rejections_from(answers: Seq<bool>, at: int) -> nat
    decreases answers.len() - at,
{
    if at < 0 || at >= answers.len() {
        0
    } else {
        (if !answers[at] {
            1nat
        } else {
            0nat
        }) + rejections_from(answers, at + 1)
    }
}

/// One recorded request to render the gaussian chance table.
#[derive(Clone, Debug, PartialEq)]
pub struct GaussianCall {
    pub index: usize,
    pub candidates: Vec<String>,
    pub stddev_scaling_factor_bits: u64,
}

/// A consent interface that answers each prompt from a script, front to
/// back, and accepts once the script is exhausted. Everything shown to it is
/// recorded for inspection, and the ghost interaction record of [`Ui`] is
/// exactly what `prompts`, `replies` and `infos` hold.
#[derive(Debug, Default)]
pub struct ScriptedUi {
    /// Whether a chance table should be rendered each iteration.
    pub show_table: bool,
    /// The scripted prompt answers; `true` accepts the candidate.
    pub answers: Vec<bool>,
    /// The position of the next scripted answer.
    pub next_answer: usize,
    /// Every candidate name that consent was asked for, in order.
    pub prompts: Vec<String>,
    /// The answer given to each prompt, in order.
    pub replies: Vec<bool>,
    /// Every informational message shown, in order.
    pub infos: Vec<String>,
    /// Every table rendered, in order.
    pub tables: Vec<Table>,
    /// Every gaussian chance table requested, in order.
    pub gaussian_calls: Vec<GaussianCall>,
    /// How often the engine asked whether to render a table.
    pub display_table_queries: u64,
}

impl ScriptedUi {
    /// A scripted consent interface that has seen nothing yet.
    pub fn new(show_table: bool, answers: Vec<bool>) -> (ui: ScriptedUi)
        ensures
            ui.show_table == show_table,
            ui.answers == answers,
            ui.next_answer == 0,
            ui.prompts@.len() == 0,
            ui.replies@.len() == 0,
            ui.infos@.len() == 0,
            ui.tables@.len() == 0,
            ui.gaussian_calls@.len() == 0,
            ui.display_table_queries == 0,
    {
        ScriptedUi {
            show_table,
            answers,
            next_answer: 0,
            prompts: Vec::new(),
            replies: Vec::new(),
            infos: Vec::new(),
            tables: Vec::new(),
            gaussian_calls: Vec::new(),
            display_table_queries: 0,
        }
    }

    /// The answer the script gives at position `at`: the scripted value
    /// while the script lasts, acceptance once it is exhausted.
    pub open spec fn scripted_answer(answers: Seq<bool>, at: int) -> bool {
        if 0 <= at < answers.len() {
            answers[at]
        } else {
            true
        }
    }
}

impl Ui for ScriptedUi {
    /// The rejections still scripted: every answered rejection consumes one.
    open spec fn patience(&self) -> nat {
        rejections_from(self.answers@, self.next_answer as int)
    }

    /// The prompted names, exactly as recorded in `prompts`.
    open spec fn prompts(&self) -> Seq<Seq<char>> {
        self.prompts.deep_view()
    }

    /// The answers given, exactly as recorded in `replies`.
    open spec fn replies(&self) -> Seq<bool> {
        self.replies@
    }

    /// The messages shown, exactly as recorded in `infos`.
    open spec fn notices(&self) -> Seq<Seq<char>> {
        self.infos.deep_view()
    }

    /// The answer the script will give to the `j`-th prompt still to come:
    /// the scripted value at `next_answer + j`, acceptance past the script.
    open spec fn reply_ahead(&self, j: int) -> bool {
        Self::scripted_answer(self.answers@, self.next_answer + j)
    }

    /// Replay: answers whether to render from `show_table` and counts the
    /// query; nothing else changes.
    fn call_display_table(&mut self) -> (b: bool)
        ensures
            b == old(self).show_table,
            final(self).display_table_queries == (if old(self).display_table_queries < u64::MAX {
                old(self).display_table_queries + 1
            } else {
                old(self).display_table_queries as int
            }),
            final(self).show_table == old(self).show_table,
            final(self).answers == old(self).answers,
            final(self).next_answer == old(self).next_answer,
            final(self).prompts == old(self).prompts,
            final(self).replies == old(self).replies,
            final(self).infos == old(self).infos,
            final(self).tables == old(self).tables,
            final(self).gaussian_calls == old(self).gaussian_calls,
            final(self).patience() <= old(self).patience(),
            final(self).prompts() == old(self).prompts(),
            final(self).replies() == old(self).replies(),
            final(self).notices() == old(self).notices(),
    {
        if self.display_table_queries < u64::MAX {
            self.display_table_queries = self.display_table_queries + 1;
        }
        self.show_table
    }

    /// Records the rendered table; nothing else changes.
    fn display_table(&mut self, table: &Table)
        ensures
            final(self).tables@.len() == old(self).tables@.len() + 1,
            final(self).show_table == old(self).show_table,
            final(self).answers == old(self).answers,
            final(self).next_answer == old(self).next_answer,
            final(self).prompts == old(self).prompts,
            final(self).replies == old(self).replies,
            final(self).infos == old(self).infos,
            final(self).gaussian_calls == old(self).gaussian_calls,
            final(self).display_table_queries == old(self).display_table_queries,
            final(self).patience() <= old(self).patience(),
            final(self).prompts() == old(self).prompts(),
            final(self).replies() == old(self).replies(),
            final(self).notices() == old(self).notices(),
    {
        self.tables.push(table.clone());
    }

    /// Records the request with the drawn index, a copy of the candidate
    /// list, and the factor bits; nothing else changes.
    fn display_gaussian_table(
        &mut self,
        index: usize,
        candidates: &Vec<String>,
        stddev_scaling_factor_bits: u64,
    )
        ensures
            final(self).gaussian_calls@.len() == old(self).gaussian_calls@.len() + 1,
            final(self).gaussian_calls@.last().index == index,
            final(self).gaussian_calls@.last().candidates@ == candidates@,
            final(self).gaussian_calls@.last().stddev_scaling_factor_bits
                == stddev_scaling_factor_bits,
            forall|j: int|
                0 <= j < old(self).gaussian_calls@.len() ==> final(self).gaussian_calls@[j] == old(
                    self,
                ).gaussian_calls@[j],
            final(self).show_table == old(self).show_table,
            final(self).answers == old(self).answers,
            final(self).next_answer == old(self).next_answer,
            final(self).prompts == old(self).prompts,
            final(self).replies == old(self).replies,
            final(self).infos == old(self).infos,
            final(self).tables == old(self).tables,
            final(self).display_table_queries == old(self).display_table_queries,
            final(self).patience() <= old(self).patience(),
            final(self).prompts() == old(self).prompts(),
            final(self).replies() == old(self).replies(),
            final(self).notices() == old(self).notices(),
    {
        let mut copied: Vec<String> = Vec::new();
        let mut i: usize = 0;
        while i < candidates.len()
            invariant
                i <= candidates@.len(),
                copied@ == candidates@.take(i as int),
            decreases candidates@.len() - i,
        {
            copied.push(candidates[i].clone());
            proof {
                assert(candidates@.take(i + 1) =~= candidates@.take(i as int).push(
                    candidates@[i as int],
                ));
            }
            i = i + 1;
        }
        proof {
            assert(candidates@.take(candidates@.len() as int) =~= candidates@);
        }
        self.gaussian_calls.push(
            GaussianCall { index, candidates: copied, stddev_scaling_factor_bits },
        );
    }

    /// Records the message; nothing else changes.
    fn info(&mut self, message: &str)
        ensures
            final(self).infos@.len() == old(self).infos@.len() + 1,
            final(self).infos@.last()@ == message@,
            final(self).show_table == old(self).show_table,
            final(self).answers == old(self).answers,
            final(self).next_answer == old(self).next_answer,
            final(self).prompts == old(self).prompts,
            final(self).replies == old(self).replies,
            final(self).tables == old(self).tables,
            final(self).gaussian_calls == old(self).gaussian_calls,
            final(self).display_table_queries == old(self).display_table_queries,
            final(self).patience() <= old(self).patience(),
            final(self).prompts() == old(self).prompts(),
            final(self).replies() == old(self).replies(),
            final(self).notices() == old(self).notices().push(message@),
    {
        self.infos.push(message.to_owned());
        proof {
            assert(self.infos.deep_view() =~= old(self).infos.deep_view().push(message@));
        }
    }

    /// Replay: answers from the script at `next_answer` (acceptance once it
    /// is exhausted), advances the cursor while the script lasts, and
    /// records the prompt and the answer given.
    fn prompt_choice(&mut self, choice: &str) -> (b: bool)
        ensures
            b == Self::scripted_answer(old(self).answers@, old(self).next_answer as int),
            final(self).next_answer == (if old(self).next_answer < old(self).answers@.len() {
                old(self).next_answer + 1
            } else {
                old(self).next_answer as int
            }),
            final(self).prompts@.len() == old(self).prompts@.len() + 1,
            final(self).prompts@.last()@ == choice@,
            final(self).replies@ == old(self).replies@.push(b),
            final(self).show_table == old(self).show_table,
            final(self).answers == old(self).answers,
            final(self).infos == old(self).infos,
            final(self).tables == old(self).tables,
            final(self).gaussian_calls == old(self).gaussian_calls,
            final(self).display_table_queries == old(self).display_table_queries,
            !b ==> final(self).patience() < old(self).patience(),
            final(self).prompts() == old(self).prompts().push(choice@),
            final(self).replies() == old(self).replies().push(b),
            final(self).notices() == old(self).notices(),
    {
        self.prompts.push(choice.to_owned());
        proof {
            assert(self.prompts.deep_view() =~= old(self).prompts.deep_view().push(choice@));
        }
        let b = if self.next_answer < self.answers.len() {
            let b = self.answers[self.next_answer];
            self.next_answer = self.next_answer + 1;
            b
        } else {
            true
        };
        self.replies.push(b);
        b
    }
}

/// A random source that replays scripted draws: uniform draws come from
/// `uniform`, reduced modulo the bound, and gaussian draws from `gaussian`,
/// unreduced so that out-of-range indexes can be exercised. An exhausted
/// script yields zero. The values handed out are recorded in `given_uniform`
/// and `given_gaussian`, which are exactly the ghost records of
/// [`RandomSource`].
#[derive(Debug, Default)]
pub struct ScriptedSource {
    /// The scripted uniform draws.
    pub uniform: Vec<u64>,
    /// The position of the next uniform draw.
    pub uniform_at: usize,
    /// The scripted gaussian draws.
    pub gaussian: Vec<usize>,
    /// The position of the next gaussian draw.
    pub gaussian_at: usize,
    /// Every uniform value handed out, in order.
    pub given_uniform: Vec<u64>,
    /// Every gaussian draw handed out, in order.
    pub given_gaussian: Vec<usize>,
    /// The candidate-list length each gaussian draw was taken over, in order.
    pub given_gaussian_len: Vec<usize>,
}

impl ScriptedSource {
    /// A source that replays the given uniform draws.
    pub fn with_uniform(uniform: Vec<u64>) -> (s: ScriptedSource)
        ensures
            s.uniform == uniform,
            s.uniform_at == 0,
            s.gaussian@.len() == 0,
            s.gaussian_at == 0,
            s.given_uniform@.len() == 0,
            s.given_gaussian@.len() == 0,
            s.given_gaussian_len@.len() == 0,
    {
        ScriptedSource {
            uniform,
            uniform_at: 0,
            gaussian: Vec::new(),
            gaussian_at: 0,
            given_uniform: Vec::new(),
            given_gaussian: Vec::new(),
            given_gaussian_len: Vec::new(),
        }
    }

    /// A source that replays the given gaussian draws.
    pub fn with_gaussian(gaussian: Vec<usize>) -> (s: ScriptedSource)
        ensures
            s.gaussian == gaussian,
            s.gaussian_at == 0,
            s.uniform@.len() == 0,
            s.uniform_at == 0,
            s.given_uniform@.len() == 0,
            s.given_gaussian@.len() == 0,
            s.given_gaussian_len@.len() == 0,
    {
        ScriptedSource {
            uniform: Vec::new(),
            uniform_at: 0,
            gaussian,
            gaussian_at: 0,
            given_uniform: Vec::new(),
            given_gaussian: Vec::new(),
            given_gaussian_len: Vec::new(),
        }
    }
}

impl RandomSource for ScriptedSource {
    /// The scripted gaussian draws not yet replayed: each draw consumes one.
    open spec fn overshoot(&self) -> nat {
        if self.gaussian_at <= self.gaussian@.len() {
            (self.gaussian@.len() - self.gaussian_at) as nat
        } else {
            0
        }
    }

    /// The uniform values handed out, exactly as recorded.
    open spec fn draws(&self) -> Seq<u64> {
        self.given_uniform@
    }

    /// The gaussian draws handed out, exactly as recorded.
    open spec fn gaussian_draws(&self) -> Seq<usize> {
        self.given_gaussian@
    }

    /// The length each gaussian draw was taken over, exactly as recorded.
    open spec fn gaussian_lens(&self) -> Seq<usize> {
        self.given_gaussian_len@
    }

    /// The raw value the script will hand to the `j`-th uniform draw still
    /// to come: the scripted value at `uniform_at + j`, zero past the script.
    open spec fn draw_ahead(&self, j: int) -> u64 {
        if 0 <= self.uniform_at + j < self.uniform@.len() {
            self.uniform@[self.uniform_at + j]
        } else {
            0
        }
    }

    /// The index the script will hand to the `j`-th gaussian draw still to
    /// come: the scripted value at `gaussian_at + j`, zero past the script.
    open spec fn gaussian_ahead(&self, j: int) -> usize {
        if 0 <= self.gaussian_at + j < self.gaussian@.len() {
            self.gaussian@[self.gaussian_at + j]
        } else {
            0
        }
    }

    /// Replay: the scripted value at `uniform_at` (zero once the script is
    /// exhausted), reduced modulo the bound; the cursor advances while the
    /// script lasts.
    fn random_below(&mut self, bound: u64) -> (r: u64)
        ensures
            r == (if old(self).uniform_at < old(self).uniform@.len() {
                old(self).uniform@[old(self).uniform_at as int]
            } else {
                0u64
            }) % bound,
            final(self).uniform_at == (if old(self).uniform_at < old(self).uniform@.len() {
                old(self).uniform_at + 1
            } else {
                old(self).uniform_at as int
            }),
            final(self).uniform == old(self).uniform,
            final(self).gaussian == old(self).gaussian,
            final(self).gaussian_at == old(self).gaussian_at,
            final(self).given_gaussian == old(self).given_gaussian,
            final(self).given_gaussian_len == old(self).given_gaussian_len,
            final(self).draws() == old(self).draws().push(r),
            final(self).gaussian_draws() == old(self).gaussian_draws(),
    {
        let v: u64 = if self.uniform_at < self.uniform.len() {
            let v = self.uniform[self.uniform_at];
            self.uniform_at = self.uniform_at + 1;
            v
        } else {
            0
        };
        let r = v % bound;
        self.given_uniform.push(r);
        r
    }

    /// Replay: the scripted draw at `gaussian_at` (zero once the script is
    /// exhausted, which is always in range); the cursor advances while the
    /// script lasts.
    fn gaussian_index(&mut self, len: usize, stddev_scaling_factor_bits: u64) -> (r: usize)
        ensures
            r == (if old(self).gaussian_at < old(self).gaussian@.len() {
                old(self).gaussian@[old(self).gaussian_at as int]
            } else {
                0usize
            }),
            final(self).gaussian_at == (if old(self).gaussian_at < old(self).gaussian@.len() {
                old(self).gaussian_at + 1
            } else {
                old(self).gaussian_at as int
            }),
            final(self).uniform == old(self).uniform,
            final(self).uniform_at == old(self).uniform_at,
            final(self).gaussian == old(self).gaussian,
            final(self).given_uniform == old(self).given_uniform,
            len > 0 && r >= len ==> final(self).overshoot() < old(self).overshoot(),
            final(self).gaussian_draws() == old(self).gaussian_draws().push(r),
            final(self).draws() == old(self).draws(),
    {
        let r = if self.gaussian_at < self.gaussian.len() {
            let v = self.gaussian[self.gaussian_at];
            self.gaussian_at = self.gaussian_at + 1;
            v
        } else {
            0
        };
        self.given_gaussian.push(r);
        self.given_gaussian_len.push(len);
        r
    }
}

} // verus!
