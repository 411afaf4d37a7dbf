//! Result tables handed across the consent interface: the candidates of the
//! current draw, each with its weight and its chance of having been drawn.

use vstd::prelude::*;

use crate::pool::Candidate;
use crate::pool::pool_wf;
use crate::pool::sort_by_weight_asc;
use crate::pool::stable_sorted_by_weight;
use crate::pool::total_of;
use crate::pool::total_weight;

verus! {

/// One cell of a rendered table.
#[derive(Clone, Debug, PartialEq)]
pub enum Cell {
    /// A piece of text, such as a candidate's name.
    Text(String),
    /// An unsigned figure, such as a weight.
    Unsigned(u64),
    /// A chance, kept exact as `part` out of `whole` of the summed weight.
    /// Rendered as the percentage `part / whole * 100`; the display precision
    /// is the renderer's concern.
    Ratio { part: u64, whole: u64 },
}

/// One row of a rendered table. The `chosen` flag marks the drawn candidate.
#[derive(Clone, Debug, PartialEq)]
pub struct Row {
    pub cells: Vec<Cell>,
    pub chosen: bool,
}

/// A table of candidates: a header, one row per candidate, and a footer.
#[derive(Clone, Debug, PartialEq)]
pub struct Table {
    pub header: Vec<Cell>,
    pub rows: Vec<Row>,
    pub footer: Vec<Cell>,
}

/// The row that presents candidate `c`: its name, its weight, and its chance
/// `weight / total * 100` percent, flagged when it is the drawn candidate.
pub open spec fn weighted_row_matches(
    row: Row,
    names: Seq<String>,
    c: Candidate,
    total: u64,
    chosen_index: usize,
) -> bool {
    &&& row.cells@.len() == 3
    &&& (row.cells@[0] matches Cell::Text(n) && n@ == names[c.index as int]@)
    &&& row.cells@[1] == Cell::Unsigned(c.weight)
    &&& row.cells@[2] == (Cell::Ratio { part: c.weight, whole: total })
    &&& row.chosen == (c.index == chosen_index)
}

/// The rows present exactly the candidates of `sorted`, in order.
pub open spec fn weighted_rows_match(
    rows: Seq<Row>,
    sorted: Seq<Candidate>,
    names: Seq<String>,
    total: u64,
    chosen_index: usize,
) -> bool {
    &&& rows.len() == sorted.len()
    &&& forall|i: int|
        0 <= i < rows.len() ==> weighted_row_matches(
            #[trigger] rows[i],
            names,
            sorted[i],
            total,
            chosen_index,
        )
}

/// The sum of the chance numerators displayed by a table's rows.
pub open spec fn sum_chance_parts(rows: Seq<Row>) -> int
    decreases rows.len(),
{
    if rows.len() == 0 {
        0
    } else {
        sum_chance_parts(rows.drop_last()) + (match rows.last().cells[2] {
            Cell::Ratio { part, whole } => part as int,
            _ => 0,
        })
    }
}

/// Law: the chance percentages of a weighted-model table sum to exactly 100
/// percent. Each row shows `weight / total * 100`, over the common
/// denominator `total`, so the displayed numerators sum to the weight sum of
/// the drawn-from pool: `sum(weight_i) / total * 100 == 100` whenever `total`
/// is that same weight sum.
pub proof fn lemma_chance_parts_sum_to_total(
    rows: Seq<Row>,
    sorted: Seq<Candidate>,
    names: Seq<String>,
    total: u64,
    chosen_index: usize,
)
    requires
        weighted_rows_match(rows, sorted, names, total, chosen_index),
    ensures
        sum_chance_parts(rows) == total_weight(sorted),
    decreases rows.len(),
{
    if rows.len() > 0 {
        assert(weighted_row_matches(rows[rows.len() - 1], names, sorted[rows.len() - 1], total,
            chosen_index));
        lemma_chance_parts_sum_to_total(
            rows.drop_last(),
            sorted.drop_last(),
            names,
            total,
            chosen_index,
        );
    }
}

/// Build the table of a weighted-model draw: one row per pool candidate in
/// ascending order of weight (stably, so candidates of equal weight keep
/// the pool's order), the drawn candidate flagged, and a footer with the
/// weight total and the full 100 percent.
pub fn build_weighted_table(names: &Vec<String>, pool: &Vec<Candidate>, chosen_index: usize) -> (t:
    Table)
    requires
        pool_wf(pool@, names@.len()),
        total_weight(pool@) <= u64::MAX,
    ensures
        t.header@.len() == 3,
        (t.header@[0] matches Cell::Text(n) && n@ == "Name"@),
        (t.header@[1] matches Cell::Text(n) && n@ == "Weight"@),
        (t.header@[2] matches Cell::Text(n) && n@ == "Chance"@),
        weighted_rows_match(
            t.rows@,
            stable_sorted_by_weight(pool@),
            names@,
            total_weight(pool@) as u64,
            chosen_index,
        ),
        t.footer@.len() == 3,
        (t.footer@[0] matches Cell::Text(n) && n@ == "Total"@),
        t.footer@[1] == Cell::Unsigned(total_weight(pool@) as u64),
        t.footer@[2] == (Cell::Ratio {
            part: total_weight(pool@) as u64,
            whole: total_weight(pool@) as u64,
        }),
{
    proof {
        crate::pool::lemma_total_weight_nonneg(pool@);
    }
    let total = total_of(pool);
    let sorted = sort_by_weight_asc(pool);
    let mut rows: Vec<Row> = Vec::new();
    let mut i: usize = 0;
    while i < sorted.len()
        invariant
            i <= sorted@.len(),
            rows@.len() == i,
            pool_wf(pool@, names@.len()),
            forall|k: int| 0 <= k < sorted@.len() ==> pool@.contains(#[trigger] sorted@[k]),
            forall|j: int|
                0 <= j < i ==> weighted_row_matches(
                    #[trigger] rows@[j],
                    names@,
                    sorted@[j],
                    total,
                    chosen_index,
                ),
        decreases sorted@.len() - i,
    {
        proof {
            assert(pool@.contains(sorted@[i as int]));
        }
        let c = sorted[i];
        let mut cells: Vec<Cell> = Vec::new();
        cells.push(Cell::Text(names[c.index].clone()));
        cells.push(Cell::Unsigned(c.weight));
        cells.push(Cell::Ratio { part: c.weight, whole: total });
        let chosen = c.index == chosen_index;
        rows.push(Row { cells, chosen });
        i = i + 1;
    }
    let mut header: Vec<Cell> = Vec::new();
    header.push(Cell::Text("Name".to_owned()));
    header.push(Cell::Text("Weight".to_owned()));
    header.push(Cell::Text("Chance".to_owned()));
    let mut footer: Vec<Cell> = Vec::new();
    footer.push(Cell::Text("Total".to_owned()));
    footer.push(Cell::Unsigned(total));
    footer.push(Cell::Ratio { part: total, whole: total });
    let t = Table { header, rows, footer };
    proof {
        assert(total == total_weight(pool@) as u64);
        assert(weighted_rows_match(t.rows@, stable_sorted_by_weight(pool@), names@, total_weight(
            pool@,
        ) as u64, chosen_index));
    }
    t
}

/// Build the table of one LRU scan step: the candidates not yet rejected,
/// from the scan position to the end of the list, rendered in reverse order
/// so that the least recently used candidate — the one under consideration —
/// comes last and is flagged as chosen.
pub fn build_lru_table(choices: &Vec<String>, index: usize) -> (t: Table)
    requires
        index < choices@.len(),
    ensures
        t.header@.len() == 1,
        (t.header@[0] matches Cell::Text(n) && n@ == "Name"@),
        t.footer@.len() == 0,
        t.rows@.len() == choices@.len() - index,
        forall|j: int|
            0 <= j < t.rows@.len() ==> {
                &&& (#[trigger] t.rows@[j]).cells@.len() == 1
                &&& (t.rows@[j].cells@[0] matches Cell::Text(n) && n@ == choices@[choices@.len() - 1
                    - j]@)
                &&& t.rows@[j].chosen == (j == t.rows@.len() - 1)
            },
{
    let count = choices.len() - index;
    let mut rows: Vec<Row> = Vec::new();
    let mut j: usize = 0;
    while j < count
        invariant
            j <= count,
            count == choices@.len() - index,
            index < choices@.len(),
            rows@.len() == j,
            forall|q: int|
                0 <= q < j ==> {
                    &&& (#[trigger] rows@[q]).cells@.len() == 1
                    &&& (rows@[q].cells@[0] matches Cell::Text(n) && n@ == choices@[choices@.len()
                        - 1 - q]@)
                    &&& rows@[q].chosen == (q == count - 1)
                },
        decreases count - j,
    {
        let src = choices.len() - 1 - j;
        let mut cells: Vec<Cell> = Vec::new();
        cells.push(Cell::Text(choices[src].clone()));
        let chosen = j == count - 1;
        rows.push(Row { cells, chosen });
        j = j + 1;
    }
    let mut header: Vec<Cell> = Vec::new();
    header.push(Cell::Text("Name".to_owned()));
    let footer: Vec<Cell> = Vec::new();
    Table { header, rows, footer }
}

} // verus!
