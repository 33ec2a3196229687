use vstd::prelude::*;
use crate::backend::setup::dice::{lemma_seq_sum_bound, seq_sum};

verus! {

/// `a + b`, or the largest `u32` where the sum is beyond it.
pub open spec fn sat_add(a: u32, b: u32) -> u32 {
    if a + b > u32::MAX {
        u32::MAX
    } else {
        (a + b) as u32
    }
}

/// `a - b`, or zero where `b` is the larger.
pub open spec fn sat_sub(a: u32, b: u32) -> u32 {
    if a < b {
        0
    } else {
        (a - b) as u32
    }
}

/// Whether `table` has `rows` rows of `columns` entries each.
pub open spec fn table_dims(table: Seq<Seq<u32>>, rows: int, columns: int) -> bool {
    table.len() == rows && forall|i: int| 0 <= i < table.len() ==> (#[trigger] table[i]).len() == columns
}

/// The table with `amount` added to one entry; the entry stops at the
/// largest `u32`.
pub open spec fn gained(table: Seq<Seq<u32>>, row: int, column: int, amount: u32) -> Seq<Seq<u32>> {
    table.update(row, table[row].update(column, sat_add(table[row][column], amount)))
}

/// The table with `amount` taken from one entry; the entry stops at zero.
pub open spec fn reduced(table: Seq<Seq<u32>>, row: int, column: int, amount: u32) -> Seq<Seq<u32>> {
    table.update(row, table[row].update(column, sat_sub(table[row][column], amount)))
}

/// The table with one entry replaced.
pub open spec fn with_entry(table: Seq<Seq<u32>>, row: int, column: int, value: u32) -> Seq<Seq<u32>> {
    table.update(row, table[row].update(column, value))
}

/// A budget after a cost was paid from it, resource by resource; no entry
/// goes below zero.
pub open spec fn paid(budget: Seq<u32>, cost: Seq<u32>) -> Seq<u32> {
    Seq::new(
        budget.len(),
        |r: int|
            if r < cost.len() {
                sat_sub(budget[r], cost[r])
            } else {
                budget[r]
            },
    )
}

/// Whether a budget covers a cost: it holds at least the cost of every
/// resource.
pub open spec fn covers(budget: Seq<u32>, cost: Seq<u32>) -> bool {
    forall|r: int| 0 <= r < budget.len() && r < cost.len() ==> budget[r] >= cost[r]
}

/// The position in `weights` of the item that a draw of `ticket` hits,
/// where every position holds as many items as its weight: the first
/// position at which the running sum of the weights exceeds `ticket`.
pub open spec fn weighted_pick(weights: Seq<u32>, ticket: int) -> int
    decreases weights.len(),
{
    if weights.len() == 0 {
        0
    } else if ticket >= seq_sum(weights.drop_last()) {
        weights.len() - 1
    } else {
        weighted_pick(weights.drop_last(), ticket)
    }
}

/// A ticket below the sum of the weights hits a position of positive weight,
/// with the items before it at most the ticket and the items up to it more.
pub proof fn lemma_weighted_pick(weights: Seq<u32>, ticket: int)
    requires
        0 <= ticket < seq_sum(weights),
    ensures
        0 <= weighted_pick(weights, ticket) < weights.len(),
        weights[weighted_pick(weights, ticket)] > 0,
        seq_sum(weights.take(weighted_pick(weights, ticket))) <= ticket < seq_sum(
            weights.take(weighted_pick(weights, ticket) + 1),
        ),
    decreases weights.len(),
{
    if weights.len() > 0 {
        let front = weights.drop_last();
        if ticket >= seq_sum(front) {
            assert(weights.take(weights.len() - 1) =~= front);
            assert(weights.take(weights.len() as int) =~= weights);
        } else {
            lemma_weighted_pick(front, ticket);
            let at = weighted_pick(front, ticket);
            assert(front.take(at) =~= weights.take(at));
            assert(front.take(at + 1) =~= weights.take(at + 1));
        }
    }
}

/// The sum of the numbers of `values`, or `cap` where the sum is beyond it.
pub fn capped_sum(values: &Vec<u32>, cap: u32) -> (total: u32)
    ensures
        total == if seq_sum(values@) > cap {
            cap as int
        } else {
            seq_sum(values@)
        },
{
    let mut total: u64 = 0;
    let mut i: usize = 0;
    while i < values.len()
        invariant
            i <= values.len(),
            total == if seq_sum(values@.take(i as int)) > cap {
                cap as int
            } else {
                seq_sum(values@.take(i as int))
            },
        decreases values.len() - i,
    {
        proof {
            assert(values@.take(i + 1).drop_last() =~= values@.take(i as int));
            lemma_seq_sum_bound(values@.take(i as int), u32::MAX as int);
        }
        total = total + values[i] as u64;
        if total > cap as u64 {
            total = cap as u64;
        }
        i = i + 1;
    }
    assert(values@.take(values.len() as int) =~= values@);
    total as u32
}

/// The position that a draw of `ticket` hits among items laid out by
/// `weights`.
pub fn pick_weighted(weights: &Vec<u32>, ticket: u32) -> (at: usize)
    requires
        ticket < seq_sum(weights@),
    ensures
        at == weighted_pick(weights@, ticket as int),
        at < weights.len(),
        weights[at as int] > 0,
{
    proof {
        lemma_weighted_pick(weights@, ticket as int);
    }
    let ghost goal = weighted_pick(weights@, ticket as int);
    let mut running: u64 = 0;
    let mut i: usize = 0;
    while i < weights.len()
        invariant
            i <= weights.len(),
            i <= goal < weights.len(),
            goal == weighted_pick(weights@, ticket as int),
            running == seq_sum(weights@.take(i as int)),
            running <= ticket,
            seq_sum(weights@.take(goal)) <= ticket < seq_sum(weights@.take(goal + 1)),
        decreases weights.len() - i,
    {
        proof {
            assert(weights@.take(i + 1).drop_last() =~= weights@.take(i as int));
        }
        running = running + weights[i] as u64;
        if running > ticket as u64 {
            proof {
                if i < goal {
                    lemma_take_sum_monotonic(weights@, i + 1, goal);
                }
            }
            return i;
        }
        proof {
            if i == goal {
                assert(false);
            }
        }
        i = i + 1;
    }
    proof {
        assert(false);
    }
    0
}

/// The sums of longer prefixes are no smaller.
pub proof fn lemma_take_sum_monotonic(s: Seq<u32>, a: int, b: int)
    requires
        0 <= a <= b <= s.len(),
    ensures
        seq_sum(s.take(a)) <= seq_sum(s.take(b)),
    decreases b - a,
{
    if a < b {
        lemma_take_sum_monotonic(s, a, b - 1);
        assert(s.take(b).drop_last() =~= s.take(b - 1));
    }
}

/// Adds `amount` to one entry of `table`; the entry stops at the largest
/// `u32`.
pub fn add_to(table: &mut Vec<Vec<u32>>, row: usize, column: usize, amount: u32)
    requires
        row < old(table).len(),
        column < old(table)[row as int].len(),
    ensures
        final(table).deep_view() == gained(old(table).deep_view(), row as int, column as int, amount),
{
    let ghost before = table.deep_view();
    let value = table[row][column].saturating_add(amount);
    table[row][column] = value;
    proof {
        let goal = gained(before, row as int, column as int, amount);
        assert forall|i: int| 0 <= i < goal.len() implies table.deep_view()[i] =~= goal[i] by {
            assert(before[i] == old(table)[i].deep_view());
        }
        assert(table.deep_view() =~= goal);
    }
}

/// Takes `amount` from one entry of `table`; the entry stops at zero.
pub fn take_from(table: &mut Vec<Vec<u32>>, row: usize, column: usize, amount: u32)
    requires
        row < old(table).len(),
        column < old(table)[row as int].len(),
    ensures
        final(table).deep_view() == reduced(
            old(table).deep_view(),
            row as int,
            column as int,
            amount,
        ),
{
    let ghost before = table.deep_view();
    let value = table[row][column].saturating_sub(amount);
    table[row][column] = value;
    proof {
        let goal = reduced(before, row as int, column as int, amount);
        assert forall|i: int| 0 <= i < goal.len() implies table.deep_view()[i] =~= goal[i] by {
            assert(before[i] == old(table)[i].deep_view());
        }
        assert(table.deep_view() =~= goal);
    }
}

/// Replaces one entry of `table`.
pub fn set_entry(table: &mut Vec<Vec<u32>>, row: usize, column: usize, value: u32)
    requires
        row < old(table).len(),
        column < old(table)[row as int].len(),
    ensures
        final(table).deep_view() == with_entry(
            old(table).deep_view(),
            row as int,
            column as int,
            value,
        ),
{
    let ghost before = table.deep_view();
    table[row][column] = value;
    proof {
        let goal = with_entry(before, row as int, column as int, value);
        assert forall|i: int| 0 <= i < goal.len() implies table.deep_view()[i] =~= goal[i] by {
            assert(before[i] == old(table)[i].deep_view());
        }
        assert(table.deep_view() =~= goal);
    }
}

/// Pays `cost` from row `row` of `table`, resource by resource; no entry
/// goes below zero.
pub fn pay(table: &mut Vec<Vec<u32>>, row: usize, cost: &Vec<u32>)
    requires
        row < old(table).len(),
    ensures
        final(table).deep_view() == old(table).deep_view().update(
            row as int,
            paid(old(table).deep_view()[row as int], cost@),
        ),
{
    let ghost before = table.deep_view();
    let ghost budget = before[row as int];
    assert(budget == table[row as int]@);
    let width = table[row].len();
    let mut r: usize = 0;
    while r < width
        invariant
            r <= width,
            row < table.len(),
            table.len() == before.len(),
            width == budget.len(),
            table[row as int].len() == width,
            budget == before[row as int],
            forall|i: int| 0 <= i < table.len() && i != row ==> table[i]@ == before[i],
            forall|k: int| 0 <= k < r ==> table[row as int][k] == paid(budget, cost@)[k],
            forall|k: int| r <= k < width ==> table[row as int][k] == budget[k],
        decreases width - r,
    {
        if r < cost.len() {
            let value = table[row][r].saturating_sub(cost[r]);
            table[row][r] = value;
        }
        r = r + 1;
    }
    proof {
        let goal = before.update(row as int, paid(budget, cost@));
        assert forall|i: int| 0 <= i < goal.len() implies table.deep_view()[i] =~= goal[i] by {
        }
        assert(table.deep_view() =~= goal);
    }
}

/// Whether `budget` covers `cost`.
pub fn can_afford(budget: &Vec<u32>, cost: &Vec<u32>) -> (affordable: bool)
    ensures
        affordable == covers(budget@, cost@),
{
    let mut r: usize = 0;
    while r < budget.len() && r < cost.len()
        invariant
            r <= budget.len(),
            r <= cost.len(),
            forall|k: int| 0 <= k < r ==> budget[k] >= cost[k],
        decreases budget.len() - r,
    {
        if budget[r] < cost[r] {
            return false;
        }
        r = r + 1;
    }
    true
}

/// A copy of a table of numbers.
pub fn clone_table(table: &Vec<Vec<u32>>) -> (copy: Vec<Vec<u32>>)
    ensures
        copy.deep_view() == table.deep_view(),
{
    let mut copy: Vec<Vec<u32>> = Vec::new();
    let mut i: usize = 0;
    while i < table.len()
        invariant
            i <= table.len(),
            copy.len() == i,
            forall|k: int| 0 <= k < i ==> copy[k]@ == table[k]@,
        decreases table.len() - i,
    {
        let row = table[i].clone();
        copy.push(row);
        i = i + 1;
    }
    assert(copy.deep_view() =~= table.deep_view());
    copy
}

/// A row of `columns` zeros.
pub open spec fn zero_row(columns: nat) -> Seq<u32> {
    Seq::new(columns, |j: int| 0u32)
}

/// A table of `rows` rows of `columns` zeros.
pub open spec fn zeros(rows: nat, columns: nat) -> Seq<Seq<u32>> {
    Seq::new(rows, |i: int| zero_row(columns))
}

/// A table of `rows` rows of `columns` zeros.
pub fn zero_table(rows: usize, columns: usize) -> (table: Vec<Vec<u32>>)
    ensures
        table.deep_view() == zeros(rows as nat, columns as nat),
{
    let mut table: Vec<Vec<u32>> = Vec::new();
    let mut i: usize = 0;
    while i < rows
        invariant
            i <= rows,
            table.len() == i,
            forall|k: int| 0 <= k < i ==> table[k]@ == zero_row(columns as nat),
        decreases rows - i,
    {
        let mut row: Vec<u32> = Vec::new();
        let mut j: usize = 0;
        while j < columns
            invariant
                j <= columns,
                row.len() == j,
                forall|k: int| 0 <= k < j ==> row[k] == 0,
            decreases columns - j,
        {
            row.push(0);
            j = j + 1;
        }
        assert(row@ =~= zero_row(columns as nat));
        table.push(row);
        i = i + 1;
    }
    proof {
        assert forall|k: int| 0 <= k < rows implies table.deep_view()[k] =~= zero_row(
            columns as nat,
        ) by {
            assert(table.deep_view()[k] =~= table[k]@);
        }
        assert(table.deep_view() =~= zeros(rows as nat, columns as nat));
    }
    table
}


/// Changing one entry of a table keeps its dimensions.
pub proof fn lemma_entry_keeps_dims(
    table: Seq<Seq<u32>>,
    rows: int,
    columns: int,
    row: int,
    column: int,
    amount: u32,
)
    requires
        table_dims(table, rows, columns),
        0 <= row < rows,
        0 <= column < columns,
    ensures
        table_dims(gained(table, row, column, amount), rows, columns),
        table_dims(reduced(table, row, column, amount), rows, columns),
        table_dims(with_entry(table, row, column, amount), rows, columns),
{
    assert forall|i: int| 0 <= i < rows implies (#[trigger] gained(
        table,
        row,
        column,
        amount,
    )[i]).len() == columns by {
        assert(table[i].len() == columns);
    }
    assert forall|i: int| 0 <= i < rows implies (#[trigger] reduced(
        table,
        row,
        column,
        amount,
    )[i]).len() == columns by {
        assert(table[i].len() == columns);
    }
    assert forall|i: int| 0 <= i < rows implies (#[trigger] with_entry(
        table,
        row,
        column,
        amount,
    )[i]).len() == columns by {
        assert(table[i].len() == columns);
    }
}

/// Paying from one row of a table keeps its dimensions.
pub proof fn lemma_paid_keeps_dims(
    table: Seq<Seq<u32>>,
    rows: int,
    columns: int,
    row: int,
    cost: Seq<u32>,
)
    requires
        table_dims(table, rows, columns),
        0 <= row < rows,
    ensures
        table_dims(table.update(row, paid(table[row], cost)), rows, columns),
{
    let after = table.update(row, paid(table[row], cost));
    assert forall|i: int| 0 <= i < rows implies (#[trigger] after[i]).len() == columns by {
        assert(table[i].len() == columns);
    }
}

} // verus!
