use vstd::prelude::*;
use rand::Rng;
use crate::ground_cells::BY;

verus! {

/// No rescue is spawned while this many wait on the ground or in the air.
pub const RESCUE_LIMIT: usize = 10;

/// Points for picking up a rescue that has landed.
pub const LANDED_POINTS: i32 = 1;

/// Points for picking up a rescue still in the air.
pub const AIRBORNE_POINTS: i32 = 11;

/// A number drawn by `rand::Rng::gen_range(0, high)` from the thread's
/// generator: some number below `high`, which rand's documentation and
/// source promise (it panics only when `high` is 0, which the `requires`
/// rules out).  Which number comes out is left open.
#[verifier::external_body]
fn random_below(high: usize) -> (r: usize)
    requires
        0 < high,
    ensures
        r < high,
{
    rand::thread_rng().gen_range(0, high)
}

/// Where a new rescue comes down: when none is on its way down and fewer
/// than `RESCUE_LIMIT` wait, a landscape cell `(column, row)` drawn at
/// random; otherwise none.
pub fn rescue_spawn_cell(landing: usize, total: usize) -> (cell: Option<(usize, usize)>)
    ensures
        cell is Some <==> (landing == 0 && total < RESCUE_LIMIT),
        cell matches Some((x, z)) ==> x < BY && z < BY,
{
    if landing == 0 && total < RESCUE_LIMIT {
        let xx = random_below(BY);
        let yy = random_below(BY);
        Some((xx, yy))
    } else {
        None
    }
}

/// A rescue as the player passes: whether the player is close enough to
/// pick it up, whether it has landed, and whether its time ran out.
pub struct RescueContact {
    pub within_reach: bool,
    pub landed: bool,
    pub expired: bool,
}

/// The points for picking up a rescue.
pub open spec fn pickup_points(c: RescueContact) -> int {
    if c.within_reach {
        if c.landed { LANDED_POINTS as int } else { AIRBORNE_POINTS as int }
    } else {
        0
    }
}

/// Rescues picked up among `contacts`.
pub open spec fn picked_up(contacts: Seq<RescueContact>) -> int
    decreases contacts.len(),
{
    if contacts.len() == 0 {
        0
    } else {
        picked_up(contacts.drop_last()) + if contacts.last().within_reach { 1int } else { 0int }
    }
}

/// Points scored for `contacts`.
pub open spec fn points(contacts: Seq<RescueContact>) -> int
    decreases contacts.len(),
{
    if contacts.len() == 0 {
        0
    } else {
        points(contacts.drop_last()) + pickup_points(contacts.last())
    }
}

/// Whether a rescue stays in the world: it was not picked up and its time
/// has not run out.
pub open spec fn stays(c: RescueContact) -> bool {
    !c.within_reach && !c.expired
}

proof fn lemma_tally_bounds(contacts: Seq<RescueContact>)
    ensures
        0 <= picked_up(contacts) <= contacts.len(),
        0 <= points(contacts) <= AIRBORNE_POINTS * contacts.len(),
    decreases contacts.len(),
{
    if contacts.len() > 0 {
        lemma_tally_bounds(contacts.drop_last());
    }
}

/// Counts the rescues picked up and the points they score (one for a
/// landed rescue, eleven for one caught in the air), and tells which stay.
pub fn tally_rescues(contacts: &Vec<RescueContact>) -> (tally: (i32, i32, Vec<bool>))
    requires
        contacts@.len() * AIRBORNE_POINTS <= i32::MAX,
    ensures
        tally.0 == picked_up(contacts@),
        tally.1 == points(contacts@),
        tally.2@.len() == contacts@.len(),
        forall|i: int| 0 <= i < contacts@.len() ==> #[trigger] tally.2@[i] == stays(contacts@[i]),
        forall|i: int|
            0 <= i < contacts@.len() ==> (#[trigger] tally.2@[i] <==> (!contacts@[i].within_reach
                && !contacts@[i].expired)),
        tally.0 == contacts@.filter(|c: RescueContact| c.within_reach).len(),
        tally.1 == contacts@.filter(|c: RescueContact| c.within_reach && c.landed).len() + 11
            * contacts@.filter(|c: RescueContact| c.within_reach && !c.landed).len(),
{
    proof {
        law_tally_counts(contacts@);
    }
    let mut rescued: i32 = 0;
    let mut score: i32 = 0;
    let mut keep: Vec<bool> = Vec::new();
    let mut i: usize = 0;
    while i < contacts.len()
        invariant
            i <= contacts@.len(),
            contacts@.len() * AIRBORNE_POINTS <= i32::MAX,
            rescued == picked_up(contacts@.take(i as int)),
            score == points(contacts@.take(i as int)),
            keep@.len() == i,
            forall|k: int| 0 <= k < i ==> #[trigger] keep@[k] == stays(contacts@[k]),
        decreases contacts@.len() - i,
    {
        let c = &contacts[i];
        proof {
            assert(contacts@.take(i + 1).drop_last() =~= contacts@.take(i as int));
            lemma_tally_bounds(contacts@.take(i as int));
        }
        if c.within_reach {
            rescued += 1;
            score += LANDED_POINTS;
            if c.landed == false {
                score += AIRBORNE_POINTS - LANDED_POINTS;
            }
        }
        keep.push(!c.within_reach && !c.expired);
        i += 1;
    }
    assert(contacts@.take(contacts@.len() as int) =~= contacts@);
    (rescued, score, keep)
}

} // verus!

verus! {

/// Every rescue picked up scores at least the landed points and at most the
/// airborne points, so the score lies between the two bounds.
pub proof fn law_points_per_rescue(contacts: Seq<RescueContact>)
    ensures
        LANDED_POINTS * picked_up(contacts) <= points(contacts) <= AIRBORNE_POINTS * picked_up(
            contacts,
        ),
        picked_up(contacts) == 0 ==> points(contacts) == 0,
    decreases contacts.len(),
{
    if contacts.len() > 0 {
        law_points_per_rescue(contacts.drop_last());
    }
}

} // verus!

verus! {

/// The sum of `counts`.
pub open spec fn row_sum(counts: Seq<usize>) -> int
    decreases counts.len(),
{
    if counts.len() == 0 {
        0
    } else {
        row_sum(counts.drop_last()) + counts.last()
    }
}

/// The sum of all the counts of `rows`.
pub open spec fn grid_sum(rows: Seq<Vec<usize>>) -> int
    decreases rows.len(),
{
    if rows.len() == 0 {
        0
    } else {
        grid_sum(rows.drop_last()) + row_sum(rows.last()@)
    }
}

proof fn lemma_row_sum_prefix(counts: Seq<usize>, i: int)
    requires
        0 <= i <= counts.len(),
    ensures
        0 <= row_sum(counts.take(i)) <= row_sum(counts),
    decreases counts.len(),
{
    if i < counts.len() {
        lemma_row_sum_prefix(counts.drop_last(), i);
        assert(counts.drop_last().take(i) =~= counts.take(i));
    } else {
        assert(counts.take(i) =~= counts);
        if counts.len() > 0 {
            lemma_row_sum_prefix(counts.drop_last(), i - 1);
            assert(counts.drop_last().take(i - 1) =~= counts.drop_last());
        }
    }
}

proof fn lemma_grid_sum_prefix(rows: Seq<Vec<usize>>, i: int)
    requires
        0 <= i <= rows.len(),
    ensures
        0 <= grid_sum(rows.take(i)) <= grid_sum(rows),
    decreases rows.len(),
{
    if i < rows.len() {
        lemma_grid_sum_prefix(rows.drop_last(), i);
        assert(rows.drop_last().take(i) =~= rows.take(i));
        lemma_row_sum_prefix(rows.last()@, 0);
    } else {
        assert(rows.take(i) =~= rows);
        if rows.len() > 0 {
            lemma_grid_sum_prefix(rows.drop_last(), i - 1);
            assert(rows.drop_last().take(i - 1) =~= rows.drop_last());
            lemma_row_sum_prefix(rows.last()@, 0);
        }
    }
}

/// The rescues waiting over the whole ground: the counts of the `BY` by
/// `BY` landscape cells, row by row, added up.
pub fn total_to_rescue(counts: &Vec<Vec<usize>>) -> (total: usize)
    requires
        counts@.len() == BY,
        forall|r: int| 0 <= r < BY ==> (#[trigger] counts@[r])@.len() == BY,
        grid_sum(counts@) <= usize::MAX,
    ensures
        total == grid_sum(counts@),
        total == counts@[0]@[0] + counts@[0]@[1] + counts@[0]@[2] + counts@[1]@[0] + counts@[1]@[1]
            + counts@[1]@[2] + counts@[2]@[0] + counts@[2]@[1] + counts@[2]@[2],
{
    proof {
        law_grid_of_three(counts@);
    }
    let mut total: usize = 0;
    let mut yy: usize = 0;
    while yy < BY
        invariant
            yy <= BY,
            counts@.len() == BY,
            forall|r: int| 0 <= r < BY ==> (#[trigger] counts@[r])@.len() == BY,
            grid_sum(counts@) <= usize::MAX,
            total == grid_sum(counts@.take(yy as int)),
        decreases BY - yy,
    {
        let row = &counts[yy];
        let ghost before = total as int;
        proof {
            assert(counts@.take(yy + 1).drop_last() =~= counts@.take(yy as int));
            lemma_grid_sum_prefix(counts@, yy + 1);
        }
        let mut xx: usize = 0;
        while xx < BY
            invariant
                xx <= BY,
                row@.len() == BY,
                before + row_sum(row@) <= usize::MAX,
                total == before + row_sum(row@.take(xx as int)),
            decreases BY - xx,
        {
            proof {
                assert(row@.take(xx + 1).drop_last() =~= row@.take(xx as int));
                lemma_row_sum_prefix(row@, xx + 1);
                lemma_row_sum_prefix(row@, xx as int);
            }
            total += row[xx];
            xx += 1;
        }
        assert(row@.take(BY as int) =~= row@);
        yy += 1;
    }
    assert(counts@.take(BY as int) =~= counts@);
    total
}

} // verus!

verus! {

/// The number of rescues still coming down, given whether each has landed.
pub open spec fn falling(landed: Seq<bool>) -> int
    decreases landed.len(),
{
    if landed.len() == 0 {
        0
    } else {
        falling(landed.drop_last()) + if landed.last() { 0int } else { 1int }
    }
}

proof fn lemma_falling_bound(landed: Seq<bool>)
    ensures
        0 <= falling(landed) <= landed.len(),
    decreases landed.len(),
{
    if landed.len() > 0 {
        lemma_falling_bound(landed.drop_last());
    }
}

/// Counts the rescues still coming down among those shown, given whether
/// each has landed: the `landing` that `rescue_spawn_cell` takes.
pub fn count_landing(landed: &Vec<bool>) -> (landing: usize)
    ensures
        landing == falling(landed@),
        landing == landed@.filter(|l: bool| !l).len(),
{
    proof {
        law_falling_counts_unlanded(landed@);
    }
    let mut landing: usize = 0;
    let mut i: usize = 0;
    while i < landed.len()
        invariant
            i <= landed@.len(),
            landing == falling(landed@.take(i as int)),
        decreases landed@.len() - i,
    {
        proof {
            assert(landed@.take(i + 1).drop_last() =~= landed@.take(i as int));
            lemma_falling_bound(landed@.take(i as int));
        }
        if !landed[i] {
            landing = landing + 1;
        }
        i += 1;
    }
    assert(landed@.take(landed@.len() as int) =~= landed@);
    landing
}

} // verus!

verus! {

/// A rescue stays in the world exactly when it was not picked up and its
/// time has not run out, whether or not it has landed; picking one up
/// scores 1 point when it has landed and 11 when it is still in the air.
pub proof fn law_rescue_rules(c: RescueContact)
    ensures
        stays(c) <==> (!c.within_reach && !c.expired),
        c.within_reach && c.landed ==> pickup_points(c) == 1,
        c.within_reach && !c.landed ==> pickup_points(c) == 11,
        !c.within_reach ==> pickup_points(c) == 0,
{
}

/// The tally counts every rescue within reach, and scores 1 point for each
/// landed one and 11 for each caught in the air.
pub proof fn law_tally_counts(contacts: Seq<RescueContact>)
    ensures
        picked_up(contacts) == contacts.filter(|c: RescueContact| c.within_reach).len(),
        points(contacts) == contacts.filter(|c: RescueContact| c.within_reach && c.landed).len()
            + 11 * contacts.filter(|c: RescueContact| c.within_reach && !c.landed).len(),
    decreases contacts.len(),
{
    reveal(Seq::filter);
    if contacts.len() > 0 {
        law_tally_counts(contacts.drop_last());
        law_rescue_rules(contacts.last());
    }
}

/// The count of rescues coming down is the number of those not landed.
pub proof fn law_falling_counts_unlanded(landed: Seq<bool>)
    ensures
        falling(landed) == landed.filter(|l: bool| !l).len(),
    decreases landed.len(),
{
    reveal(Seq::filter);
    if landed.len() > 0 {
        law_falling_counts_unlanded(landed.drop_last());
    }
}

/// Adding a row adds its counts, and adding a count adds it: every cell
/// counts alike.
pub proof fn law_sums_add_up(rows: Seq<Vec<usize>>, row: Vec<usize>, counts: Seq<usize>, n: usize)
    ensures
        grid_sum(rows.push(row)) == grid_sum(rows) + row_sum(row@),
        row_sum(counts.push(n)) == row_sum(counts) + n,
        grid_sum(Seq::<Vec<usize>>::empty()) == 0,
        row_sum(Seq::<usize>::empty()) == 0,
{
    assert(rows.push(row).drop_last() =~= rows);
    assert(counts.push(n).drop_last() =~= counts);
}

/// On a ground of three by three cells, the total is the sum of the nine
/// counts.
pub proof fn law_grid_of_three(rows: Seq<Vec<usize>>)
    requires
        rows.len() == 3,
        forall|r: int| 0 <= r < 3 ==> (#[trigger] rows[r])@.len() == 3,
    ensures
        grid_sum(rows) == rows[0]@[0] + rows[0]@[1] + rows[0]@[2] + rows[1]@[0] + rows[1]@[1]
            + rows[1]@[2] + rows[2]@[0] + rows[2]@[1] + rows[2]@[2],
{
    assert forall|r: int| 0 <= r < 3 implies row_sum(#[trigger] rows[r]@) == rows[r]@[0]
        + rows[r]@[1] + rows[r]@[2] by {
        let c = rows[r]@;
        assert(c.drop_last().drop_last().drop_last() =~= Seq::<usize>::empty());
        reveal_with_fuel(row_sum, 4);
    }
    assert(rows.drop_last().drop_last().drop_last() =~= Seq::<Vec<usize>>::empty());
    reveal_with_fuel(grid_sum, 4);
}

} // verus!

verus! {

/// The numbers the game plays by.
pub proof fn law_game_constants()
    ensures
        BY == 3,
        RESCUE_LIMIT == 10,
        LANDED_POINTS == 1,
        AIRBORNE_POINTS == 11,
        crate::high_score_table::TABLE_SIZE == 10,
        crate::lander::START_LIVES == 3,
        crate::lander::CRASH_FRAMES == 160,
        crate::lander::wreck_after(true, 160, 160) == (true, 0int),
        crate::lander::wreck_after(true, 160, 161) == (false, 0int),
{
    crate::lander::law_wreck_lasts(160);
    crate::lander::law_wreck_lasts(161);
}

} // verus!
