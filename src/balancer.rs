use crate::player::{
    imbalance, is_valid_team, keeps_teams, lemma_accepted_swap, lemma_keeps_fit,
    lemma_keeps_trans, lemma_no_gain_same, lemma_no_improving_same, lemma_same_teams,
    lemma_swap_back, lemma_trial, measure_imbalance, no_gain_at, no_improving_trade, same_teams,
    swap_members, teams_fit, Player,
};
use vstd::prelude::*;

verus! {

/// Most balancing rounds that one call of `rebalance_teams` makes.
pub const BALANCE_ROUNDS: usize = 10;

/// One balancing round. The imbalance is measured once, at the start of the
/// round, as `round_baseline_imbalance`; every trade of two members between
/// two teams (pairs of teams, then pairs of members, all in index order) is
/// tried, and kept when both teams stay valid and the imbalance falls below
/// that fixed baseline, not below the running one. Returns whether any trade
/// was kept.
fn balance_round(teams: &mut Vec<Vec<Player>>) -> (improved: bool)
    requires
        teams_fit(old(teams)@),
    ensures
        keeps_teams(old(teams)@, final(teams)@),
        teams_fit(final(teams)@),
        improved ==> imbalance(final(teams)@) < imbalance(old(teams)@),
        !improved ==> same_teams(final(teams)@, old(teams)@),
        !improved ==> no_improving_trade(final(teams)@),
{
    let ghost start = teams@;
    proof {
        lemma_same_teams(start, start);
    }
    let round_baseline_imbalance = measure_imbalance(teams.as_slice());
    let mut improved = false;
    let mut i: usize = 0;
    while i < teams.len()
        invariant
            start == old(teams)@,
            teams_fit(start),
            keeps_teams(start, teams@),
            round_baseline_imbalance == imbalance(start),
            improved ==> imbalance(teams@) < round_baseline_imbalance,
            !improved ==> same_teams(teams@, start),
            !improved ==> forall|i2: int, j2: int, a2: int, b2: int|
                0 <= i2 < j2 < start.len() && 0 <= a2 < start[i2]@.len() && 0 <= b2 < start[j2]@.len()
                    && (i2 < i) ==> #[trigger] no_gain_at(
                    start, round_baseline_imbalance as int, i2, a2, j2, b2),
        decreases start.len() - i,
    {
        let mut j: usize = i + 1;
        while j < teams.len()
            invariant
                start == old(teams)@,
                teams_fit(start),
                i < start.len(),
                i < j,
                keeps_teams(start, teams@),
                round_baseline_imbalance == imbalance(start),
                improved ==> imbalance(teams@) < round_baseline_imbalance,
                !improved ==> same_teams(teams@, start),
                !improved ==> forall|i2: int, j2: int, a2: int, b2: int|
                    0 <= i2 < j2 < start.len() && 0 <= a2 < start[i2]@.len() && 0 <= b2 < start[j2]@.len()
                        && (i2 < i || (i2 == i && j2 < j)) ==> #[trigger] no_gain_at(
                        start, round_baseline_imbalance as int, i2, a2, j2, b2),
            decreases start.len() - j,
        {
            let mut a: usize = 0;
            while a < teams[i].len()
                invariant
                    start == old(teams)@,
                    teams_fit(start),
                    i < j < start.len(),
                    keeps_teams(start, teams@),
                    round_baseline_imbalance == imbalance(start),
                    improved ==> imbalance(teams@) < round_baseline_imbalance,
                    !improved ==> same_teams(teams@, start),
                    !improved ==> forall|i2: int, j2: int, a2: int, b2: int|
                        0 <= i2 < j2 < start.len() && 0 <= a2 < start[i2]@.len() && 0 <= b2 < start[j2]@.len()
                            && (i2 < i || (i2 == i && j2 < j) || (i2 == i && j2 == j && a2 < a)) ==> #[trigger] no_gain_at(
                            start, round_baseline_imbalance as int, i2, a2, j2, b2),
                decreases start[i as int]@.len() - a,
            {
                let mut b: usize = 0;
                while b < teams[j].len()
                    invariant
                        start == old(teams)@,
                        teams_fit(start),
                        i < j < start.len(),
                        a < start[i as int]@.len(),
                        keeps_teams(start, teams@),
                        round_baseline_imbalance == imbalance(start),
                        improved ==> imbalance(teams@) < round_baseline_imbalance,
                        !improved ==> same_teams(teams@, start),
                        !improved ==> forall|i2: int, j2: int, a2: int, b2: int|
                            0 <= i2 < j2 < start.len() && 0 <= a2 < start[i2]@.len() && 0 <= b2 < start[j2]@.len()
                                && (i2 < i || (i2 == i && j2 < j) || (i2 == i && j2 == j && a2 < a) || (i2 == i && j2 == j && a2 == a && b2 < b)) ==> #[trigger] no_gain_at(
                                start, round_baseline_imbalance as int, i2, a2, j2, b2),
                    decreases start[j as int]@.len() - b,
                {
                    let ghost before = teams@;
                    swap_members(teams, i, a, j, b);
                    let mut keep = false;
                    if is_valid_team(teams[i].as_slice()) && is_valid_team(teams[j].as_slice()) {
                        proof {
                            lemma_accepted_swap(
                                start,
                                before,
                                teams@,
                                i as int,
                                a as int,
                                j as int,
                                b as int,
                            );
                            lemma_keeps_fit(start, teams@);
                        }
                        let new_imbalance = measure_imbalance(teams.as_slice());
                        if new_imbalance < round_baseline_imbalance {
                            keep = true;
                        }
                    }
                    if keep {
                        improved = true;
                    } else {
                        let ghost tried = teams@;
                        swap_members(teams, i, a, j, b);
                        proof {
                            lemma_swap_back(
                                before,
                                tried,
                                teams@,
                                i as int,
                                a as int,
                                j as int,
                                b as int,
                            );
                            lemma_same_teams(teams@, before);
                            lemma_keeps_trans(start, before, teams@);
                            lemma_trial(
                                before,
                                tried,
                                round_baseline_imbalance as int,
                                i as int,
                                a as int,
                                j as int,
                                b as int,
                            );
                            if !improved {
                                lemma_same_teams(before, start);
                                assert(same_teams(start, before));
                                lemma_no_gain_same(
                                    start,
                                    before,
                                    round_baseline_imbalance as int,
                                    i as int,
                                    a as int,
                                    j as int,
                                    b as int,
                                );
                            }
                        }
                    }
                    b = b + 1;
                }
                a = a + 1;
            }
            j = j + 1;
        }
        i = i + 1;
    }
    proof {
        lemma_keeps_fit(start, teams@);
        if !improved {
            assert(no_improving_trade(start));
            lemma_no_improving_same(teams@, start);
        }
    }
    improved
}

/// Evens out the team sums by trading members between teams, round after
/// round, for at most `BALANCE_ROUNDS` rounds, stopping after a round that
/// keeps no trade. Teams keep their positions, sizes and players; a valid
/// team stays valid and a changed team is valid. The teams are unchanged
/// unless the imbalance fell, and the result either has no improving trade
/// left or is `BALANCE_ROUNDS` below the starting imbalance.
pub fn rebalance_teams(teams: &mut Vec<Vec<Player>>)
    requires
        teams_fit(old(teams)@),
    ensures
        keeps_teams(old(teams)@, final(teams)@),
        teams_fit(final(teams)@),
        imbalance(final(teams)@) <= imbalance(old(teams)@),
        same_teams(final(teams)@, old(teams)@) || imbalance(final(teams)@) < imbalance(
            old(teams)@,
        ),
        imbalance(final(teams)@) + BALANCE_ROUNDS <= imbalance(old(teams)@) || no_improving_trade(
            final(teams)@,
        ),
{
    let ghost start = teams@;
    proof {
        lemma_same_teams(start, start);
    }
    let mut round: usize = 0;
    let mut go = true;
    while go && round < BALANCE_ROUNDS
        invariant
            round <= BALANCE_ROUNDS,
            keeps_teams(start, teams@),
            teams_fit(teams@),
            imbalance(teams@) + round <= imbalance(start),
            round == 0 ==> same_teams(teams@, start),
            !go ==> no_improving_trade(teams@),
        decreases BALANCE_ROUNDS - round + if go {
            1int
        } else {
            0int
        },
    {
        let ghost before = teams@;
        let improved = balance_round(teams);
        proof {
            lemma_keeps_trans(start, before, teams@);
            if !improved {
                lemma_same_teams(teams@, before);
            }
        }
        if improved {
            round = round + 1;
        } else {
            go = false;
        }
    }
}

} // verus!
