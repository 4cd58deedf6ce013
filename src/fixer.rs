use crate::player::{
    all_tier1_exclusive, all_valid, count_invalid, lemma_all_valid_count, lemma_count_invalid_keeps, is_valid_team, keeps_teams,
    lemma_accepted_swap, lemma_count_invalid_drops, lemma_fix_trial, lemma_no_fix_same,
    lemma_no_repairing_same, lemma_same_teams, lemma_swap_back, no_fix_at, no_repairing_trade, pool, same_teams, shuffle,
    swap_members, team_bags, team_fits, team_sizes, lemma_keeps_sizes, teams_fit, tier1_exclusive, valid_team, Player,
};
use rand::rngs::StdRng;
use vstd::prelude::*;

verus! {

/// Looks for a trade that makes the invalid team `i` valid without making the
/// other team invalid: other teams in order, then pairs of members in index
/// order. The first such trade is kept and `true` returned; otherwise every
/// trial is undone and `false` returned.
fn try_fix_team(teams: &mut Vec<Vec<Player>>, i: usize) -> (found: bool)
    requires
        i < old(teams)@.len(),
    ensures
        keeps_teams(old(teams)@, final(teams)@),
        found ==> valid_team(final(teams)@[i as int]@),
        found ==> old(teams)@.len() >= 2,
        !found ==> same_teams(final(teams)@, old(teams)@),
        !found ==> forall|j: int, a: int, b: int|
            0 <= j < old(teams)@.len() && j != i && 0 <= a < old(teams)@[i as int]@.len() && 0 <= b
                < old(teams)@[j]@.len() ==> #[trigger] no_fix_at(old(teams)@, i as int, a, j, b),
{
    let ghost start = teams@;
    proof {
        lemma_same_teams(start, start);
    }
    let mut j: usize = 0;
    while j < teams.len()
        invariant
            i < start.len(),
            same_teams(teams@, start),
            start == old(teams)@,
            forall|j2: int, a2: int, b2: int|
                0 <= j2 < start.len() && j2 != i && 0 <= a2 < start[i as int]@.len() && 0 <= b2 < start[j2]@.len()
                    && (j2 < j) ==> #[trigger] no_fix_at(start, i as int, a2, j2, b2),
        decreases start.len() - j,
    {
        if j != i {
            let mut a: usize = 0;
            while a < teams[i].len()
                invariant
                    i < start.len(),
                    j < start.len(),
                    i != j,
                    same_teams(teams@, start),
                    start == old(teams)@,
                    forall|j2: int, a2: int, b2: int|
                        0 <= j2 < start.len() && j2 != i && 0 <= a2 < start[i as int]@.len() && 0 <= b2 < start[j2]@.len()
                            && (j2 < j || (j2 == j && a2 < a)) ==> #[trigger] no_fix_at(start, i as int, a2, j2, b2),
                decreases start[i as int]@.len() - a,
            {
                let mut b: usize = 0;
                while b < teams[j].len()
                    invariant
                        i < start.len(),
                        j < start.len(),
                        i != j,
                        a < start[i as int]@.len(),
                        same_teams(teams@, start),
                        start == old(teams)@,
                        forall|j2: int, a2: int, b2: int|
                            0 <= j2 < start.len() && j2 != i && 0 <= a2 < start[i as int]@.len() && 0 <= b2 < start[j2]@.len()
                                && (j2 < j || (j2 == j && a2 < a) || (j2 == j && a2 == a && b2 < b)) ==> #[trigger] no_fix_at(start, i as int, a2, j2, b2),
                    decreases start[j as int]@.len() - b,
                {
                    let ghost before = teams@;
                    swap_members(teams, i, a, j, b);
                    if is_valid_team(teams[i].as_slice()) && is_valid_team(teams[j].as_slice()) {
                        proof {
                            lemma_same_teams(before, start);
                            lemma_accepted_swap(
                                start,
                                before,
                                teams@,
                                i as int,
                                a as int,
                                j as int,
                                b as int,
                            );
                        }
                        return true;
                    }
                    let ghost tried = teams@;
                    swap_members(teams, i, a, j, b);
                    proof {
                        lemma_swap_back(before, tried, teams@, i as int, a as int, j as int, b as int);
                        lemma_fix_trial(before, tried, i as int, a as int, j as int, b as int);
                        lemma_same_teams(before, start);
                        assert(same_teams(start, before));
                        lemma_no_fix_same(start, before, i as int, a as int, j as int, b as int);
                    }
                    b = b + 1;
                }
                a = a + 1;
            }
        }
        j = j + 1;
    }
    proof {
        lemma_same_teams(teams@, start);
    }
    false
}

/// One repair pass: every team that is invalid at its turn gets a first-fit
/// trade if one exists. Returns whether any team was fixed; if none was, the
/// teams are as they were.
fn repair_pass(teams: &mut Vec<Vec<Player>>) -> (fixed_any: bool)
    ensures
        keeps_teams(old(teams)@, final(teams)@),
        !fixed_any ==> same_teams(final(teams)@, old(teams)@),
        all_valid(old(teams)@) ==> !fixed_any,
        old(teams)@.len() <= 1 ==> !fixed_any,
        !fixed_any ==> no_repairing_trade(final(teams)@),
        fixed_any ==> count_invalid(final(teams)@) < count_invalid(old(teams)@),
{
    let ghost start = teams@;
    proof {
        lemma_same_teams(start, start);
    }
    let mut fixed_any = false;
    let mut i: usize = 0;
    while i < teams.len()
        invariant
            keeps_teams(start, teams@),
            !fixed_any ==> same_teams(teams@, start),
            all_valid(start) ==> !fixed_any,
            start.len() <= 1 ==> !fixed_any,
            !fixed_any ==> forall|i2: int, j2: int, a2: int, b2: int|
                0 <= i2 < i && 0 <= j2 < start.len() && i2 != j2 && !valid_team(start[i2]@) && 0
                    <= a2 < start[i2]@.len() && 0 <= b2 < start[j2]@.len() ==> #[trigger] no_fix_at(
                    start,
                    i2,
                    a2,
                    j2,
                    b2,
                ),
            fixed_any ==> exists|w: int|
                0 <= w < start.len() && !valid_team(start[w]@) && valid_team(#[trigger] teams@[w]@),
        decreases start.len() - i,
    {
        if !is_valid_team(teams[i].as_slice()) {
            let ghost before = teams@;
            let found = try_fix_team(teams, i);
            proof {
                if !found {
                    lemma_same_teams(teams@, before);
                    if !fixed_any {
                        lemma_same_teams(before, start);
                        assert(same_teams(start, before));
                        assert forall|j2: int, a2: int, b2: int|
                            0 <= j2 < start.len() && j2 != i && 0 <= a2 < start[i as int]@.len() && 0
                                <= b2 < start[j2]@.len() implies #[trigger] no_fix_at(
                            start,
                            i as int,
                            a2,
                            j2,
                            b2,
                        ) by {
                            assert(no_fix_at(before, i as int, a2, j2, b2));
                            lemma_no_fix_same(start, before, i as int, a2, j2, b2);
                        }
                    }
                }
                if fixed_any {
                    let w = choose|w: int|
                        0 <= w < start.len() && !valid_team(start[w]@) && valid_team(
                            #[trigger] before[w]@,
                        );
                    assert(valid_team(teams@[w]@));
                } else if found {
                    assert(before[i as int]@ == start[i as int]@);
                    assert(valid_team(teams@[i as int]@));
                }
            }
            if found {
                fixed_any = true;
            }
        }
        i = i + 1;
    }
    proof {
        if !fixed_any {
            assert(no_repairing_trade(start));
            lemma_no_repairing_same(teams@, start);
        } else {
            let w = choose|w: int|
                0 <= w < start.len() && !valid_team(start[w]@) && valid_team(#[trigger] teams@[w]@);
            lemma_count_invalid_drops(start, teams@, w);
        }
    }
    fixed_any
}

/// Counts the invalid teams.
pub(crate) fn invalid_count(teams: &Vec<Vec<Player>>) -> (n: usize)
    ensures
        n == count_invalid(teams@),
{
    let mut n: usize = 0;
    let mut i: usize = 0;
    while i < teams.len()
        invariant
            i <= teams@.len(),
            n == count_invalid(teams@.subrange(0, i as int)),
            n <= i,
        decreases teams@.len() - i,
    {
        assert(teams@.subrange(0, i + 1).drop_last() =~= teams@.subrange(0, i as int));
        if !is_valid_team(teams[i].as_slice()) {
            n = n + 1;
        }
        i = i + 1;
    }
    assert(teams@.subrange(0, i as int) =~= teams@);
    n
}

/// Repairs invalid teams by trading members between teams, for at most
/// `max_passes` passes, stopping after a pass that fixes nothing. With
/// `use_rng`, each pass first shuffles the order of the teams and of their
/// members. Returns the number of teams still invalid at the end; they are
/// left in place for the later stages. Without shuffling, a team changes only
/// by a trade that leaves it valid, so the number of invalid teams never grows,
/// and a lone team comes back as it was. Teams that are all valid come back
/// as the same teams, reordered at most. A pass that fixes nothing ends the
/// repair with no single trade left that would repair an invalid team.
pub fn fix_invalid_teams(
    teams: &mut Vec<Vec<Player>>,
    rng: &mut StdRng,
    max_passes: usize,
    use_rng: bool,
) -> (invalid: usize)
    ensures
        final(teams)@.len() == old(teams)@.len(),
        pool(final(teams)@) == pool(old(teams)@),
        invalid == count_invalid(final(teams)@),
        all_tier1_exclusive(old(teams)@) ==> all_tier1_exclusive(final(teams)@),
        teams_fit(old(teams)@) ==> teams_fit(final(teams)@),
        all_valid(old(teams)@) ==> invalid == 0,
        all_valid(old(teams)@) && !use_rng ==> same_teams(final(teams)@, old(teams)@),
        !use_rng ==> keeps_teams(old(teams)@, final(teams)@),
        !use_rng ==> invalid <= count_invalid(old(teams)@),
        max_passes == 0 ==> same_teams(final(teams)@, old(teams)@),
        all_valid(old(teams)@) ==> team_bags(final(teams)@) == team_bags(old(teams)@),
        team_sizes(final(teams)@) == team_sizes(old(teams)@),
        !use_rng && old(teams)@.len() <= 1 ==> same_teams(final(teams)@, old(teams)@),
        !use_rng ==> no_repairing_trade(final(teams)@) || invalid + max_passes <= count_invalid(
            old(teams)@,
        ),
{
    let ghost start = teams@;
    proof {
        lemma_same_teams(start, start);
    }
    let mut pass: usize = 0;
    let mut go = true;
    while go && pass < max_passes
        invariant
            pass <= max_passes,
            !use_rng ==> count_invalid(teams@) + pass <= count_invalid(start),
            !go ==> no_repairing_trade(teams@),
            teams@.len() == start.len(),
            pool(teams@) == pool(start),
            all_tier1_exclusive(start) ==> all_tier1_exclusive(teams@),
            teams_fit(start) ==> teams_fit(teams@),
            all_valid(start) ==> all_valid(teams@),
            all_valid(start) && !use_rng ==> same_teams(teams@, start),
            !use_rng ==> keeps_teams(start, teams@),
            max_passes == 0 ==> same_teams(teams@, start),
            all_valid(start) ==> team_bags(teams@) == team_bags(start),
            team_sizes(teams@) == team_sizes(start),
            !use_rng && start.len() <= 1 ==> same_teams(teams@, start),
        decreases max_passes - pass + if go {
            1int
        } else {
            0int
        },
    {
        if use_rng {
            shuffle(teams, rng);
        }
        let ghost before = teams@;
        let fixed_any = repair_pass(teams);
        proof {
            let t = teams@;
            assert forall|k: int| 0 <= k < t.len() implies {
                &&& all_tier1_exclusive(before) ==> tier1_exclusive(#[trigger] t[k]@)
                &&& teams_fit(before) ==> team_fits(t[k]@)
                &&& all_valid(before) ==> valid_team(t[k]@)
            } by {}
            if !fixed_any {
                lemma_same_teams(t, before);
            }
            if !use_rng {
                lemma_count_invalid_keeps(before, t);
            }
            lemma_keeps_sizes(before, t);
        }
        if fixed_any {
            pass = pass + 1;
        } else {
            go = false;
        }
    }
    proof {
        if all_valid(start) {
            lemma_all_valid_count(teams@);
        }
        if !use_rng {
            lemma_count_invalid_keeps(start, teams@);
        }
    }
    invalid_count(teams)
}

} // verus!
