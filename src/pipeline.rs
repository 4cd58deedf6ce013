use crate::balancer::rebalance_teams;
use crate::fixer::{fix_invalid_teams, invalid_count};
use crate::player::{
    all_tier1_exclusive, count_invalid, get_range, imbalance, keeps_teams, lemma_balanced_no_trade,
    lemma_keeps_trans, no_improving_trade,
    lemma_same_teams, pool, shuffle, shuffle_players, teams_fit, Player,
};
use crate::sorter::{
    count_tier, known_tier, sort_players_into_teams, PartitionError,
};
use rand::rngs::StdRng;
use vstd::prelude::*;
use vstd::seq_lib::group_to_multiset_ensures;

verus! {

broadcast use group_to_multiset_ensures;

/// The settings of one run.
pub struct Cli {
    /// Roster file to read.
    pub csv_file: String,
    /// Log every step.
    pub verbose: bool,
    /// Rate players by the derivative score column instead of the plain one.
    pub use_derivative: bool,
    /// Shuffle the roster, and the teams before each repair pass and balancing round.
    pub randomness: bool,
    /// Most repair passes.
    pub max_fixing_iterations: u32,
    /// Most balancing rounds.
    pub max_iterations: u32,
    /// Base name of the result files.
    pub output: Option<String>,
}

proof fn lemma_count_remove(s: Seq<Player>, i: int, t: u8)
    requires
        0 <= i < s.len(),
    ensures
        count_tier(s, t) == count_tier(s.remove(i), t) + if s[i].availability == t {
            1nat
        } else {
            0nat
        },
    decreases s.len(),
{
    if i == s.len() - 1 {
        assert(s.remove(i) =~= s.drop_last());
    } else {
        lemma_count_remove(s.drop_last(), i, t);
        assert(s.remove(i).drop_last() =~= s.drop_last().remove(i));
        assert(s.remove(i).last() == s.last());
    }
}

/// The number of players of a tier does not depend on the order of the roster.
pub proof fn lemma_count_permutation(s: Seq<Player>, u: Seq<Player>, t: u8)
    requires
        s.to_multiset() == u.to_multiset(),
    ensures
        count_tier(s, t) == count_tier(u, t),
    decreases s.len(),
{
    if s.len() == 0 {
        assert(u.to_multiset().len() == 0);
    } else {
        let x = s.last();
        assert(s.to_multiset().count(x) > 0);
        assert(u.contains(x));
        let j = choose|j: int| 0 <= j < u.len() && u[j] == x;
        assert(s.remove(s.len() - 1) =~= s.drop_last());
        lemma_count_permutation(s.drop_last(), u.remove(j), t);
        lemma_count_remove(u, j, t);
    }
}

/// Runs up to `max_iterations` balancing rounds, shuffling the teams before
/// each when `randomness` is set, and stops early once the spread of the team
/// sums is the same as after the previous round (it starts from 0). Returns
/// the number of rounds run.
pub fn balance_until_stable(
    teams: &mut Vec<Vec<Player>>,
    rng: &mut StdRng,
    max_iterations: u32,
    randomness: bool,
) -> (rounds: u32)
    requires
        teams_fit(old(teams)@),
    ensures
        rounds <= max_iterations,
        max_iterations > 0 ==> rounds >= 1,
        final(teams)@.len() == old(teams)@.len(),
        pool(final(teams)@) == pool(old(teams)@),
        teams_fit(final(teams)@),
        all_tier1_exclusive(old(teams)@) ==> all_tier1_exclusive(final(teams)@),
        !randomness ==> keeps_teams(old(teams)@, final(teams)@),
        !randomness ==> imbalance(final(teams)@) <= imbalance(old(teams)@),
        !randomness && rounds < max_iterations ==> no_improving_trade(final(teams)@),
{
    let ghost start = teams@;
    proof {
        lemma_same_teams(start, start);
    }
    let mut range: u64 = 0;
    let mut rounds: u32 = 0;
    let mut go = true;
    while go && rounds < max_iterations
        invariant
            rounds <= max_iterations,
            !go ==> rounds >= 1,
            teams@.len() == start.len(),
            pool(teams@) == pool(start),
            teams_fit(teams@),
            all_tier1_exclusive(start) ==> all_tier1_exclusive(teams@),
            !randomness ==> keeps_teams(start, teams@),
            !randomness ==> imbalance(teams@) <= imbalance(start),
            !randomness && rounds > 0 ==> range == imbalance(teams@),
            rounds == 0 ==> range == 0,
            !randomness && !go ==> no_improving_trade(teams@),
        decreases max_iterations - rounds + if go {
            1int
        } else {
            0int
        },
    {
        if randomness {
            shuffle(teams, rng);
        }
        let ghost before = teams@;
        rebalance_teams(teams);
        proof {
            if !randomness {
                lemma_keeps_trans(start, before, teams@);
            }
        }
        let new_range = get_range(teams.as_slice());
        if new_range == range {
            proof {
                if !randomness {
                    if rounds == 0 {
                        lemma_balanced_no_trade(teams@);
                    }
                }
            }
            go = false;
        }
        range = new_range;
        rounds = rounds + 1;
    }
    rounds
}

/// Position of the first player whose tier is outside `1..=4`, if any.
pub fn first_unknown_tier(players: &Vec<Player>) -> (r: Option<usize>)
    ensures
        r matches Some(i) ==> i < players@.len() && !known_tier(players@[i as int].availability)
            && forall|k: int| 0 <= k < i ==> known_tier(#[trigger] players@[k].availability),
        r is None ==> forall|k: int|
            0 <= k < players@.len() ==> known_tier(#[trigger] players@[k].availability),
{
    let mut i: usize = 0;
    while i < players.len()
        invariant
            i <= players@.len(),
            forall|k: int| 0 <= k < i ==> known_tier(#[trigger] players@[k].availability),
        decreases players@.len() - i,
    {
        let t = players[i].availability;
        if t < 1 || t > 4 {
            return Some(i);
        }
        i = i + 1;
    }
    None
}

/// The whole run on a roster: optionally shuffle it, split it into teams,
/// repair invalid teams and balance the team sums. A tier outside `1..=4` is
/// reported at its position in the roster as given. Returns the teams and the
/// number of teams that are still invalid at the end, or why the roster cannot be split.
pub fn arrange_teams(players: Vec<Player>, rng: &mut StdRng, options: &Cli) -> (r: Result<
    (Vec<Vec<Player>>, usize),
    PartitionError,
>)
    ensures
        r is Err <==> (exists|k: int|
            0 <= k < players@.len() && !known_tier(#[trigger] players@[k].availability)) || count_tier(
            players@,
            1,
        ) % 5 != 0,
        r matches Err(PartitionError::InvalidAvailability(i)) ==> i < players@.len() && !known_tier(
            players@[i as int].availability,
        ) && forall|k: int| 0 <= k < i ==> known_tier(#[trigger] players@[k].availability),
        r matches Err(PartitionError::Tier1Remainder) ==> (forall|k: int|
            0 <= k < players@.len() ==> known_tier(#[trigger] players@[k].availability)),
        r matches Ok((teams, invalid)) ==> {
            &&& pool(teams@) == players@.to_multiset()
            &&& all_tier1_exclusive(teams@)
            &&& teams_fit(teams@)
            &&& invalid == count_invalid(teams@)
        },
{
    let ghost roster = players@;
    if let Some(i) = first_unknown_tier(&players) {
        return Err(PartitionError::InvalidAvailability(i));
    }
    let mut players = players;
    if options.randomness {
        shuffle_players(&mut players, rng);
    }
    let ghost shuffled = players@;
    proof {
        assert(shuffled.to_multiset() == roster.to_multiset());
        lemma_count_permutation(shuffled, roster, 1);
        assert((exists|k: int| 0 <= k < roster.len() && !known_tier(#[trigger] roster[k].availability))
            <==> (exists|k: int|
            0 <= k < shuffled.len() && !known_tier(#[trigger] shuffled[k].availability))) by {
            if exists|k: int| 0 <= k < roster.len() && !known_tier(#[trigger] roster[k].availability) {
                let k = choose|k: int|
                    0 <= k < roster.len() && !known_tier(#[trigger] roster[k].availability);
                assert(roster.contains(roster[k]));
                assert(roster.to_multiset().count(roster[k]) > 0);
                assert(shuffled.contains(roster[k]));
            }
            if exists|k: int|
                0 <= k < shuffled.len() && !known_tier(#[trigger] shuffled[k].availability) {
                let k = choose|k: int|
                    0 <= k < shuffled.len() && !known_tier(#[trigger] shuffled[k].availability);
                assert(shuffled.contains(shuffled[k]));
                assert(shuffled.to_multiset().count(shuffled[k]) > 0);
                assert(roster.contains(shuffled[k]));
            }
        }
    }
    let mut teams = match sort_players_into_teams(players) {
        Ok(teams) => teams,
        Err(e) => {
            return Err(e);
        },
    };
    fix_invalid_teams(&mut teams, rng, options.max_fixing_iterations as usize, options.randomness);
    balance_until_stable(&mut teams, rng, options.max_iterations, options.randomness);
    let invalid = invalid_count(&teams);
    Ok((teams, invalid))
}

} // verus!
