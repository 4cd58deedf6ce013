use rand::rngs::StdRng;
use rand::seq::SliceRandom;
use vstd::multiset::Multiset;
use vstd::prelude::*;
use vstd::seq_lib::group_to_multiset_ensures;

verus! {

#[verifier::external_type_specification]
#[verifier::external_body]
pub struct ExStdRng(StdRng);

/// Number of members in a complete team.
pub const TEAM_SIZE: usize = 5;

/// A participant: a name, a rating and a compatibility tier in `1..=4`.
#[derive(Debug, Clone)]
pub struct Player {
    pub name: String,
    pub elo: u32,
    pub availability: u8,
}

/// Sum of the ratings of the members of `team`.
pub open spec fn team_sum(team: Seq<Player>) -> int
    decreases team.len(),
{
    if team.len() == 0 {
        0
    } else {
        team_sum(team.drop_last()) + team.last().elo
    }
}

/// Two tiers may share a team: equal tiers, or the neighbouring pairs {2,3} and {3,4}.
pub open spec fn compatible_tiers(a: u8, b: u8) -> bool {
    a == b || (a == 2 && b == 3) || (a == 3 && b == 2) || (a == 3 && b == 4) || (a == 4 && b == 3)
}

/// Every two members of `team` have compatible tiers. Since the compatibility
/// graph is the path 2-3-4 with 1 isolated, this holds exactly when the set of
/// tiers present is a single tier, {2,3} or {3,4}.
pub open spec fn tiers_compatible(team: Seq<Player>) -> bool {
    forall|a: int, b: int|
        #![trigger team[a], team[b]]
        0 <= a < team.len() && 0 <= b < team.len() ==> compatible_tiers(
            team[a].availability,
            team[b].availability,
        )
}

/// A complete team of five whose tiers are compatible.
pub open spec fn valid_team(team: Seq<Player>) -> bool {
    team.len() == TEAM_SIZE && tiers_compatible(team)
}

/// A team that holds a tier-1 player holds tier-1 players only.
pub open spec fn tier1_exclusive(team: Seq<Player>) -> bool {
    (exists|k: int| 0 <= k < team.len() && #[trigger] team[k].availability == 1) ==> forall|
        k: int,
    |
        0 <= k < team.len() ==> #[trigger] team[k].availability == 1
}

/// Every team of the assignment is tier-1 exclusive.
pub open spec fn all_tier1_exclusive(teams: Seq<Vec<Player>>) -> bool {
    forall|k: int| 0 <= k < teams.len() ==> tier1_exclusive(#[trigger] teams[k]@)
}

/// Largest team sum of the assignment (0 for no teams).
pub open spec fn max_sum(teams: Seq<Vec<Player>>) -> int
    decreases teams.len(),
{
    if teams.len() == 0 {
        0
    } else {
        let m = max_sum(teams.drop_last());
        let s = team_sum(teams.last()@);
        if teams.len() == 1 || s > m {
            s
        } else {
            m
        }
    }
}

/// Smallest team sum of the assignment (0 for no teams).
pub open spec fn min_sum(teams: Seq<Vec<Player>>) -> int
    decreases teams.len(),
{
    if teams.len() == 0 {
        0
    } else {
        let m = min_sum(teams.drop_last());
        let s = team_sum(teams.last()@);
        if teams.len() == 1 || s < m {
            s
        } else {
            m
        }
    }
}

/// The spread of the team sums: largest minus smallest.
pub open spec fn imbalance(teams: Seq<Vec<Player>>) -> int {
    max_sum(teams) - min_sum(teams)
}

/// Team lengths for which a team sum fits in a `u64`.
pub open spec fn team_fits(team: Seq<Player>) -> bool {
    team.len() <= u32::MAX
}

/// Every team of the assignment has a length for which its sum fits in a `u64`.
pub open spec fn teams_fit(teams: Seq<Vec<Player>>) -> bool {
    forall|k: int| 0 <= k < teams.len() ==> team_fits(#[trigger] teams[k]@)
}

/// The multiset of all players of an assignment.
pub open spec fn pool(teams: Seq<Vec<Player>>) -> Multiset<Player>
    decreases teams.len(),
{
    if teams.len() == 0 {
        Multiset::empty()
    } else {
        pool(teams.drop_last()).add(teams.last()@.to_multiset())
    }
}

/// A team sum is at most the team's length times the largest rating.
pub proof fn lemma_team_sum_bounds(team: Seq<Player>)
    ensures
        0 <= team_sum(team) <= team.len() * (u32::MAX as int),
    decreases team.len(),
{
    if team.len() > 0 {
        lemma_team_sum_bounds(team.drop_last());
        assert(team_sum(team.drop_last()) <= (team.len() - 1) * (u32::MAX as int));
        assert((team.len() - 1) * (u32::MAX as int) + (u32::MAX as int) == team.len() * (
        u32::MAX as int)) by (nonlinear_arith);
    }
}

proof fn lemma_team_sum_fits(team: Seq<Player>)
    requires
        team_fits(team),
    ensures
        0 <= team_sum(team) <= u64::MAX,
{
    lemma_team_sum_bounds(team);
    let n = team.len() as int;
    assert(n * (u32::MAX as int) <= (u32::MAX as int) * (u32::MAX as int)) by (nonlinear_arith)
        requires
            0 <= n <= u32::MAX,
    ;
}

/// Sum of the ratings of a team.
pub fn sum_elo(team: &[Player]) -> (r: u64)
    requires
        team_fits(team@),
    ensures
        r == team_sum(team@),
{
    let mut sum: u64 = 0;
    let mut i: usize = 0;
    while i < team.len()
        invariant
            i <= team@.len(),
            team_fits(team@),
            sum == team_sum(team@.subrange(0, i as int)),
        decreases team@.len() - i,
    {
        assert(team@.subrange(0, i + 1).drop_last() =~= team@.subrange(0, i as int));
        proof {
            lemma_team_sum_fits(team@.subrange(0, i + 1));
        }
        sum = sum + team[i].elo as u64;
        i = i + 1;
    }
    assert(team@.subrange(0, i as int) =~= team@);
    sum
}

/// Whether `team` is a complete team of five with compatible tiers: a tier-1
/// player only with tier-1 players, and otherwise one tier, or tiers {2,3}, or
/// tiers {3,4}.
pub fn is_valid_team(team: &[Player]) -> (r: bool)
    ensures
        r == valid_team(team@),
{
    if team.len() != TEAM_SIZE {
        return false;
    }
    let mut a: usize = 0;
    while a < team.len()
        invariant
            a <= team@.len(),
            forall|x: int, y: int|
                0 <= x < a && 0 <= y < team@.len() ==> compatible_tiers(
                    team@[x].availability,
                    team@[y].availability,
                ),
        decreases team@.len() - a,
    {
        let mut b: usize = 0;
        while b < team.len()
            invariant
                a < team@.len(),
                b <= team@.len(),
                forall|y: int|
                    0 <= y < b ==> compatible_tiers(team@[a as int].availability, team@[y].availability),
            decreases team@.len() - b,
        {
            let x = team[a].availability;
            let y = team[b].availability;
            let ok = x == y || (x == 2 && y == 3) || (x == 3 && y == 2) || (x == 3 && y == 4) || (
            x == 4 && y == 3);
            if !ok {
                assert(!compatible_tiers(team@[a as int].availability, team@[b as int].availability));
                return false;
            }
            b = b + 1;
        }
        a = a + 1;
    }
    true
}


/// Largest minus smallest team sum, 0 when there are no teams.
pub fn measure_imbalance(teams: &[Vec<Player>]) -> (r: u64)
    requires
        teams_fit(teams@),
    ensures
        r == imbalance(teams@),
{
    let mut max_s: u64 = 0;
    let mut min_s: u64 = 0;
    let mut i: usize = 0;
    while i < teams.len()
        invariant
            i <= teams@.len(),
            teams_fit(teams@),
            max_s == max_sum(teams@.subrange(0, i as int)),
            min_s == min_sum(teams@.subrange(0, i as int)),
            min_s <= max_s,
        decreases teams@.len() - i,
    {
        assert(teams@.subrange(0, i + 1).drop_last() =~= teams@.subrange(0, i as int));
        assert(team_fits(teams@[i as int]@));
        let s = sum_elo(teams[i].as_slice());
        if i == 0 || s > max_s {
            max_s = s;
        }
        if i == 0 || s < min_s {
            min_s = s;
        }
        i = i + 1;
    }
    assert(teams@.subrange(0, i as int) =~= teams@);
    max_s - min_s
}

/// The spread of the team sums, as a convergence signal between balancing
/// rounds. Always equal to `measure_imbalance`; 0 when there are no teams.
pub fn get_range(teams: &[Vec<Player>]) -> (r: u64)
    requires
        teams_fit(teams@),
    ensures
        r == imbalance(teams@),
{
    let mut min: u64 = u64::MAX;
    let mut max: u64 = 0;
    let mut i: usize = 0;
    while i < teams.len()
        invariant
            i <= teams@.len(),
            teams_fit(teams@),
            max == max_sum(teams@.subrange(0, i as int)),
            i > 0 ==> min == min_sum(teams@.subrange(0, i as int)),
            i > 0 ==> min <= max,
            i == 0 ==> min == u64::MAX,
        decreases teams@.len() - i,
    {
        assert(teams@.subrange(0, i + 1).drop_last() =~= teams@.subrange(0, i as int));
        assert(team_fits(teams@[i as int]@));
        let elo = sum_elo(teams[i].as_slice());
        if elo < min {
            min = elo;
        }
        if elo > max || i == 0 {
            max = elo;
        }
        i = i + 1;
    }
    if teams.len() == 0 {
        return 0;
    }
    assert(teams@.subrange(0, i as int) =~= teams@);
    max - min
}

/// Adding a team adds its players.
pub proof fn lemma_pool_push(s: Seq<Vec<Player>>, t: Vec<Player>)
    ensures
        pool(s.push(t)) == pool(s).add(t@.to_multiset()),
{
    assert(s.push(t).drop_last() =~= s);
}

proof fn lemma_pool_remove(s: Seq<Vec<Player>>, i: int)
    requires
        0 <= i < s.len(),
    ensures
        pool(s) == pool(s.remove(i)).add(s[i]@.to_multiset()),
    decreases s.len(),
{
    if i == s.len() - 1 {
        assert(s.remove(i) =~= s.drop_last());
    } else {
        lemma_pool_remove(s.drop_last(), i);
        assert(s.remove(i).drop_last() =~= s.drop_last().remove(i));
        assert(s.remove(i).last() == s.last());
        assert(pool(s) =~= pool(s.remove(i)).add(s[i]@.to_multiset()));
    }
}

/// Reordering the teams keeps the players.
pub proof fn lemma_pool_permutation(s: Seq<Vec<Player>>, t: Seq<Vec<Player>>)
    requires
        s.to_multiset() == t.to_multiset(),
    ensures
        pool(s) == pool(t),
    decreases s.len(),
{
    broadcast use group_to_multiset_ensures;

    if s.len() == 0 {
        assert(t.to_multiset().len() == 0);
        assert(t.len() == 0);
        assert(t =~= Seq::<Vec<Player>>::empty());
    } else {
        let x = s.last();
        assert(s.to_multiset().count(x) > 0);
        assert(t.contains(x));
        let j = choose|j: int| 0 <= j < t.len() && t[j] == x;
        assert(s.remove(s.len() - 1) =~= s.drop_last());
        assert(s.drop_last().to_multiset() =~= t.remove(j).to_multiset());
        lemma_pool_permutation(s.drop_last(), t.remove(j));
        lemma_pool_remove(t, j);
    }
}

/// Replacing one team: the players of the old team leave, those of the new one come.
pub proof fn lemma_pool_update(s: Seq<Vec<Player>>, i: int, v: Vec<Player>)
    requires
        0 <= i < s.len(),
    ensures
        pool(s.update(i, v)).add(s[i]@.to_multiset()) == pool(s).add(v@.to_multiset()),
{
    lemma_pool_remove(s, i);
    lemma_pool_remove(s.update(i, v), i);
    assert(s.update(i, v).remove(i) =~= s.remove(i));
    assert(pool(s.update(i, v)).add(s[i]@.to_multiset()) =~= pool(s).add(v@.to_multiset()));
}

proof fn lemma_multiset_update(s: Seq<Player>, a: int, y: Player)
    requires
        0 <= a < s.len(),
    ensures
        s.update(a, y).to_multiset() == s.to_multiset().remove(s[a]).insert(y),
{
    broadcast use group_to_multiset_ensures;

    assert(s.update(a, y).remove(a) =~= s.remove(a));
    assert(s.update(a, y).to_multiset().remove(y) == s.to_multiset().remove(s[a]));
    assert(s.update(a, y).to_multiset().count(y) > 0);
    assert(s.update(a, y).to_multiset() =~= s.to_multiset().remove(s[a]).insert(y));
}

/// The assignment after member `a` of team `i` and member `b` of team `j` trade places.
pub open spec fn swapped(
    old_teams: Seq<Vec<Player>>,
    new_teams: Seq<Vec<Player>>,
    i: int,
    a: int,
    j: int,
    b: int,
) -> bool {
    &&& new_teams.len() == old_teams.len()
    &&& forall|k: int| 0 <= k < new_teams.len() && k != i && k != j ==> new_teams[k] == old_teams[k]
    &&& new_teams[i]@ == old_teams[i]@.update(a, old_teams[j]@[b])
    &&& new_teams[j]@ == old_teams[j]@.update(b, old_teams[i]@[a])
}

/// A trade of two members between two teams keeps the players.
pub proof fn lemma_swap_pool(s: Seq<Vec<Player>>, t: Seq<Vec<Player>>, i: int, a: int, j: int, b: int)
    requires
        0 <= i < s.len(),
        0 <= j < s.len(),
        i != j,
        0 <= a < s[i]@.len(),
        0 <= b < s[j]@.len(),
        swapped(s, t, i, a, j, b),
    ensures
        pool(t) == pool(s),
{
    let x = s[i]@[a];
    let y = s[j]@[b];
    let s1 = s.update(i, t[i]);
    assert(t =~= s1.update(j, t[j]));
    lemma_pool_update(s, i, t[i]);
    lemma_pool_update(s1, j, t[j]);
    lemma_multiset_update(s[i]@, a, y);
    lemma_multiset_update(s[j]@, b, x);
    assert(s[i]@.to_multiset().count(x) > 0) by {
        broadcast use group_to_multiset_ensures;
        assert(s[i]@.contains(x));
    }
    assert(s[j]@.to_multiset().count(y) > 0) by {
        broadcast use group_to_multiset_ensures;
        assert(s[j]@.contains(y));
    }
    assert(s1[j] == s[j]);
    assert forall|p: Player| pool(t).count(p) == pool(s).count(p) by {
        assert(pool(t).add(s[j]@.to_multiset()).count(p) == pool(s1).add(t[j]@.to_multiset()).count(
            p,
        ));
        assert(pool(s1).add(s[i]@.to_multiset()).count(p) == pool(s).add(t[i]@.to_multiset()).count(
            p,
        ));
    }
    assert(pool(t) =~= pool(s));
}

/// Trades member `a` of team `i` with member `b` of team `j`.
pub(crate) fn swap_members(teams: &mut Vec<Vec<Player>>, i: usize, a: usize, j: usize, b: usize)
    requires
        i < old(teams)@.len(),
        j < old(teams)@.len(),
        i != j,
        a < old(teams)@[i as int]@.len(),
        b < old(teams)@[j as int]@.len(),
    ensures
        swapped(old(teams)@, final(teams)@, i as int, a as int, j as int, b as int),
        pool(final(teams)@) == pool(old(teams)@),
{
    let mut ti: Vec<Player> = Vec::new();
    std::mem::swap(&mut ti, &mut teams[i]);
    std::mem::swap(&mut ti[a], &mut teams[j][b]);
    std::mem::swap(&mut ti, &mut teams[i]);
    proof {
        lemma_swap_pool(old(teams)@, teams@, i as int, a as int, j as int, b as int);
    }
}


/// Every team of the assignment is valid.
pub open spec fn all_valid(teams: Seq<Vec<Player>>) -> bool {
    forall|k: int| 0 <= k < teams.len() ==> valid_team(#[trigger] teams[k]@)
}

proof fn lemma_members_found(s: Seq<Player>, t: Seq<Player>)
    requires
        s.to_multiset() == t.to_multiset(),
    ensures
        s.len() == t.len(),
        forall|a: int| 0 <= a < t.len() ==> s.contains(#[trigger] t[a]),
{
    broadcast use group_to_multiset_ensures;

    assert(s.len() == s.to_multiset().len());
    assert(t.len() == t.to_multiset().len());
    assert forall|a: int| 0 <= a < t.len() implies s.contains(#[trigger] t[a]) by {
        assert(t.contains(t[a]));
        assert(t.to_multiset().count(t[a]) > 0);
        assert(s.contains(t[a]));
    }
}

/// Validity, tier-1 exclusivity and the size bound depend only on who is in a
/// team, not on the order of its members.
pub proof fn lemma_same_members(s: Seq<Player>, t: Seq<Player>)
    requires
        s.to_multiset() == t.to_multiset(),
    ensures
        valid_team(s) == valid_team(t),
        tier1_exclusive(s) == tier1_exclusive(t),
        team_fits(s) == team_fits(t),
{
    lemma_members_found(s, t);
    lemma_members_found(t, s);
    if tiers_compatible(s) {
        assert forall|a: int, b: int|
            #![trigger t[a], t[b]]
            0 <= a < t.len() && 0 <= b < t.len() implies compatible_tiers(
            t[a].availability,
            t[b].availability,
        ) by {
            let c = choose|c: int| 0 <= c < s.len() && s[c] == t[a];
            let d = choose|d: int| 0 <= d < s.len() && s[d] == t[b];
            assert(compatible_tiers(s[c].availability, s[d].availability));
        }
    }
    if tiers_compatible(t) {
        assert forall|a: int, b: int|
            #![trigger s[a], s[b]]
            0 <= a < s.len() && 0 <= b < s.len() implies compatible_tiers(
            s[a].availability,
            s[b].availability,
        ) by {
            let c = choose|c: int| 0 <= c < t.len() && t[c] == s[a];
            let d = choose|d: int| 0 <= d < t.len() && t[d] == s[b];
            assert(compatible_tiers(t[c].availability, t[d].availability));
        }
    }
    if tier1_exclusive(s) && (exists|k: int| 0 <= k < t.len() && #[trigger] t[k].availability == 1) {
        let k = choose|k: int| 0 <= k < t.len() && #[trigger] t[k].availability == 1;
        let c = choose|c: int| 0 <= c < s.len() && s[c] == t[k];
        assert(s[c].availability == 1);
        assert forall|m: int| 0 <= m < t.len() implies #[trigger] t[m].availability == 1 by {
            let d = choose|d: int| 0 <= d < s.len() && s[d] == t[m];
        }
    }
    if tier1_exclusive(t) && (exists|k: int| 0 <= k < s.len() && #[trigger] s[k].availability == 1) {
        let k = choose|k: int| 0 <= k < s.len() && #[trigger] s[k].availability == 1;
        let c = choose|c: int| 0 <= c < t.len() && t[c] == s[k];
        assert(t[c].availability == 1);
        assert forall|m: int| 0 <= m < s.len() implies #[trigger] s[m].availability == 1 by {
            let d = choose|d: int| 0 <= d < t.len() && t[d] == s[m];
        }
    }
}

/// The members of a team, as a multiset.
pub open spec fn bag(t: Vec<Player>) -> Multiset<Player> {
    t@.to_multiset()
}

/// The teams of an assignment, each as the multiset of its members, in no order.
pub open spec fn team_bags(teams: Seq<Vec<Player>>) -> Multiset<Multiset<Player>> {
    teams.map_values(|t: Vec<Player>| bag(t)).to_multiset()
}

/// Reordering the teams keeps the teams.
pub proof fn lemma_bags_permutation(s: Seq<Vec<Player>>, t: Seq<Vec<Player>>)
    requires
        s.to_multiset() == t.to_multiset(),
    ensures
        team_bags(s) == team_bags(t),
    decreases s.len(),
{
    broadcast use group_to_multiset_ensures;

    if s.len() == 0 {
        assert(t.to_multiset().len() == 0);
        assert(t.len() == 0);
        assert(s.map_values(|t: Vec<Player>| bag(t)) =~= t.map_values(|t: Vec<Player>| bag(t)));
    } else {
        let x = s.last();
        assert(s.to_multiset().count(x) > 0);
        assert(t.contains(x));
        let j = choose|j: int| 0 <= j < t.len() && t[j] == x;
        assert(s.remove(s.len() - 1) =~= s.drop_last());
        assert(s.drop_last().to_multiset() =~= t.remove(j).to_multiset());
        lemma_bags_permutation(s.drop_last(), t.remove(j));
        let ms = s.map_values(|t: Vec<Player>| bag(t));
        let mt = t.map_values(|t: Vec<Player>| bag(t));
        assert(ms =~= s.drop_last().map_values(|t: Vec<Player>| bag(t)).push(bag(x)));
        assert(mt.remove(j) =~= t.remove(j).map_values(|t: Vec<Player>| bag(t)));
        assert(mt.remove(j).to_multiset() == mt.to_multiset().remove(mt[j]));
        assert(mt.contains(mt[j]));
        assert(mt.to_multiset().count(mt[j]) > 0);
        assert(team_bags(s) =~= team_bags(t));
    }
}

/// The sizes of the teams, in no order.
pub open spec fn team_sizes(teams: Seq<Vec<Player>>) -> Multiset<nat> {
    teams.map_values(|t: Vec<Player>| t@.len()).to_multiset()
}

/// Reordering the teams keeps their sizes.
pub proof fn lemma_sizes_permutation(s: Seq<Vec<Player>>, t: Seq<Vec<Player>>)
    requires
        s.to_multiset() == t.to_multiset(),
    ensures
        team_sizes(s) == team_sizes(t),
    decreases s.len(),
{
    broadcast use group_to_multiset_ensures;

    if s.len() == 0 {
        assert(t.to_multiset().len() == 0);
        assert(t.len() == 0);
        assert(s.map_values(|t: Vec<Player>| t@.len()) =~= t.map_values(|t: Vec<Player>| t@.len()));
    } else {
        let x = s.last();
        assert(s.to_multiset().count(x) > 0);
        assert(t.contains(x));
        let j = choose|j: int| 0 <= j < t.len() && t[j] == x;
        assert(s.remove(s.len() - 1) =~= s.drop_last());
        assert(s.drop_last().to_multiset() =~= t.remove(j).to_multiset());
        lemma_sizes_permutation(s.drop_last(), t.remove(j));
        let ms = s.map_values(|t: Vec<Player>| t@.len());
        let mt = t.map_values(|t: Vec<Player>| t@.len());
        assert(ms =~= s.drop_last().map_values(|t: Vec<Player>| t@.len()).push(x@.len()));
        assert(mt.remove(j) =~= t.remove(j).map_values(|t: Vec<Player>| t@.len()));
        assert(mt.remove(j).to_multiset() == mt.to_multiset().remove(mt[j]));
        assert(mt.contains(mt[j]));
        assert(mt.to_multiset().count(mt[j]) > 0);
        assert(team_sizes(s) =~= team_sizes(t));
    }
}

/// Relies on rand's `SliceRandom::shuffle`: it reorders the slice in place by
/// swapping elements, so the result is a permutation of the input.
#[verifier::external_body]
fn shuffle_in_place<T>(v: &mut Vec<T>, rng: &mut StdRng)
    ensures
        final(v)@.to_multiset() == old(v)@.to_multiset(),
        final(v)@.len() == old(v)@.len(),
{
    v.shuffle(rng);
}

/// Randomly reorders a list of players; the same players remain.
pub fn shuffle_players(players: &mut Vec<Player>, rng: &mut StdRng)
    ensures
        final(players)@.to_multiset() == old(players)@.to_multiset(),
        final(players)@.len() == old(players)@.len(),
{
    shuffle_in_place(players, rng);
}

/// Randomly permutes the order of the teams and, independently, the order of
/// the members within every team. Every team afterwards has the members of
/// some team before, so the players, validity, tier-1 exclusivity and team
/// sizes are kept.
pub fn shuffle(teams: &mut Vec<Vec<Player>>, rng: &mut StdRng)
    ensures
        final(teams)@.len() == old(teams)@.len(),
        pool(final(teams)@) == pool(old(teams)@),
        forall|k: int|
            0 <= k < final(teams)@.len() ==> exists|m: int|
                0 <= m < old(teams)@.len() && (#[trigger] final(teams)@[k])@.to_multiset()
                    == old(teams)@[m]@.to_multiset(),
        team_bags(final(teams)@) == team_bags(old(teams)@),
        team_sizes(final(teams)@) == team_sizes(old(teams)@),
        all_valid(old(teams)@) ==> all_valid(final(teams)@),
        all_tier1_exclusive(old(teams)@) ==> all_tier1_exclusive(final(teams)@),
        teams_fit(old(teams)@) ==> teams_fit(final(teams)@),
{
    shuffle_in_place(teams, rng);
    let ghost mid = teams@;
    proof {
        lemma_pool_permutation(old(teams)@, mid);
    }
    let mut i: usize = 0;
    while i < teams.len()
        invariant
            teams@.len() == mid.len(),
            i <= teams@.len(),
            forall|k: int| 0 <= k < i ==> (#[trigger] teams@[k])@.to_multiset() == mid[k]@.to_multiset(),
            forall|k: int| i <= k < teams@.len() ==> #[trigger] teams@[k] == mid[k],
            pool(teams@) == pool(mid),
        decreases teams@.len() - i,
    {
        let ghost prev = teams@;
        let mut t: Vec<Player> = Vec::new();
        std::mem::swap(&mut t, &mut teams[i]);
        shuffle_in_place(&mut t, rng);
        std::mem::swap(&mut t, &mut teams[i]);
        proof {
            assert(teams@ =~= prev.update(i as int, teams@[i as int]));
            lemma_pool_update(prev, i as int, teams@[i as int]);
            assert forall|p: Player| pool(teams@).count(p) == pool(prev).count(p) by {
                assert(pool(teams@).add(prev[i as int]@.to_multiset()).count(p) == pool(prev).add(
                    teams@[i as int]@.to_multiset(),
                ).count(p));
            }
            assert(pool(teams@) =~= pool(prev));
        }
        i = i + 1;
    }
    proof {
        broadcast use group_to_multiset_ensures;

        let o = old(teams)@;
        let f = teams@;
        lemma_bags_permutation(mid, o);
        lemma_sizes_permutation(mid, o);
        assert forall|k: int| 0 <= k < f.len() implies (#[trigger] f[k])@.len() == mid[k]@.len() by {
            assert(f[k]@.to_multiset().len() == f[k]@.len());
            assert(mid[k]@.to_multiset().len() == mid[k]@.len());
        }
        assert(f.map_values(|t: Vec<Player>| t@.len()) =~= mid.map_values(|t: Vec<Player>| t@.len()));
        assert(f.map_values(|t: Vec<Player>| bag(t)) =~= mid.map_values(|t: Vec<Player>| bag(t)));
        assert forall|k: int| 0 <= k < f.len() implies exists|m: int|
            0 <= m < o.len() && (#[trigger] f[k])@.to_multiset() == o[m]@.to_multiset() by {
            assert(mid.contains(mid[k]));
            assert(mid.to_multiset().count(mid[k]) > 0);
            assert(o.contains(mid[k]));
            let m = choose|m: int| 0 <= m < o.len() && o[m] == mid[k];
            assert(f[k]@.to_multiset() == o[m]@.to_multiset());
        }
        assert forall|k: int| 0 <= k < f.len() implies {
            &&& all_valid(o) ==> valid_team(#[trigger] f[k]@)
            &&& all_tier1_exclusive(o) ==> tier1_exclusive(f[k]@)
            &&& teams_fit(o) ==> team_fits(f[k]@)
        } by {
            let m = choose|m: int| 0 <= m < o.len() && f[k]@.to_multiset() == o[m]@.to_multiset();
            lemma_same_members(f[k]@, o[m]@);
        }
    }
}


/// Two assignments with the same teams, member for member.
pub open spec fn same_teams(a: Seq<Vec<Player>>, b: Seq<Vec<Player>>) -> bool {
    &&& a.len() == b.len()
    &&& forall|k: int| 0 <= k < a.len() ==> (#[trigger] a[k])@ == b[k]@
}

/// How the repair and balancing stages may change an assignment: teams keep
/// their positions and sizes, the players stay the same, and a team that was
/// valid, or tier-1 exclusive, stays so.
pub open spec fn keeps_teams(start: Seq<Vec<Player>>, now: Seq<Vec<Player>>) -> bool {
    &&& now.len() == start.len()
    &&& pool(now) == pool(start)
    &&& forall|k: int| 0 <= k < now.len() ==> (#[trigger] now[k])@.len() == start[k]@.len()
    &&& forall|k: int| 0 <= k < now.len() && valid_team(start[k]@) ==> valid_team((#[trigger] now[k])@)
    &&& forall|k: int|
        0 <= k < now.len() && tier1_exclusive(start[k]@) ==> tier1_exclusive((#[trigger] now[k])@)
    &&& forall|k: int|
        0 <= k < now.len() ==> (#[trigger] now[k])@ == start[k]@ || valid_team(now[k]@)
}

/// `u` is `t` with member `a` of team `i` and member `b` of team `j` traded,
/// compared team by team through the members.
pub open spec fn traded(t: Seq<Vec<Player>>, u: Seq<Vec<Player>>, i: int, a: int, j: int, b: int) -> bool {
    &&& u.len() == t.len()
    &&& forall|k: int| 0 <= k < u.len() && k != i && k != j ==> (#[trigger] u[k])@ == t[k]@
    &&& u[i]@ == t[i]@.update(a, t[j]@[b])
    &&& u[j]@ == t[j]@.update(b, t[i]@[a])
}

/// The trade of member `a` of team `i` with member `b` of team `j` does not
/// leave both teams valid with an imbalance below `base`.
pub open spec fn no_gain_at(t: Seq<Vec<Player>>, base: int, i: int, a: int, j: int, b: int) -> bool {
    forall|u: Seq<Vec<Player>>|
        #[trigger] traded(t, u, i, a, j, b) ==> !(valid_team(u[i]@) && valid_team(u[j]@)
            && imbalance(u) < base)
}

/// No single trade between two teams leaves both valid and lowers the imbalance.
pub open spec fn no_improving_trade(t: Seq<Vec<Player>>) -> bool {
    forall|i: int, j: int, a: int, b: int|
        0 <= i < j < t.len() && 0 <= a < t[i]@.len() && 0 <= b < t[j]@.len() ==> #[trigger] no_gain_at(
            t,
            imbalance(t),
            i,
            a,
            j,
            b,
        )
}

/// Whether a trade gains depends only on the members of the teams.
pub proof fn lemma_no_gain_same(s: Seq<Vec<Player>>, t: Seq<Vec<Player>>, base: int, i: int, a: int, j: int, b: int)
    requires
        same_teams(s, t),
        0 <= i < s.len(),
        0 <= j < s.len(),
        no_gain_at(t, base, i, a, j, b),
    ensures
        no_gain_at(s, base, i, a, j, b),
{
    assert forall|u: Seq<Vec<Player>>| #[trigger] traded(s, u, i, a, j, b) implies !(valid_team(
        u[i]@,
    ) && valid_team(u[j]@) && imbalance(u) < base) by {
        assert(s[i]@ == t[i]@);
        assert(s[j]@ == t[j]@);
        assert(traded(t, u, i, a, j, b));
    }
}

/// An assignment without an improving trade has none after a change that keeps every team.
pub proof fn lemma_no_improving_same(s: Seq<Vec<Player>>, t: Seq<Vec<Player>>)
    requires
        same_teams(s, t),
        no_improving_trade(t),
    ensures
        no_improving_trade(s),
{
    lemma_same_teams(s, t);
    assert forall|i: int, j: int, a: int, b: int|
        0 <= i < j < s.len() && 0 <= a < s[i]@.len() && 0 <= b < s[j]@.len() implies #[trigger] no_gain_at(
        s,
        imbalance(s),
        i,
        a,
        j,
        b,
    ) by {
        assert(no_gain_at(t, imbalance(t), i, a, j, b));
        lemma_no_gain_same(s, t, imbalance(s), i, a, j, b);
    }
}

/// A trade that was tried: every assignment with the same trade has the same
/// validity and imbalance as the one that was tried.
pub proof fn lemma_trial(s: Seq<Vec<Player>>, tried: Seq<Vec<Player>>, base: int, i: int, a: int, j: int, b: int)
    requires
        0 <= i < s.len(),
        0 <= j < s.len(),
        i != j,
        0 <= a < s[i]@.len(),
        0 <= b < s[j]@.len(),
        swapped(s, tried, i, a, j, b),
        !(valid_team(tried[i]@) && valid_team(tried[j]@) && imbalance(tried) < base),
    ensures
        no_gain_at(s, base, i, a, j, b),
{
    assert forall|u: Seq<Vec<Player>>| #[trigger] traded(s, u, i, a, j, b) implies !(valid_team(
        u[i]@,
    ) && valid_team(u[j]@) && imbalance(u) < base) by {
        assert(same_teams(u, tried));
        lemma_same_teams(u, tried);
    }
}

/// Everything the assignment's specifications observe is the same for two
/// assignments with the same teams.
pub proof fn lemma_same_teams(a: Seq<Vec<Player>>, b: Seq<Vec<Player>>)
    requires
        same_teams(a, b),
    ensures
        pool(a) == pool(b),
        max_sum(a) == max_sum(b),
        min_sum(a) == min_sum(b),
        imbalance(a) == imbalance(b),
        keeps_teams(b, a),
        team_bags(a) == team_bags(b),
    decreases a.len(),
{
    assert(a.map_values(|t: Vec<Player>| bag(t)) =~= b.map_values(|t: Vec<Player>| bag(t)));
    if a.len() > 0 {
        lemma_same_teams(a.drop_last(), b.drop_last());
        assert(a.last()@ == b.last()@);
    }
}

/// A valid team is tier-1 exclusive.
pub proof fn lemma_valid_exclusive(team: Seq<Player>)
    requires
        valid_team(team),
    ensures
        tier1_exclusive(team),
{
    if exists|k: int| 0 <= k < team.len() && #[trigger] team[k].availability == 1 {
        let k = choose|k: int| 0 <= k < team.len() && #[trigger] team[k].availability == 1;
        assert forall|m: int| 0 <= m < team.len() implies #[trigger] team[m].availability == 1 by {
            assert(compatible_tiers(team[k].availability, team[m].availability));
        }
    }
}

/// Result of keeping a trade of two members that left both teams valid.
pub proof fn lemma_accepted_swap(
    start: Seq<Vec<Player>>,
    s: Seq<Vec<Player>>,
    t: Seq<Vec<Player>>,
    i: int,
    a: int,
    j: int,
    b: int,
)
    requires
        keeps_teams(start, s),
        0 <= i < s.len(),
        0 <= j < s.len(),
        i != j,
        0 <= a < s[i]@.len(),
        0 <= b < s[j]@.len(),
        swapped(s, t, i, a, j, b),
        pool(t) == pool(s),
        valid_team(t[i]@),
        valid_team(t[j]@),
    ensures
        keeps_teams(start, t),
{
    lemma_valid_exclusive(t[i]@);
    lemma_valid_exclusive(t[j]@);
}

/// Trading the same two members back restores the teams.
pub proof fn lemma_swap_back(
    s: Seq<Vec<Player>>,
    t: Seq<Vec<Player>>,
    u: Seq<Vec<Player>>,
    i: int,
    a: int,
    j: int,
    b: int,
)
    requires
        0 <= i < s.len(),
        0 <= j < s.len(),
        i != j,
        0 <= a < s[i]@.len(),
        0 <= b < s[j]@.len(),
        swapped(s, t, i, a, j, b),
        swapped(t, u, i, a, j, b),
    ensures
        same_teams(u, s),
{
    assert(u[i]@ =~= s[i]@);
    assert(u[j]@ =~= s[j]@);
}

/// Number of invalid teams of an assignment.
pub open spec fn count_invalid(teams: Seq<Vec<Player>>) -> nat
    decreases teams.len(),
{
    if teams.len() == 0 {
        0
    } else {
        count_invalid(teams.drop_last()) + if valid_team(teams.last()@) {
            0nat
        } else {
            1nat
        }
    }
}


/// An assignment of valid teams has no invalid team.
pub proof fn lemma_all_valid_count(teams: Seq<Vec<Player>>)
    requires
        all_valid(teams),
    ensures
        count_invalid(teams) == 0,
    decreases teams.len(),
{
    if teams.len() > 0 {
        let d = teams.drop_last();
        assert(forall|k: int| 0 <= k < d.len() ==> d[k] == teams[k]);
        lemma_all_valid_count(d);
    }
}


/// Changes allowed to an assignment compose.
pub proof fn lemma_keeps_trans(a: Seq<Vec<Player>>, b: Seq<Vec<Player>>, c: Seq<Vec<Player>>)
    requires
        keeps_teams(a, b),
        keeps_teams(b, c),
    ensures
        keeps_teams(a, c),
{
}

/// An assignment that keeps the team sizes of one whose sums fit, fits too.
pub proof fn lemma_keeps_fit(a: Seq<Vec<Player>>, b: Seq<Vec<Player>>)
    requires
        keeps_teams(a, b),
        teams_fit(a),
    ensures
        teams_fit(b),
{
    assert forall|k: int| 0 <= k < b.len() implies team_fits(#[trigger] b[k]@) by {
        assert(b[k]@.len() == a[k]@.len());
    }
}


/// The smallest team sum is at most the largest.
pub proof fn lemma_imbalance_nonneg(teams: Seq<Vec<Player>>)
    ensures
        min_sum(teams) <= max_sum(teams),
        imbalance(teams) >= 0,
    decreases teams.len(),
{
    if teams.len() > 0 {
        lemma_imbalance_nonneg(teams.drop_last());
    }
}

/// With a spread of 0 no trade can lower it.
pub proof fn lemma_balanced_no_trade(teams: Seq<Vec<Player>>)
    requires
        imbalance(teams) == 0,
    ensures
        no_improving_trade(teams),
{
    assert forall|i: int, j: int, a: int, b: int|
        0 <= i < j < teams.len() && 0 <= a < teams[i]@.len() && 0 <= b < teams[j]@.len() implies #[trigger] no_gain_at(
        teams,
        imbalance(teams),
        i,
        a,
        j,
        b,
    ) by {
        assert forall|u: Seq<Vec<Player>>| #[trigger] traded(teams, u, i, a, j, b) implies !(
        valid_team(u[i]@) && valid_team(u[j]@) && imbalance(u) < imbalance(teams)) by {
            lemma_imbalance_nonneg(u);
        }
    }
}


/// A change that keeps every valid team valid does not add invalid teams.
pub proof fn lemma_count_invalid_keeps(a: Seq<Vec<Player>>, b: Seq<Vec<Player>>)
    requires
        keeps_teams(a, b),
    ensures
        count_invalid(b) <= count_invalid(a),
    decreases a.len(),
{
    if a.len() > 0 {
        let da = a.drop_last();
        let db = b.drop_last();
        assert(forall|k: int| 0 <= k < da.len() ==> da[k] == a[k] && db[k] == b[k]);
        assert forall|k: int| 0 <= k < db.len() && valid_team(da[k]@) implies valid_team(
            (#[trigger] db[k])@,
        ) by {
            assert(b[k]@ == b[k]@);
        }
        assert(valid_team(a[a.len() - 1]@) ==> valid_team(b[b.len() - 1]@));
        lemma_count_invalid_drop(da, db);
    }
}

proof fn lemma_count_invalid_drop(da: Seq<Vec<Player>>, db: Seq<Vec<Player>>)
    requires
        da.len() == db.len(),
        forall|k: int| 0 <= k < db.len() && valid_team(da[k]@) ==> valid_team((#[trigger] db[k])@),
    ensures
        count_invalid(db) <= count_invalid(da),
    decreases da.len(),
{
    if da.len() > 0 {
        let a2 = da.drop_last();
        let b2 = db.drop_last();
        assert(forall|k: int| 0 <= k < a2.len() ==> a2[k] == da[k] && b2[k] == db[k]);
        assert(valid_team(da[da.len() - 1]@) ==> valid_team(db[db.len() - 1]@));
        lemma_count_invalid_drop(a2, b2);
    }
}


/// The trade of member `a` of team `i` with member `b` of team `j` does not
/// leave both teams valid.
pub open spec fn no_fix_at(t: Seq<Vec<Player>>, i: int, a: int, j: int, b: int) -> bool {
    forall|u: Seq<Vec<Player>>|
        #[trigger] traded(t, u, i, a, j, b) ==> !(valid_team(u[i]@) && valid_team(u[j]@))
}

/// No invalid team can be made valid by one trade that leaves the other team valid.
pub open spec fn no_repairing_trade(t: Seq<Vec<Player>>) -> bool {
    forall|i: int, j: int, a: int, b: int|
        0 <= i < t.len() && 0 <= j < t.len() && i != j && !valid_team(t[i]@) && 0 <= a
            < t[i]@.len() && 0 <= b < t[j]@.len() ==> #[trigger] no_fix_at(t, i, a, j, b)
}

/// Whether a trade repairs depends only on the members of the teams.
pub proof fn lemma_no_fix_same(s: Seq<Vec<Player>>, t: Seq<Vec<Player>>, i: int, a: int, j: int, b: int)
    requires
        same_teams(s, t),
        0 <= i < s.len(),
        0 <= j < s.len(),
        no_fix_at(t, i, a, j, b),
    ensures
        no_fix_at(s, i, a, j, b),
{
    assert forall|u: Seq<Vec<Player>>| #[trigger] traded(s, u, i, a, j, b) implies !(valid_team(
        u[i]@,
    ) && valid_team(u[j]@)) by {
        assert(s[i]@ == t[i]@);
        assert(s[j]@ == t[j]@);
        assert(traded(t, u, i, a, j, b));
    }
}

/// A trial that left one of the two teams invalid rules the trade out.
pub proof fn lemma_fix_trial(s: Seq<Vec<Player>>, tried: Seq<Vec<Player>>, i: int, a: int, j: int, b: int)
    requires
        0 <= i < s.len(),
        0 <= j < s.len(),
        i != j,
        0 <= a < s[i]@.len(),
        0 <= b < s[j]@.len(),
        swapped(s, tried, i, a, j, b),
        !(valid_team(tried[i]@) && valid_team(tried[j]@)),
    ensures
        no_fix_at(s, i, a, j, b),
{
    assert forall|u: Seq<Vec<Player>>| #[trigger] traded(s, u, i, a, j, b) implies !(valid_team(
        u[i]@,
    ) && valid_team(u[j]@)) by {
        assert(u[i]@ == tried[i]@);
        assert(u[j]@ == tried[j]@);
    }
}

/// An assignment without a repairing trade has none after a change that keeps every team.
pub proof fn lemma_no_repairing_same(s: Seq<Vec<Player>>, t: Seq<Vec<Player>>)
    requires
        same_teams(s, t),
        no_repairing_trade(t),
    ensures
        no_repairing_trade(s),
{
    assert forall|i: int, j: int, a: int, b: int|
        0 <= i < s.len() && 0 <= j < s.len() && i != j && !valid_team(s[i]@) && 0 <= a
            < s[i]@.len() && 0 <= b < s[j]@.len() implies #[trigger] no_fix_at(s, i, a, j, b) by {
        assert(s[i]@ == t[i]@);
        assert(s[j]@ == t[j]@);
        assert(no_fix_at(t, i, a, j, b));
        lemma_no_fix_same(s, t, i, a, j, b);
    }
}

/// A change that keeps valid teams valid and makes an invalid team valid
/// lowers the number of invalid teams.
pub proof fn lemma_count_invalid_drops(a: Seq<Vec<Player>>, b: Seq<Vec<Player>>, w: int)
    requires
        a.len() == b.len(),
        forall|k: int| 0 <= k < b.len() && valid_team(a[k]@) ==> valid_team((#[trigger] b[k])@),
        0 <= w < a.len(),
        !valid_team(a[w]@),
        valid_team(b[w]@),
    ensures
        count_invalid(b) < count_invalid(a),
    decreases a.len(),
{
    let da = a.drop_last();
    let db = b.drop_last();
    assert(forall|k: int| 0 <= k < da.len() ==> da[k] == a[k] && db[k] == b[k]);
    if w == a.len() - 1 {
        lemma_count_invalid_drop(da, db);
    } else {
        assert(valid_team(a[a.len() - 1]@) ==> valid_team(b[b.len() - 1]@));
        lemma_count_invalid_drops(da, db, w);
    }
}


/// Changes that keep every team's size keep the sizes.
pub proof fn lemma_keeps_sizes(a: Seq<Vec<Player>>, b: Seq<Vec<Player>>)
    requires
        keeps_teams(a, b),
    ensures
        team_sizes(b) == team_sizes(a),
{
    assert(b.map_values(|t: Vec<Player>| t@.len()) =~= a.map_values(|t: Vec<Player>| t@.len()));
}

} // verus!
