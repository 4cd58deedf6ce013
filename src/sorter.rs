use crate::player::{
    all_tier1_exclusive, compatible_tiers, lemma_pool_push, pool, team_fits, teams_fit,
    tier1_exclusive, valid_team, Player, TEAM_SIZE,
};
use vstd::multiset::Multiset;
use vstd::prelude::*;
use vstd::seq_lib::{group_to_multiset_ensures, lemma_multiset_commutative};

verus! {

broadcast use group_to_multiset_ensures;

/// Why a roster cannot be split into teams.
#[derive(Debug, Clone, PartialEq, Eq)]
pub enum PartitionError {
    /// The player at this position of the roster has a tier outside `1..=4`.
    InvalidAvailability(usize),
    /// The number of tier-1 players is not a multiple of five.
    Tier1Remainder,
}

/// Whether a tier is one of `1..=4`.
pub open spec fn known_tier(t: u8) -> bool {
    1 <= t <= 4
}

/// Number of players of tier `t` in `s`.
pub open spec fn count_tier(s: Seq<Player>, t: u8) -> nat
    decreases s.len(),
{
    if s.len() == 0 {
        0
    } else {
        count_tier(s.drop_last(), t) + if s.last().availability == t {
            1nat
        } else {
            0nat
        }
    }
}

/// Every player of the multiset has tier `x` or tier `y`.
pub open spec fn only_tiers(m: Multiset<Player>, x: u8, y: u8) -> bool {
    forall|p: Player| #[trigger] m.count(p) > 0 ==> p.availability == x || p.availability == y
}

/// Players in descending rating order.
pub open spec fn sorted_desc(s: Seq<Player>) -> bool {
    forall|a: int, b: int| 0 <= a <= b < s.len() ==> (#[trigger] s[a]).elo >= (#[trigger] s[b]).elo
}

/// Players ordered by tier, and within a tier by descending rating.
pub open spec fn tier_ordered(s: Seq<Player>) -> bool {
    forall|a: int, b: int|
        0 <= a <= b < s.len() ==> (#[trigger] s[a]).availability < (#[trigger] s[b]).availability
            || (s[a].availability == s[b].availability && s[a].elo >= s[b].elo)
}

/// The team that collects what no complete team took: it is not empty and
/// never valid, holds no tier-1 player and fewer than five players of each of
/// tiers 2, 3 and 4, and lists its tier-2 players, then tier 3, then tier 4,
/// each by descending rating.
pub open spec fn leftover_team(team: Seq<Player>) -> bool {
    &&& team.len() > 0
    &&& !valid_team(team)
    &&& tier_ordered(team)
    &&& count_tier(team, 1) == 0
    &&& count_tier(team, 2) < 5
    &&& count_tier(team, 3) < 5
    &&& count_tier(team, 4) < 5
}

/// Read in order, the first `n1 / 5` teams list their players by rating,
/// highest first: they are consecutive chunks of the tier-1 players sorted by
/// descending rating.
pub open spec fn tier1_order(teams: Seq<Vec<Player>>, n1: nat) -> bool {
    forall|k: int, k2: int, m: int, m2: int|
        #![trigger teams[k]@[m], teams[k2]@[m2]]
        0 <= k <= k2 < n1 / 5 && k2 < teams.len() && 0 <= m < teams[k]@.len() && 0 <= m2
            < teams[k2]@.len() && (k < k2 || m <= m2) ==> teams[k]@[m].elo >= teams[k2]@[m2].elo
}

/// The shape of a partition of a roster with `n1` tier-1 players: the first
/// `n1 / 5` teams are the tier-1 teams, in descending rating order, no later team holds a tier-1 player,
/// and every team is a valid team of five except possibly the last, which is
/// then the leftover team.
pub open spec fn partition_shape(teams: Seq<Vec<Player>>, n1: nat) -> bool {
    &&& n1 / 5 <= teams.len()
    &&& tier1_order(teams, n1)
    &&& forall|k: int|
        0 <= k < teams.len() && valid_team(teams[k]@) ==> sorted_desc(#[trigger] teams[k]@)
    &&& forall|k: int|
        0 <= k < teams.len() ==> valid_team(#[trigger] teams[k]@) || (k == teams.len() - 1
            && leftover_team(teams[k]@))
    &&& forall|k: int, m: int|
        0 <= k < n1 / 5 && 0 <= m < teams[k]@.len() ==> (#[trigger] teams[k]@[m]).availability
            == 1
    &&& forall|k: int, m: int|
        n1 / 5 <= k < teams.len() && 0 <= m < teams[k]@.len() ==> (
        #[trigger] teams[k]@[m]).availability != 1
}

proof fn lemma_seq_only_tiers(s: Seq<Player>, x: u8, y: u8)
    requires
        only_tiers(s.to_multiset(), x, y),
    ensures
        forall|k: int|
            0 <= k < s.len() ==> (#[trigger] s[k]).availability == x || s[k].availability == y,
{
    assert forall|k: int| 0 <= k < s.len() implies (#[trigger] s[k]).availability == x
        || s[k].availability == y by {
        assert(s.contains(s[k]));
        assert(s.to_multiset().count(s[k]) > 0);
    }
}

proof fn lemma_only_tiers_valid(s: Seq<Player>, x: u8, y: u8)
    requires
        s.len() == TEAM_SIZE,
        only_tiers(s.to_multiset(), x, y),
        compatible_tiers(x, y),
    ensures
        valid_team(s),
{
    lemma_seq_only_tiers(s, x, y);
}

proof fn lemma_count_uniform(s: Seq<Player>, t: u8, u: u8)
    requires
        forall|k: int| 0 <= k < s.len() ==> (#[trigger] s[k]).availability == t,
    ensures
        count_tier(s, u) == if u == t {
            s.len()
        } else {
            0
        },
    decreases s.len(),
{
    if s.len() > 0 {
        lemma_count_uniform(s.drop_last(), t, u);
    }
}

proof fn lemma_count_append(a: Seq<Player>, b: Seq<Player>, t: u8)
    ensures
        count_tier(a + b, t) == count_tier(a, t) + count_tier(b, t),
    decreases b.len(),
{
    if b.len() == 0 {
        assert(a + b =~= a);
    } else {
        lemma_count_append(a, b.drop_last(), t);
        assert((a + b).drop_last() =~= a + b.drop_last());
    }
}

/// Relies on std's stable `slice::sort_by_key`: the result is a permutation of
/// the input ordered by the key, here the rating in descending order.
#[verifier::external_body]
fn sort_by_rating_desc(v: &mut Vec<Player>)
    ensures
        final(v)@.to_multiset() == old(v)@.to_multiset(),
        final(v)@.len() == old(v)@.len(),
        forall|a: int, b: int|
            0 <= a < b < final(v)@.len() ==> (#[trigger] final(v)@[a]).elo >= (
            #[trigger] final(v)@[b]).elo,
{
    v.sort_by_key(|p| std::cmp::Reverse(p.elo));
}


/// Builds a single-tier team from a rating-sorted group by alternating ends:
/// the first, third and fifth picks come from the front (highest rating), the
/// second and fourth from the back (lowest rating).
fn take_team_of_five(group: &mut Vec<Player>, t: u8) -> (team: Vec<Player>)
    requires
        old(group)@.len() >= TEAM_SIZE,
        only_tiers(old(group)@.to_multiset(), t, t),
        sorted_desc(old(group)@),
    ensures
        sorted_desc(final(group)@),
        team@.len() == TEAM_SIZE,
        final(group)@.len() == old(group)@.len() - TEAM_SIZE,
        team@.to_multiset().add(final(group)@.to_multiset()) == old(group)@.to_multiset(),
        only_tiers(final(group)@.to_multiset(), t, t),
        only_tiers(team@.to_multiset(), t, t),
{
    let mut team: Vec<Player> = Vec::new();
    while team.len() < TEAM_SIZE
        invariant
            team@.len() <= TEAM_SIZE,
            group@.len() + team@.len() == old(group)@.len(),
            old(group)@.len() >= TEAM_SIZE,
            team@.to_multiset().add(group@.to_multiset()) == old(group)@.to_multiset(),
            only_tiers(old(group)@.to_multiset(), t, t),
            sorted_desc(group@),
        decreases TEAM_SIZE - team@.len(),
    {
        let ghost g = group@;
        let ghost tm = team@;
        if team.len() % 2 == 0 {
            let p = group.remove(0);
            assert(g.contains(p));
            assert(g.to_multiset().count(p) > 0);
            assert(group@.to_multiset() == g.to_multiset().remove(p));
            team.push(p);
            assert(team@.to_multiset() == tm.to_multiset().insert(p));
            assert(team@.to_multiset().add(group@.to_multiset()) =~= tm.to_multiset().add(
                g.to_multiset(),
            ));
        } else {
            match group.pop() {
                Some(p) => {
                    assert(g.subrange(0, g.len() - 1) =~= g.remove(g.len() - 1));
                    assert(g.contains(p));
                    assert(g.to_multiset().count(p) > 0);
                    assert(group@.to_multiset() == g.to_multiset().remove(p));
                    team.push(p);
                    assert(team@.to_multiset() == tm.to_multiset().insert(p));
                    assert(team@.to_multiset().add(group@.to_multiset()) =~= tm.to_multiset().add(
                        g.to_multiset(),
                    ));
                },
                None => {},
            }
        }
    }
    assert forall|p: Player| #[trigger] group@.to_multiset().count(p) > 0 implies p.availability
        == t by {
        assert(old(group)@.to_multiset().count(p) > 0);
    }
    assert forall|p: Player| #[trigger] team@.to_multiset().count(p) > 0 implies p.availability
        == t by {
        assert(old(group)@.to_multiset().count(p) > 0);
    }
    team
}

/// Greedily builds a team of five from the fronts of two rating-sorted groups
/// of compatible tiers, taking each time the front with the higher rating (the
/// first group on a tie). When the two groups together hold fewer than five
/// players no team can be completed: the groups are left exactly as they were
/// and `None` is returned.
fn take_mixed_team(vx: &mut Vec<Player>, vy: &mut Vec<Player>, tx: u8, ty: u8) -> (r: Option<
    Vec<Player>,
>)
    requires
        only_tiers(old(vx)@.to_multiset(), tx, tx),
        only_tiers(old(vy)@.to_multiset(), ty, ty),
        sorted_desc(old(vx)@),
        sorted_desc(old(vy)@),
    ensures
        sorted_desc(final(vx)@),
        sorted_desc(final(vy)@),
        only_tiers(final(vx)@.to_multiset(), tx, tx),
        only_tiers(final(vy)@.to_multiset(), ty, ty),
        final(vx)@.len() <= old(vx)@.len(),
        final(vy)@.len() <= old(vy)@.len(),
        old(vx)@.len() + old(vy)@.len() < TEAM_SIZE <==> r is None,
        r is None ==> final(vx)@ == old(vx)@ && final(vy)@ == old(vy)@,
        r matches Some(team) ==> {
            &&& team@.len() == TEAM_SIZE
            &&& final(vx)@.len() + final(vy)@.len() + TEAM_SIZE == old(vx)@.len() + old(
                vy,
            )@.len()
            &&& team@.to_multiset().add(final(vx)@.to_multiset()).add(final(vy)@.to_multiset())
                == old(vx)@.to_multiset().add(old(vy)@.to_multiset())
            &&& only_tiers(team@.to_multiset(), tx, ty)
            &&& sorted_desc(team@)
            &&& forall|m: int, q: int|
                0 <= m < TEAM_SIZE && 0 <= q < final(vx)@.len() ==> (#[trigger] team@[m]).elo >= (
                #[trigger] final(vx)@[q]).elo
            &&& forall|m: int, q: int|
                0 <= m < TEAM_SIZE && 0 <= q < final(vy)@.len() ==> (#[trigger] team@[m]).elo >= (
                #[trigger] final(vy)@[q]).elo
        },
{
    if vx.len() < TEAM_SIZE && vy.len() < TEAM_SIZE - vx.len() {
        return None;
    }
    let mut team: Vec<Player> = Vec::new();
    while team.len() < TEAM_SIZE
        invariant
            team@.len() <= TEAM_SIZE,
            vx@.len() + vy@.len() + team@.len() == old(vx)@.len() + old(vy)@.len(),
            old(vx)@.len() + old(vy)@.len() >= TEAM_SIZE,
            vx@.len() <= old(vx)@.len(),
            vy@.len() <= old(vy)@.len(),
            team@.to_multiset().add(vx@.to_multiset()).add(vy@.to_multiset()) == old(
                vx,
            )@.to_multiset().add(old(vy)@.to_multiset()),
            only_tiers(vx@.to_multiset(), tx, tx),
            only_tiers(vy@.to_multiset(), ty, ty),
            only_tiers(team@.to_multiset(), tx, ty),
            sorted_desc(vx@),
            sorted_desc(vy@),
            sorted_desc(team@),
            forall|m: int, q: int|
                0 <= m < team@.len() && 0 <= q < vx@.len() ==> (#[trigger] team@[m]).elo >= (
                #[trigger] vx@[q]).elo,
            forall|m: int, q: int|
                0 <= m < team@.len() && 0 <= q < vy@.len() ==> (#[trigger] team@[m]).elo >= (
                #[trigger] vy@[q]).elo,
        decreases TEAM_SIZE - team@.len(),
    {
        let ghost gx = vx@;
        let ghost gy = vy@;
        let ghost tm = team@;
        if vx.len() > 0 && (vy.len() == 0 || vx[0].elo >= vy[0].elo) {
            let p = vx.remove(0);
            assert(gx.contains(p));
            assert(gx.to_multiset().count(p) > 0);
            assert(vx@.to_multiset() == gx.to_multiset().remove(p));
            team.push(p);
            assert(team@.to_multiset() == tm.to_multiset().insert(p));
            assert(team@.to_multiset().add(vx@.to_multiset()).add(vy@.to_multiset())
                =~= tm.to_multiset().add(gx.to_multiset()).add(gy.to_multiset()));
            assert forall|q: Player| #[trigger] vx@.to_multiset().count(q) > 0 implies q.availability
                == tx by {
                assert(gx.to_multiset().count(q) > 0);
            }
        } else {
            let p = vy.remove(0);
            assert(gy.contains(p));
            assert(gy.to_multiset().count(p) > 0);
            assert(vy@.to_multiset() == gy.to_multiset().remove(p));
            team.push(p);
            assert(team@.to_multiset() == tm.to_multiset().insert(p));
            assert(team@.to_multiset().add(vx@.to_multiset()).add(vy@.to_multiset())
                =~= tm.to_multiset().add(gx.to_multiset()).add(gy.to_multiset()));
            assert forall|q: Player| #[trigger] vy@.to_multiset().count(q) > 0 implies q.availability
                == ty by {
                assert(gy.to_multiset().count(q) > 0);
            }
        }
    }
    Some(team)
}


proof fn lemma_only_tiers_parts(a: Multiset<Player>, b: Multiset<Player>, x: u8, y: u8)
    requires
        only_tiers(a.add(b), x, y),
    ensures
        only_tiers(a, x, y),
        only_tiers(b, x, y),
{
    assert forall|p: Player| #[trigger] a.count(p) > 0 implies p.availability == x
        || p.availability == y by {
        assert(a.add(b).count(p) > 0);
    }
    assert forall|p: Player| #[trigger] b.count(p) > 0 implies p.availability == x
        || p.availability == y by {
        assert(a.add(b).count(p) > 0);
    }
}

/// All players held by a partition in progress: its teams and the four tier groups.
spec fn held(
    teams: Seq<Vec<Player>>,
    v1: Seq<Player>,
    v2: Seq<Player>,
    v3: Seq<Player>,
    v4: Seq<Player>,
) -> Multiset<Player> {
    pool(teams).add(v1.to_multiset()).add(v2.to_multiset()).add(v3.to_multiset()).add(
        v4.to_multiset(),
    )
}

/// The complete teams formed so far: all valid, the first `n1 / 5` of tier 1
/// only, the later ones without a tier-1 player.
spec fn formed(teams: Seq<Vec<Player>>, n1: nat) -> bool {
    &&& forall|k: int| 0 <= k < teams.len() ==> valid_team(#[trigger] teams[k]@)
    &&& forall|k: int, m: int|
        0 <= k < n1 / 5 && k < teams.len() && 0 <= m < teams[k]@.len() ==> (
        #[trigger] teams[k]@[m]).availability == 1
    &&& forall|k: int, m: int|
        n1 / 5 <= k < teams.len() && 0 <= m < teams[k]@.len() ==> (
        #[trigger] teams[k]@[m]).availability != 1
    &&& teams_fit(teams)
    &&& tier1_order(teams, n1)
    &&& forall|k: int| 0 <= k < teams.len() ==> sorted_desc(#[trigger] teams[k]@)
}

/// What holds between the stages of a partition.
spec fn stage(
    teams: Seq<Vec<Player>>,
    v1: Seq<Player>,
    v2: Seq<Player>,
    v3: Seq<Player>,
    v4: Seq<Player>,
    all: Multiset<Player>,
    n1: nat,
) -> bool {
    &&& held(teams, v1, v2, v3, v4) == all
    &&& only_tiers(v1.to_multiset(), 1, 1)
    &&& only_tiers(v2.to_multiset(), 2, 2)
    &&& only_tiers(v3.to_multiset(), 3, 3)
    &&& only_tiers(v4.to_multiset(), 4, 4)
    &&& formed(teams, n1)
    &&& sorted_desc(v2)
    &&& sorted_desc(v3)
    &&& sorted_desc(v4)
}

proof fn lemma_push_team(teams: Seq<Vec<Player>>, team: Vec<Player>, n1: nat, x: u8, y: u8)
    requires
        formed(teams, n1),
        team@.len() == TEAM_SIZE,
        only_tiers(team@.to_multiset(), x, y),
        compatible_tiers(x, y),
        sorted_desc(team@),
        x == 1 <==> teams.len() < n1 / 5,
        y == 1 <==> teams.len() < n1 / 5,
        teams.len() < n1 / 5 ==> forall|k: int, m: int, m2: int|
            0 <= k < teams.len() && 0 <= m < teams[k]@.len() && 0 <= m2 < TEAM_SIZE ==> (
            #[trigger] teams[k]@[m]).elo >= (#[trigger] team@[m2]).elo,
        teams.len() < n1 / 5 ==> forall|m: int, m2: int|
            0 <= m <= m2 < TEAM_SIZE ==> (#[trigger] team@[m]).elo >= (#[trigger] team@[m2]).elo,
    ensures
        formed(teams.push(team), n1),
        pool(teams.push(team)) == pool(teams).add(team@.to_multiset()),
{
    lemma_only_tiers_valid(team@, x, y);
    lemma_seq_only_tiers(team@, x, y);
    lemma_pool_push(teams, team);
    let t = teams.push(team);
    assert(forall|k: int| 0 <= k < teams.len() ==> t[k] == teams[k]);
    assert(t[teams.len() as int] == team);
    assert forall|k: int, k2: int, m: int, m2: int|
        0 <= k <= k2 < n1 / 5 && k2 < t.len() && 0 <= m < t[k]@.len() && 0 <= m2 < t[k2]@.len()
            && (k < k2 || m <= m2) implies #[trigger] t[k]@[m].elo >= #[trigger] t[k2]@[m2].elo by {
        if k2 == teams.len() {
            if k < k2 {
                assert(teams[k]@[m].elo >= team@[m2].elo);
            } else {
                assert(team@[m].elo >= team@[m2].elo);
            }
        } else {
            assert(teams[k]@[m].elo >= teams[k2]@[m2].elo);
        }
    }
}

/// Splits a roster into teams. Players are bucketed by tier and each bucket is
/// sorted by rating, highest first. The tier-1 bucket is cut into consecutive
/// teams of five. Then teams are merged greedily from tiers 2 and 3, and after
/// that from tiers 3 and 4, as long as the two buckets together hold five.
/// What remains of a single tier is formed into teams by alternating between
/// its strongest and weakest players, and any players still left make one
/// last team, which may be short or invalid.
///
/// A player whose tier is outside `1..=4` is an error (the first such one is
/// named), and so is a tier-1 count that is not a multiple of five.
pub fn sort_players_into_teams(players: Vec<Player>) -> (r: Result<
    Vec<Vec<Player>>,
    PartitionError,
>)
    ensures
        match r {
            Err(PartitionError::InvalidAvailability(i)) => {
                &&& i < players@.len()
                &&& !known_tier(players@[i as int].availability)
                &&& forall|k: int| 0 <= k < i ==> known_tier(#[trigger] players@[k].availability)
            },
            Err(PartitionError::Tier1Remainder) => {
                &&& forall|k: int|
                    0 <= k < players@.len() ==> known_tier(#[trigger] players@[k].availability)
                &&& count_tier(players@, 1) % 5 != 0
            },
            Ok(teams) => {
                &&& forall|k: int|
                    0 <= k < players@.len() ==> known_tier(#[trigger] players@[k].availability)
                &&& count_tier(players@, 1) % 5 == 0
                &&& pool(teams@) == players@.to_multiset()
                &&& partition_shape(teams@, count_tier(players@, 1))
                &&& all_tier1_exclusive(teams@)
                &&& teams_fit(teams@)
            },
        },
{
    let ghost orig = players@;
    let ghost n1 = count_tier(orig, 1);
    let n: usize = players.len();
    let mut rest = players;
    let mut v1: Vec<Player> = Vec::new();
    let mut v2: Vec<Player> = Vec::new();
    let mut v3: Vec<Player> = Vec::new();
    let mut v4: Vec<Player> = Vec::new();
    let mut idx: usize = 0;
    while rest.len() > 0
        invariant
            orig == players@,
            orig.len() == n,
            idx + rest@.len() == orig.len(),
            rest@ == orig.subrange(idx as int, orig.len() as int),
            forall|k: int| 0 <= k < idx ==> known_tier(#[trigger] orig[k].availability),
            v1@.to_multiset().add(v2@.to_multiset()).add(v3@.to_multiset()).add(v4@.to_multiset())
                == orig.subrange(0, idx as int).to_multiset(),
            only_tiers(v1@.to_multiset(), 1, 1),
            only_tiers(v2@.to_multiset(), 2, 2),
            only_tiers(v3@.to_multiset(), 3, 3),
            only_tiers(v4@.to_multiset(), 4, 4),
            v1@.len() == count_tier(orig.subrange(0, idx as int), 1),
        decreases rest@.len(),
    {
        let ghost pre = orig.subrange(0, idx as int);
        let ghost m1 = v1@.to_multiset();
        let ghost m2 = v2@.to_multiset();
        let ghost m3 = v3@.to_multiset();
        let ghost m4 = v4@.to_multiset();
        let p = rest.remove(0);
        assert(p == orig[idx as int]);
        assert(orig.subrange(0, idx + 1) =~= pre.push(p));
        assert(pre.push(p).drop_last() =~= pre);
        if p.availability == 1 {
            v1.push(p);
        } else if p.availability == 2 {
            v2.push(p);
        } else if p.availability == 3 {
            v3.push(p);
        } else if p.availability == 4 {
            v4.push(p);
        } else {
            assert(!known_tier(orig[idx as int].availability));
            assert(idx < orig.len());
            assert(forall|k: int| 0 <= k < idx ==> known_tier(#[trigger] orig[k].availability));
            return Err(PartitionError::InvalidAvailability(idx));
        }
        assert(v1@.to_multiset().add(v2@.to_multiset()).add(v3@.to_multiset()).add(
            v4@.to_multiset(),
        ) =~= m1.add(m2).add(m3).add(m4).insert(p));
        idx = idx + 1;
    }
    assert(orig.subrange(0, idx as int) =~= orig);
    sort_by_rating_desc(&mut v1);
    sort_by_rating_desc(&mut v2);
    sort_by_rating_desc(&mut v3);
    sort_by_rating_desc(&mut v4);
    if v1.len() % TEAM_SIZE != 0 {
        return Err(PartitionError::Tier1Remainder);
    }
    let mut teams: Vec<Vec<Player>> = Vec::new();
    assert(pool(teams@) =~= Multiset::empty());
    assert(held(teams@, v1@, v2@, v3@, v4@) =~= orig.to_multiset());
    while v1.len() >= TEAM_SIZE
        invariant
            stage(teams@, v1@, v2@, v3@, v4@, orig.to_multiset(), n1),
            v1@.len() % 5 == 0,
            teams@.len() + v1@.len() / 5 == n1 / 5,
            forall|a: int, b: int|
                0 <= a <= b < v1@.len() ==> (#[trigger] v1@[a]).elo >= (#[trigger] v1@[b]).elo,
            forall|k: int, m: int, b: int|
                0 <= k < teams@.len() && 0 <= m < teams@[k]@.len() && 0 <= b < v1@.len() ==> (
                #[trigger] teams@[k]@[m]).elo >= (#[trigger] v1@[b]).elo,
        decreases v1@.len(),
    {
        let ghost g1 = v1@;
        let ghost tm = teams@;
        let mut team = v1.split_off(TEAM_SIZE);
        std::mem::swap(&mut team, &mut v1);
        proof {
            assert(g1 =~= team@ + v1@);
            lemma_multiset_commutative(team@, v1@);
            lemma_only_tiers_parts(team@.to_multiset(), v1@.to_multiset(), 1, 1);
            assert(forall|m: int| 0 <= m < TEAM_SIZE ==> #[trigger] team@[m] == g1[m]);
            assert(forall|b: int| 0 <= b < v1@.len() ==> #[trigger] v1@[b] == g1[b + 5]);
            lemma_push_team(tm, team, n1, 1, 1);
        }
        teams.push(team);
        proof {
            let t = teams@;
            assert(forall|k: int| 0 <= k < tm.len() ==> t[k] == tm[k]);
            assert forall|k: int, m: int, b: int|
                0 <= k < t.len() && 0 <= m < t[k]@.len() && 0 <= b < v1@.len() implies (
                #[trigger] t[k]@[m]).elo >= (#[trigger] v1@[b]).elo by {
                assert(v1@[b] == g1[b + 5]);
                if k < tm.len() {
                    assert(tm[k]@[m].elo >= g1[b + 5].elo);
                } else {
                    assert(t[k]@[m] == g1[m]);
                }
            }
        }
        assert(held(teams@, v1@, v2@, v3@, v4@) =~= held(tm, g1, v2@, v3@, v4@));
    }
    while v2.len() >= TEAM_SIZE || TEAM_SIZE - v2.len() <= v3.len()
        invariant
            stage(teams@, v1@, v2@, v3@, v4@, orig.to_multiset(), n1),
            v1@.len() == 0,
            teams@.len() >= n1 / 5,
        decreases v2@.len() + v3@.len(),
    {
        let ghost g2 = v2@;
        let ghost g3 = v3@;
        let ghost tm = teams@;
        match take_mixed_team(&mut v2, &mut v3, 2, 3) {
            Some(team) => {
                assert(team@.to_multiset().add(v2@.to_multiset()).add(v3@.to_multiset())
                    == g2.to_multiset().add(g3.to_multiset()));
                proof {
                    lemma_push_team(tm, team, n1, 2, 3);
                }
                teams.push(team);
                assert forall|q: Player|
                    held(teams@, v1@, v2@, v3@, v4@).count(q) == #[trigger] orig.to_multiset().count(q) by {
                    assert(team@.to_multiset().add(v2@.to_multiset()).add(v3@.to_multiset()).count(q)
                        == g2.to_multiset().add(g3.to_multiset()).count(q));
                }
                assert(held(teams@, v1@, v2@, v3@, v4@) =~= orig.to_multiset());
            },
            None => {},
        }
    }
    while v3.len() >= TEAM_SIZE || TEAM_SIZE - v3.len() <= v4.len()
        invariant
            stage(teams@, v1@, v2@, v3@, v4@, orig.to_multiset(), n1),
            v1@.len() == 0,
            v2@.len() + v3@.len() < 5,
            teams@.len() >= n1 / 5,
        decreases v3@.len() + v4@.len(),
    {
        let ghost g3 = v3@;
        let ghost g4 = v4@;
        let ghost tm = teams@;
        match take_mixed_team(&mut v3, &mut v4, 3, 4) {
            Some(team) => {
                assert(team@.to_multiset().add(v3@.to_multiset()).add(v4@.to_multiset())
                    == g3.to_multiset().add(g4.to_multiset()));
                proof {
                    lemma_push_team(tm, team, n1, 3, 4);
                }
                teams.push(team);
                assert forall|q: Player|
                    held(teams@, v1@, v2@, v3@, v4@).count(q) == #[trigger] orig.to_multiset().count(q) by {
                    assert(team@.to_multiset().add(v3@.to_multiset()).add(v4@.to_multiset()).count(q)
                        == g3.to_multiset().add(g4.to_multiset()).count(q));
                }
                assert(held(teams@, v1@, v2@, v3@, v4@) =~= orig.to_multiset());
            },
            None => {},
        }
    }
    // The merges leave fewer than five players in each of tiers 2, 3 and 4, so
    // the single-tier formation below finds nothing to do; it stays as the
    // rule for a tier that still holds five.
    while v2.len() >= TEAM_SIZE
        invariant
            stage(teams@, v1@, v2@, v3@, v4@, orig.to_multiset(), n1),
            v1@.len() == 0,
            v3@.len() + v4@.len() < 5,
            v2@.len() + v3@.len() < 5,
            v2@.len() < 5,
            teams@.len() >= n1 / 5,
        decreases v2@.len(),
    {
        let ghost g2 = v2@;
        let ghost tm = teams@;
        let team = take_team_of_five(&mut v2, 2);
        proof {
            lemma_push_team(tm, team, n1, 2, 2);
        }
        teams.push(team);
        assert(held(teams@, v1@, v2@, v3@, v4@) =~= held(tm, v1@, g2, v3@, v4@));
    }
    while v3.len() >= TEAM_SIZE
        invariant
            stage(teams@, v1@, v2@, v3@, v4@, orig.to_multiset(), n1),
            v1@.len() == 0,
            v2@.len() < 5,
            v3@.len() + v4@.len() < 5,
            v2@.len() + v3@.len() < 5,
            v3@.len() < 5,
            teams@.len() >= n1 / 5,
        decreases v3@.len(),
    {
        let ghost g3 = v3@;
        let ghost tm = teams@;
        let team = take_team_of_five(&mut v3, 3);
        proof {
            lemma_push_team(tm, team, n1, 3, 3);
        }
        teams.push(team);
        assert(held(teams@, v1@, v2@, v3@, v4@) =~= held(tm, v1@, v2@, g3, v4@));
    }
    while v4.len() >= TEAM_SIZE
        invariant
            stage(teams@, v1@, v2@, v3@, v4@, orig.to_multiset(), n1),
            v1@.len() == 0,
            v2@.len() < 5,
            v3@.len() < 5,
            v3@.len() + v4@.len() < 5,
            v2@.len() + v3@.len() < 5,
            v4@.len() < 5,
            teams@.len() >= n1 / 5,
        decreases v4@.len(),
    {
        let ghost g4 = v4@;
        let ghost tm = teams@;
        let team = take_team_of_five(&mut v4, 4);
        proof {
            lemma_push_team(tm, team, n1, 4, 4);
        }
        teams.push(team);
        assert(held(teams@, v1@, v2@, v3@, v4@) =~= held(tm, v1@, v2@, v3@, g4));
    }
    let ghost complete = teams@;
    if v2.len() > 0 || v3.len() > 0 || v4.len() > 0 {
        let ghost g2 = v2@;
        let ghost g3 = v3@;
        let ghost g4 = v4@;
        let mut last: Vec<Player> = Vec::new();
        last.append(&mut v2);
        last.append(&mut v3);
        last.append(&mut v4);
        proof {
            assert(last@ =~= (g2 + g3) + g4);
            lemma_multiset_commutative(g2 + g3, g4);
            lemma_multiset_commutative(g2, g3);
            lemma_seq_only_tiers(g2, 2, 2);
            lemma_seq_only_tiers(g3, 3, 3);
            lemma_seq_only_tiers(g4, 4, 4);
            lemma_count_append(g2 + g3, g4, 1);
            lemma_count_append(g2 + g3, g4, 2);
            lemma_count_append(g2 + g3, g4, 3);
            lemma_count_append(g2 + g3, g4, 4);
            lemma_count_append(g2, g3, 1);
            lemma_count_append(g2, g3, 2);
            lemma_count_append(g2, g3, 3);
            lemma_count_append(g2, g3, 4);
            lemma_count_uniform(g2, 2, 1);
            lemma_count_uniform(g2, 2, 2);
            lemma_count_uniform(g2, 2, 3);
            lemma_count_uniform(g2, 2, 4);
            lemma_count_uniform(g3, 3, 1);
            lemma_count_uniform(g3, 3, 2);
            lemma_count_uniform(g3, 3, 3);
            lemma_count_uniform(g3, 3, 4);
            lemma_count_uniform(g4, 4, 1);
            lemma_count_uniform(g4, 4, 2);
            lemma_count_uniform(g4, 4, 3);
            lemma_count_uniform(g4, 4, 4);
            let l = last@;
            assert forall|a: int, b: int| 0 <= a <= b < l.len() implies (#[trigger] l[a]).availability
                < (#[trigger] l[b]).availability || (l[a].availability == l[b].availability
                && l[a].elo >= l[b].elo) by {
                let n2 = g2.len() as int;
                let n3 = g3.len() as int;
                if b < n2 {
                    assert(l[a] == g2[a] && l[b] == g2[b]);
                } else if b < n2 + n3 {
                    assert(l[b] == g3[b - n2]);
                    if a >= n2 {
                        assert(l[a] == g3[a - n2]);
                    } else {
                        assert(l[a] == g2[a]);
                    }
                } else {
                    assert(l[b] == g4[b - n2 - n3]);
                    if a >= n2 + n3 {
                        assert(l[a] == g4[a - n2 - n3]);
                    } else if a >= n2 {
                        assert(l[a] == g3[a - n2]);
                    } else {
                        assert(l[a] == g2[a]);
                    }
                }
            }
            if l.len() == TEAM_SIZE {
                assert(g2.len() > 0 && g4.len() > 0);
                assert(l[0] == g2[0]);
                assert(l[l.len() - 1] == g4[g4.len() - 1]);
                assert(!compatible_tiers(l[0].availability, l[l.len() - 1].availability));
            }
            assert(leftover_team(last@));
            assert forall|m: int| 0 <= m < last@.len() implies (#[trigger] last@[m]).availability
                != 1 by {
                if m < g2.len() {
                    assert(last@[m] == g2[m]);
                } else if m < g2.len() + g3.len() {
                    assert(last@[m] == g3[m - g2.len()]);
                } else {
                    assert(last@[m] == g4[m - g2.len() - g3.len()]);
                }
            }
            lemma_pool_push(complete, last);
        }
        teams.push(last);
        assert(pool(teams@) =~= held(complete, v1@, g2, g3, g4));
        let ghost t = teams@;
        assert(forall|k: int| 0 <= k < complete.len() ==> t[k] == complete[k]);
    } else {
        assert(pool(teams@) =~= held(complete, v1@, v2@, v3@, v4@));
    }
    proof {
        let t = teams@;
        assert forall|k: int| 0 <= k < t.len() implies tier1_exclusive(#[trigger] t[k]@) by {
            if k >= n1 / 5 {
                assert forall|m: int| 0 <= m < t[k]@.len() implies (#[trigger] t[k]@[m]).availability
                    != 1 by {
                    if k < complete.len() {
                        assert(t[k] == complete[k]);
                    }
                }
            }
        }
        assert forall|k: int| 0 <= k < t.len() implies team_fits(#[trigger] t[k]@) by {
            if k < complete.len() {
                assert(t[k] == complete[k]);
            }
        }
    }
    Ok(teams)
}

} // verus!
