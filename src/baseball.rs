//! Baseball elimination: the teams of a division and their records.

use vstd::prelude::*;

verus! {

/// A team, by name.
#[derive(Debug, Clone, Eq, PartialEq)]
pub struct BaseballTeam(pub String);

/// `n!`.
pub open spec fn fact(n: nat) -> nat
    decreases n,
{
    if n == 0 {
        1
    } else {
        n * fact((n - 1) as nat)
    }
}

/// `n!`.
pub fn factorial(n: usize) -> (r: usize)
    requires
        fact(n as nat) <= usize::MAX,
    ensures
        r == fact(n as nat),
{
    assert(fact(0) == 1);
    if n == 0 {
        1
    } else {
        let mut k = n;
        let mut result: usize = 1;
        while k > 0
            invariant
                fact(n as nat) <= usize::MAX,
                k <= n,
                result * fact(k as nat) == fact(n as nat),
            decreases k,
        {
            proof {
                lemma_fact_positive((k - 1) as nat);
                assert(result * k <= fact(n as nat)) by (nonlinear_arith)
                    requires
                        result * fact(k as nat) == fact(n as nat),
                        fact(k as nat) == k * fact((k - 1) as nat),
                        fact((k - 1) as nat) >= 1,
                        k > 0,
                ;
                assert((result * k) * fact((k - 1) as nat) == result * (k * fact((k - 1) as nat))) by (nonlinear_arith);
            }
            result = result * k;
            k -= 1;
        }
        assert(result * fact(0) == result);
        result
    }
}

proof fn lemma_fact_positive(n: nat)
    ensures
        fact(n) >= 1,
    decreases n,
{
    if n > 0 {
        lemma_fact_positive((n - 1) as nat);
        assert(n * fact((n - 1) as nat) >= 1) by (nonlinear_arith)
            requires
                n >= 1,
                fact((n - 1) as nat) >= 1,
        ;
    }
}

/// A division: its teams, each team's wins, losses and games left, and the games left
/// between each pair of its teams.
#[derive(Debug, Clone)]
pub struct BaseballDivision {
    teams: Vec<BaseballTeam>,
    wins: Vec<i32>,
    losses: Vec<i32>,
    remaining: Vec<i32>,
    remaining_per_team: Vec<Vec<i32>>,
}

impl BaseballDivision {
    /// The teams.
    pub closed spec fn team_seq(&self) -> Seq<BaseballTeam> {
        self.teams@
    }

    /// Each team's wins.
    pub closed spec fn win_seq(&self) -> Seq<i32> {
        self.wins@
    }

    /// Each team's losses.
    pub closed spec fn loss_seq(&self) -> Seq<i32> {
        self.losses@
    }

    /// Each team's games left, in the division or outside it.
    pub closed spec fn remaining_seq(&self) -> Seq<i32> {
        self.remaining@
    }

    /// The games left between each pair of teams.
    pub closed spec fn against_seq(&self) -> Seq<Seq<i32>> {
        Seq::new(self.remaining_per_team@.len(), |i: int| self.remaining_per_team@[i]@)
    }

    /// Every record has one entry per team.
    pub open spec fn wf(&self) -> bool {
        let n = self.team_seq().len();
        &&& self.win_seq().len() == n
        &&& self.loss_seq().len() == n
        &&& self.remaining_seq().len() == n
        &&& self.against_seq().len() == n
        &&& forall|i: int| 0 <= i < n ==> (#[trigger] self.against_seq()[i]).len() == n
    }

    /// A division of `teams` with their records, all indexed by team.
    pub fn new(
        teams: Vec<BaseballTeam>,
        wins: Vec<i32>,
        losses: Vec<i32>,
        remaining: Vec<i32>,
        remaining_per_team: Vec<Vec<i32>>,
    ) -> (r: BaseballDivision)
        requires
            wins@.len() == teams@.len(),
            losses@.len() == teams@.len(),
            remaining@.len() == teams@.len(),
            remaining_per_team@.len() == teams@.len(),
            forall|i: int| 0 <= i < teams@.len() ==> (#[trigger] remaining_per_team@[i])@.len() == teams@.len(),
        ensures
            r.wf(),
            r.team_seq() == teams@,
            r.win_seq() == wins@,
            r.loss_seq() == losses@,
            r.remaining_seq() == remaining@,
            r.against_seq() == Seq::new(remaining_per_team@.len(), |i: int| remaining_per_team@[i]@),
    {
        BaseballDivision { teams, wins, losses, remaining, remaining_per_team }
    }

    /// The teams.
    pub fn teams(&self) -> (r: &[BaseballTeam])
        ensures
            r@ == self.team_seq(),
    {
        self.teams.as_slice()
    }

    /// Each team's wins.
    pub fn wins(&self) -> (r: &[i32])
        ensures
            r@ == self.win_seq(),
    {
        self.wins.as_slice()
    }

    /// Each team's games left.
    pub fn remaining(&self) -> (r: &[i32])
        ensures
            r@ == self.remaining_seq(),
    {
        self.remaining.as_slice()
    }

    /// The games left between teams `i` and `j`.
    pub fn remaining_between(&self, i: usize, j: usize) -> (r: i32)
        requires
            self.wf(),
            i < self.team_seq().len(),
            j < self.team_seq().len(),
        ensures
            r == self.against_seq()[i as int][j as int],
    {
        assert(self.against_seq()[i as int] == self.remaining_per_team@[i as int]@);
        self.remaining_per_team[i][j]
    }

    /// The first other team that has already won more games than team `x` can reach
    /// by winning all its games left, if any.
    pub fn trivially_eliminated_by(&self, x: usize) -> (r: Option<usize>)
        requires
            self.wf(),
            x < self.team_seq().len(),
        ensures
            match r {
                Some(i) => i < self.team_seq().len() && i != x && self.win_seq()[x as int] as int
                    + self.remaining_seq()[x as int] < self.win_seq()[i as int] && forall|j: int|
                    0 <= j < i && j != x ==> self.win_seq()[x as int] as int + self.remaining_seq()[x as int]
                        >= #[trigger] self.win_seq()[j],
                None => forall|j: int|
                    0 <= j < self.team_seq().len() && j != x ==> self.win_seq()[x as int] as int
                        + self.remaining_seq()[x as int] >= #[trigger] self.win_seq()[j],
            },
    {
        let best = self.wins[x] as i64 + self.remaining[x] as i64;
        let mut i: usize = 0;
        while i < self.teams.len()
            invariant
                self.wf(),
                x < self.team_seq().len(),
                i <= self.team_seq().len(),
                best == self.win_seq()[x as int] as int + self.remaining_seq()[x as int],
                forall|j: int| 0 <= j < i && j != x ==> best >= #[trigger] self.win_seq()[j],
            decreases self.team_seq().len() - i,
        {
            if i != x && best < self.wins[i] as i64 {
                return Some(i);
            }
            i += 1;
        }
        None
    }
}

} // verus!
