//! Settings of a batch of games between solutions, and the referee that
//! plays them.

use vstd::prelude::*;

verus! {

/// The names of the registered solutions.
pub fn get_solution_names() -> (r: Vec<&'static str>)
    ensures
        r@.len() == 1,
        r@[0]@ == "naive"@,
{
    let mut r: Vec<&'static str> = Vec::new();
    r.push("naive");
    r
}

/// Plays a batch of games between solutions.
pub trait MultiReferee {
    /// Plays `num_trial_per_solution` games for each of `solution_names`,
    /// `players_per_game` solutions to a game.
    fn run(&self, solution_names: &Vec<String>, players_per_game: usize, num_trial_per_solution: usize);
}

/// What a batch of games is made of: the solutions taking part, how many
/// play each game, and how many games each plays.
pub struct MultiTestConfig<R> {
    referee: R,
    solution_names: Vec<String>,
    players_per_game: usize,
    num_trial_per_solution: usize,
}

impl<R> MultiTestConfig<R> {
    /// The solutions taking part.
    pub closed spec fn spec_solution_names(&self) -> Seq<Seq<char>> {
        self.solution_names@.map_values(|s: String| s@)
    }

    /// How many solutions play each game.
    pub closed spec fn spec_players_per_game(&self) -> usize {
        self.players_per_game
    }

    /// How many games each solution plays.
    pub closed spec fn spec_num_trial_per_solution(&self) -> usize {
        self.num_trial_per_solution
    }

    /// Every registered solution, two to a game, ten games each.
    pub fn new(referee: R) -> (r: Self)
        ensures
            r.spec_solution_names() == seq!["naive"@],
            r.spec_players_per_game() == 2,
            r.spec_num_trial_per_solution() == 10,
    {
        let names = get_solution_names();
        let mut solution_names: Vec<String> = Vec::new();
        let mut i: usize = 0;
        while i < names.len()
            invariant
                i <= names@.len(),
                solution_names@.len() == i,
                forall|k: int| 0 <= k < i ==> (#[trigger] solution_names@[k])@ == names@[k]@,
            decreases names@.len() - i,
        {
            solution_names.push(names[i].to_owned());
            i = i + 1;
        }
        let r = MultiTestConfig { referee, solution_names, players_per_game: 2, num_trial_per_solution: 10 };
        proof {
            assert(r.spec_solution_names() =~= seq!["naive"@]);
        }
        r
    }

    /// The same settings with `solution_names` taking part instead.
    pub fn solution_names(self, solution_names: Vec<String>) -> (r: Self)
        ensures
            r.spec_solution_names() == solution_names@.map_values(|s: String| s@),
            r.spec_players_per_game() == self.spec_players_per_game(),
            r.spec_num_trial_per_solution() == self.spec_num_trial_per_solution(),
    {
        let mut s = self;
        s.solution_names = solution_names;
        s
    }

    /// The same settings with `num_trial_per_solution` games for each solution.
    pub fn num_trial_per_solution(self, num_trial_per_solution: usize) -> (r: Self)
        ensures
            r.spec_solution_names() == self.spec_solution_names(),
            r.spec_players_per_game() == self.spec_players_per_game(),
            r.spec_num_trial_per_solution() == num_trial_per_solution,
    {
        let mut s = self;
        s.num_trial_per_solution = num_trial_per_solution;
        s
    }

    /// Has the referee play the batch.
    pub fn run(self) where R: MultiReferee {
        self.referee.run(&self.solution_names, self.players_per_game, self.num_trial_per_solution);
    }
}

} // verus!
