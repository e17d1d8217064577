//! Expected-value calculator configuration and the action choices its
//! simulated opponents make.

use vstd::prelude::*;
use crate::game::holdem::{thread_rng_handle, random_index, Act};
use rand::rngs::ThreadRng;

verus! {

/// Settings of an expected-value calculation.
#[derive(Debug, Clone)]
pub struct EVConfig {
    /// Simulated games per action.
    pub sample_count: usize,
    /// Deepest simulation step.
    pub max_depth: u8,
    /// Simulated opponents follow the opponent model rather than pick at
    /// random.
    pub use_opponent_model: bool,
}

impl Default for EVConfig {
    /// 10,000 samples, depth 10, opponent model on.
    fn default() -> (c: Self)
        ensures
            c.sample_count == 10000,
            c.max_depth == 10,
            c.use_opponent_model,
    {
        Self { sample_count: 10000, max_depth: 10, use_opponent_model: true }
    }
}

/// Whether two strings hold the same characters.
pub fn str_equal(a: &str, b: &str) -> (eq: bool)
    ensures
        eq == (a@ == b@),
{
    let n = a.unicode_len();
    if n != b.unicode_len() {
        return false;
    }
    let mut i: usize = 0;
    while i < n
        invariant
            n == a@.len(),
            n == b@.len(),
            0 <= i <= n,
            forall|j: int| 0 <= j < i ==> a@[j] == b@[j],
        decreases n - i,
    {
        if a.get_char(i) != b.get_char(i) {
            return false;
        }
        i = i + 1;
    }
    assert(a@ =~= b@);
    true
}

impl EVConfig {
    /// Settings for an analysis depth: "quick" is 1,000 samples at depth 5
    /// without the opponent model, "deep" 50,000 samples at depth 15 with
    /// it, anything else the default.
    pub fn for_depth(depth: &str) -> (c: Self)
        ensures
            depth@ == "quick"@ ==> c.sample_count == 1000 && c.max_depth == 5 && !c.use_opponent_model,
            depth@ == "deep"@ ==> c.sample_count == 50000 && c.max_depth == 15 && c.use_opponent_model,
            depth@ != "quick"@ && depth@ != "deep"@ ==> c.sample_count == 10000 && c.max_depth == 10
                && c.use_opponent_model,
    {
        proof {
            reveal_strlit("quick");
            reveal_strlit("standard");
            reveal_strlit("deep");
            assert("quick"@.len() == 5);
            assert("standard"@.len() == 8);
            assert("deep"@.len() == 4);
        }
        if str_equal(depth, "quick") {
            EVConfig { sample_count: 1000, max_depth: 5, use_opponent_model: false }
        } else if str_equal(depth, "standard") {
            EVConfig::default()
        } else if str_equal(depth, "deep") {
            EVConfig { sample_count: 50000, max_depth: 15, use_opponent_model: true }
        } else {
            EVConfig::default()
        }
    }

    /// Quick analysis settings: the given sample count (1,000 when none),
    /// depth 5, opponent model on.
    pub fn quick(sample_count: Option<usize>) -> (c: Self)
        ensures
            c.sample_count == match sample_count {
                Some(n) => n,
                None => 1000,
            },
            c.max_depth == 5,
            c.use_opponent_model,
    {
        let n = match sample_count {
            Some(n) => n,
            None => 1000,
        };
        EVConfig { sample_count: n, max_depth: 5, use_opponent_model: true }
    }

    /// Detailed analysis settings: 50,000 samples, depth 15, opponent
    /// model on.
    pub fn detailed() -> (c: Self)
        ensures
            c.sample_count == 50000,
            c.max_depth == 15,
            c.use_opponent_model,
    {
        EVConfig { sample_count: 50000, max_depth: 15, use_opponent_model: true }
    }
}

/// Calculator of each action's expected value under a configuration.
pub struct EVCalculator {
    config: EVConfig,
}

/// The action is of kind `kind`: 0 fold, 1 call, 2 any raise.
pub open spec fn of_kind(a: Act, kind: int) -> bool {
    match a {
        Act::Fold => kind == 0,
        Act::Call => kind == 1,
        Act::Raise(_) => kind == 2,
    }
}

/// Index of the first action of kind `kind`.
pub open spec fn first_index(actions: Seq<Act>, kind: int) -> Option<int>
    decreases actions.len(),
{
    if actions.len() == 0 {
        None
    } else {
        match first_index(actions.drop_last(), kind) {
            Some(i) => Some(i),
            None => if of_kind(actions.last(), kind) {
                Some(actions.len() - 1)
            } else {
                None
            },
        }
    }
}

/// The first action of kind `first`, else the first of kind `second`, else
/// the first action.
pub open spec fn pick(actions: Seq<Act>, first: int, second: int) -> Act {
    match first_index(actions, first) {
        Some(i) => actions[i],
        None => match first_index(actions, second) {
            Some(j) => actions[j],
            None => actions[0],
        },
    }
}

/// Finds the first action of kind `kind` (0 fold, 1 call, 2 any raise).
fn find_kind(actions: &[Act], kind: u8) -> (r: Option<usize>)
    ensures
        match r {
            Some(i) => first_index(actions@, kind as int) == Some(i as int),
            None => first_index(actions@, kind as int) == None::<int>,
        },
        r matches Some(i) ==> i < actions@.len(),
{
    let mut i: usize = 0;
    while i < actions.len()
        invariant
            0 <= i <= actions@.len(),
            first_index(actions@.subrange(0, i as int), kind as int) == None::<int>,
        decreases actions@.len() - i,
    {
        let hit = match actions[i] {
            Act::Fold => kind == 0,
            Act::Call => kind == 1,
            Act::Raise(_) => kind == 2,
        };
        proof {
            let pre = actions@.subrange(0, i as int);
            let nxt = actions@.subrange(0, i + 1);
            assert(nxt.drop_last() =~= pre);
        }
        if hit {
            proof {
                lemma_first_index_prefix(actions@, kind as int, i as int);
            }
            return Some(i);
        }
        i = i + 1;
    }
    assert(actions@.subrange(0, actions@.len() as int) =~= actions@);
    None
}

proof fn lemma_first_index_prefix(actions: Seq<Act>, kind: int, i: int)
    requires
        0 <= i < actions.len(),
        first_index(actions.subrange(0, i), kind) == None::<int>,
        of_kind(actions[i], kind),
    ensures
        first_index(actions, kind) == Some(i),
    decreases actions.len(),
{
    if i < actions.len() - 1 {
        assert(actions.drop_last().subrange(0, i) =~= actions.subrange(0, i));
        lemma_first_index_prefix(actions.drop_last(), kind, i);
    } else {
        assert(actions.drop_last() =~= actions.subrange(0, i));
    }
}

/// The first action of kind `first`, else of kind `second`, else the first
/// action.
fn pick_kind(actions: &[Act], first: u8, second: u8) -> (a: Act)
    requires
        actions@.len() > 0,
    ensures
        a == pick(actions@, first as int, second as int),
{
    match find_kind(actions, first) {
        Some(i) => actions[i],
        None => match find_kind(actions, second) {
            Some(j) => actions[j],
            None => actions[0],
        },
    }
}

impl EVCalculator {
    /// Calculator with the given settings.
    pub fn new(config: EVConfig) -> (c: Self)
        ensures
            c.config() == config,
    {
        Self { config }
    }

    /// Calculator with the default settings (10,000 samples, depth 10,
    /// opponent model on).
    pub fn default() -> (c: Self)
        ensures
            c.config().sample_count == 10000,
            c.config().max_depth == 10,
            c.config().use_opponent_model,
    {
        Self::new(EVConfig::default())
    }

    /// The calculator's settings.
    pub closed spec fn config(&self) -> EVConfig {
        self.config
    }

    /// Number of simulated games per action.
    pub fn sample_count(&self) -> (n: usize)
        ensures
            n == self.config().sample_count,
    {
        self.config.sample_count
    }

    /// Deepest simulation step.
    pub fn max_depth(&self) -> (d: u8)
        ensures
            d == self.config().max_depth,
    {
        self.config.max_depth
    }

    /// Whether simulated opponents follow the opponent model.
    pub fn uses_opponent_model(&self) -> (b: bool)
        ensures
            b == self.config().use_opponent_model,
    {
        self.config.use_opponent_model
    }

    /// Defensive choice: fold if possible, else call, else the first action.
    pub fn select_defensive_action(&self, actions: &[Act]) -> (a: Act)
        requires
            actions@.len() > 0,
        ensures
            a == pick(actions@, 0, 1),
    {
        pick_kind(actions, 0, 1)
    }

    /// Value choice with a very strong hand: raise if possible, else call,
    /// else the first action.
    pub fn select_raise_first(&self, actions: &[Act]) -> (a: Act)
        requires
            actions@.len() > 0,
        ensures
            a == pick(actions@, 2, 1),
    {
        pick_kind(actions, 2, 1)
    }

    /// Choice with a strong hand: call if possible, else raise, else the
    /// first action.
    pub fn select_call_first(&self, actions: &[Act]) -> (a: Act)
        requires
            actions@.len() > 0,
        ensures
            a == pick(actions@, 1, 2),
    {
        pick_kind(actions, 1, 2)
    }

    /// Call if possible, else the first action.
    pub fn select_call_or_first(&self, actions: &[Act]) -> (a: Act)
        requires
            actions@.len() > 0,
        ensures
            a == match first_index(actions@, 1) {
                Some(i) => actions@[i],
                None => actions@[0],
            },
    {
        match find_kind(actions, 1) {
            Some(i) => actions[i],
            None => actions[0],
        }
    }

    /// One of the actions, picked at random.
    pub fn select_random_action(&self, actions: &[Act]) -> (a: Act)
        requires
            actions@.len() > 0,
        ensures
            actions@.contains(a),
    {
        let mut rng = thread_rng_handle();
        let index = random_index(&mut rng, actions.len());
        assert(actions@[index as int] == actions[index as int]);
        actions[index]
    }

    /// Fold if possible, else the first action.
    pub fn select_fold_or_first(&self, actions: &[Act]) -> (a: Act)
        requires
            actions@.len() > 0,
        ensures
            a == match first_index(actions@, 0) {
                Some(i) => actions@[i],
                None => actions@[0],
            },
    {
        match find_kind(actions, 0) {
            Some(i) => actions[i],
            None => actions[0],
        }
    }
}

} // verus!
