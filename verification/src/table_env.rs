//! An environment given directly by its transition table.
//!
//! `TableEnv` holds, for every state, a vector of outcome distributions, one
//! per legal action, and answers the `DistEnv` queries straight from that
//! table.  The table is taken as given: a malformed one (probabilities that
//! do not sum to one, an unknown next state) is faithfully reported, and it
//! is the solver's validation that rejects it.

use vstd::prelude::*;

use crate::dist_env::{DistEnv, EnvError, Outcome, identity_states};

verus! {

/// An environment whose transition model is an explicit table:
/// `table[s][a]` is the outcome distribution for action `a` in state `s`.
pub struct TableEnv {
    table: Vec<Vec<Vec<Outcome>>>,
}

/// The mathematical view of a transition table.
pub open spec fn table_model(table: Seq<Vec<Vec<Outcome>>>) -> Seq<Seq<Seq<Outcome>>> {
    table.map_values(
        |row: Vec<Vec<Outcome>>| row@.map_values(|dist: Vec<Outcome>| dist@),
    )
}

impl TableEnv {
    /// Wraps a transition table, malformed or not, without judging it.
    pub fn new(table: Vec<Vec<Vec<Outcome>>>) -> (r: TableEnv)
        ensures
            r.model() == table_model(table@),
    {
        TableEnv { table }
    }
}

/// Copies an outcome list entry by entry.
fn copy_outcomes(os: &Vec<Outcome>) -> (r: Vec<Outcome>)
    ensures
        r@ == os@,
{
    let mut r: Vec<Outcome> = Vec::new();
    let mut i: usize = 0;
    while i < os.len()
        invariant
            i <= os@.len(),
            r@ == os@.take(i as int),
        decreases os@.len() - i,
    {
        r.push(os[i]);
        proof {
            assert(r@ =~= os@.take(i + 1));
        }
        i = i + 1;
    }
    proof {
        assert(r@ =~= os@);
    }
    r
}

impl DistEnv for TableEnv {
    closed spec fn model(&self) -> Seq<Seq<Seq<Outcome>>> {
        table_model(self.table@)
    }

    fn states(&self) -> (r: Vec<usize>) {
        identity_states(self.table.len())
    }

    fn actions(&self, s: usize) -> (r: Result<Vec<usize>, EnvError>) {
        if s < self.table.len() {
            Ok(identity_states(self.table[s].len()))
        } else {
            Err(EnvError::UnknownState)
        }
    }

    fn transition(&self, s: usize, a: usize) -> (r: Result<Vec<Outcome>, EnvError>) {
        if s >= self.table.len() {
            Err(EnvError::UnknownState)
        } else if a >= self.table[s].len() {
            Err(EnvError::UnknownStateAction)
        } else {
            Ok(copy_outcomes(&self.table[s][a]))
        }
    }
}

} // verus!
