//! What an augmentation is asked to do.
use vstd::prelude::*;

use crate::error::Error;

verus! {

/// The arguments of an augmentation; the paths as texts.
#[derive(Debug)]
pub struct AugmentArgs {
    pub csv_path: String,
    pub design_path: Option<String>,
    pub targets: Vec<String>,
    pub runs: Option<usize>,
    pub seed: Option<u64>,
    pub include_pending: bool,
    pub output: String,
}

impl AugmentArgs {
    /// Checks the number of runs, where one is given.
    pub fn check(&self) -> (r: Result<(), Error>)
        ensures
            match r {
                Ok(_) => self.runs != Some(0usize),
                Err(e) => self.runs == Some(0usize) && e@ == "--runs must be at least 1"@,
            },
    {
        match self.runs {
            Some(n) => {
                if n == 0 {
                    Err(Error::new("--runs must be at least 1"))
                } else {
                    Ok(())
                }
            },
            None => Ok(()),
        }
    }

    /// The seed: the one that is given, otherwise that of the design, otherwise
    /// the one at hand.
    pub fn seed_or(&self, of_design: Option<u64>, at_hand: u64) -> (s: u64)
        ensures
            s == match self.seed {
                Some(x) => x,
                None => match of_design {
                    Some(x) => x,
                    None => at_hand,
                },
            },
    {
        match self.seed {
            Some(x) => x,
            None => match of_design {
                Some(x) => x,
                None => at_hand,
            },
        }
    }
}

} // verus!
