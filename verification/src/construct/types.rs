//! What a design holds.
use vstd::prelude::*;

use crate::design_select::SelectOpts;
use crate::factor::{factor_views, Factor, FactorValue, FactorView, ValueView};
use crate::model::estimability::EstimabilityReport;
use crate::model::formula::{model_views, Model, ModelView};
use crate::model::matrix::{role_views, ReplicateRole, RoleView, Unit, UnitView};
use crate::oa::ArrayInfo;
use crate::text::{equal, views};

verus! {

/// The value that a run has for a factor or a role.
#[derive(Debug)]
pub struct Setting {
    pub name: String,
    pub value: FactorValue,
}

#[verifier::ext_equal]
pub struct SettingView {
    pub name: Seq<char>,
    pub value: ValueView,
}

impl View for Setting {
    type V = SettingView;

    open spec fn view(&self) -> SettingView {
        SettingView { name: self.name@, value: self.value@ }
    }
}

pub open spec fn setting_views(s: Seq<Setting>) -> Seq<SettingView> {
    s.map_values(|x: Setting| x@)
}

/// The last value that is set for a name, among the first `n` settings.
pub open spec fn setting_of(s: Seq<SettingView>, name: Seq<char>, n: nat) -> Option<ValueView>
    decreases n,
{
    if n == 0 {
        None
    } else if s[n - 1].name == name {
        Some(s[n - 1].value)
    } else {
        setting_of(s, name, (n - 1) as nat)
    }
}

/// The place of the last value that is set for a name.
pub fn find_setting(s: &[Setting], name: &str) -> (r: Option<usize>)
    ensures
        match r {
            Some(i) => i < s@.len() && setting_of(setting_views(s@), name@, s@.len()) == Some(
                s@[i as int].value@,
            ),
            None => setting_of(setting_views(s@), name@, s@.len()) is None,
        },
{
    let ghost v = setting_views(s@);
    let mut n: usize = s.len();
    while n > 0
        invariant
            n <= s@.len(),
            v == setting_views(s@),
            setting_of(v, name@, s@.len()) == setting_of(v, name@, n as nat),
        decreases n,
    {
        assert(v[n - 1] == s@[n - 1]@);
        if equal(s[n - 1].name.as_str(), name) {
            return Some(n - 1);
        }
        n = n - 1;
    }
    None
}

/// One run of a design.
#[derive(Debug)]
pub struct Run {
    pub run_id: String,
    /// Execution order, from one on.
    pub order: usize,
    /// Row of the base array, from zero on; the largest number for added runs.
    pub design_row: usize,
    pub factors: Vec<Setting>,
    pub replicates: Vec<Setting>,
    pub unit: Option<String>,
}

#[verifier::ext_equal]
pub struct RunView {
    pub run_id: Seq<char>,
    pub order: nat,
    pub design_row: nat,
    pub factors: Seq<SettingView>,
    pub replicates: Seq<SettingView>,
    pub unit: Option<Seq<char>>,
}

/// The view of an optional text.
pub open spec fn optional_text(s: Option<String>) -> Option<Seq<char>> {
    match s {
        Some(t) => Some(t@),
        None => None,
    }
}

impl View for Run {
    type V = RunView;

    open spec fn view(&self) -> RunView {
        RunView {
            run_id: self.run_id@,
            order: self.order as nat,
            design_row: self.design_row as nat,
            factors: setting_views(self.factors@),
            replicates: setting_views(self.replicates@),
            unit: optional_text(self.unit),
        }
    }
}

pub open spec fn run_views(runs: Seq<Run>) -> Seq<RunView> {
    runs.map_values(|r: Run| r@)
}

/// Runs that were added to a design later.
#[derive(Debug)]
pub struct Augmentation {
    pub seed: u64,
    pub targets: Vec<String>,
    pub run_ids: Vec<String>,
}

#[verifier::ext_equal]
pub struct AugmentationView {
    pub seed: u64,
    pub targets: Seq<Seq<char>>,
    pub run_ids: Seq<Seq<char>>,
}

impl View for Augmentation {
    type V = AugmentationView;

    open spec fn view(&self) -> AugmentationView {
        AugmentationView {
            seed: self.seed,
            targets: views(self.targets@),
            run_ids: views(self.run_ids@),
        }
    }
}

/// A design with its runs.
#[derive(Debug)]
pub struct Design {
    pub version: u32,
    pub factors: Vec<Factor>,
    pub results: Vec<String>,
    pub models: Vec<Model>,
    pub replicates: Vec<ReplicateRole>,
    pub unit: Option<Unit>,
    pub array: ArrayInfo,
    pub randomization_seed: Option<u64>,
    pub estimability: Option<EstimabilityReport>,
    pub runs: Vec<Run>,
    pub augmentations: Vec<Augmentation>,
}

/// The view of an optional unit.
pub open spec fn optional_unit(u: Option<Unit>) -> Option<UnitView> {
    match u {
        Some(x) => Some(x@),
        None => None,
    }
}

/// Construct options. The interactive path and the file path take the same
/// ones, so both behave the same.
#[derive(Debug)]
pub struct ConstructOpts {
    /// Formulas, appended after those of the file.
    pub models: Vec<String>,
    /// Replicate roles as `NAME=SPEC`, appended after those of the file.
    pub replicates: Vec<String>,
    /// A unit as `NAME=k1,k2,…`; an error where the file already declares one.
    pub unit: Option<String>,
    /// Randomisation seed.
    pub seed: Option<u64>,
    pub max_runs: Option<usize>,
    pub min_residual_df: usize,
    pub allow_aliased: bool,
    /// Execution order is design order, still recorded.
    pub no_shuffle: bool,
}

impl Default for ConstructOpts {
    /// Nothing added, no limits, shuffled.
    fn default() -> (o: ConstructOpts)
        ensures
            o.models@.len() == 0,
            o.replicates@.len() == 0,
            o.unit is None,
            o.seed is None,
            o.max_runs is None,
            o.min_residual_df == 0,
            !o.allow_aliased,
            !o.no_shuffle,
    {
        ConstructOpts {
            models: Vec::new(),
            replicates: Vec::new(),
            unit: None,
            seed: None,
            max_runs: None,
            min_residual_df: 0,
            allow_aliased: false,
            no_shuffle: false,
        }
    }
}

impl ConstructOpts {
    /// The limits for the selection.
    pub fn select_opts(&self) -> (o: SelectOpts)
        ensures
            o.max_runs == self.max_runs,
            o.min_residual_df == self.min_residual_df,
            o.allow_aliased == self.allow_aliased,
    {
        SelectOpts {
            max_runs: self.max_runs,
            min_residual_df: self.min_residual_df,
            allow_aliased: self.allow_aliased,
        }
    }
}

/// What a design file says.
#[derive(Debug)]
pub struct ParsedDesign {
    pub factors: Vec<Factor>,
    pub results: Vec<String>,
    pub models: Vec<Model>,
    pub replicates: Vec<ReplicateRole>,
    pub unit: Option<Unit>,
}

#[verifier::ext_equal]
pub struct ParsedView {
    pub factors: Seq<FactorView>,
    pub results: Seq<Seq<char>>,
    pub models: Seq<ModelView>,
    pub replicates: Seq<RoleView>,
    pub unit: Option<UnitView>,
}

impl View for ParsedDesign {
    type V = ParsedView;

    open spec fn view(&self) -> ParsedView {
        ParsedView {
            factors: factor_views(self.factors@),
            results: views(self.results@),
            models: model_views(self.models@),
            replicates: role_views(self.replicates@),
            unit: optional_unit(self.unit),
        }
    }
}

} // verus!
