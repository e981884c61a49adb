//! What every design file that is read keeps.
use vstd::prelude::*;

use super::file::{draft_of, name_taken, parsed_of, roles_of, section_after, Noted};
use crate::factor::{FactorView, NumbersView};
use crate::model::formula::{factor_names, name_index};
use crate::model::matrix::{role_names, RoleView};

verus! {

/// Only the two sections that every file has.
pub open spec fn is_plain(lines: Seq<Seq<char>>) -> bool {
    forall|n: nat|
        n <= lines.len() ==> (#[trigger] section_after(lines, n) is Factors || section_after(
            lines,
            n,
        ) is Results)
}

proof fn lemma_plain_draft(
    input: Seq<char>,
    lines: Seq<Seq<char>>,
    numbers: Seq<NumbersView>,
    n: nat,
)
    requires
        is_plain(lines),
        n <= lines.len(),
    ensures
        draft_of(input, lines, numbers, n) matches Ok(d) ==> d.formulas.len() == 0 && d.roles.len()
            == 0 && d.unit is None,
    decreases n,
{
    if n > 0 {
        lemma_plain_draft(input, lines, numbers, (n - 1) as nat);
        assert(section_after(lines, (n - 1) as nat) is Factors || section_after(
            lines,
            (n - 1) as nat,
        ) is Results);
    }
}

/// A file with factors and results alone asks for no model, no replication and no
/// unit.
pub proof fn plain_files_ask_for_no_more(
    input: Seq<char>,
    lines: Seq<Seq<char>>,
    numbers: Seq<NumbersView>,
)
    requires
        is_plain(lines),
    ensures
        parsed_of(input, lines, numbers) matches Ok(p) ==> p.models.len() == 0 && p.replicates.len()
            == 0 && p.unit is None,
{
    lemma_plain_draft(input, lines, numbers, lines.len());
}

proof fn lemma_name_absent(names: Seq<Seq<char>>, name: Seq<char>, i: nat)
    requires
        name_index(names, name, i) is None,
    ensures
        forall|k: int| i <= k < names.len() ==> #[trigger] names[k] != name,
    decreases names.len() - i,
{
    if i < names.len() {
        lemma_name_absent(names, name, i + 1);
    }
}

/// Roles that are told apart from the factors and from each other.
pub open spec fn roles_apart(factors: Seq<FactorView>, roles: Seq<RoleView>) -> bool {
    &&& forall|i: int, j: int|
        0 <= i < roles.len() && 0 <= j < factors.len() ==> (#[trigger] roles[i]).name != (
        #[trigger] factors[j]).name
    &&& forall|i: int, j: int|
        0 <= i < j < roles.len() ==> (#[trigger] roles[i]).name != (#[trigger] roles[j]).name
}

proof fn lemma_roles_apart(
    input: Seq<char>,
    notes: Seq<Noted>,
    factors: Seq<FactorView>,
    numbers: Seq<NumbersView>,
    n: nat,
)
    ensures
        roles_of(input, notes, factors, numbers, n) matches Ok(roles) ==> roles_apart(
            factors,
            roles,
        ),
    decreases n,
{
    if n > 0 {
        lemma_roles_apart(input, notes, factors, numbers, (n - 1) as nat);
        if let Ok(all) = roles_of(input, notes, factors, numbers, n) {
            let before = roles_of(input, notes, factors, numbers, (n - 1) as nat)->Ok_0;
            let role = all.last();
            assert(all == before.push(role));
            assert(!name_taken(role.name, factors, before));
            lemma_name_absent(factor_names(factors), role.name, 0);
            lemma_name_absent(role_names(before), role.name, 0);
            assert forall|j: int| 0 <= j < factors.len() implies (#[trigger] factors[j]).name
                != role.name by {
                assert(factor_names(factors)[j] == factors[j].name);
            }
            assert forall|i: int| 0 <= i < before.len() implies (#[trigger] before[i]).name
                != role.name by {
                assert(role_names(before)[i] == before[i].name);
            }
        }
    }
}

/// In a design that is read, no role has the name of a factor or of another role.
pub proof fn role_names_are_their_own(
    input: Seq<char>,
    lines: Seq<Seq<char>>,
    numbers: Seq<NumbersView>,
)
    ensures
        parsed_of(input, lines, numbers) matches Ok(p) ==> roles_apart(p.factors, p.replicates),
{
    if let Ok(d) = draft_of(input, lines, numbers, lines.len()) {
        lemma_roles_apart(input, d.roles, d.factors, numbers, d.roles.len());
    }
}

} // verus!
