//! The canonical formula of a model reads back as that model.
use vstd::prelude::*;

use super::formula::{
    ascending, atom_at, canonical, cross_from, crossed, expr_at, formula_text, inter_at,
    interaction_from, lemma_ordered_fixed, lemma_union_term, model_of, name_char, name_index,
    occurs, occurs_at, operator, ordered, ordered_is_canonical, place_of, prod_at, product_from,
    response_of, response_text, shares, sum_from, term_label, term_labels, term_wf, token_is,
    token_list, tokens_before, union_term, valid_name, ModelView,
};
use crate::factor::position;
use crate::text::{separated, trimmed, trimmed_end, trimmed_start, white};

verus! {

// ===== The terms of a formula =====

/// A factor whose name stands for it in a formula: the first of that name.
spec fn spelt_name(names: Seq<Seq<char>>, f: usize) -> bool {
    &&& name_index(names, names[f as int], 0) == Some(f as nat)
    &&& valid_name(names[f as int])
    &&& names[f as int] != "-1"@
}

/// A term whose factors can be spelt.
spec fn spelt(names: Seq<Seq<char>>, t: Seq<usize>) -> bool {
    &&& term_wf(t, names.len())
    &&& forall|i: int| 0 <= i < t.len() ==> spelt_name(names, #[trigger] t[i])
}

/// Terms whose factors can be spelt.
spec fn all_spelt(names: Seq<Seq<char>>, terms: Seq<Seq<usize>>) -> bool {
    forall|i: int| 0 <= i < terms.len() ==> spelt(names, #[trigger] terms[i])
}

proof fn lemma_name_index(names: Seq<Seq<char>>, name: Seq<char>, i: nat)
    ensures
        name_index(names, name, i) matches Some(k) ==> k < names.len() && names[k as int] == name,
    decreases names.len() - i,
{
    if i < names.len() && names[i as int] != name {
        lemma_name_index(names, name, i + 1);
    }
}

proof fn lemma_spelt_union(names: Seq<Seq<char>>, a: Seq<usize>, b: Seq<usize>)
    requires
        spelt(names, a),
        spelt(names, b),
        !shares(a, b),
    ensures
        spelt(names, union_term(a, b, b.len())),
{
    lemma_union_term(a, b, b.len(), names.len());
    let u = union_term(a, b, b.len());
    assert(b.take(b.len() as int) =~= b);
    assert forall|i: int| 0 <= i < u.len() implies spelt_name(names, #[trigger] u[i]) by {
        assert(u.contains(u[i]));
        if a.contains(u[i]) {
            let k = choose|k: int| 0 <= k < a.len() && a[k] == u[i];
            assert(spelt_name(names, a[k]));
        } else {
            let k = choose|k: int| 0 <= k < b.len() && b[k] == u[i];
            assert(spelt_name(names, b[k]));
        }
    }
}

proof fn lemma_spelt_cross(
    names: Seq<Seq<char>>,
    left: Seq<Seq<usize>>,
    right: Seq<Seq<usize>>,
    i: nat,
    j: nat,
    acc: Seq<Seq<usize>>,
)
    requires
        all_spelt(names, left),
        all_spelt(names, right),
        all_spelt(names, acc),
        right.len() > 0,
    ensures
        cross_from(left, right, i, j, acc) matches Ok(x) ==> all_spelt(names, x) && x.len() >= acc.len()
            && (i < left.len() && j < right.len() ==> x.len() > acc.len()),
    decreases left.len() - i, right.len() - j,
{
    if i < left.len() {
        if j >= right.len() {
            lemma_spelt_cross(names, left, right, i + 1, 0, acc);
        } else if !shares(left[i as int], right[j as int]) {
            lemma_spelt_union(names, left[i as int], right[j as int]);
            let u = union_term(left[i as int], right[j as int], right[j as int].len());
            assert(all_spelt(names, acc.push(u)));
            lemma_spelt_cross(names, left, right, i, j + 1, acc.push(u));
        }
    }
}

proof fn lemma_expr_spelt(tokens: Seq<Seq<char>>, pos: nat, names: Seq<Seq<char>>)
    requires
        names.len() <= usize::MAX,
        !tokens.contains("-1"@),
    ensures
        expr_at(tokens, pos, names) matches Ok((t, p)) ==> all_spelt(names, t) && t.len() > 0,
    decreases tokens.len() - pos, 3nat,
{
    lemma_prod_spelt(tokens, pos, names);
    if let Ok((t, p)) = prod_at(tokens, pos, names) {
        if pos < p <= tokens.len() {
            lemma_sum_spelt(tokens, p, names, t);
        }
    }
}

proof fn lemma_sum_spelt(
    tokens: Seq<Seq<char>>,
    pos: nat,
    names: Seq<Seq<char>>,
    acc: Seq<Seq<usize>>,
)
    requires
        names.len() <= usize::MAX,
        !tokens.contains("-1"@),
        all_spelt(names, acc),
        acc.len() > 0,
    ensures
        sum_from(tokens, pos, names, acc) matches Ok((t, p)) ==> all_spelt(names, t) && t.len() > 0,
    decreases tokens.len() - pos, 0nat,
{
    if token_is(tokens, pos, '+') {
        lemma_prod_spelt(tokens, pos + 1, names);
        if let Ok((t, p)) = prod_at(tokens, pos + 1, names) {
            if pos < p <= tokens.len() {
                assert(all_spelt(names, acc + t));
                lemma_sum_spelt(tokens, p, names, acc + t);
            }
        }
    }
}

proof fn lemma_prod_spelt(tokens: Seq<Seq<char>>, pos: nat, names: Seq<Seq<char>>)
    requires
        names.len() <= usize::MAX,
        !tokens.contains("-1"@),
    ensures
        prod_at(tokens, pos, names) matches Ok((t, p)) ==> all_spelt(names, t) && t.len() > 0,
    decreases tokens.len() - pos, 2nat,
{
    lemma_inter_spelt(tokens, pos, names);
    if let Ok((t, p)) = inter_at(tokens, pos, names) {
        if pos < p <= tokens.len() {
            lemma_product_spelt(tokens, p, names, t);
        }
    }
}

proof fn lemma_product_spelt(
    tokens: Seq<Seq<char>>,
    pos: nat,
    names: Seq<Seq<char>>,
    acc: Seq<Seq<usize>>,
)
    requires
        names.len() <= usize::MAX,
        !tokens.contains("-1"@),
        all_spelt(names, acc),
        acc.len() > 0,
    ensures
        product_from(tokens, pos, names, acc) matches Ok((t, p)) ==> all_spelt(names, t) && t.len()
            > 0,
    decreases tokens.len() - pos, 0nat,
{
    if token_is(tokens, pos, '*') {
        lemma_inter_spelt(tokens, pos + 1, names);
        if let Ok((t, p)) = inter_at(tokens, pos + 1, names) {
            if pos < p <= tokens.len() {
                lemma_spelt_cross(names, acc, t, 0, 0, Seq::empty());
                if let Ok(x) = crossed(acc, t) {
                    assert(all_spelt(names, acc + t));
                    assert(all_spelt(names, acc + t + x));
                    lemma_product_spelt(tokens, p, names, acc + t + x);
                }
            }
        }
    }
}

proof fn lemma_inter_spelt(tokens: Seq<Seq<char>>, pos: nat, names: Seq<Seq<char>>)
    requires
        names.len() <= usize::MAX,
        !tokens.contains("-1"@),
    ensures
        inter_at(tokens, pos, names) matches Ok((t, p)) ==> all_spelt(names, t) && t.len() > 0,
    decreases tokens.len() - pos, 1nat,
{
    lemma_atom_spelt(tokens, pos, names);
    if let Ok((t, p)) = atom_at(tokens, pos, names) {
        if pos < p <= tokens.len() {
            lemma_interaction_spelt(tokens, p, names, t);
        }
    }
}

proof fn lemma_interaction_spelt(
    tokens: Seq<Seq<char>>,
    pos: nat,
    names: Seq<Seq<char>>,
    acc: Seq<Seq<usize>>,
)
    requires
        names.len() <= usize::MAX,
        !tokens.contains("-1"@),
        all_spelt(names, acc),
        acc.len() > 0,
    ensures
        interaction_from(tokens, pos, names, acc) matches Ok((t, p)) ==> all_spelt(names, t)
            && t.len() > 0,
    decreases tokens.len() - pos, 0nat,
{
    if token_is(tokens, pos, ':') {
        lemma_atom_spelt(tokens, pos + 1, names);
        if let Ok((t, p)) = atom_at(tokens, pos + 1, names) {
            if pos < p <= tokens.len() {
                lemma_spelt_cross(names, acc, t, 0, 0, Seq::empty());
                if let Ok(x) = crossed(acc, t) {
                    lemma_interaction_spelt(tokens, p, names, x);
                }
            }
        }
    }
}

proof fn lemma_atom_spelt(tokens: Seq<Seq<char>>, pos: nat, names: Seq<Seq<char>>)
    requires
        names.len() <= usize::MAX,
        !tokens.contains("-1"@),
    ensures
        atom_at(tokens, pos, names) matches Ok((t, p)) ==> all_spelt(names, t) && t.len() > 0,
    decreases tokens.len() - pos, 0nat,
{
    if token_is(tokens, pos, '(') {
        lemma_expr_spelt(tokens, pos + 1, names);
    } else if pos < tokens.len() {
        let name = tokens[pos as int];
        lemma_name_index(names, name, 0);
        if let Some(i) = name_index(names, name, 0) {
            assert(tokens.contains(name));
            if valid_name(name) {
                assert(spelt_name(names, i as usize));
                assert(spelt(names, seq![i as usize]));
            }
        }
    }
}

// ===== The tokens of a formula =====

/// The tokens of a term: its names, with colons between them.
spec fn term_tokens(t: Seq<usize>, names: Seq<Seq<char>>) -> Seq<Seq<char>>
    decreases t.len(),
{
    if t.len() == 0 {
        Seq::empty()
    } else if t.len() == 1 {
        seq![names[t[0] as int]]
    } else {
        term_tokens(t.drop_last(), names).push(seq![':']).push(names[t.last() as int])
    }
}

/// The tokens of a sum of terms.
spec fn sum_tokens(terms: Seq<Seq<usize>>, names: Seq<Seq<char>>) -> Seq<Seq<char>>
    decreases terms.len(),
{
    if terms.len() == 0 {
        Seq::empty()
    } else if terms.len() == 1 {
        term_tokens(terms[0], names)
    } else {
        sum_tokens(terms.drop_last(), names).push(seq!['+']) + term_tokens(terms.last(), names)
    }
}

/// The text stands in `s` at position `i`.
spec fn stands(s: Seq<char>, i: nat, text: Seq<char>) -> bool {
    i + text.len() <= s.len() && forall|k: int|
        0 <= k < text.len() ==> s[i + k] == #[trigger] text[k]
}

/// No character of a name is an operator or white space.
proof fn lemma_name_char(c: char)
    ensures
        name_char(c) ==> !operator(c) && !white(c) && c != '~' && c != '.' && c != '^' && c != '%',
{
}

proof fn lemma_name_tokens(s: Seq<char>, i: nat, name: Seq<char>, n: nat, done: Seq<Seq<char>>)
    requires
        stands(s, i, name),
        valid_name(name),
        n <= name.len(),
        tokens_before(s, i) == Ok::<(Seq<Seq<char>>, Seq<char>), Seq<char>>((done, Seq::empty())),
    ensures
        tokens_before(s, i + n) == Ok::<(Seq<Seq<char>>, Seq<char>), Seq<char>>(
            (done, name.take(n as int)),
        ),
    decreases n,
{
    if n == 0 {
        assert(name.take(0) =~= Seq::<char>::empty());
    } else {
        lemma_name_tokens(s, i, name, (n - 1) as nat, done);
        assert(s[i + (n - 1)] == name[n - 1]);
        assert(name_char(name[n - 1]));
        assert(name.take(n - 1).push(name[n - 1]) =~= name.take(n as int));
    }
}

proof fn lemma_label_tokens(
    s: Seq<char>,
    i: nat,
    t: Seq<usize>,
    names: Seq<Seq<char>>,
    done: Seq<Seq<char>>,
)
    requires
        t.len() > 0,
        forall|k: int| 0 <= k < t.len() ==> spelt_name(names, #[trigger] t[k]),
        stands(s, i, term_label(t, names)),
        tokens_before(s, i) == Ok::<(Seq<Seq<char>>, Seq<char>), Seq<char>>((done, Seq::empty())),
    ensures
        tokens_before(s, i + term_label(t, names).len()) == Ok::<
            (Seq<Seq<char>>, Seq<char>),
            Seq<char>,
        >((done + term_tokens(t, names).drop_last(), names[t.last() as int])),
        term_tokens(t, names).len() > 0,
        term_tokens(t, names).last() == names[t.last() as int],
    decreases t.len(),
{
    let parts = t.map_values(|f: usize| names[f as int]);
    let label = term_label(t, names);
    let name = names[t.last() as int];
    assert(spelt_name(names, t[t.len() - 1]));
    if t.len() == 1 {
        assert(label == name);
        lemma_name_tokens(s, i, name, name.len(), done);
        assert(name.take(name.len() as int) =~= name);
        assert(done + term_tokens(t, names).drop_last() =~= done);
    } else {
        let front = t.drop_last();
        assert(front.map_values(|f: usize| names[f as int]) =~= parts.drop_last());
        reveal_strlit(":");
        let before = term_label(front, names);
        assert(label == before + ":"@ + name);
        assert forall|k: int| 0 <= k < before.len() implies s[i + k] == #[trigger] before[k] by {
            assert(label[k] == before[k]);
        }
        lemma_label_tokens(s, i, front, names, done);
        let j = i + before.len();
        assert(s[j as int] == ':') by {
            assert(label[before.len() as int] == ':');
        }
        let open = names[front.last() as int];
        let closed = done + term_tokens(front, names).drop_last();
        assert(spelt_name(names, front[front.len() - 1]));
        assert(!name_char(':'));
        assert(closed.push(open).push(seq![':']) =~= done + term_tokens(front, names).push(
            seq![':'],
        ));
        assert(stands(s, j + 1, name)) by {
            assert forall|k: int| 0 <= k < name.len() implies s[j + 1 + k] == #[trigger] name[k] by {
                assert(label[before.len() + 1 + k] == name[k]);
            }
        }
        let next = done + term_tokens(front, names).push(seq![':']);
        assert(tokens_before(s, j + 1) == Ok::<(Seq<Seq<char>>, Seq<char>), Seq<char>>(
            (next, Seq::empty()),
        ));
        lemma_name_tokens(s, j + 1, name, name.len(), next);
        assert(name.take(name.len() as int) =~= name);
        assert(term_tokens(t, names).drop_last() =~= term_tokens(front, names).push(seq![':']));
    }
}

proof fn lemma_sum_tokens(
    s: Seq<char>,
    i: nat,
    terms: Seq<Seq<usize>>,
    names: Seq<Seq<char>>,
    done: Seq<Seq<char>>,
)
    requires
        terms.len() > 0,
        all_spelt(names, terms),
        stands(s, i, separated(term_labels(terms, names), " + "@)),
        tokens_before(s, i) == Ok::<(Seq<Seq<char>>, Seq<char>), Seq<char>>((done, Seq::empty())),
    ensures
        tokens_before(s, i + separated(term_labels(terms, names), " + "@).len()) == Ok::<
            (Seq<Seq<char>>, Seq<char>),
            Seq<char>,
        >((done + sum_tokens(terms, names).drop_last(), sum_tokens(terms, names).last())),
        sum_tokens(terms, names).len() > 0,
        sum_tokens(terms, names).last().len() > 0,
    decreases terms.len(),
{
    let labels = term_labels(terms, names);
    let text = separated(labels, " + "@);
    let t = terms.last();
    let label = term_label(t, names);
    assert(spelt(names, terms[terms.len() - 1]));
    assert(spelt_name(names, t[t.len() - 1]));
    if terms.len() == 1 {
        assert(text == label);
        lemma_label_tokens(s, i, t, names, done);
    } else {
        let front = terms.drop_last();
        assert(term_labels(front, names) =~= labels.drop_last());
        reveal_strlit(" + ");
        let before = separated(term_labels(front, names), " + "@);
        assert(text == before + " + "@ + label);
        assert forall|k: int| 0 <= k < before.len() implies s[i + k] == #[trigger] before[k] by {
            assert(text[k] == before[k]);
        }
        lemma_sum_tokens(s, i, front, names, done);
        let j = i + before.len();
        assert(s[j as int] == ' ' && s[j as int + 1] == '+' && s[j as int + 2] == ' ') by {
            assert(text[before.len() as int] == ' ');
            assert(text[before.len() as int + 1] == '+');
            assert(text[before.len() as int + 2] == ' ');
        }
        let closed = done + sum_tokens(front, names);
        assert((done + sum_tokens(front, names).drop_last()).push(sum_tokens(front, names).last())
            =~= closed);
        assert(tokens_before(s, j + 1) == Ok::<(Seq<Seq<char>>, Seq<char>), Seq<char>>(
            (closed, Seq::empty()),
        ));
        let plus = closed.push(seq!['+']);
        assert(tokens_before(s, j + 2) == Ok::<(Seq<Seq<char>>, Seq<char>), Seq<char>>(
            (plus, Seq::empty()),
        ));
        assert(tokens_before(s, j + 3) == Ok::<(Seq<Seq<char>>, Seq<char>), Seq<char>>(
            (plus, Seq::empty()),
        ));
        assert(stands(s, j + 3, label)) by {
            assert forall|k: int| 0 <= k < label.len() implies s[j + 3 + k] == #[trigger] label[k] by {
                assert(text[before.len() + 3 + k] == label[k]);
            }
        }
        lemma_label_tokens(s, j + 3, t, names, plus);
        assert(plus + term_tokens(t, names).drop_last() =~= done + sum_tokens(terms, names).drop_last());
    }
}

// ===== The reading of the tokens =====

/// The tokens from `pos` on spell a term.
spec fn spells(tokens: Seq<Seq<char>>, pos: int, t: Seq<usize>, names: Seq<Seq<char>>) -> bool {
    &&& 0 <= pos
    &&& pos + 2 * t.len() - 1 <= tokens.len()
    &&& forall|m: int| 0 <= m < t.len() ==> tokens[pos + 2 * m] == names[#[trigger] t[m] as int]
    &&& forall|m: int|
        0 <= m < t.len() - 1 ==> #[trigger] tokens[pos + 2 * m + 1] == seq![':']
}

/// The number of tokens before term `j` of a sum.
spec fn start(terms: Seq<Seq<usize>>, j: nat) -> int
    decreases j,
{
    if j == 0 {
        0
    } else {
        start(terms, (j - 1) as nat) + 2 * terms[j - 1].len()
    }
}

proof fn lemma_start(terms: Seq<Seq<usize>>, more: Seq<Seq<usize>>, j: nat)
    requires
        j <= terms.len() <= more.len(),
        forall|k: int| 0 <= k < terms.len() ==> #[trigger] terms[k] == more[k],
    ensures
        start(terms, j) == start(more, j),
        start(terms, j) >= 0,
    decreases j,
{
    if j > 0 {
        lemma_start(terms, more, (j - 1) as nat);
    }
}

proof fn lemma_term_tokens(t: Seq<usize>, names: Seq<Seq<char>>)
    requires
        t.len() > 0,
    ensures
        term_tokens(t, names).len() == 2 * t.len() - 1,
        spells(term_tokens(t, names), 0, t, names),
    decreases t.len(),
{
    let tokens = term_tokens(t, names);
    if t.len() > 1 {
        let front = t.drop_last();
        lemma_term_tokens(front, names);
        let before = term_tokens(front, names);
        assert forall|m: int| 0 <= m < t.len() implies tokens[0 + 2 * m] == names[#[trigger] t[m] as int] by {
            if m < front.len() {
                assert(before[0 + 2 * m] == names[front[m] as int]);
            }
        }
        assert forall|m: int| 0 <= m < t.len() - 1 implies #[trigger] tokens[0 + 2 * m + 1] == seq![
            ':',
        ] by {
            if m < front.len() - 1 {
                assert(before[0 + 2 * m + 1] == seq![':']);
            }
        }
    }
}

/// Where the terms of a sum stand among its tokens.
proof fn lemma_sum_spells(terms: Seq<Seq<usize>>, names: Seq<Seq<char>>)
    requires
        terms.len() > 0,
        forall|i: int| 0 <= i < terms.len() ==> (#[trigger] terms[i]).len() > 0,
    ensures
        sum_tokens(terms, names).len() == start(terms, terms.len()) - 1,
        forall|j: nat|
            j < terms.len() ==> spells(
                sum_tokens(terms, names),
                #[trigger] start(terms, j),
                terms[j as int],
                names,
            ),
        forall|j: nat|
            0 < j < terms.len() ==> sum_tokens(terms, names)[#[trigger] start(terms, j) - 1]
                == seq!['+'],
    decreases terms.len(),
{
    let tokens = sum_tokens(terms, names);
    let t = terms.last();
    lemma_term_tokens(t, names);
    if terms.len() == 1 {
        assert(start(terms, 1) == start(terms, 0) + 2 * terms[0].len());
        assert forall|j: nat| j < terms.len() implies spells(
            tokens,
            #[trigger] start(terms, j),
            terms[j as int],
            names,
        ) by {}
    } else {
        let front = terms.drop_last();
        assert forall|i: int| 0 <= i < front.len() implies (#[trigger] front[i]).len() > 0 by {
            assert(terms[i].len() > 0);
        }
        lemma_sum_spells(front, names);
        let before = sum_tokens(front, names);
        let last = term_tokens(t, names);
        let n = (terms.len() - 1) as nat;
        lemma_start(front, terms, n);
        assert(start(terms, terms.len()) == start(terms, n) + 2 * t.len());
        assert(tokens == before.push(seq!['+']) + last);
        assert forall|j: nat| j < terms.len() implies spells(
            tokens,
            #[trigger] start(terms, j),
            terms[j as int],
            names,
        ) by {
            lemma_start(front, terms, if j < n { j } else { n });
            let at = start(terms, j);
            let u = terms[j as int];
            if j < n {
                assert(spells(before, start(front, j), front[j as int], names));
                assert forall|m: int| 0 <= m < u.len() implies tokens[at + 2 * m] == names[#[trigger] u[m] as int] by {
                    assert(before[at + 2 * m] == names[front[j as int][m] as int]);
                }
                assert forall|m: int| 0 <= m < u.len() - 1 implies #[trigger] tokens[at + 2 * m + 1]
                    == seq![':'] by {
                    assert(before[at + 2 * m + 1] == seq![':']);
                }
            } else {
                assert forall|m: int| 0 <= m < u.len() implies tokens[at + 2 * m] == names[#[trigger] u[m] as int] by {
                    assert(last[0 + 2 * m] == names[t[m] as int]);
                }
                assert forall|m: int| 0 <= m < u.len() - 1 implies #[trigger] tokens[at + 2 * m + 1]
                    == seq![':'] by {
                    assert(last[0 + 2 * m + 1] == seq![':']);
                }
            }
        }
        assert forall|j: nat| 0 < j < terms.len() implies tokens[#[trigger] start(terms, j) - 1]
            == seq!['+'] by {
            lemma_start(front, terms, if j < n { j } else { n });
            if j < n {
                assert(before[start(front, j) - 1] == seq!['+']);
                assert(spells(before, start(front, j), front[j as int], names));
                assert(terms[j as int].len() > 0);
                assert(start(terms, j) - 1 >= 0) by {
                    lemma_start(terms, terms, (j - 1) as nat);
                    assert(terms[j - 1].len() > 0);
                }
            }
        }
    }
}

proof fn lemma_name_is_no_operator(name: Seq<char>, c: char)
    requires
        valid_name(name),
        operator(c),
    ensures
        name != seq![c],
{
    if name == seq![c] {
        assert(name_char(name[0]));
        assert(name[0] == c);
    }
}

/// An interaction of one more factor, greater than those before.
proof fn lemma_cross_one(t: Seq<usize>, k: int)
    requires
        ascending(t),
        0 < k < t.len(),
    ensures
        crossed(seq![t.take(k)], seq![seq![t[k]]]) == Ok::<Seq<Seq<usize>>, Seq<char>>(
            seq![t.take(k + 1)],
        ),
{
    let a = t.take(k);
    let b = seq![t[k]];
    assert(!shares(a, b)) by {
        if shares(a, b) {
            let i = choose|i: int| 0 <= i < a.len() && b.contains(#[trigger] a[i]);
            let j = choose|j: int| 0 <= j < b.len() && b[j] == a[i];
            assert(b[j] == t[k]);
            assert(t[i] < t[k]);
        }
    }
    lemma_place_at_end(a, t[k], 0);
    reveal_with_fuel(union_term, 2);
    assert(union_term(a, b, 1) == a.insert(a.len() as int, t[k]));
    assert(a.insert(a.len() as int, t[k]) =~= t.take(k + 1));
    let left = seq![a];
    let right = seq![b];
    let one = Seq::<Seq<usize>>::empty().push(t.take(k + 1));
    assert(left[0] == a && right[0] == b && b.len() == 1);
    assert(cross_from(left, right, 1, 0, one) == Ok::<Seq<Seq<usize>>, Seq<char>>(one));
    assert(cross_from(left, right, 0, 1, one) == cross_from(left, right, 1, 0, one));
    assert(cross_from(left, right, 0, 0, Seq::empty()) == cross_from(left, right, 0, 1, one));
    assert(one =~= seq![t.take(k + 1)]);
}

proof fn lemma_place_at_end(t: Seq<usize>, x: usize, i: nat)
    requires
        i <= t.len(),
        forall|k: int| 0 <= k < t.len() ==> #[trigger] t[k] < x,
    ensures
        place_of(t, x, i) == t.len(),
    decreases t.len() - i,
{
    if i < t.len() {
        lemma_place_at_end(t, x, i + 1);
    }
}

proof fn lemma_read_name(tokens: Seq<Seq<char>>, pos: nat, f: usize, names: Seq<Seq<char>>)
    requires
        pos < tokens.len(),
        spelt_name(names, f),
        tokens[pos as int] == names[f as int],
    ensures
        atom_at(tokens, pos, names) == Ok::<(Seq<Seq<usize>>, nat), Seq<char>>(
            (seq![seq![f]], pos + 1),
        ),
{
    lemma_name_is_no_operator(names[f as int], '(');
}

/// The rest of an interaction after its first `k` factors.
proof fn lemma_read_interaction(
    tokens: Seq<Seq<char>>,
    pos: nat,
    t: Seq<usize>,
    k: nat,
    names: Seq<Seq<char>>,
)
    requires
        spelt(names, t),
        0 < k <= t.len(),
        spells(tokens, pos as int, t, names),
        !token_is(tokens, (pos + 2 * t.len() - 1) as nat, ':'),
    ensures
        interaction_from(tokens, (pos + 2 * k - 1) as nat, names, seq![t.take(k as int)]) == Ok::<
            (Seq<Seq<usize>>, nat),
            Seq<char>,
        >((seq![t], (pos + 2 * t.len() - 1) as nat)),
    decreases t.len() - k,
{
    let at = (pos + 2 * k - 1) as nat;
    if k == t.len() {
        assert(t.take(k as int) =~= t);
    } else {
        let m = k - 1;
        assert(tokens[pos as int + 2 * m + 1] == seq![':']);
        assert(token_is(tokens, at, ':'));
        let f = t[k as int];
        assert(tokens[pos as int + 2 * (k as int)] == names[f as int]);
        lemma_read_name(tokens, at + 1, f, names);
        lemma_cross_one(t, k as int);
        lemma_read_interaction(tokens, pos, t, k + 1, names);
    }
}

proof fn lemma_read_term(tokens: Seq<Seq<char>>, pos: nat, t: Seq<usize>, names: Seq<Seq<char>>)
    requires
        spelt(names, t),
        spells(tokens, pos as int, t, names),
        !token_is(tokens, (pos + 2 * t.len() - 1) as nat, ':'),
        !token_is(tokens, (pos + 2 * t.len() - 1) as nat, '*'),
    ensures
        prod_at(tokens, pos, names) == Ok::<(Seq<Seq<usize>>, nat), Seq<char>>(
            (seq![t], (pos + 2 * t.len() - 1) as nat),
        ),
{
    assert(tokens[pos as int + 2 * 0] == names[t[0] as int]);
    lemma_read_name(tokens, pos, t[0], names);
    assert(t.take(1) =~= seq![t[0]]);
    lemma_read_interaction(tokens, pos, t, 1, names);
}

/// The rest of a sum after its first `j` terms.
proof fn lemma_read_sum(terms: Seq<Seq<usize>>, j: nat, names: Seq<Seq<char>>)
    requires
        all_spelt(names, terms),
        0 < j <= terms.len(),
    ensures
        sum_from(
            sum_tokens(terms, names),
            (start(terms, j) - 1) as nat,
            names,
            terms.take(j as int),
        ) == Ok::<(Seq<Seq<usize>>, nat), Seq<char>>((terms, sum_tokens(terms, names).len())),
    decreases terms.len() - j,
{
    let tokens = sum_tokens(terms, names);
    assert forall|i: int| 0 <= i < terms.len() implies (#[trigger] terms[i]).len() > 0 by {
        assert(spelt(names, terms[i]));
    }
    lemma_sum_spells(terms, names);
    lemma_start(terms, terms, j);
    if j == terms.len() {
        assert(terms.take(j as int) =~= terms);
    } else {
        let t = terms[j as int];
        lemma_start(terms, terms, (j - 1) as nat);
        assert(terms[j - 1].len() > 0);
        let at = (start(terms, j) - 1) as nat;
        assert(token_is(tokens, at, '+'));
        lemma_after_term(terms, j, names);
        assert(spells(tokens, start(terms, j), t, names));
        lemma_read_term(tokens, at + 1, t, names);
        assert(terms.take(j as int) + seq![t] =~= terms.take(j as int + 1));
        lemma_read_sum(terms, j + 1, names);
    }
}

/// After a term stands a plus sign, or nothing.
proof fn lemma_after_term(terms: Seq<Seq<usize>>, j: nat, names: Seq<Seq<char>>)
    requires
        all_spelt(names, terms),
        j < terms.len(),
    ensures
        start(terms, j) + 2 * terms[j as int].len() - 1 == start(terms, j + 1) - 1,
        !token_is(sum_tokens(terms, names), (start(terms, j + 1) - 1) as nat, ':'),
        !token_is(sum_tokens(terms, names), (start(terms, j + 1) - 1) as nat, '*'),
{
    assert forall|i: int| 0 <= i < terms.len() implies (#[trigger] terms[i]).len() > 0 by {
        assert(spelt(names, terms[i]));
    }
    lemma_sum_spells(terms, names);
    lemma_start(terms, terms, j);
    assert(terms[j as int].len() > 0);
    if j + 1 < terms.len() {
        let plus = sum_tokens(terms, names)[start(terms, j + 1) - 1];
        assert(plus == seq!['+']);
        assert(plus[0] == '+');
        assert(seq![':'][0] == ':' && seq!['*'][0] == '*');
    }
}

proof fn lemma_read_expression(terms: Seq<Seq<usize>>, names: Seq<Seq<char>>)
    requires
        all_spelt(names, terms),
        terms.len() > 0,
    ensures
        expr_at(sum_tokens(terms, names), 0, names) == Ok::<(Seq<Seq<usize>>, nat), Seq<char>>(
            (terms, sum_tokens(terms, names).len()),
        ),
        !sum_tokens(terms, names).contains("-1"@),
{
    let tokens = sum_tokens(terms, names);
    assert forall|i: int| 0 <= i < terms.len() implies (#[trigger] terms[i]).len() > 0 by {
        assert(spelt(names, terms[i]));
    }
    lemma_sum_spells(terms, names);
    lemma_after_term(terms, 0, names);
    assert(start(terms, 0) == 0);
    assert(spells(tokens, start(terms, 0), terms[0], names));
    lemma_read_term(tokens, 0, terms[0], names);
    assert(terms.take(1) =~= seq![terms[0]]);
    lemma_read_sum(terms, 1, names);
    lemma_no_minus_one(terms, names);
}

proof fn lemma_no_minus_one(terms: Seq<Seq<usize>>, names: Seq<Seq<char>>)
    requires
        all_spelt(names, terms),
    ensures
        !sum_tokens(terms, names).contains("-1"@),
    decreases terms.len(),
{
    reveal_strlit("-1");
    if terms.len() > 0 {
        assert(spelt(names, terms[terms.len() - 1]));
        lemma_no_minus_one_in_term(terms.last(), names);
        if terms.len() > 1 {
            lemma_no_minus_one(terms.drop_last(), names);
            let before = sum_tokens(terms.drop_last(), names);
            let last = term_tokens(terms.last(), names);
            let tokens = sum_tokens(terms, names);
            assert(seq!['+'].len() == 1);
            if tokens.contains("-1"@) {
                let i = choose|i: int| 0 <= i < tokens.len() && tokens[i] == "-1"@;
                if i < before.len() {
                    assert(before[i] == "-1"@);
                } else if i > before.len() {
                    assert(last[i - before.len() - 1] == "-1"@);
                }
            }
        }
    }
}

proof fn lemma_no_minus_one_in_term(t: Seq<usize>, names: Seq<Seq<char>>)
    requires
        forall|i: int| 0 <= i < t.len() ==> spelt_name(names, #[trigger] t[i]),
    ensures
        !term_tokens(t, names).contains("-1"@),
    decreases t.len(),
{
    reveal_strlit("-1");
    if t.len() > 0 {
        assert(spelt_name(names, t[t.len() - 1]));
        if t.len() > 1 {
            let front = t.drop_last();
            lemma_no_minus_one_in_term(front, names);
            let before = term_tokens(front, names);
            let tokens = term_tokens(t, names);
            assert(seq![':'].len() == 1);
            if tokens.contains("-1"@) {
                let i = choose|i: int| 0 <= i < tokens.len() && tokens[i] == "-1"@;
                if i < before.len() {
                    assert(before[i] == "-1"@);
                }
            }
        }
    }
}

// ===== The text of a formula =====

/// A character of a sum.
spec fn sum_char(c: char) -> bool {
    name_char(c) || c == ':' || c == '+' || c == ' '
}

spec fn sum_chars(s: Seq<char>) -> bool {
    forall|i: int| 0 <= i < s.len() ==> sum_char(#[trigger] s[i])
}

proof fn lemma_separated_chars(parts: Seq<Seq<char>>, sep: Seq<char>)
    requires
        sum_chars(sep),
        forall|i: int| 0 <= i < parts.len() ==> sum_chars(#[trigger] parts[i]),
    ensures
        sum_chars(separated(parts, sep)),
    decreases parts.len(),
{
    if parts.len() > 0 {
        assert(sum_chars(parts[0]));
        assert(sum_chars(parts[parts.len() - 1]));
        if parts.len() > 1 {
            let front = parts.drop_last();
            assert forall|i: int| 0 <= i < front.len() implies sum_chars(#[trigger] front[i]) by {
                assert(sum_chars(parts[i]));
            }
            lemma_separated_chars(front, sep);
        }
    }
}

proof fn lemma_labels_chars(terms: Seq<Seq<usize>>, names: Seq<Seq<char>>)
    requires
        all_spelt(names, terms),
    ensures
        sum_chars(separated(term_labels(terms, names), " + "@)),
{
    reveal_strlit(":");
    reveal_strlit(" + ");
    let labels = term_labels(terms, names);
    assert forall|i: int| 0 <= i < labels.len() implies sum_chars(#[trigger] labels[i]) by {
        let t = terms[i];
        assert(spelt(names, t));
        let parts = t.map_values(|f: usize| names[f as int]);
        assert forall|k: int| 0 <= k < parts.len() implies sum_chars(#[trigger] parts[k]) by {
            assert(spelt_name(names, t[k]));
            assert forall|m: int| 0 <= m < parts[k].len() implies sum_char(#[trigger] parts[k][m]) by {
                assert(name_char(names[t[k] as int][m]));
            }
        }
        lemma_separated_chars(parts, ":"@);
    }
    lemma_separated_chars(labels, " + "@);
}

proof fn lemma_position(s: Seq<char>, c: char, i: nat, at: nat)
    requires
        i <= at < s.len(),
        s[at as int] == c,
        forall|k: int| i <= k < at ==> #[trigger] s[k] != c,
    ensures
        position(s, c, i) == Some(at),
    decreases at - i,
{
    if i < at {
        lemma_position(s, c, i + 1, at);
    }
}

/// The text of a response.
spec fn response_wf(response: Option<Seq<char>>) -> bool {
    match response {
        Some(r) => valid_name(r),
        None => true,
    }
}

proof fn lemma_response_text(response: Option<Seq<char>>)
    requires
        response_wf(response),
    ensures
        ({
            let r = response_text(response);
            &&& r.len() > 0
            &&& forall|i: int|
                0 <= i < r.len() ==> !white(#[trigger] r[i]) && r[i] != '~' && r[i] != '^' && r[i]
                    != '%'
            &&& response matches Some(s) ==> s != "."@
        }),
{
    reveal_strlit(".");
    let r = response_text(response);
    assert forall|i: int| 0 <= i < r.len() implies !white(#[trigger] r[i]) && r[i] != '~' && r[i]
        != '^' && r[i] != '%' by {
        if response is Some {
            assert(name_char(r[i]));
            lemma_name_char(r[i]);
        }
    }
    if let Some(s) = response {
        assert(name_char(s[0]));
        lemma_name_char(s[0]);
    }
}

proof fn lemma_formula(response: Option<Seq<char>>, terms: Seq<Seq<usize>>, names: Seq<Seq<char>>)
    requires
        response_wf(response),
        all_spelt(names, terms),
        terms.len() > 0,
    ensures
        model_of(formula_text(response, terms, names), names) == Ok::<ModelView, Seq<char>>(
            canonical(response, terms, names),
        ),
{
    let src = formula_text(response, terms, names);
    let r = response_text(response);
    let text = separated(term_labels(terms, names), " + "@);
    let n = r.len() as int;
    reveal_strlit(" ~ ");
    lemma_response_text(response);
    lemma_labels_chars(terms, names);
    assert(src == r + " ~ "@ + text);
    assert(src[n] == ' ' && src[n + 1] == '~' && src[n + 2] == ' ');
    assert forall|i: int| 0 <= i < src.len() implies #[trigger] src[i] != '^' && src[i] != '%' by {
        if i < n {
            assert(src[i] == r[i]);
        } else if i >= n + 3 {
            assert(src[i] == text[i - n - 3]);
            assert(sum_char(text[i - n - 3]));
            lemma_name_char(text[i - n - 3]);
        }
    }
    assert(!occurs(src, "^"@)) by {
        reveal_strlit("^");
        if occurs(src, "^"@) {
            let i = choose|i: int| #[trigger] occurs_at(src, "^"@, i);
            assert(src.subrange(i, i + 1)[0] == src[i]);
        }
    }
    assert(!occurs(src, "%in%"@)) by {
        reveal_strlit("%in%");
        if occurs(src, "%in%"@) {
            let i = choose|i: int| #[trigger] occurs_at(src, "%in%"@, i);
            assert(src.subrange(i, i + 4)[0] == src[i]);
        }
    }
    assert forall|k: int| 0 <= k < n + 1 implies #[trigger] src[k] != '~' by {
        if k < n {
            assert(src[k] == r[k]);
        }
    }
    lemma_position(src, '~', 0, (n + 1) as nat);
    assert(trimmed(src.take(n + 1)) == r) by {
        let head = src.take(n + 1);
        assert(head =~= r.push(' '));
        assert(!white(head[0])) by {
            assert(head[0] == r[0]);
        }
        assert(trimmed_start(head) == head);
        assert(head.last() == ' ');
        assert(head.drop_last() =~= r);
        assert(!white(r[r.len() - 1]));
        assert(trimmed_end(r) == r);
    }
    let rest = src.skip(n + 2);
    assert(rest[0] == ' ');
    assert(stands(rest, 1, text)) by {
        assert forall|k: int| 0 <= k < text.len() implies rest[1 + k] == #[trigger] text[k] by {
            assert(rest[1 + k] == src[n + 3 + k]);
        }
    }
    assert(response_of(src) == Ok::<(Option<Seq<char>>, Seq<char>), Seq<char>>((response, rest)));
    assert(tokens_before(rest, 0) == Ok::<(Seq<Seq<char>>, Seq<char>), Seq<char>>(
        (Seq::empty(), Seq::empty()),
    ));
    assert(tokens_before(rest, 1) == Ok::<(Seq<Seq<char>>, Seq<char>), Seq<char>>(
        (Seq::empty(), Seq::empty()),
    ));
    lemma_sum_tokens(rest, 1, terms, names, Seq::empty());
    let tokens = sum_tokens(terms, names);
    assert(Seq::<Seq<char>>::empty() + tokens.drop_last() =~= tokens.drop_last());
    assert(tokens.drop_last().push(tokens.last()) =~= tokens);
    assert(rest.len() == 1 + text.len());
    lemma_read_expression(terms, names);
    assert(token_list(rest) == Ok::<Seq<Seq<char>>, Seq<char>>(tokens));
}

/// The canonical formula of a parsed model reads back as that model.
pub proof fn formulas_read_back(src: Seq<char>, names: Seq<Seq<char>>)
    requires
        names.len() <= usize::MAX,
    ensures
        model_of(src, names) matches Ok(m) ==> model_of(m.formula, names) == Ok::<
            ModelView,
            Seq<char>,
        >(m),
{
    if let Ok(m) = model_of(src, names) {
        let (response, rest) = response_of(src)->Ok_0;
        let tokens = token_list(rest)->Ok_0;
        let (terms, p) = expr_at(tokens, 0, names)->Ok_0;
        lemma_expr_spelt(tokens, 0, names);
        ordered_is_canonical(terms);
        let list = ordered(terms);
        assert forall|i: int| 0 <= i < list.len() implies spelt(names, #[trigger] list[i]) by {
            assert(list.contains(list[i]));
            let k = choose|k: int| 0 <= k < terms.len() && terms[k] == list[i];
            assert(spelt(names, terms[k]));
        }
        assert(terms.contains(terms[0]));
        assert(list.contains(terms[0]));
        assert(list.len() > 0);
        lemma_ordered_fixed(list);
        lemma_formula(response, list, names);
    }
}

} // verus!
