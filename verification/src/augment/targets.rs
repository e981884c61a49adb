//! The model that an augmentation works on and the terms that it aims at.
use vstd::prelude::*;

use crate::error::Error;
use crate::factor::{factor_views, Factor};
use crate::model::estimability::{push_distinct, Estimability, EstimabilityView};
use crate::model::formula::{
    factor_names, main_effects_of, model_of, model_views, model_wf, term_label, term_labels,
    term_wf, terms_wf, Model, ModelView, Term,
};
use crate::text::{equal, join, separated, views};
use crate::tuples::distinct;

verus! {

/// The labels of the terms of the first `n` models.
pub open spec fn all_labels(models: Seq<ModelView>, names: Seq<Seq<char>>, n: nat) -> Seq<Seq<char>>
    decreases n,
{
    if n == 0 {
        Seq::empty()
    } else {
        all_labels(models, names, (n - 1) as nat) + term_labels(models[n - 1].terms, names)
    }
}

/// The labels of all requested terms, each once; main effects where no formula
/// exists.
pub open spec fn declared_labels(models: Seq<ModelView>, names: Seq<Seq<char>>) -> Seq<Seq<char>> {
    let d = distinct(all_labels(models, names, models.len()));
    if d.len() == 0 {
        term_labels(main_effects_of(names).terms, names)
    } else {
        d
    }
}

/// The labels with the first `n` of further ones, each that is not there yet.
pub open spec fn with_labels(labels: Seq<Seq<char>>, more: Seq<Seq<char>>, n: nat) -> Seq<Seq<char>>
    decreases n,
{
    if n == 0 {
        labels
    } else {
        let before = with_labels(labels, more, (n - 1) as nat);
        if before.contains(more[n - 1]) {
            before
        } else {
            before.push(more[n - 1])
        }
    }
}

/// The union of every formula's terms and further ones, or the message where
/// there is none.
pub open spec fn working_model(
    models: Seq<ModelView>,
    names: Seq<Seq<char>>,
    more: Seq<Seq<char>>,
) -> Result<ModelView, Seq<char>> {
    let labels = with_labels(declared_labels(models, names), more, more.len());
    if labels.len() == 0 {
        Err("the design has no factors, so there is nothing to augment"@)
    } else {
        match model_of(separated(labels, " + "@), names) {
            Ok(m) => Ok(m),
            Err(m) => Err("building the union of the design's model formulas: "@ + m),
        }
    }
}

fn holds(list: &Vec<String>, s: &str) -> (r: bool)
    ensures
        r == views(list@).contains(s@),
{
    let mut i: usize = 0;
    while i < list.len()
        invariant
            i <= list@.len(),
            forall|k: int| 0 <= k < i ==> #[trigger] views(list@)[k] != s@,
        decreases list@.len() - i,
    {
        if equal(list[i].as_str(), s) {
            assert(views(list@)[i as int] == s@);
            return true;
        }
        i = i + 1;
    }
    false
}

fn push_text(out: &mut Vec<String>, s: String)
    ensures
        views(final(out)@) == views(old(out)@).push(s@),
{
    let ghost before = views(out@);
    let ghost v = s@;
    out.push(s);
    assert(views(out@) =~= before.push(v));
}

/// The union of every formula's terms and further ones; main effects where no
/// formula exists.
pub fn union_model(models: &[Model], factors: &[Factor], more: &Vec<String>) -> (r: Result<Model, Error>)
    requires
        forall|i: int|
            0 <= i < models@.len() ==> model_wf(#[trigger] model_views(models@)[i], factors@.len()),
    ensures
        match r {
            Ok(m) => working_model(
                model_views(models@),
                factor_names(factor_views(factors@)),
                views(more@),
            ) == Ok::<ModelView, Seq<char>>(m@) && model_wf(m@, factors@.len()),
            Err(e) => working_model(
                model_views(models@),
                factor_names(factor_views(factors@)),
                views(more@),
            ) == Err::<ModelView, Seq<char>>(e@),
        },
{
    let ghost (mv, names) = (model_views(models@), factor_names(factor_views(factors@)));
    let mut labels: Vec<String> = Vec::new();
    assert(views(labels@) =~= distinct(all_labels(mv, names, 0)));
    let mut i: usize = 0;
    while i < models.len()
        invariant
            i <= models@.len(),
            mv == model_views(models@),
            names == factor_names(factor_views(factors@)),
            forall|k: int| 0 <= k < models@.len() ==> model_wf(#[trigger] mv[k], factors@.len()),
            views(labels@) == distinct(all_labels(mv, names, i as nat)),
        decreases models@.len() - i,
    {
        let ghost before = all_labels(mv, names, i as nat);
        let ghost own = term_labels(mv[i as int].terms, names);
        assert(mv[i as int] == models@[i as int]@);
        assert(model_wf(mv[i as int], factors@.len()));
        let mut t: usize = 0;
        assert(before + own.take(0) =~= before);
        while t < models[i].terms.len()
            invariant
                i < models@.len(),
                mv[i as int] == models@[i as int]@,
                names == factor_names(factor_views(factors@)),
                terms_wf(mv[i as int].terms, factors@.len()),
                own == term_labels(mv[i as int].terms, names),
                t <= models@[i as int].terms@.len(),
                views(labels@) == distinct(before + own.take(t as int)),
            decreases models@[i as int].terms@.len() - t,
        {
            let term: &Term = &models[i].terms[t];
            assert(mv[i as int].terms[t as int] == term@);
            assert(term_wf(mv[i as int].terms[t as int], factors@.len()));
            let label: String = term.label(factors);
            assert(own[t as int] == label@);
            push_distinct(&mut labels, label, Ghost(before + own.take(t as int)));
            assert((before + own.take(t as int)).push(own[t as int]) =~= before + own.take(t + 1));
            t = t + 1;
        }
        assert(own.take(t as int) =~= own);
        i = i + 1;
    }
    assert(views(labels@).len() == labels@.len());
    if labels.len() == 0 {
        let main: Model = Model::main_effects(factors);
        let ghost own = term_labels(main@.terms, names);
        assert(views(labels@) =~= own.take(0));
        let mut t: usize = 0;
        while t < main.terms.len()
            invariant
                t <= main.terms@.len(),
                names == factor_names(factor_views(factors@)),
                terms_wf(main@.terms, factors@.len()),
                own == term_labels(main@.terms, names),
                views(labels@) == own.take(t as int),
            decreases main.terms@.len() - t,
        {
            assert(main@.terms[t as int] == main.terms@[t as int]@);
            assert(term_wf(main@.terms[t as int], factors@.len()));
            let label: String = main.terms[t].label(factors);
            assert(own[t as int] == label@);
            push_text(&mut labels, label);
            assert(own.take(t + 1) =~= own.take(t as int).push(own[t as int]));
            t = t + 1;
        }
        assert(own.take(t as int) =~= own);
    }
    let ghost base = declared_labels(mv, names);
    assert(views(labels@) == base);
    let ghost ev = views(more@);
    let mut k: usize = 0;
    while k < more.len()
        invariant
            k <= more@.len(),
            ev == views(more@),
            views(labels@) == with_labels(base, ev, k as nat),
        decreases more@.len() - k,
    {
        assert(ev[k as int] == more@[k as int]@);
        if !holds(&labels, more[k].as_str()) {
            push_text(&mut labels, more[k].clone());
        }
        k = k + 1;
    }
    assert(views(labels@).len() == labels@.len());
    if labels.len() == 0 {
        return Err(Error::new("the design has no factors, so there is nothing to augment"));
    }
    let src: String = join(&labels, " + ");
    match Model::parse(src.as_str(), factors) {
        Ok(m) => Ok(m),
        Err(e) => {
            let m: String = e.to_text();
            let out: Error = Error::of3(
                "building the union of the design's model formulas: ",
                m.as_str(),
                "",
            );
            assert(out@ =~= "building the union of the design's model formulas: "@ + e@) by {
                reveal_strlit("");
            }
            Err(out)
        },
    }
}

/// The canonical label of a single requested term, or the message where it is
/// none.
pub open spec fn target_of(src: Seq<char>, names: Seq<Seq<char>>) -> Result<Seq<char>, Seq<char>> {
    match model_of(src, names) {
        Err(m) => Err("--for "@ + src + ": invalid term: "@ + m),
        Ok(model) => if model.terms.len() == 1 {
            Ok(term_label(model.terms[0], names))
        } else {
            Err("--for "@ + src + ": expected one term, such as 'a' or 'a:b'"@)
        },
    }
}

/// The canonical label of a single requested term, so that `b:a` and `a:b`
/// agree.
pub fn target_label(src: &str, factors: &[Factor]) -> (r: Result<String, Error>)
    ensures
        match r {
            Ok(s) => target_of(src@, factor_names(factor_views(factors@))) == Ok::<
                Seq<char>,
                Seq<char>,
            >(s@),
            Err(e) => target_of(src@, factor_names(factor_views(factors@))) == Err::<
                Seq<char>,
                Seq<char>,
            >(e@),
        },
{
    match Model::parse(src, factors) {
        Err(e) => {
            let m: String = e.to_text();
            let mut message: String = String::new();
            message.append("--for ");
            message.append(src);
            message.append(": invalid term: ");
            message.append(m.as_str());
            assert(message@ =~= "--for "@ + src@ + ": invalid term: "@ + e@);
            Err(Error { message })
        },
        Ok(model) => {
            assert(model@.terms.len() == model.terms@.len());
            if model.terms.len() == 1 {
                assert(model@.terms[0] == model.terms@[0]@);
                assert(term_wf(model@.terms[0], factors@.len()));
                Ok(model.terms[0].label(factors))
            } else {
                Err(Error::of3("--for ", src, ": expected one term, such as 'a' or 'a:b'"))
            }
        },
    }
}

/// The labels of the first `n` requested terms.
pub open spec fn targets_of(srcs: Seq<Seq<char>>, names: Seq<Seq<char>>, n: nat) -> Result<
    Seq<Seq<char>>,
    Seq<char>,
>
    decreases n,
{
    if n == 0 {
        Ok(Seq::empty())
    } else {
        match targets_of(srcs, names, (n - 1) as nat) {
            Err(m) => Err(m),
            Ok(before) => match target_of(srcs[n - 1], names) {
                Err(m) => Err(m),
                Ok(label) => Ok(before.push(label)),
            },
        }
    }
}

proof fn lemma_targets_error(srcs: Seq<Seq<char>>, names: Seq<Seq<char>>, n: nat, m: nat)
    requires
        n <= m,
        targets_of(srcs, names, n) is Err,
    ensures
        targets_of(srcs, names, m) == targets_of(srcs, names, n),
    decreases m - n,
{
    if n < m {
        lemma_targets_error(srcs, names, n, (m - 1) as nat);
    }
}

/// The labels of all requested terms.
pub fn target_labels(srcs: &Vec<String>, factors: &[Factor]) -> (r: Result<Vec<String>, Error>)
    ensures
        match r {
            Ok(labels) => targets_of(
                views(srcs@),
                factor_names(factor_views(factors@)),
                srcs@.len(),
            ) == Ok::<Seq<Seq<char>>, Seq<char>>(views(labels@)),
            Err(e) => targets_of(
                views(srcs@),
                factor_names(factor_views(factors@)),
                srcs@.len(),
            ) == Err::<Seq<Seq<char>>, Seq<char>>(e@),
        },
{
    let ghost (sv, names) = (views(srcs@), factor_names(factor_views(factors@)));
    let mut labels: Vec<String> = Vec::new();
    assert(views(labels@) =~= Seq::empty());
    let mut i: usize = 0;
    while i < srcs.len()
        invariant
            i <= srcs@.len(),
            sv == views(srcs@),
            names == factor_names(factor_views(factors@)),
            targets_of(sv, names, i as nat) == Ok::<Seq<Seq<char>>, Seq<char>>(views(labels@)),
        decreases srcs@.len() - i,
    {
        assert(sv[i as int] == srcs@[i as int]@);
        match target_label(srcs[i].as_str(), factors) {
            Err(e) => {
                proof {
                    lemma_targets_error(sv, names, (i + 1) as nat, sv.len());
                }
                return Err(e);
            },
            Ok(label) => {
                push_text(&mut labels, label);
            },
        }
        i = i + 1;
    }
    Ok(labels)
}

/// The requested labels, among the first `n`, that no formula declares.
pub open spec fn undeclared(
    labels: Seq<Seq<char>>,
    models: Seq<ModelView>,
    names: Seq<Seq<char>>,
    n: nat,
) -> Seq<Seq<char>>
    decreases n,
{
    if n == 0 {
        Seq::empty()
    } else {
        let before = undeclared(labels, models, names, (n - 1) as nat);
        if all_labels(models, names, models.len()).contains(labels[n - 1]) {
            before
        } else {
            before.push(labels[n - 1])
        }
    }
}

proof fn lemma_label_known(models: Seq<ModelView>, names: Seq<Seq<char>>, n: nat, m: int, t: int)
    requires
        0 <= m < n <= models.len(),
        0 <= t < models[m].terms.len(),
    ensures
        all_labels(models, names, n).contains(term_label(models[m].terms[t], names)),
    decreases n,
{
    let before = all_labels(models, names, (n - 1) as nat);
    let own = term_labels(models[n - 1].terms, names);
    let all = all_labels(models, names, n);
    let x = term_label(models[m].terms[t], names);
    if m == n - 1 {
        assert(own[t] == x);
        assert(all[before.len() + t] == x);
    } else {
        lemma_label_known(models, names, (n - 1) as nat, m, t);
        let k = choose|k: int| 0 <= k < before.len() && before[k] == x;
        assert(all[k] == x);
    }
}

proof fn lemma_label_source(models: Seq<ModelView>, names: Seq<Seq<char>>, n: nat, k: int)
    requires
        n <= models.len(),
        0 <= k < all_labels(models, names, n).len(),
    ensures
        exists|m: int, t: int|
            0 <= m < n && 0 <= t < models[m].terms.len() && #[trigger] term_label(
                models[m].terms[t],
                names,
            ) == all_labels(models, names, n)[k],
    decreases n,
{
    let before = all_labels(models, names, (n - 1) as nat);
    let own = term_labels(models[n - 1].terms, names);
    if k < before.len() {
        lemma_label_source(models, names, (n - 1) as nat, k);
    } else {
        let t = k - before.len();
        assert(own[t] == term_label(models[n - 1].terms[t], names));
    }
}

/// The requested labels that no formula declares.
pub fn added_terms(labels: &Vec<String>, models: &[Model], factors: &[Factor]) -> (out: Vec<String>)
    requires
        forall|i: int|
            0 <= i < models@.len() ==> model_wf(#[trigger] model_views(models@)[i], factors@.len()),
    ensures
        views(out@) == undeclared(
            views(labels@),
            model_views(models@),
            factor_names(factor_views(factors@)),
            labels@.len(),
        ),
{
    let ghost (lv, mv, names) = (
        views(labels@),
        model_views(models@),
        factor_names(factor_views(factors@)),
    );
    let ghost all = all_labels(mv, names, mv.len());
    let mut out: Vec<String> = Vec::new();
    assert(views(out@) =~= Seq::empty());
    let mut i: usize = 0;
    while i < labels.len()
        invariant
            i <= labels@.len(),
            lv == views(labels@),
            mv == model_views(models@),
            names == factor_names(factor_views(factors@)),
            all == all_labels(mv, names, mv.len()),
            forall|k: int| 0 <= k < models@.len() ==> model_wf(#[trigger] mv[k], factors@.len()),
            views(out@) == undeclared(lv, mv, names, i as nat),
        decreases labels@.len() - i,
    {
        assert(lv[i as int] == labels@[i as int]@);
        let mut known: bool = false;
        let mut m: usize = 0;
        while m < models.len()
            invariant
                m <= models@.len(),
                i < labels@.len(),
                mv == model_views(models@),
                names == factor_names(factor_views(factors@)),
                all == all_labels(mv, names, mv.len()),
                forall|k: int| 0 <= k < models@.len() ==> model_wf(#[trigger] mv[k], factors@.len()),
                known ==> all.contains(labels@[i as int]@),
                !known ==> forall|a: int, t: int|
                    0 <= a < m && 0 <= t < mv[a].terms.len() ==> #[trigger] term_label(
                        mv[a].terms[t],
                        names,
                    ) != labels@[i as int]@,
            decreases models@.len() - m,
        {
            assert(mv[m as int] == models@[m as int]@);
            assert(model_wf(mv[m as int], factors@.len()));
            let mut t: usize = 0;
            while t < models[m].terms.len()
                invariant
                    m < models@.len(),
                    i < labels@.len(),
                    t <= models@[m as int].terms@.len(),
                    mv == model_views(models@),
                    mv[m as int] == models@[m as int]@,
                    names == factor_names(factor_views(factors@)),
                    all == all_labels(mv, names, mv.len()),
                    terms_wf(mv[m as int].terms, factors@.len()),
                    known ==> all.contains(labels@[i as int]@),
                    !known ==> forall|a: int, b: int|
                        0 <= a < m && 0 <= b < mv[a].terms.len() ==> #[trigger] term_label(
                            mv[a].terms[b],
                            names,
                        ) != labels@[i as int]@,
                    !known ==> forall|b: int|
                        0 <= b < t ==> #[trigger] term_label(mv[m as int].terms[b], names)
                            != labels@[i as int]@,
                decreases models@[m as int].terms@.len() - t,
            {
                assert(mv[m as int].terms[t as int] == models@[m as int].terms@[t as int]@);
                assert(term_wf(mv[m as int].terms[t as int], factors@.len()));
                let label: String = models[m].terms[t].label(factors);
                if equal(label.as_str(), labels[i].as_str()) {
                    proof {
                        lemma_label_known(mv, names, mv.len(), m as int, t as int);
                    }
                    known = true;
                }
                t = t + 1;
            }
            m = m + 1;
        }
        proof {
            if !known && all.contains(lv[i as int]) {
                let k = choose|k: int| 0 <= k < all.len() && all[k] == lv[i as int];
                lemma_label_source(mv, names, mv.len(), k);
            }
        }
        if !known {
            push_text(&mut out, labels[i].clone());
        }
        i = i + 1;
    }
    out
}

// ===== Target terms =====

/// The first term, from `i` on, with a label.
pub open spec fn term_with_label(
    terms: Seq<Seq<usize>>,
    names: Seq<Seq<char>>,
    label: Seq<char>,
    i: nat,
) -> Option<nat>
    decreases terms.len() - i,
{
    if i >= terms.len() {
        None
    } else if term_label(terms[i as int], names) == label {
        Some(i)
    } else {
        term_with_label(terms, names, label, i + 1)
    }
}

/// The terms with the first `n` labels.
pub open spec fn labelled_terms(
    terms: Seq<Seq<usize>>,
    names: Seq<Seq<char>>,
    labels: Seq<Seq<char>>,
    n: nat,
) -> Result<Seq<usize>, Seq<char>>
    decreases n,
{
    if n == 0 {
        Ok(Seq::empty())
    } else {
        match labelled_terms(terms, names, labels, (n - 1) as nat) {
            Err(m) => Err(m),
            Ok(before) => match term_with_label(terms, names, labels[n - 1], 0) {
                Some(t) => Ok(before.push(t as usize)),
                None => Err("term '"@ + labels[n - 1] + "' is not in the model"@),
            },
        }
    }
}

/// The first `n` terms that are not estimable.
pub open spec fn open_terms(est: EstimabilityView, n: nat) -> Seq<usize>
    decreases n,
{
    if n == 0 {
        Seq::empty()
    } else {
        let before = open_terms(est, (n - 1) as nat);
        if est.terms[n - 1].estimable {
            before
        } else {
            before.push((n - 1) as usize)
        }
    }
}

/// The terms to aim at: the requested ones, otherwise every term that is not
/// estimable. Without either the number of runs has to be given.
pub open spec fn aims(
    model: ModelView,
    names: Seq<Seq<char>>,
    labels: Seq<Seq<char>>,
    est: EstimabilityView,
    runs: Option<usize>,
) -> Result<Seq<usize>, Seq<char>> {
    let found = if labels.len() == 0 {
        Ok(open_terms(est, est.terms.len()))
    } else {
        labelled_terms(model.terms, names, labels, labels.len())
    };
    match found {
        Err(m) => Err(m),
        Ok(terms) => if terms.len() == 0 && runs is None {
            Err(
                "every term of '"@ + model.formula
                    + "' is already estimable; pass --runs N to add runs for precision, or --for TERM to name a target"@,
            )
        } else {
            Ok(terms)
        },
    }
}

proof fn lemma_labelled_error(
    terms: Seq<Seq<usize>>,
    names: Seq<Seq<char>>,
    labels: Seq<Seq<char>>,
    n: nat,
    m: nat,
)
    requires
        n <= m,
        labelled_terms(terms, names, labels, n) is Err,
    ensures
        labelled_terms(terms, names, labels, m) == labelled_terms(terms, names, labels, n),
    decreases m - n,
{
    if n < m {
        lemma_labelled_error(terms, names, labels, n, (m - 1) as nat);
    }
}

fn find_term(model: &Model, factors: &[Factor], label: &str) -> (r: Option<usize>)
    requires
        terms_wf(model@.terms, factors@.len()),
    ensures
        match r {
            Some(t) => term_with_label(
                model@.terms,
                factor_names(factor_views(factors@)),
                label@,
                0,
            ) == Some(t as nat) && t < model@.terms.len(),
            None => term_with_label(
                model@.terms,
                factor_names(factor_views(factors@)),
                label@,
                0,
            ) is None,
        },
{
    let ghost (tv, names) = (model@.terms, factor_names(factor_views(factors@)));
    let mut t: usize = 0;
    while t < model.terms.len()
        invariant
            t <= model.terms@.len(),
            tv == model@.terms,
            names == factor_names(factor_views(factors@)),
            terms_wf(tv, factors@.len()),
            term_with_label(tv, names, label@, 0) == term_with_label(tv, names, label@, t as nat),
        decreases model.terms@.len() - t,
    {
        assert(tv[t as int] == model.terms@[t as int]@);
        assert(term_wf(tv[t as int], factors@.len()));
        let s: String = model.terms[t].label(factors);
        if equal(s.as_str(), label) {
            return Some(t);
        }
        t = t + 1;
    }
    None
}

/// The terms to aim at.
pub fn target_terms(
    model: &Model,
    factors: &[Factor],
    labels: &Vec<String>,
    est: &Estimability,
    runs: Option<usize>,
) -> (r: Result<Vec<usize>, Error>)
    requires
        terms_wf(model@.terms, factors@.len()),
        est@.terms.len() == model@.terms.len(),
    ensures
        match r {
            Ok(terms) => aims(
                model@,
                factor_names(factor_views(factors@)),
                views(labels@),
                est@,
                runs,
            ) == Ok::<Seq<usize>, Seq<char>>(terms@) && forall|i: int|
                0 <= i < terms@.len() ==> #[trigger] terms@[i] < model@.terms.len(),
            Err(e) => aims(
                model@,
                factor_names(factor_views(factors@)),
                views(labels@),
                est@,
                runs,
            ) == Err::<Seq<usize>, Seq<char>>(e@),
        },
{
    let ghost (tv, names, lv) = (
        model@.terms,
        factor_names(factor_views(factors@)),
        views(labels@),
    );
    assert(lv.len() == labels@.len());
    let mut terms: Vec<usize> = Vec::new();
    assert(terms@ =~= Seq::empty());
    if labels.len() == 0 {
        let mut t: usize = 0;
        while t < est.terms.len()
            invariant
                t <= est.terms@.len(),
                est@.terms.len() == tv.len(),
                terms@ == open_terms(est@, t as nat),
                forall|i: int| 0 <= i < terms@.len() ==> #[trigger] terms@[i] < tv.len(),
            decreases est.terms@.len() - t,
        {
            assert(est@.terms[t as int] == est.terms@[t as int]@);
            if !est.terms[t].estimable {
                terms.push(t);
            }
            t = t + 1;
        }
    } else {
        let mut i: usize = 0;
        while i < labels.len()
            invariant
                i <= labels@.len(),
                lv == views(labels@),
                lv.len() == labels@.len(),
                lv.len() > 0,
                tv == model@.terms,
                names == factor_names(factor_views(factors@)),
                terms_wf(tv, factors@.len()),
                labelled_terms(tv, names, lv, i as nat) == Ok::<Seq<usize>, Seq<char>>(terms@),
                forall|k: int| 0 <= k < terms@.len() ==> #[trigger] terms@[k] < tv.len(),
            decreases labels@.len() - i,
        {
            assert(lv[i as int] == labels@[i as int]@);
            match find_term(model, factors, labels[i].as_str()) {
                Some(t) => {
                    terms.push(t);
                },
                None => {
                    proof {
                        lemma_labelled_error(tv, names, lv, (i + 1) as nat, lv.len());
                    }
                    return Err(Error::of3("term '", labels[i].as_str(), "' is not in the model"));
                },
            }
            i = i + 1;
        }
    }
    if terms.len() == 0 && runs.is_none() {
        return Err(
            Error::of3(
                "every term of '",
                model.formula.as_str(),
                "' is already estimable; pass --runs N to add runs for precision, or --for TERM to name a target",
            ),
        );
    }
    Ok(terms)
}

} // verus!
