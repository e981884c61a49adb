//! Model formulas: names joined by `+`, `*`, `:` and brackets.
use vstd::prelude::*;

use crate::error::Error;
use crate::factor::{factor_views, Factor, FactorView};
use crate::text::{chars_of, equal, is_text, is_white, join, part, same, separated, string_of, texts, trim, trimmed, views, white};

verus! {

/// A set of factors, by their positions in ascending order.
#[derive(Debug, PartialEq, Eq, Hash)]
pub struct Term(pub Vec<usize>);

impl View for Term {
    type V = Seq<usize>;

    open spec fn view(&self) -> Seq<usize> {
        self.0@
    }
}

/// A canonical formula with its terms.
#[derive(Debug, PartialEq)]
pub struct Model {
    pub formula: String,
    pub response: Option<String>,
    pub terms: Vec<Term>,
}

/// What a model holds.
#[verifier::ext_equal]
pub struct ModelView {
    pub formula: Seq<char>,
    pub response: Option<Seq<char>>,
    pub terms: Seq<Seq<usize>>,
}

/// The views of a list of terms.
pub open spec fn term_views(terms: Seq<Term>) -> Seq<Seq<usize>> {
    terms.map_values(|t: Term| t@)
}

/// The view of an optional text.
pub open spec fn text_view(s: Option<String>) -> Option<Seq<char>> {
    match s {
        Some(x) => Some(x@),
        None => None,
    }
}

impl View for Model {
    type V = ModelView;

    open spec fn view(&self) -> ModelView {
        ModelView {
            formula: self.formula@,
            response: text_view(self.response),
            terms: term_views(self.terms@),
        }
    }
}

/// The views of a list of models.
pub open spec fn model_views(models: Seq<Model>) -> Seq<ModelView> {
    models.map_values(|m: Model| m@)
}

/// The names of factors.
pub open spec fn factor_names(factors: Seq<FactorView>) -> Seq<Seq<char>> {
    factors.map_values(|f: FactorView| f.name)
}

// ===== Names =====

/// Whether a character beyond ASCII that is no white space is alphanumeric.
pub uninterp spec fn unicode_alphanumeric(c: char) -> bool;

/// `char::is_alphanumeric` of the standard library, which looks the character up
/// in the Unicode tables; the result is named, nothing more is said of it.
#[verifier::external_body]
fn lookup_alphanumeric(c: char) -> (r: bool)
    ensures
        r == unicode_alphanumeric(c),
{
    c.is_alphanumeric()
}

/// A letter or a digit.
pub open spec fn alphanumeric(c: char) -> bool {
    if (c as u32) < 128 {
        '0' <= c <= '9' || 'a' <= c <= 'z' || 'A' <= c <= 'Z'
    } else {
        !white(c) && unicode_alphanumeric(c)
    }
}

/// A character of a name.
pub open spec fn name_char(c: char) -> bool {
    alphanumeric(c) || c == '_' || c == '-'
}

/// A text is a name.
pub open spec fn valid_name(s: Seq<char>) -> bool {
    s.len() > 0 && forall|i: int| 0 <= i < s.len() ==> name_char(#[trigger] s[i])
}

/// Whether a character may stand in a name.
pub fn is_name_char(c: char) -> (r: bool)
    ensures
        r == name_char(c),
{
    if (c as u32) < 128 {
        ('0' <= c && c <= '9') || ('a' <= c && c <= 'z') || ('A' <= c && c <= 'Z') || c == '_' || c
            == '-'
    } else {
        !is_white(c) && lookup_alphanumeric(c)
    }
}

/// Whether a text is a name.
pub fn is_valid_name(s: &[char]) -> (r: bool)
    ensures
        r == valid_name(s@),
{
    if s.len() == 0 {
        return false;
    }
    let mut i: usize = 0;
    while i < s.len()
        invariant
            i <= s@.len(),
            s@.len() > 0,
            forall|j: int| 0 <= j < i ==> name_char(#[trigger] s@[j]),
        decreases s@.len() - i,
    {
        if !is_name_char(s[i]) {
            return false;
        }
        i = i + 1;
    }
    true
}

/// `p` occurs in `s`.
pub open spec fn occurs(s: Seq<char>, p: Seq<char>) -> bool {
    exists|i: int| #[trigger] occurs_at(s, p, i)
}

/// `p` stands in `s` at position `i`.
pub open spec fn occurs_at(s: Seq<char>, p: Seq<char>, i: int) -> bool {
    0 <= i <= s.len() - p.len() && s.subrange(i, i + p.len()) == p
}

/// Whether a text occurs in another.
pub fn contains(s: &[char], p: &str) -> (r: bool)
    ensures
        r == occurs(s@, p@),
{
    let q: Vec<char> = chars_of(p);
    let mut i: usize = 0;
    while i <= s.len()
        invariant
            i <= s@.len() + 1,
            q@ == p@,
            forall|j: int| 0 <= j < i ==> !#[trigger] occurs_at(s@, p@, j),
        decreases s@.len() + 1 - i,
    {
        if q.len() <= s.len() - i {
            let here: Vec<char> = part(s, i, i + q.len());
            if same(&here, &q) {
                assert(occurs_at(s@, p@, i as int));
                return true;
            }
        }
        assert(!occurs_at(s@, p@, i as int));
        if i == s.len() {
            return false;
        }
        i = i + 1;
    }
    false
}

// ===== Tokens =====

/// The operator characters.
pub open spec fn operator(c: char) -> bool {
    c == '+' || c == '*' || c == ':' || c == '(' || c == ')'
}

/// The message for a part of a formula that is not supported.
pub open spec fn unsupported(what: Seq<char>) -> Seq<char> {
    "unsupported formula syntax '"@ + what + "'"@
}

/// The tokens of the text before position `i`, with the name that is still open;
/// or the message for the first character that no token can hold.
pub open spec fn tokens_before(s: Seq<char>, i: nat) -> Result<(Seq<Seq<char>>, Seq<char>), Seq<char>>
    decreases i,
{
    if i == 0 {
        Ok((Seq::empty(), Seq::empty()))
    } else {
        match tokens_before(s, (i - 1) as nat) {
            Err(m) => Err(m),
            Ok((done, name)) => {
                let c = s[i - 1];
                let closed = if name.len() > 0 {
                    done.push(name)
                } else {
                    done
                };
                if name_char(c) {
                    Ok((done, name.push(c)))
                } else if operator(c) {
                    Ok((closed.push(seq![c]), Seq::empty()))
                } else if white(c) {
                    Ok((closed, Seq::empty()))
                } else {
                    Err(unsupported(seq![c]))
                }
            },
        }
    }
}

/// The tokens of a formula: names and operators.
pub open spec fn token_list(s: Seq<char>) -> Result<Seq<Seq<char>>, Seq<char>> {
    match tokens_before(s, s.len()) {
        Err(m) => Err(m),
        Ok((done, name)) => {
            let all = if name.len() > 0 {
                done.push(name)
            } else {
                done
            };
            if all.contains("-1"@) {
                Err(unsupported("-1"@))
            } else {
                Ok(all)
            }
        },
    }
}

proof fn lemma_tokens_error(s: Seq<char>, i: nat, n: nat)
    requires
        i <= n,
        tokens_before(s, i) is Err,
    ensures
        tokens_before(s, n) == tokens_before(s, i),
    decreases n - i,
{
    if i < n {
        lemma_tokens_error(s, i, (n - 1) as nat);
    }
}

fn unsupported_char(c: char) -> (e: Error)
    ensures
        e@ == unsupported(seq![c]),
{
    let mut v: Vec<char> = Vec::new();
    v.push(c);
    assert(v@ =~= seq![c]);
    let s: String = string_of(&v);
    Error::of3("unsupported formula syntax '", s.as_str(), "'")
}

/// Splits a formula into its tokens.
fn tokenize(s: &[char]) -> (r: Result<Vec<Vec<char>>, Error>)
    ensures
        match r {
            Ok(t) => token_list(s@) == Ok::<Seq<Seq<char>>, Seq<char>>(texts(t@)),
            Err(e) => token_list(s@) == Err::<Seq<Seq<char>>, Seq<char>>(e@),
        },
{
    let mut done: Vec<Vec<char>> = Vec::new();
    let mut name: Vec<char> = Vec::new();
    let mut i: usize = 0;
    assert(texts(done@) =~= Seq::empty() && name@ =~= Seq::empty());
    while i < s.len()
        invariant
            i <= s@.len(),
            tokens_before(s@, i as nat) == Ok::<(Seq<Seq<char>>, Seq<char>), Seq<char>>(
                (texts(done@), name@),
            ),
        decreases s@.len() - i,
    {
        let c: char = s[i];
        if is_name_char(c) {
            name.push(c);
        } else {
            if name.len() > 0 {
                let ghost before = texts(done@);
                let ghost n = name@;
                done.push(name);
                name = Vec::new();
                assert(texts(done@) =~= before.push(n));
            }
            assert(name@ =~= Seq::empty());
            if c == '+' || c == '*' || c == ':' || c == '(' || c == ')' {
                let ghost before = texts(done@);
                let mut op: Vec<char> = Vec::new();
                op.push(c);
                assert(op@ =~= seq![c]);
                done.push(op);
                assert(texts(done@) =~= before.push(seq![c]));
            } else if !is_white(c) {
                proof {
                    lemma_tokens_error(s@, (i + 1) as nat, s@.len());
                }
                return Err(unsupported_char(c));
            }
        }
        i = i + 1;
    }
    if name.len() > 0 {
        let ghost before = texts(done@);
        let ghost n = name@;
        done.push(name);
        assert(texts(done@) =~= before.push(n));
    }
    let ghost all = texts(done@);
    let mut k: usize = 0;
    while k < done.len()
        invariant
            k <= done@.len(),
            all == texts(done@),
            tokens_before(s@, s@.len()) is Ok,
            token_list(s@) == (if all.contains("-1"@) {
                Err::<Seq<Seq<char>>, Seq<char>>(unsupported("-1"@))
            } else {
                Ok::<Seq<Seq<char>>, Seq<char>>(all)
            }),
            forall|j: int| 0 <= j < k ==> #[trigger] all[j] != "-1"@,
        decreases done@.len() - k,
    {
        assert(all[k as int] == done@[k as int]@);
        if is_text(&done[k], "-1") {
            assert(all.contains("-1"@));
            return Err(Error::of3("unsupported formula syntax '", "-1", "'"));
        }
        k = k + 1;
    }
    Ok(done)
}

// ===== Terms =====

/// Ascending, without repetition.
pub open spec fn ascending(t: Seq<usize>) -> bool {
    forall|i: int, j: int| 0 <= i < j < t.len() ==> #[trigger] t[i] < #[trigger] t[j]
}

/// A term of factors below `n`: ascending and not empty.
pub open spec fn term_wf(t: Seq<usize>, n: nat) -> bool {
    &&& t.len() > 0
    &&& ascending(t)
    &&& forall|i: int| 0 <= i < t.len() ==> #[trigger] t[i] < n
}

/// All terms are terms of factors below `n`.
pub open spec fn terms_wf(terms: Seq<Seq<usize>>, n: nat) -> bool {
    forall|i: int| 0 <= i < terms.len() ==> term_wf(#[trigger] terms[i], n)
}

/// Two terms share a factor.
pub open spec fn shares(a: Seq<usize>, b: Seq<usize>) -> bool {
    exists|i: int| 0 <= i < a.len() && b.contains(#[trigger] a[i])
}

/// The position at which `x` stands in the ascending term `t`.
pub open spec fn place_of(t: Seq<usize>, x: usize, i: nat) -> nat
    decreases t.len() - i,
{
    if i < t.len() && t[i as int] < x {
        place_of(t, x, i + 1)
    } else {
        i
    }
}

/// The ascending term with the factors of `a` and the first `n` of `b`.
pub open spec fn union_term(a: Seq<usize>, b: Seq<usize>, n: nat) -> Seq<usize>
    decreases n,
{
    if n == 0 {
        a
    } else {
        let u = union_term(a, b, (n - 1) as nat);
        u.insert(place_of(u, b[n - 1], 0) as int, b[n - 1])
    }
}

/// The message for an interaction with a repeated factor.
pub open spec fn repeated_factor() -> Seq<char> {
    "repeated factor in interaction (a:a is not supported)"@
}

/// The interactions of each term of `left` with each of `right`, from the pair
/// (i, j) on, after `acc`.
pub open spec fn cross_from(
    left: Seq<Seq<usize>>,
    right: Seq<Seq<usize>>,
    i: nat,
    j: nat,
    acc: Seq<Seq<usize>>,
) -> Result<Seq<Seq<usize>>, Seq<char>>
    decreases left.len() - i, right.len() - j,
{
    if i >= left.len() {
        Ok(acc)
    } else if j >= right.len() {
        cross_from(left, right, i + 1, 0, acc)
    } else if shares(left[i as int], right[j as int]) {
        Err(repeated_factor())
    } else {
        cross_from(
            left,
            right,
            i,
            j + 1,
            acc.push(union_term(left[i as int], right[j as int], right[j as int].len())),
        )
    }
}

/// The interactions of each term of `left` with each of `right`.
pub open spec fn crossed(left: Seq<Seq<usize>>, right: Seq<Seq<usize>>) -> Result<
    Seq<Seq<usize>>,
    Seq<char>,
> {
    cross_from(left, right, 0, 0, Seq::empty())
}

proof fn lemma_place_of(t: Seq<usize>, x: usize, i: nat)
    requires
        i <= t.len(),
        ascending(t),
    ensures
        i <= place_of(t, x, i) <= t.len(),
        forall|k: int| i <= k < place_of(t, x, i) ==> #[trigger] t[k] < x,
        forall|k: int| place_of(t, x, i) <= k < t.len() ==> #[trigger] t[k] >= x,
    decreases t.len() - i,
{
    if i < t.len() && t[i as int] < x {
        lemma_place_of(t, x, i + 1);
    }
}

/// The union of two ascending terms without a common factor is ascending and
/// holds exactly their factors.
pub proof fn lemma_union_term(a: Seq<usize>, b: Seq<usize>, n: nat, m: nat)
    requires
        term_wf(a, m),
        term_wf(b, m),
        !shares(a, b),
        n <= b.len(),
    ensures
        term_wf(union_term(a, b, n), m),
        union_term(a, b, n).len() == a.len() + n,
        forall|x: usize|
            #[trigger] union_term(a, b, n).contains(x) <==> a.contains(x) || b.take(
                n as int,
            ).contains(x),
    decreases n,
{
    if n == 0 {
        assert(b.take(0) =~= Seq::<usize>::empty());
    } else {
        let k = (n - 1) as nat;
        lemma_union_term(a, b, k, m);
        let u = union_term(a, b, k);
        let x = b[n - 1];
        let p = place_of(u, x, 0) as int;
        lemma_place_of(u, x, 0);
        let w = u.insert(p, x);
        assert(!u.contains(x)) by {
            if u.contains(x) {
                if a.contains(x) {
                    let i = choose|i: int| 0 <= i < a.len() && a[i] == x;
                    assert(b.contains(a[i])) by {
                        assert(b[n - 1] == a[i]);
                    }
                } else {
                    assert(b.take(k as int).contains(x));
                    let i = choose|i: int| 0 <= i < k && b.take(k as int)[i] == x;
                    assert(b[i] < b[n - 1]);
                }
            }
        }
        assert forall|i: int, j: int| 0 <= i < j < w.len() implies #[trigger] w[i] < #[trigger] w[j] by {
            let wi = if i < p {
                u[i]
            } else if i == p {
                x
            } else {
                u[i - 1]
            };
            let wj = if j < p {
                u[j]
            } else if j == p {
                x
            } else {
                u[j - 1]
            };
            assert(w[i] == wi && w[j] == wj);
            if i == p {
                assert(u.contains(u[j - 1]));
            }
        }
        assert forall|i: int| 0 <= i < w.len() implies #[trigger] w[i] < m by {
            if i < p {
                assert(w[i] == u[i]);
            } else if i > p {
                assert(w[i] == u[i - 1]);
            }
        }
        assert forall|y: usize|
            #[trigger] w.contains(y) <==> a.contains(y) || b.take(n as int).contains(y) by {
            assert(b.take(n as int) =~= b.take(k as int).push(x));
            if w.contains(y) {
                let i = choose|i: int| 0 <= i < w.len() && w[i] == y;
                if i < p {
                    assert(u[i] == y);
                    assert(u.contains(y));
                } else if i > p {
                    assert(u[i - 1] == y);
                    assert(u.contains(y));
                }
                if b.take(k as int).contains(y) {
                    let e = choose|e: int| 0 <= e < k && b.take(k as int)[e] == y;
                    assert(b.take(n as int)[e] == y);
                }
                if i == p {
                    assert(b.take(n as int)[n - 1] == y);
                }
            }
            if a.contains(y) || b.take(n as int).contains(y) {
                if y == x {
                    assert(w[p] == y);
                } else {
                    if b.take(n as int).contains(y) {
                        let e = choose|e: int| 0 <= e < n && b.take(n as int)[e] == y;
                        assert(b.take(k as int)[e] == y);
                    }
                    assert(u.contains(y));
                    let i = choose|i: int| 0 <= i < u.len() && u[i] == y;
                    if i < p {
                        assert(w[i] == y);
                    } else {
                        assert(w[i + 1] == y);
                    }
                }
            }
        }
    }
}

fn do_share(a: &Vec<usize>, b: &Vec<usize>) -> (r: bool)
    ensures
        r == shares(a@, b@),
{
    let mut i: usize = 0;
    while i < a.len()
        invariant
            i <= a@.len(),
            forall|k: int| 0 <= k < i ==> !b@.contains(#[trigger] a@[k]),
        decreases a@.len() - i,
    {
        let mut j: usize = 0;
        while j < b.len()
            invariant
                i < a@.len(),
                j <= b@.len(),
                forall|k: int| 0 <= k < j ==> #[trigger] b@[k] != a@[i as int],
            decreases b@.len() - j,
        {
            if b[j] == a[i] {
                assert(b@.contains(a@[i as int]));
                return true;
            }
            j = j + 1;
        }
        i = i + 1;
    }
    false
}

fn join_terms(a: &Vec<usize>, b: &Vec<usize>) -> (u: Vec<usize>)
    requires
        exists|m: nat| #[trigger] term_wf(a@, m) && term_wf(b@, m),
        !shares(a@, b@),
    ensures
        u@ == union_term(a@, b@, b@.len()),
{
    let ghost m = choose|m: nat| #[trigger] term_wf(a@, m) && term_wf(b@, m);
    let mut u: Vec<usize> = a.clone();
    assert(u@ =~= a@);
    let mut n: usize = 0;
    while n < b.len()
        invariant
            n <= b@.len(),
            term_wf(a@, m),
            term_wf(b@, m),
            !shares(a@, b@),
            u@ == union_term(a@, b@, n as nat),
        decreases b@.len() - n,
    {
        let x: usize = b[n];
        let mut p: usize = 0;
        while p < u.len() && u[p] < x
            invariant
                p <= u@.len(),
                place_of(u@, x, 0) == place_of(u@, x, p as nat),
            decreases u@.len() - p,
        {
            p = p + 1;
        }
        u.insert(p, x);
        n = n + 1;
    }
    u
}

pub(crate) fn push_term(terms: &mut Vec<Term>, t: Term)
    ensures
        term_views(final(terms)@) == term_views(old(terms)@).push(t@),
{
    let ghost before = term_views(terms@);
    let ghost v = t@;
    terms.push(t);
    assert(term_views(terms@) =~= before.push(v));
}

/// The interactions of each term of `left` with each of `right`.
fn cross_terms(left: &Vec<Term>, right: &Vec<Term>, Ghost(m): Ghost<nat>) -> (r: Result<
    Vec<Term>,
    Error,
>)
    requires
        terms_wf(term_views(left@), m),
        terms_wf(term_views(right@), m),
    ensures
        match r {
            Ok(t) => crossed(term_views(left@), term_views(right@)) == Ok::<
                Seq<Seq<usize>>,
                Seq<char>,
            >(term_views(t@)) && terms_wf(term_views(t@), m),
            Err(e) => crossed(term_views(left@), term_views(right@)) == Err::<
                Seq<Seq<usize>>,
                Seq<char>,
            >(e@),
        },
{
    let ghost (l, r) = (term_views(left@), term_views(right@));
    let mut out: Vec<Term> = Vec::new();
    assert(term_views(out@) =~= Seq::empty());
    let mut i: usize = 0;
    while i < left.len()
        invariant
            i <= left@.len(),
            l == term_views(left@),
            r == term_views(right@),
            terms_wf(l, m),
            terms_wf(r, m),
            terms_wf(term_views(out@), m),
            crossed(l, r) == cross_from(l, r, i as nat, 0, term_views(out@)),
        decreases left@.len() - i,
    {
        let mut j: usize = 0;
        while j < right.len()
            invariant
                i < left@.len(),
                j <= right@.len(),
                l == term_views(left@),
                r == term_views(right@),
                terms_wf(l, m),
                terms_wf(r, m),
                terms_wf(term_views(out@), m),
                crossed(l, r) == cross_from(l, r, i as nat, j as nat, term_views(out@)),
            decreases right@.len() - j,
        {
            assert(l[i as int] == left@[i as int]@ && r[j as int] == right@[j as int]@);
            let (a, b): (&Vec<usize>, &Vec<usize>) = (&left[i].0, &right[j].0);
            if do_share(a, b) {
                return Err(
                    Error::new("repeated factor in interaction (a:a is not supported)"),
                );
            }
            proof {
                lemma_union_term(a@, b@, b@.len(), m);
                assert(term_wf(a@, m) && term_wf(b@, m));
            }
            let ghost before = term_views(out@);
            let u: Vec<usize> = join_terms(a, b);
            push_term(&mut out, Term(u));
            assert(terms_wf(term_views(out@), m)) by {
                assert forall|k: int| 0 <= k < before.len() + 1 implies term_wf(
                    #[trigger] term_views(out@)[k],
                    m,
                ) by {
                    if k < before.len() {
                        assert(term_views(out@)[k] == before[k]);
                    }
                }
            }
            j = j + 1;
        }
        i = i + 1;
    }
    Ok(out)
}

// ===== Grammar =====
//
//   expr  := prod ( '+' prod )*
//   prod  := inter ( '*' inter )*
//   inter := atom ( ':' atom )*
//   atom  := NAME | '(' expr ')'

/// What a rule of the grammar reads from a position: the terms and the position
/// behind them, or the message where it fails.
pub type Parsed = Result<(Seq<Seq<usize>>, nat), Seq<char>>;

/// Token `pos` is the operator `c`.
pub open spec fn token_is(tokens: Seq<Seq<char>>, pos: nat, c: char) -> bool {
    pos < tokens.len() && tokens[pos as int] == seq![c]
}

/// The first position of a name, from `i` on.
pub open spec fn name_index(names: Seq<Seq<char>>, name: Seq<char>, i: nat) -> Option<nat>
    decreases names.len() - i,
{
    if i >= names.len() {
        None
    } else if names[i as int] == name {
        Some(i)
    } else {
        name_index(names, name, i + 1)
    }
}

pub open spec fn expr_at(tokens: Seq<Seq<char>>, pos: nat, names: Seq<Seq<char>>) -> Parsed
    decreases tokens.len() - pos, 3nat,
{
    match prod_at(tokens, pos, names) {
        Err(m) => Err(m),
        Ok((t, p)) => if pos < p <= tokens.len() {
            sum_from(tokens, p, names, t)
        } else {
            Err(Seq::empty())
        },
    }
}

/// The rest of a sum after the terms `acc`.
pub open spec fn sum_from(
    tokens: Seq<Seq<char>>,
    pos: nat,
    names: Seq<Seq<char>>,
    acc: Seq<Seq<usize>>,
) -> Parsed
    decreases tokens.len() - pos, 0nat,
{
    if token_is(tokens, pos, '+') {
        match prod_at(tokens, pos + 1, names) {
            Err(m) => Err(m),
            Ok((t, p)) => if pos < p <= tokens.len() {
                sum_from(tokens, p, names, acc + t)
            } else {
                Err(Seq::empty())
            },
        }
    } else {
        Ok((acc, pos))
    }
}

pub open spec fn prod_at(tokens: Seq<Seq<char>>, pos: nat, names: Seq<Seq<char>>) -> Parsed
    decreases tokens.len() - pos, 2nat,
{
    match inter_at(tokens, pos, names) {
        Err(m) => Err(m),
        Ok((t, p)) => if pos < p <= tokens.len() {
            product_from(tokens, p, names, t)
        } else {
            Err(Seq::empty())
        },
    }
}

/// The rest of a product after the terms `acc`: both sides and their
/// interactions.
pub open spec fn product_from(
    tokens: Seq<Seq<char>>,
    pos: nat,
    names: Seq<Seq<char>>,
    acc: Seq<Seq<usize>>,
) -> Parsed
    decreases tokens.len() - pos, 0nat,
{
    if token_is(tokens, pos, '*') {
        match inter_at(tokens, pos + 1, names) {
            Err(m) => Err(m),
            Ok((t, p)) => if pos < p <= tokens.len() {
                match crossed(acc, t) {
                    Err(m) => Err(m),
                    Ok(x) => product_from(tokens, p, names, acc + t + x),
                }
            } else {
                Err(Seq::empty())
            },
        }
    } else {
        Ok((acc, pos))
    }
}

pub open spec fn inter_at(tokens: Seq<Seq<char>>, pos: nat, names: Seq<Seq<char>>) -> Parsed
    decreases tokens.len() - pos, 1nat,
{
    match atom_at(tokens, pos, names) {
        Err(m) => Err(m),
        Ok((t, p)) => if pos < p <= tokens.len() {
            interaction_from(tokens, p, names, t)
        } else {
            Err(Seq::empty())
        },
    }
}

/// The rest of an interaction after the terms `acc`.
pub open spec fn interaction_from(
    tokens: Seq<Seq<char>>,
    pos: nat,
    names: Seq<Seq<char>>,
    acc: Seq<Seq<usize>>,
) -> Parsed
    decreases tokens.len() - pos, 0nat,
{
    if token_is(tokens, pos, ':') {
        match atom_at(tokens, pos + 1, names) {
            Err(m) => Err(m),
            Ok((t, p)) => if pos < p <= tokens.len() {
                match crossed(acc, t) {
                    Err(m) => Err(m),
                    Ok(x) => interaction_from(tokens, p, names, x),
                }
            } else {
                Err(Seq::empty())
            },
        }
    } else {
        Ok((acc, pos))
    }
}

pub open spec fn atom_at(tokens: Seq<Seq<char>>, pos: nat, names: Seq<Seq<char>>) -> Parsed
    decreases tokens.len() - pos, 0nat,
{
    if token_is(tokens, pos, '(') {
        match expr_at(tokens, pos + 1, names) {
            Err(m) => Err(m),
            Ok((t, p)) => if token_is(tokens, p, ')') {
                Ok((t, p + 1))
            } else {
                Err("expected ')' in formula"@)
            },
        }
    } else if pos >= tokens.len() {
        Err("expected factor name in formula"@)
    } else {
        let name = tokens[pos as int];
        if !valid_name(name) {
            Err("expected factor name, got '"@ + name + "'"@)
        } else {
            match name_index(names, name, 0) {
                Some(i) => Ok((seq![seq![i as usize]], pos + 1)),
                None => if occurs(name, "-1"@) {
                    Err(unsupported("-1"@))
                } else {
                    Err("unknown factor name '"@ + name + "' in formula"@)
                },
            }
        }
    }
}

/// The reading of a rule by the exec function: the terms and the position.
spec fn read_as(
    r: Result<(Vec<Term>, usize), Error>,
    s: Parsed,
    tokens: Seq<Seq<char>>,
    pos: nat,
    n: nat,
) -> bool {
    match r {
        Ok((t, p)) => s == Ok::<(Seq<Seq<usize>>, nat), Seq<char>>((term_views(t@), p as nat)) && pos
            < p <= tokens.len() && terms_wf(term_views(t@), n) && t@.len() > 0,
        Err(e) => s == Err::<(Seq<Seq<usize>>, nat), Seq<char>>(e@),
    }
}

fn is_op(tokens: &Vec<Vec<char>>, pos: usize, c: char) -> (r: bool)
    ensures
        r == token_is(texts(tokens@), pos as nat, c),
        r ==> pos < usize::MAX,
{
    if pos >= tokens.len() {
        return false;
    }
    let t: &Vec<char> = &tokens[pos];
    assert(texts(tokens@)[pos as int] == t@);
    if t.len() == 1 && t[0] == c {
        assert(t@ =~= seq![c]);
        true
    } else {
        assert(t@ != seq![c]) by {
            if t@ == seq![c] {
                assert(seq![c][0] == c);
            }
        }
        false
    }
}

fn append_terms(a: &mut Vec<Term>, b: Vec<Term>, Ghost(n): Ghost<nat>)
    requires
        terms_wf(term_views(old(a)@), n),
        terms_wf(term_views(b@), n),
    ensures
        term_views(final(a)@) == term_views(old(a)@) + term_views(b@),
        terms_wf(term_views(final(a)@), n),
{
    let ghost (x, y) = (term_views(a@), term_views(b@));
    let mut b = b;
    a.append(&mut b);
    assert(term_views(a@) =~= x + y);
    assert forall|i: int| 0 <= i < x.len() + y.len() implies term_wf(#[trigger] (x + y)[i], n) by {
        if i < x.len() {
            assert((x + y)[i] == x[i]);
        } else {
            assert((x + y)[i] == y[i - x.len()]);
        }
    }
}

/// The first factor with a name.
pub fn find_factor(factors: &[Factor], name: &[char]) -> (r: Option<usize>)
    ensures
        match r {
            Some(i) => name_index(factor_names(factor_views(factors@)), name@, 0) == Some(i as nat)
                && i < factors@.len() && factors@[i as int].name@ == name@,
            None => name_index(factor_names(factor_views(factors@)), name@, 0) is None,
        },
{
    let ghost names = factor_names(factor_views(factors@));
    let mut i: usize = 0;
    while i < factors.len()
        invariant
            i <= factors@.len(),
            names == factor_names(factor_views(factors@)),
            name_index(names, name@, 0) == name_index(names, name@, i as nat),
        decreases factors@.len() - i,
    {
        assert(names[i as int] == factors@[i as int].name@);
        if is_text(name, factors[i].name.as_str()) {
            return Some(i);
        }
        i = i + 1;
    }
    None
}

fn expr(tokens: &Vec<Vec<char>>, pos: usize, factors: &[Factor]) -> (r: Result<
    (Vec<Term>, usize),
    Error,
>)
    requires
        pos <= tokens@.len(),
    ensures
        read_as(
            r,
            expr_at(texts(tokens@), pos as nat, factor_names(factor_views(factors@))),
            texts(tokens@),
            pos as nat,
            factors@.len(),
        ),
    decreases tokens@.len() - pos, 3nat,
{
    let ghost (ts, names) = (texts(tokens@), factor_names(factor_views(factors@)));
    let (mut terms, mut p): (Vec<Term>, usize) = match prod(tokens, pos, factors) {
        Err(e) => {
            return Err(e);
        },
        Ok(found) => found,
    };
    while is_op(tokens, p, '+')
        invariant
            ts == texts(tokens@),
            names == factor_names(factor_views(factors@)),
            pos < p <= tokens@.len(),
            terms@.len() > 0,
            terms_wf(term_views(terms@), factors@.len()),
            expr_at(ts, pos as nat, names) == sum_from(ts, p as nat, names, term_views(terms@)),
        decreases tokens@.len() - p,
    {
        match prod(tokens, p + 1, factors) {
            Err(e) => {
                return Err(e);
            },
            Ok((t, q)) => {
                append_terms(&mut terms, t, Ghost(factors@.len()));
                assert(term_views(terms@).len() == terms@.len());
                p = q;
            },
        }
    }
    Ok((terms, p))
}

fn prod(tokens: &Vec<Vec<char>>, pos: usize, factors: &[Factor]) -> (r: Result<
    (Vec<Term>, usize),
    Error,
>)
    requires
        pos <= tokens@.len(),
    ensures
        read_as(
            r,
            prod_at(texts(tokens@), pos as nat, factor_names(factor_views(factors@))),
            texts(tokens@),
            pos as nat,
            factors@.len(),
        ),
    decreases tokens@.len() - pos, 2nat,
{
    let ghost (ts, names) = (texts(tokens@), factor_names(factor_views(factors@)));
    let (mut terms, mut p): (Vec<Term>, usize) = match inter(tokens, pos, factors) {
        Err(e) => {
            return Err(e);
        },
        Ok(found) => found,
    };
    while is_op(tokens, p, '*')
        invariant
            ts == texts(tokens@),
            names == factor_names(factor_views(factors@)),
            pos < p <= tokens@.len(),
            terms@.len() > 0,
            terms_wf(term_views(terms@), factors@.len()),
            prod_at(ts, pos as nat, names) == product_from(ts, p as nat, names, term_views(terms@)),
        decreases tokens@.len() - p,
    {
        match inter(tokens, p + 1, factors) {
            Err(e) => {
                return Err(e);
            },
            Ok((t, q)) => match cross_terms(&terms, &t, Ghost(factors@.len())) {
                Err(e) => {
                    return Err(e);
                },
                Ok(x) => {
                    append_terms(&mut terms, t, Ghost(factors@.len()));
                    append_terms(&mut terms, x, Ghost(factors@.len()));
                    assert(term_views(terms@).len() == terms@.len());
                    p = q;
                },
            },
        }
    }
    Ok((terms, p))
}

fn inter(tokens: &Vec<Vec<char>>, pos: usize, factors: &[Factor]) -> (r: Result<
    (Vec<Term>, usize),
    Error,
>)
    requires
        pos <= tokens@.len(),
    ensures
        read_as(
            r,
            inter_at(texts(tokens@), pos as nat, factor_names(factor_views(factors@))),
            texts(tokens@),
            pos as nat,
            factors@.len(),
        ),
    decreases tokens@.len() - pos, 1nat,
{
    let ghost (ts, names) = (texts(tokens@), factor_names(factor_views(factors@)));
    let (mut terms, mut p): (Vec<Term>, usize) = match atom(tokens, pos, factors) {
        Err(e) => {
            return Err(e);
        },
        Ok(found) => found,
    };
    while is_op(tokens, p, ':')
        invariant
            ts == texts(tokens@),
            names == factor_names(factor_views(factors@)),
            pos < p <= tokens@.len(),
            terms@.len() > 0,
            terms_wf(term_views(terms@), factors@.len()),
            inter_at(ts, pos as nat, names) == interaction_from(
                ts,
                p as nat,
                names,
                term_views(terms@),
            ),
        decreases tokens@.len() - p,
    {
        match atom(tokens, p + 1, factors) {
            Err(e) => {
                return Err(e);
            },
            Ok((t, q)) => match cross_terms(&terms, &t, Ghost(factors@.len())) {
                Err(e) => {
                    return Err(e);
                },
                Ok(x) => {
                    proof {
                        lemma_crossed_len(term_views(terms@), term_views(t@), 0, 0, Seq::empty());
                        assert(term_views(x@).len() == x@.len());
                        assert(term_views(terms@).len() * term_views(t@).len() > 0)
                            by (nonlinear_arith)
                            requires
                                term_views(terms@).len() > 0,
                                term_views(t@).len() > 0,
                        ;
                    }
                    terms = x;
                    p = q;
                },
            },
        }
    }
    Ok((terms, p))
}

proof fn lemma_crossed_len(
    left: Seq<Seq<usize>>,
    right: Seq<Seq<usize>>,
    i: nat,
    j: nat,
    acc: Seq<Seq<usize>>,
)
    requires
        i <= left.len(),
        j <= right.len(),
        i == left.len() ==> j == 0,
    ensures
        cross_from(left, right, i, j, acc) matches Ok(x) ==> x.len() == acc.len() + (left.len() - i)
            * right.len() - j,
    decreases left.len() - i, right.len() - j,
{
    if i >= left.len() {
        assert((left.len() - i) * right.len() == 0) by (nonlinear_arith)
            requires
                i == left.len(),
        ;
    } else if j >= right.len() {
        lemma_crossed_len(left, right, i + 1, 0, acc);
        assert((left.len() - i) * right.len() == (left.len() - i - 1) * right.len() + right.len())
            by (nonlinear_arith);
    } else if !shares(left[i as int], right[j as int]) {
        lemma_crossed_len(
            left,
            right,
            i,
            j + 1,
            acc.push(union_term(left[i as int], right[j as int], right[j as int].len())),
        );
    }
}

fn atom(tokens: &Vec<Vec<char>>, pos: usize, factors: &[Factor]) -> (r: Result<
    (Vec<Term>, usize),
    Error,
>)
    requires
        pos <= tokens@.len(),
    ensures
        read_as(
            r,
            atom_at(texts(tokens@), pos as nat, factor_names(factor_views(factors@))),
            texts(tokens@),
            pos as nat,
            factors@.len(),
        ),
    decreases tokens@.len() - pos, 0nat,
{
    if is_op(tokens, pos, '(') {
        return match expr(tokens, pos + 1, factors) {
            Err(e) => Err(e),
            Ok((t, p)) => {
                if is_op(tokens, p, ')') {
                    Ok((t, p + 1))
                } else {
                    Err(Error::new("expected ')' in formula"))
                }
            },
        };
    }
    if pos >= tokens.len() {
        return Err(Error::new("expected factor name in formula"));
    }
    let name: &Vec<char> = &tokens[pos];
    assert(texts(tokens@)[pos as int] == name@);
    if !is_valid_name(name) {
        let s: String = string_of(name);
        return Err(Error::of3("expected factor name, got '", s.as_str(), "'"));
    }
    match find_factor(factors, name) {
        None => {
            if contains(name, "-1") {
                return Err(Error::of3("unsupported formula syntax '", "-1", "'"));
            }
            let s: String = string_of(name);
            Err(Error::of3("unknown factor name '", s.as_str(), "' in formula"))
        },
        Some(i) => {
            let mut one: Vec<usize> = Vec::new();
            one.push(i);
            let mut terms: Vec<Term> = Vec::new();
            assert(one@ =~= seq![i]);
            terms.push(Term(one));
            assert(term_views(terms@) =~= seq![seq![i]]);
            Ok((terms, pos + 1))
        },
    }
}

// ===== Canonical form =====

/// `a` comes before `b`: fewer factors, or as many and smaller at the first
/// difference.
pub open spec fn term_less(a: Seq<usize>, b: Seq<usize>) -> bool {
    if a.len() != b.len() {
        a.len() < b.len()
    } else {
        positions_less(a, b)
    }
}

pub open spec fn positions_less(a: Seq<usize>, b: Seq<usize>) -> bool
    decreases a.len(),
{
    if a.len() == 0 || b.len() == 0 {
        false
    } else if a[0] != b[0] {
        a[0] < b[0]
    } else {
        positions_less(a.drop_first(), b.drop_first())
    }
}

/// The place of `t` in a list, from `i` on: before the first term that does not
/// come before it.
pub open spec fn term_place(list: Seq<Seq<usize>>, t: Seq<usize>, i: nat) -> nat
    decreases list.len() - i,
{
    if i < list.len() && term_less(list[i as int], t) {
        term_place(list, t, i + 1)
    } else {
        i
    }
}

/// The list with `t` put in its place, where it is not there already.
pub open spec fn with_term(list: Seq<Seq<usize>>, t: Seq<usize>) -> Seq<Seq<usize>> {
    let p = term_place(list, t, 0) as int;
    if p < list.len() && list[p] == t {
        list
    } else {
        list.insert(p, t)
    }
}

/// The terms in order, each once.
pub open spec fn ordered(terms: Seq<Seq<usize>>) -> Seq<Seq<usize>>
    decreases terms.len(),
{
    if terms.len() == 0 {
        Seq::empty()
    } else {
        with_term(ordered(terms.drop_last()), terms.last())
    }
}

/// The terms stand in order, none twice.
pub open spec fn in_order(terms: Seq<Seq<usize>>) -> bool {
    forall|i: int, j: int|
        0 <= i < j < terms.len() ==> term_less(#[trigger] terms[i], #[trigger] terms[j])
}

/// The label of a term: the names of its factors.
pub open spec fn term_label(t: Seq<usize>, names: Seq<Seq<char>>) -> Seq<char> {
    separated(t.map_values(|i: usize| names[i as int]), ":"@)
}

/// The labels of terms.
pub open spec fn term_labels(terms: Seq<Seq<usize>>, names: Seq<Seq<char>>) -> Seq<Seq<char>> {
    terms.map_values(|t: Seq<usize>| term_label(t, names))
}

/// The text of a response: a dot stands for all results.
pub open spec fn response_text(response: Option<Seq<char>>) -> Seq<char> {
    match response {
        Some(s) => s,
        None => "."@,
    }
}

/// The formula of a response and terms.
pub open spec fn formula_text(
    response: Option<Seq<char>>,
    terms: Seq<Seq<usize>>,
    names: Seq<Seq<char>>,
) -> Seq<char> {
    response_text(response) + " ~ "@ + separated(term_labels(terms, names), " + "@)
}

/// The model of a response and terms, in canonical form.
pub open spec fn canonical(
    response: Option<Seq<char>>,
    terms: Seq<Seq<usize>>,
    names: Seq<Seq<char>>,
) -> ModelView {
    let list = ordered(terms);
    ModelView { formula: formula_text(response, list, names), response, terms: list }
}

pub proof fn lemma_positions_less(a: Seq<usize>, b: Seq<usize>, c: Seq<usize>)
    requires
        a.len() == b.len() == c.len(),
    ensures
        !positions_less(a, a),
        positions_less(a, b) ==> !positions_less(b, a),
        positions_less(a, b) && positions_less(b, c) ==> positions_less(a, c),
        a == b || positions_less(a, b) || positions_less(b, a),
    decreases a.len(),
{
    if a.len() > 0 {
        lemma_positions_less(a.drop_first(), b.drop_first(), c.drop_first());
        if a[0] == b[0] && a.drop_first() == b.drop_first() {
            assert(a =~= seq![a[0]] + a.drop_first());
            assert(b =~= seq![b[0]] + b.drop_first());
        }
    } else {
        assert(a =~= b);
    }
}

/// The order of terms is total.
pub proof fn lemma_term_less(a: Seq<usize>, b: Seq<usize>, c: Seq<usize>)
    ensures
        !term_less(a, a),
        term_less(a, b) ==> !term_less(b, a),
        term_less(a, b) && term_less(b, c) ==> term_less(a, c),
        a == b || term_less(a, b) || term_less(b, a),
{
    lemma_positions_less(a, a, a);
    if a.len() == b.len() {
        lemma_positions_less(a, b, a);
        if b.len() == c.len() {
            lemma_positions_less(a, b, c);
        }
    }
}

proof fn lemma_term_place(list: Seq<Seq<usize>>, t: Seq<usize>, i: nat)
    requires
        i <= list.len(),
    ensures
        i <= term_place(list, t, i) <= list.len(),
        forall|k: int| i <= k < term_place(list, t, i) ==> term_less(#[trigger] list[k], t),
        term_place(list, t, i) < list.len() ==> !term_less(
            list[term_place(list, t, i) as int],
            t,
        ),
    decreases list.len() - i,
{
    if i < list.len() && term_less(list[i as int], t) {
        lemma_term_place(list, t, i + 1);
    }
}

/// Putting a term in its place keeps the order and adds just that term.
pub proof fn lemma_with_term(list: Seq<Seq<usize>>, t: Seq<usize>)
    requires
        in_order(list),
    ensures
        in_order(with_term(list, t)),
        forall|x: Seq<usize>| #[trigger] with_term(list, t).contains(x) <==> list.contains(x) || x == t,
{
    let p = term_place(list, t, 0) as int;
    lemma_term_place(list, t, 0);
    let w = with_term(list, t);
    if p < list.len() && list[p] == t {
    } else {
        assert forall|i: int, j: int| 0 <= i < j < w.len() implies term_less(
            #[trigger] w[i],
            #[trigger] w[j],
        ) by {
            let a = if i < p {
                list[i]
            } else if i == p {
                t
            } else {
                list[i - 1]
            };
            let b = if j < p {
                list[j]
            } else if j == p {
                t
            } else {
                list[j - 1]
            };
            assert(w[i] == a && w[j] == b);
            if i == p {
                lemma_term_less(t, list[p], b);
                if j - 1 > p {
                    assert(term_less(list[p], list[j - 1]));
                }
            }
        }
        assert forall|x: Seq<usize>|
            #[trigger] w.contains(x) <==> list.contains(x) || x == t by {
            if w.contains(x) {
                let i = choose|i: int| 0 <= i < w.len() && w[i] == x;
                if i < p {
                    assert(list[i] == x);
                } else if i > p {
                    assert(list[i - 1] == x);
                }
            }
            if x == t {
                assert(w[p] == x);
            } else if list.contains(x) {
                let i = choose|i: int| 0 <= i < list.len() && list[i] == x;
                if i < p {
                    assert(w[i] == x);
                } else {
                    assert(w[i + 1] == x);
                }
            }
        }
    }
}

/// The canonical list stands in order, holds no term twice and holds exactly
/// the given terms.
pub proof fn ordered_is_canonical(terms: Seq<Seq<usize>>)
    ensures
        in_order(ordered(terms)),
        forall|x: Seq<usize>| #[trigger] ordered(terms).contains(x) <==> terms.contains(x),
    decreases terms.len(),
{
    if terms.len() > 0 {
        let front = terms.drop_last();
        ordered_is_canonical(front);
        lemma_with_term(ordered(front), terms.last());
        assert forall|x: Seq<usize>| #[trigger] ordered(terms).contains(x) <==> terms.contains(x) by {
            if terms.contains(x) {
                let i = choose|i: int| 0 <= i < terms.len() && terms[i] == x;
                if i < front.len() {
                    assert(front[i] == x);
                }
            }
            if front.contains(x) {
                let i = choose|i: int| 0 <= i < front.len() && front[i] == x;
                assert(terms[i] == x);
            }
            if x == terms.last() {
                assert(terms[terms.len() - 1] == x);
            }
        }
    }
}

/// Terms in order stay as they are.
pub proof fn lemma_ordered_fixed(terms: Seq<Seq<usize>>)
    requires
        in_order(terms),
    ensures
        ordered(terms) == terms,
    decreases terms.len(),
{
    if terms.len() > 0 {
        let front = terms.drop_last();
        lemma_ordered_fixed(front);
        let t = terms.last();
        lemma_term_place(front, t, 0);
        let p = term_place(front, t, 0) as int;
        if p < front.len() {
            assert(term_less(terms[p], terms[terms.len() - 1]));
        }
        assert(front.insert(p, t) =~= terms);
    } else {
        assert(ordered(terms) =~= terms);
    }
}

pub(crate) fn is_term_less(a: &Vec<usize>, b: &Vec<usize>) -> (r: bool)
    ensures
        r == term_less(a@, b@),
{
    if a.len() != b.len() {
        return a.len() < b.len();
    }
    let mut i: usize = 0;
    assert(a@.skip(0) =~= a@ && b@.skip(0) =~= b@);
    while i < a.len()
        invariant
            a@.len() == b@.len(),
            i <= a@.len(),
            positions_less(a@, b@) == positions_less(a@.skip(i as int), b@.skip(i as int)),
        decreases a@.len() - i,
    {
        if a[i] != b[i] {
            return a[i] < b[i];
        }
        assert(a@.skip(i as int).drop_first() =~= a@.skip(i + 1));
        assert(b@.skip(i as int).drop_first() =~= b@.skip(i + 1));
        i = i + 1;
    }
    false
}

/// Whether two terms are the same.
pub fn same_term(a: &Vec<usize>, b: &Vec<usize>) -> (r: bool)
    ensures
        r == (a@ == b@),
{
    if a.len() != b.len() {
        return false;
    }
    let mut i: usize = 0;
    while i < a.len()
        invariant
            a@.len() == b@.len(),
            i <= a@.len(),
            forall|k: int| 0 <= k < i ==> a@[k] == b@[k],
        decreases a@.len() - i,
    {
        if a[i] != b[i] {
            return false;
        }
        i = i + 1;
    }
    assert(a@ =~= b@);
    true
}

/// Puts a term in its place, where it is not there already.
fn insert_term(list: &mut Vec<Term>, t: Term)
    ensures
        term_views(final(list)@) == with_term(term_views(old(list)@), t@),
{
    let ghost l = term_views(list@);
    let ghost v = t@;
    let mut p: usize = 0;
    while p < list.len() && is_term_less(&list[p].0, &t.0)
        invariant
            p <= list@.len(),
            l == term_views(list@),
            v == t@,
            *list == *old(list),
            term_place(l, v, 0) == term_place(l, v, p as nat),
        decreases list@.len() - p,
    {
        assert(l[p as int] == list@[p as int]@);
        p = p + 1;
    }
    assert(p < list@.len() ==> l[p as int] == list@[p as int]@);
    if p < list.len() && same_term(&list[p].0, &t.0) {
        return ;
    }
    list.insert(p, t);
    assert(term_views(list@) =~= l.insert(p as int, v));
}

/// Puts terms in order, each once.
pub(crate) fn order_terms(terms: Vec<Term>, Ghost(n): Ghost<nat>) -> (list: Vec<Term>)
    requires
        terms_wf(term_views(terms@), n),
    ensures
        term_views(list@) == ordered(term_views(terms@)),
        terms_wf(term_views(list@), n),
        in_order(term_views(list@)),
{
    let ghost all = term_views(terms@);
    let mut list: Vec<Term> = Vec::new();
    assert(term_views(list@) =~= ordered(all.take(0)));
    let mut i: usize = 0;
    while i < terms.len()
        invariant
            i <= terms@.len(),
            all == term_views(terms@),
            term_views(list@) == ordered(all.take(i as int)),
        decreases terms@.len() - i,
    {
        assert(all.take(i + 1).drop_last() =~= all.take(i as int));
        assert(all.take(i + 1).last() == terms@[i as int]@);
        let t: Term = terms[i].copy();
        insert_term(&mut list, t);
        i = i + 1;
    }
    assert(all.take(i as int) =~= all);
    proof {
        ordered_is_canonical(all);
        let o = ordered(all);
        assert forall|k: int| 0 <= k < o.len() implies term_wf(#[trigger] o[k], n) by {
            assert(o.contains(o[k]));
            let j = choose|j: int| 0 <= j < all.len() && all[j] == o[k];
            assert(term_wf(all[j], n));
        }
    }
    list
}

impl Term {
    /// The names of the factors, joined by colons.
    pub fn label(&self, factors: &[Factor]) -> (s: String)
        requires
            forall|i: int| 0 <= i < self@.len() ==> #[trigger] self@[i] < factors@.len(),
        ensures
            s@ == term_label(self@, factor_names(factor_views(factors@))),
    {
        let ghost names = factor_names(factor_views(factors@));
        let mut parts: Vec<String> = Vec::new();
        let mut i: usize = 0;
        while i < self.0.len()
            invariant
                i <= self@.len(),
                names == factor_names(factor_views(factors@)),
                parts@.len() == i,
                forall|k: int| 0 <= k < self@.len() ==> #[trigger] self@[k] < factors@.len(),
                forall|k: int| 0 <= k < i ==> (#[trigger] parts@[k])@ == names[self@[k] as int],
            decreases self@.len() - i,
        {
            let f: usize = self.0[i];
            assert(self@[i as int] == f);
            assert(names[f as int] == factors@[f as int].name@);
            parts.push(factors[f].name.clone());
            i = i + 1;
        }
        assert(views(parts@) =~= self@.map_values(|i: usize| names[i as int]));
        join(&parts, ":")
    }

    /// A copy of the term.
    pub fn copy(&self) -> (t: Term)
        ensures
            t@ == self@,
    {
        let v: Vec<usize> = self.0.clone();
        assert(v@ =~= self@);
        Term(v)
    }
}

/// The text of a formula.
pub fn write_formula(response: &Option<String>, terms: &Vec<Term>, factors: &[Factor]) -> (s: String)
    requires
        terms_wf(term_views(terms@), factors@.len()),
    ensures
        s@ == formula_text(
            text_view(*response),
            term_views(terms@),
            factor_names(factor_views(factors@)),
        ),
{
    let ghost names = factor_names(factor_views(factors@));
    let mut labels: Vec<String> = Vec::new();
    let mut i: usize = 0;
    while i < terms.len()
        invariant
            i <= terms@.len(),
            names == factor_names(factor_views(factors@)),
            terms_wf(term_views(terms@), factors@.len()),
            labels@.len() == i,
            forall|k: int| 0 <= k < i ==> (#[trigger] labels@[k])@ == term_label(terms@[k]@, names),
        decreases terms@.len() - i,
    {
        assert(term_wf(term_views(terms@)[i as int], factors@.len()));
        labels.push(terms[i].label(factors));
        i = i + 1;
    }
    assert(views(labels@) =~= term_labels(term_views(terms@), names));
    let joined: String = join(&labels, " + ");
    let mut s: String = String::new();
    match response {
        Some(r) => s.append(r.as_str()),
        None => s.append("."),
    }
    s.append(" ~ ");
    s.append(joined.as_str());
    assert(s@ =~= formula_text(text_view(*response), term_views(terms@), names));
    s
}

/// A model in canonical form: terms in order, none twice, each of factors below
/// `n`.
pub open spec fn model_wf(m: ModelView, n: nat) -> bool {
    terms_wf(m.terms, n) && in_order(m.terms)
}

/// The response of a formula and the position where its expression begins.
pub open spec fn response_of(src: Seq<char>) -> Result<(Option<Seq<char>>, Seq<char>), Seq<char>> {
    match crate::factor::position(src, '~', 0) {
        None => Ok((None, src)),
        Some(i) => {
            let r = trimmed(src.take(i as int));
            if r == "."@ {
                Ok((None, src.skip(i as int + 1)))
            } else if valid_name(r) {
                Ok((Some(r), src.skip(i as int + 1)))
            } else {
                Err("invalid response name '"@ + r + "'"@)
            }
        },
    }
}

/// The model of a formula, or the message where it has none.
pub open spec fn model_of(src: Seq<char>, names: Seq<Seq<char>>) -> Result<ModelView, Seq<char>> {
    if occurs(src, "^"@) {
        Err(unsupported("^"@))
    } else if occurs(src, "%in%"@) {
        Err(unsupported("%in%"@))
    } else {
        match response_of(src) {
            Err(m) => Err(m),
            Ok((response, rest)) => match token_list(rest) {
                Err(m) => Err(m),
                Ok(tokens) => match expr_at(tokens, 0, names) {
                    Err(m) => Err(m),
                    Ok((terms, p)) => if p != tokens.len() {
                        Err("unexpected token '"@ + tokens[p as int] + "' in formula"@)
                    } else {
                        Ok(canonical(response, terms, names))
                    },
                },
            },
        }
    }
}

impl Model {
    /// Reads a formula.
    pub fn parse(src: &str, factors: &[Factor]) -> (r: Result<Model, Error>)
        ensures
            match r {
                Ok(m) => model_of(src@, factor_names(factor_views(factors@))) == Ok::<
                    ModelView,
                    Seq<char>,
                >(m@) && model_wf(m@, factors@.len()) && m@.terms.len() > 0,
                Err(e) => model_of(src@, factor_names(factor_views(factors@))) == Err::<
                    ModelView,
                    Seq<char>,
                >(e@),
            },
    {
        let chars: Vec<char> = chars_of(src);
        if contains(&chars, "^") {
            return Err(Error::of3("unsupported formula syntax '", "^", "'"));
        }
        if contains(&chars, "%in%") {
            return Err(Error::of3("unsupported formula syntax '", "%in%", "'"));
        }
        let total: usize = chars.len();
        let mut response: Option<String> = None;
        let mut start: usize = 0;
        match crate::factor::find_char(&chars, '~') {
            None => {},
            Some(i) => {
                let head: Vec<char> = part(&chars, 0, i);
                assert(head@ =~= chars@.take(i as int));
                let name: Vec<char> = trim(&head);
                start = i + 1;
                if !is_text(&name, ".") {
                    if !is_valid_name(&name) {
                        let s: String = string_of(&name);
                        return Err(Error::of3("invalid response name '", s.as_str(), "'"));
                    }
                    response = Some(string_of(&name));
                }
            },
        }
        let rest: Vec<char> = part(&chars, start, chars.len());
        proof {
            if start > 0 {
                assert(rest@ =~= src@.skip(start as int));
            } else {
                assert(rest@ =~= src@);
            }
        }
        let tokens: Vec<Vec<char>> = match tokenize(&rest) {
            Err(e) => {
                return Err(e);
            },
            Ok(t) => t,
        };
        match expr(&tokens, 0, factors) {
            Err(e) => Err(e),
            Ok((terms, p)) => {
                if p != tokens.len() {
                    assert(texts(tokens@)[p as int] == tokens@[p as int]@);
                    let s: String = string_of(&tokens[p]);
                    return Err(Error::of3("unexpected token '", s.as_str(), "' in formula"));
                }
                Ok(Model::canonical(response, terms, factors))
            },
        }
    }

    pub(crate) fn canonical(response: Option<String>, terms: Vec<Term>, factors: &[Factor]) -> (m: Model)
        requires
            terms_wf(term_views(terms@), factors@.len()),
        ensures
            m@ == canonical(
                text_view(response),
                term_views(terms@),
                factor_names(factor_views(factors@)),
            ),
            model_wf(m@, factors@.len()),
            terms@.len() > 0 ==> m@.terms.len() > 0,
    {
        proof {
            ordered_is_canonical(term_views(terms@));
            if terms@.len() > 0 {
                assert(term_views(terms@).contains(term_views(terms@)[0]));
                assert(ordered(term_views(terms@)).contains(term_views(terms@)[0]));
            }
        }
        let list: Vec<Term> = order_terms(terms, Ghost(factors@.len()));
        let formula: String = write_formula(&response, &list, factors);
        Model { formula, response, terms: list }
    }

    /// The model of all main effects.
    pub fn main_effects(factors: &[Factor]) -> (m: Model)
        ensures
            m@ == main_effects_of(factor_names(factor_views(factors@))),
            model_wf(m@, factors@.len()),
    {
        let mut terms: Vec<Term> = Vec::new();
        let mut i: usize = 0;
        while i < factors.len()
            invariant
                i <= factors@.len(),
                term_views(terms@) =~= single_terms(i as nat),
            decreases factors@.len() - i,
        {
            let mut one: Vec<usize> = Vec::new();
            one.push(i);
            assert(one@ =~= seq![i]);
            push_term(&mut terms, Term(one));
            i = i + 1;
        }
        Model::canonical(None, terms, factors)
    }

    /// The model of a result: the one that names it, otherwise the first for all
    /// results.
    pub fn for_result<'a>(models: &'a [Model], result: &str) -> (r: Option<&'a Model>)
        ensures
            match r {
                Some(m) => result_model(model_views(models@), result@) == Some(m@),
                None => result_model(model_views(models@), result@) is None,
            },
    {
        let ghost all = model_views(models@);
        let mut i: usize = 0;
        while i < models.len()
            invariant
                i <= models@.len(),
                all == model_views(models@),
                first_named(all, result@, 0) == first_named(all, result@, i as nat),
            decreases models@.len() - i,
        {
            assert(all[i as int] == models@[i as int]@);
            match &models[i].response {
                Some(s) => {
                    if equal(s.as_str(), result) {
                        return Some(&models[i]);
                    }
                },
                None => {},
            }
            i = i + 1;
        }
        let mut j: usize = 0;
        while j < models.len()
            invariant
                j <= models@.len(),
                all == model_views(models@),
                first_named(all, result@, 0) is None,
                first_general(all, 0) == first_general(all, j as nat),
            decreases models@.len() - j,
        {
            assert(all[j as int] == models@[j as int]@);
            if models[j].response.is_none() {
                return Some(&models[j]);
            }
            j = j + 1;
        }
        None
    }

    /// A copy of the model.
    pub fn copy(&self) -> (m: Model)
        ensures
            m@ == self@,
    {
        let response: Option<String> = match &self.response {
            Some(s) => Some(s.clone()),
            None => None,
        };
        Model { formula: self.formula.clone(), response, terms: copy_terms(&self.terms) }
    }
}

/// A copy of a list of terms.
pub fn copy_terms(terms: &Vec<Term>) -> (out: Vec<Term>)
    ensures
        term_views(out@) == term_views(terms@),
{
    let mut out: Vec<Term> = Vec::new();
    let mut i: usize = 0;
    while i < terms.len()
        invariant
            i <= terms@.len(),
            term_views(out@) =~= term_views(terms@).take(i as int),
        decreases terms@.len() - i,
    {
        push_term(&mut out, terms[i].copy());
        assert(term_views(terms@).take(i + 1) =~= term_views(terms@).take(i as int).push(
            term_views(terms@)[i as int],
        ));
        i = i + 1;
    }
    assert(term_views(terms@).take(i as int) =~= term_views(terms@));
    out
}

/// The terms of one factor each, for the first `n` factors.
pub open spec fn single_terms(n: nat) -> Seq<Seq<usize>> {
    Seq::new(n, |i: int| seq![i as usize])
}

/// The model of all main effects.
pub open spec fn main_effects_of(names: Seq<Seq<char>>) -> ModelView {
    canonical(None, single_terms(names.len()), names)
}

/// The first model, from `i` on, that names the result.
pub open spec fn first_named(models: Seq<ModelView>, result: Seq<char>, i: nat) -> Option<ModelView>
    decreases models.len() - i,
{
    if i >= models.len() {
        None
    } else if models[i as int].response == Some(result) {
        Some(models[i as int])
    } else {
        first_named(models, result, i + 1)
    }
}

/// The first model, from `i` on, for all results.
pub open spec fn first_general(models: Seq<ModelView>, i: nat) -> Option<ModelView>
    decreases models.len() - i,
{
    if i >= models.len() {
        None
    } else if models[i as int].response is None {
        Some(models[i as int])
    } else {
        first_general(models, i + 1)
    }
}

/// The model of a result.
pub open spec fn result_model(models: Seq<ModelView>, result: Seq<char>) -> Option<ModelView> {
    match first_named(models, result, 0) {
        Some(m) => Some(m),
        None => first_general(models, 0),
    }
}

// ===== Hierarchy =====

/// The message for a term that is requested without a lower one.
pub open spec fn hierarchy_message(
    t: Seq<usize>,
    lower: Seq<usize>,
    names: Seq<Seq<char>>,
) -> Seq<char> {
    term_label(t, names) + " requested without "@ + term_label(lower, names)
}

/// The messages for the lower terms of `t` that omit one of its last `m`
/// factors, the last first.
pub open spec fn lower_messages(
    terms: Seq<Seq<usize>>,
    t: Seq<usize>,
    names: Seq<Seq<char>>,
    m: nat,
) -> Seq<Seq<char>>
    decreases m,
{
    if m == 0 {
        Seq::empty()
    } else {
        let lower = t.remove(t.len() - m);
        let before = lower_messages(terms, t, names, (m - 1) as nat);
        if terms.contains(lower) {
            before
        } else {
            before.push(hierarchy_message(t, lower, names))
        }
    }
}

/// The messages for the first `n` terms.
pub open spec fn hierarchy_messages(
    terms: Seq<Seq<usize>>,
    names: Seq<Seq<char>>,
    n: nat,
) -> Seq<Seq<char>>
    decreases n,
{
    if n == 0 {
        Seq::empty()
    } else {
        let before = hierarchy_messages(terms, names, (n - 1) as nat);
        let t = terms[n - 1];
        if t.len() < 2 {
            before
        } else {
            before + lower_messages(terms, t, names, t.len())
        }
    }
}

/// Whether a list of terms holds a term.
pub fn holds_term(terms: &Vec<Term>, t: &Vec<usize>) -> (r: bool)
    ensures
        r == term_views(terms@).contains(t@),
{
    let ghost all = term_views(terms@);
    let mut i: usize = 0;
    while i < terms.len()
        invariant
            i <= terms@.len(),
            all == term_views(terms@),
            forall|k: int| 0 <= k < i ==> #[trigger] all[k] != t@,
        decreases terms@.len() - i,
    {
        assert(all[i as int] == terms@[i as int]@);
        if same_term(&terms[i].0, t) {
            assert(all.contains(t@));
            return true;
        }
        i = i + 1;
    }
    false
}

/// For each interaction, the immediate lower-order terms that the model lacks.
pub fn hierarchy_warnings(model: &Model, factors: &[Factor]) -> (out: Vec<String>)
    requires
        terms_wf(model@.terms, factors@.len()),
    ensures
        views(out@) == hierarchy_messages(
            model@.terms,
            factor_names(factor_views(factors@)),
            model@.terms.len(),
        ),
{
    let ghost names = factor_names(factor_views(factors@));
    let ghost terms = model@.terms;
    let mut out: Vec<String> = Vec::new();
    let mut n: usize = 0;
    assert(views(out@) =~= Seq::empty());
    while n < model.terms.len()
        invariant
            n <= model.terms@.len(),
            names == factor_names(factor_views(factors@)),
            terms == model@.terms,
            terms_wf(terms, factors@.len()),
            views(out@) == hierarchy_messages(terms, names, n as nat),
        decreases model.terms@.len() - n,
    {
        let term: &Term = &model.terms[n];
        let ghost t = term@;
        assert(terms[n as int] == t);
        assert(term_wf(t, factors@.len()));
        let len: usize = term.0.len();
        if len >= 2 {
            let ghost before = views(out@);
            assert(before + lower_messages(terms, t, names, 0) =~= before);
            let mut m: usize = 0;
            while m < len
                invariant
                    m <= len,
                    len == t.len(),
                    t == term@,
                    term_wf(t, factors@.len()),
                    names == factor_names(factor_views(factors@)),
                    terms == model@.terms,
                    views(out@) =~= before + lower_messages(terms, t, names, m as nat),
                decreases len - m,
            {
                let mut lower: Vec<usize> = term.0.clone();
                assert(lower@ =~= t);
                let _ = lower.remove(len - 1 - m);
                let ghost l = lower@;
                assert(l == t.remove(t.len() - (m + 1)));
                if !holds_term(&model.terms, &lower) {
                    let low: Term = Term(lower);
                    assert forall|i: int| 0 <= i < low@.len() implies #[trigger] low@[i]
                        < factors@.len() by {
                        if i < t.len() - (m + 1) {
                            assert(low@[i] == t[i]);
                        } else {
                            assert(low@[i] == t[i + 1]);
                        }
                    }
                    let mut w: String = term.label(factors);
                    w.append(" requested without ");
                    let b: String = low.label(factors);
                    w.append(b.as_str());
                    assert(w@ =~= hierarchy_message(t, l, names));
                    let ghost v = views(out@);
                    out.push(w);
                    assert(views(out@) =~= v.push(w@));
                }
                m = m + 1;
            }
        }
        n = n + 1;
    }
    out
}

/// The names that stand in a formula, in order.
pub open spec fn names_in(tokens: Seq<Seq<char>>, n: nat) -> Seq<Seq<char>>
    decreases n,
{
    if n == 0 {
        Seq::empty()
    } else if valid_name(tokens[n - 1]) {
        names_in(tokens, (n - 1) as nat).push(tokens[n - 1])
    } else {
        names_in(tokens, (n - 1) as nat)
    }
}

/// The names of the expression of a formula, or the message where it has an
/// unsupported part.
pub open spec fn formula_names_of(src: Seq<char>) -> Result<Seq<Seq<char>>, Seq<char>> {
    if occurs(src, "%in%"@) {
        Err(unsupported("%in%"@))
    } else {
        let rest = match crate::factor::position(src, '~', 0) {
            None => src,
            Some(i) => src.skip(i as int + 1),
        };
        match token_list(rest) {
            Err(m) => Err(m),
            Ok(tokens) => Ok(names_in(tokens, tokens.len())),
        }
    }
}

/// The names that stand in the expression of a formula.
pub(crate) fn formula_names(src: &[char]) -> (r: Result<Vec<Vec<char>>, Error>)
    ensures
        match r {
            Ok(names) => formula_names_of(src@) == Ok::<Seq<Seq<char>>, Seq<char>>(texts(names@)),
            Err(e) => formula_names_of(src@) == Err::<Seq<Seq<char>>, Seq<char>>(e@),
        },
{
    if contains(src, "%in%") {
        return Err(Error::of3("unsupported formula syntax '", "%in%", "'"));
    }
    let n_chars: usize = src.len();
    let start: usize = match crate::factor::find_char(src, '~') {
        None => 0,
        Some(i) => i + 1,
    };
    let rest: Vec<char> = part(src, start, n_chars);
    proof {
        if start > 0 {
            assert(rest@ =~= src@.skip(start as int));
        } else {
            assert(rest@ =~= src@);
        }
    }
    let tokens: Vec<Vec<char>> = match tokenize(&rest) {
        Err(e) => {
            return Err(e);
        },
        Ok(t) => t,
    };
    let ghost ts = texts(tokens@);
    let mut out: Vec<Vec<char>> = Vec::new();
    let mut n: usize = 0;
    assert(texts(out@) =~= Seq::empty());
    while n < tokens.len()
        invariant
            n <= tokens@.len(),
            ts == texts(tokens@),
            texts(out@) == names_in(ts, n as nat),
        decreases tokens@.len() - n,
    {
        assert(ts[n as int] == tokens@[n as int]@);
        if is_valid_name(&tokens[n]) {
            let ghost before = texts(out@);
            let t: Vec<char> = tokens[n].clone();
            assert(t@ =~= tokens@[n as int]@);
            out.push(t);
            assert(texts(out@) =~= before.push(t@));
        }
        n = n + 1;
    }
    Ok(out)
}

} // verus!
