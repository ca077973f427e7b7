//! The term model: the expression tree, its mathematical view, and the
//! structural operations (index shifting, containment, canonicalization,
//! substitution).

use vstd::prelude::*;

verus! {

broadcast use vstd::std_specs::vec::group_vec_axioms;

/// A lambda term as executable data.
///
/// - `Group` is an application: an ordered sequence of sub-terms,
///   `f x y` meaning "apply f to x, then the result to y".
/// - `Def` is an abstraction binding one variable over its body.
/// - `Relative` is a de Bruijn index: the number of abstractions,
///   counted innermost-first from 0, between the occurrence and its binder.
/// - `Label` is an opaque named constant; it never reduces.
#[derive(Debug)]
pub enum Expr {
    Group(Vec<Expr>),
    Def(Box<Expr>),
    Relative(u32),
    Label(String),
}

/// The mathematical view of an [`Expr`]: the same tree over `Seq`.
#[verifier::ext_equal]
pub enum Term {
    App(Seq<Term>),
    Abs(Box<Term>),
    Var(u32),
    Atom(Seq<char>),
}

/// The view of one expression.
pub open spec fn term_of(e: Expr) -> Term
    decreases e,
{
    match e {
        Expr::Group(es) => Term::App(terms_of(es@)),
        Expr::Def(body) => Term::Abs(Box::new(term_of(*body))),
        Expr::Relative(id) => Term::Var(id),
        Expr::Label(name) => Term::Atom(name@),
    }
}

/// The views of a sequence of expressions, elementwise.
pub open spec fn terms_of(es: Seq<Expr>) -> Seq<Term>
    decreases es,
{
    if es.len() == 0 {
        Seq::empty()
    } else {
        seq![term_of(es[0])] + terms_of(es.drop_first())
    }
}

impl View for Expr {
    type V = Term;

    open spec fn view(&self) -> Term {
        term_of(*self)
    }
}

/// The length and elements of `terms_of` mirror the underlying sequence.
pub broadcast proof fn lemma_terms_of_len(es: Seq<Expr>)
    ensures
        #[trigger] terms_of(es).len() == es.len(),
    decreases es,
{
    if es.len() > 0 {
        lemma_terms_of_len(es.drop_first());
    }
}

/// Each element of `terms_of` is the view of the corresponding expression.
pub broadcast proof fn lemma_terms_of_index(es: Seq<Expr>, i: int)
    requires
        0 <= i < es.len(),
    ensures
        #[trigger] terms_of(es)[i] == term_of(es[i]),
    decreases es,
{
    lemma_terms_of_len(es);
    if i > 0 {
        lemma_terms_of_index(es.drop_first(), i - 1);
    }
}

pub broadcast group group_terms_of {
    lemma_terms_of_len,
    lemma_terms_of_index,
}

/// Whether every de Bruijn index in `t` refers to a binder strictly less
/// than `at` levels out: the term mentions no binder at or beyond `at`.
pub open spec fn closed_under(t: Term, at: int) -> bool
    decreases t,
{
    match t {
        Term::App(es) => forall|i: int| 0 <= i < es.len() ==> closed_under(#[trigger] es[i], at),
        Term::Abs(body) => closed_under(*body, at + 1),
        Term::Var(id) => id < at,
        Term::Atom(_) => true,
    }
}

/// The least `c` such that `t` is closed under `c`: one past the largest
/// de Bruijn index that escapes the term, or 0 if none does.
pub open spec fn free_bound(t: Term) -> nat
    decreases t,
{
    match t {
        Term::App(es) => free_bound_list(es),
        Term::Abs(body) => if free_bound(*body) > 0 {
            (free_bound(*body) - 1) as nat
        } else {
            0
        },
        Term::Var(id) => (id + 1) as nat,
        Term::Atom(_) => 0,
    }
}

/// The largest `free_bound` among the elements, or 0 for the empty sequence.
pub open spec fn free_bound_list(es: Seq<Term>) -> nat
    decreases es,
{
    if es.len() == 0 {
        0
    } else {
        let hd = free_bound(es[0]);
        let tl = free_bound_list(es.drop_first());
        if hd >= tl {
            hd
        } else {
            tl
        }
    }
}

/// A term is closed under a nonnegative `at` exactly when its free bound
/// is at most `at`.
pub proof fn lemma_closed_free_bound(t: Term, at: int)
    requires
        at >= 0,
    ensures
        closed_under(t, at) <==> free_bound(t) <= at,
    decreases t,
{
    match t {
        Term::App(es) => {
            lemma_closed_free_bound_list(es, at);
        }
        Term::Abs(body) => {
            lemma_closed_free_bound(*body, at + 1);
        }
        _ => {}
    }
}

/// A sequence of terms is elementwise closed under `at` exactly when the
/// largest free bound among them is at most `at`.
pub proof fn lemma_closed_free_bound_list(es: Seq<Term>, at: int)
    requires
        at >= 0,
    ensures
        (forall|i: int| 0 <= i < es.len() ==> closed_under(#[trigger] es[i], at))
            <==> free_bound_list(es) <= at,
    decreases es,
{
    if es.len() > 0 {
        lemma_closed_free_bound(es[0], at);
        lemma_closed_free_bound_list(es.drop_first(), at);
        if free_bound_list(es) <= at {
            assert forall|i: int| 0 <= i < es.len() implies closed_under(
                #[trigger] es[i],
                at,
            ) by {
                if i > 0 {
                    assert(es.drop_first()[i - 1] == es[i]);
                    assert(closed_under(es.drop_first()[i - 1], at));
                }
            }
        } else {
            if free_bound(es[0]) > at {
                assert(!closed_under(es[0], at));
            } else {
                let j = choose|j: int|
                    0 <= j < es.drop_first().len() && !closed_under(
                        #[trigger] es.drop_first()[j],
                        at,
                    );
                assert(es.drop_first()[j] == es[j + 1]);
                assert(!closed_under(es[j + 1], at));
            }
        }
    }
}

/// No free bound exceeds 2^32: indices are 32-bit.
pub proof fn lemma_free_bound_le(t: Term)
    ensures
        free_bound(t) <= 0x1_0000_0000,
    decreases t,
{
    match t {
        Term::App(es) => {
            lemma_free_bound_list_le(es);
        }
        Term::Abs(body) => {
            lemma_free_bound_le(*body);
        }
        _ => {}
    }
}

/// No free bound of a sequence of terms exceeds 2^32.
pub proof fn lemma_free_bound_list_le(es: Seq<Term>)
    ensures
        free_bound_list(es) <= 0x1_0000_0000,
    decreases es,
{
    if es.len() > 0 {
        lemma_free_bound_le(es[0]);
        lemma_free_bound_list_le(es.drop_first());
    }
}

/// One past the largest de Bruijn index of `e` that is not matched by an
/// enclosing abstraction, as a machine integer. It never exceeds 2^32.
pub fn free_bound_exec(e: &Expr) -> (r: u64)
    ensures
        r == free_bound(e@),
        r <= 0x1_0000_0000u64,
    decreases e,
{
    broadcast use group_terms_of;

    match e {
        Expr::Group(es) => {
            let ghost ts = terms_of(es@);
            let mut best: u64 = 0;
            let mut i: usize = 0;
            proof {
                assert(ts.subrange(0, ts.len() as int) =~= ts);
            }
            while i < es.len()
                invariant
                    i <= es.len(),
                    best <= 0x1_0000_0000u64,
                    *e == Expr::Group(*es),
                    ts == terms_of(es@),
                    ts.len() == es@.len(),
                    free_bound_list(ts) == if best >= free_bound_list(
                        ts.subrange(i as int, ts.len() as int),
                    ) {
                        best as nat
                    } else {
                        free_bound_list(ts.subrange(i as int, ts.len() as int))
                    },
                decreases es.len() - i,
            {
                proof {
                    assert(decreases_to!(*e => es@[i as int])) by {
                        assert(*es == e->Group_0);
                        assert(decreases_to!(*e => e->Group_0));
                        assert(decreases_to!(*es => es@[i as int]));
                    }
                }
                let fb = free_bound_exec(&es[i]);
                proof {
                    let rest = ts.subrange(i as int, ts.len() as int);
                    lemma_terms_of_index(es@, i as int);
                    assert(rest[0] == ts[i as int]);
                    assert(rest.drop_first() =~= ts.subrange(i + 1, ts.len() as int));
                    lemma_free_bound_list_le(rest.drop_first());
                }
                if fb > best {
                    best = fb;
                }
                i = i + 1;
            }
            proof {
                assert(ts.subrange(ts.len() as int, ts.len() as int) =~= Seq::<Term>::empty());
            }
            best
        }
        Expr::Def(body) => {
            let b = free_bound_exec(body);
            if b > 0 {
                b - 1
            } else {
                0
            }
        }
        Expr::Relative(id) => (*id as u64) + 1,
        Expr::Label(_) => 0,
    }
}

impl Expr {
    /// True iff every de Bruijn index inside `self` is strictly less than
    /// `at` plus the number of abstractions enclosing it within `self`:
    /// the term depends on no binder at or beyond `at` levels out.
    pub fn is_contained(&self, at: u32) -> (r: bool)
        ensures
            r == closed_under(self@, at as int),
    {
        proof {
            lemma_closed_free_bound(self@, at as int);
        }
        free_bound_exec(self) <= at as u64
    }
}

impl Clone for Expr {
    /// A deep copy: the copy has the same view as the original.
    fn clone(&self) -> (r: Self)
        ensures
            r@ == self@,
        decreases self,
    {
        broadcast use group_terms_of;

        match self {
            Expr::Group(es) => {
                let mut out: Vec<Expr> = Vec::new();
                let mut i: usize = 0;
                while i < es.len()
                    invariant
                        i <= es.len(),
                        *self == Expr::Group(*es),
                        out@.len() == i,
                        forall|k: int|
                            0 <= k < i ==> term_of(#[trigger] out@[k]) == term_of(es@[k]),
                    decreases es.len() - i,
                {
                    proof {
                        assert(decreases_to!(*self => es@[i as int])) by {
                            assert(*es == self->Group_0);
                            assert(decreases_to!(*self => self->Group_0));
                            assert(decreases_to!(*es => es@[i as int]));
                        }
                    }
                    let c = es[i].clone();
                    out.push(c);
                    i = i + 1;
                }
                proof {
                    assert forall|k: int| 0 <= k < out@.len() implies #[trigger] terms_of(
                        out@,
                    )[k] == terms_of(es@)[k] by {
                        lemma_terms_of_index(out@, k);
                        lemma_terms_of_index(es@, k);
                    }
                    assert(terms_of(out@) =~= terms_of(es@));
                }
                Expr::Group(out)
            }
            Expr::Def(body) => {
                proof {
                    assert(decreases_to!(*self => *self->Def_0));
                }
                Expr::Def(Box::new((**body).clone()))
            }
            Expr::Relative(id) => Expr::Relative(*id),
            Expr::Label(name) => Expr::Label(name.clone()),
        }
    }
}

/// The term with `amount` added to every de Bruijn index at or above
/// `depth`, where `depth` grows by one under each abstraction. Indices
/// below `depth` refer to binders inside the shifted region and stay.
pub open spec fn shifted(t: Term, depth: int, amount: int) -> Term
    decreases t,
{
    match t {
        Term::App(es) => Term::App(shifted_list(es, depth, amount)),
        Term::Abs(body) => Term::Abs(Box::new(shifted(*body, depth + 1, amount))),
        Term::Var(id) => if id >= depth {
            Term::Var((id + amount) as u32)
        } else {
            Term::Var(id)
        },
        Term::Atom(name) => Term::Atom(name),
    }
}

/// `shifted`, elementwise over a sequence of terms.
pub open spec fn shifted_list(es: Seq<Term>, depth: int, amount: int) -> Seq<Term>
    decreases es,
{
    if es.len() == 0 {
        Seq::empty()
    } else {
        seq![shifted(es[0], depth, amount)] + shifted_list(es.drop_first(), depth, amount)
    }
}

/// The length and elements of `shifted_list` mirror the input sequence.
pub broadcast proof fn lemma_shifted_list_len(es: Seq<Term>, depth: int, amount: int)
    ensures
        #[trigger] shifted_list(es, depth, amount).len() == es.len(),
    decreases es,
{
    if es.len() > 0 {
        lemma_shifted_list_len(es.drop_first(), depth, amount);
    }
}

/// Each element of `shifted_list` is the shift of the matching element.
pub broadcast proof fn lemma_shifted_list_index(es: Seq<Term>, depth: int, amount: int, i: int)
    requires
        0 <= i < es.len(),
    ensures
        #[trigger] shifted_list(es, depth, amount)[i] == shifted(es[i], depth, amount),
    decreases es,
{
    lemma_shifted_list_len(es, depth, amount);
    if i > 0 {
        lemma_shifted_list_index(es.drop_first(), depth, amount, i - 1);
    }
}

/// Every index that a shift by `amount` from cutoff `depth` would touch
/// stays within 32 bits, so the shift is computable.
pub open spec fn shift_fits(t: Term, depth: int, amount: int) -> bool
    decreases t,
{
    match t {
        Term::App(es) => forall|i: int|
            0 <= i < es.len() ==> shift_fits(#[trigger] es[i], depth, amount),
        Term::Abs(body) => shift_fits(*body, depth + 1, amount),
        Term::Var(id) => id >= depth ==> id + amount <= u32::MAX,
        Term::Atom(_) => true,
    }
}

/// How the executable cutoff tracks the mathematical cutoff `d`: it is
/// exact below 2^32 and pinned to 2^32 beyond, where no 32-bit index can
/// reach it anyway.
pub open spec fn depth_rel(depth: u64, d: int) -> bool {
    0 <= d && depth == if d < 0x1_0000_0000 {
        d
    } else {
        0x1_0000_0000int
    }
}

/// One step deeper, saturating at 2^32.
pub(crate) fn bump(depth: u64) -> (r: u64)
    requires
        depth <= 0x1_0000_0000u64,
    ensures
        r <= 0x1_0000_0000u64,
        forall|d: int| depth_rel(depth, d) ==> depth_rel(r, d + 1),
{
    if depth < 0x1_0000_0000u64 {
        depth + 1
    } else {
        depth
    }
}

fn shift_go(t: Expr, depth: u64, Ghost(d): Ghost<int>, amount: u32) -> (r: Expr)
    requires
        shift_fits(term_of(t), d, amount as int),
        depth_rel(depth, d),
    ensures
        term_of(r) == shifted(term_of(t), d, amount as int),
    decreases t,
{
    broadcast use group_terms_of;

    match t {
        Expr::Group(es) => {
            let ghost t0 = t;
            let ghost v0 = es;
            let ghost ts0 = terms_of(es@);
            let mut es = es;
            let mut out: Vec<Expr> = Vec::new();
            while es.len() > 0
                invariant
                    t0 == t,
                    t0 == Expr::Group(v0),
                    es@ =~= v0@.subrange(out@.len() as int, v0@.len() as int),
                    out@.len() <= v0@.len(),
                    ts0 == terms_of(v0@),
                    ts0.len() == v0@.len(),
                    shift_fits(Term::App(ts0), d, amount as int),
                    depth_rel(depth, d),
                    forall|k: int|
                        0 <= k < out@.len() ==> term_of(#[trigger] out@[k]) == shifted(
                            ts0[k],
                            d,
                            amount as int,
                        ),
                decreases es@.len(),
            {
                let ghost j = out@.len() as int;
                let c = es.remove(0);
                proof {
                    assert(c == v0@[j]);
                    assert(decreases_to!(t0 => v0@[j])) by {
                        assert(v0 == t0->Group_0);
                        assert(decreases_to!(t0 => t0->Group_0));
                        assert(decreases_to!(v0 => v0@[j]));
                    }
                    lemma_terms_of_index(v0@, j);
                    assert(term_of(c) == ts0[j]);
                    assert(shift_fits(ts0[j], d, amount as int)) by {
                        assert(shift_fits(Term::App(ts0), d, amount as int));
                        assert(Term::App(ts0)->App_0 == ts0);
                    }
                }
                let s = shift_go(c, depth, Ghost(d), amount);
                out.push(s);
            }
            proof {
                lemma_shifted_list_len(ts0, d, amount as int);
                assert forall|k: int| 0 <= k < ts0.len() implies #[trigger] terms_of(out@)[k]
                    == shifted_list(ts0, d, amount as int)[k] by {
                    lemma_terms_of_index(out@, k);
                    lemma_shifted_list_index(ts0, d, amount as int, k);
                }
                assert(terms_of(out@) =~= shifted_list(ts0, d, amount as int));
            }
            Expr::Group(out)
        }
        Expr::Def(body) => {
            let ghost t0 = t;
            proof {
                assert(decreases_to!(t0 => *t0->Def_0));
            }
            let b = shift_go(*body, bump(depth), Ghost(d + 1), amount);
            Expr::Def(Box::new(b))
        }
        Expr::Relative(id) => {
            if (id as u64) >= depth {
                Expr::Relative(id + amount)
            } else {
                Expr::Relative(id)
            }
        }
        Expr::Label(name) => Expr::Label(name),
    }
}

/// The abstraction body `t` with the binder at `depth` eliminated in
/// favor of `v`: an index equal to `depth` becomes a copy of `v` shifted
/// by the number of binders crossed on the way to the occurrence, an
/// index above `depth` drops by one to make up for the removed binder,
/// and an index below `depth` refers inside the body and stays.
pub open spec fn substituted(t: Term, depth: int, v: Term) -> Term
    decreases t,
{
    match t {
        Term::App(es) => Term::App(substituted_list(es, depth, v)),
        Term::Abs(body) => Term::Abs(Box::new(substituted(*body, depth + 1, v))),
        Term::Var(id) => if id == depth {
            shifted(v, 0, depth)
        } else if id > depth {
            Term::Var((id - 1) as u32)
        } else {
            Term::Var(id)
        },
        Term::Atom(name) => Term::Atom(name),
    }
}

/// `substituted`, elementwise over a sequence of terms.
pub open spec fn substituted_list(es: Seq<Term>, depth: int, v: Term) -> Seq<Term>
    decreases es,
{
    if es.len() == 0 {
        Seq::empty()
    } else {
        seq![substituted(es[0], depth, v)] + substituted_list(es.drop_first(), depth, v)
    }
}

/// The length and elements of `substituted_list` mirror the input.
pub broadcast proof fn lemma_substituted_list_len(es: Seq<Term>, depth: int, v: Term)
    ensures
        #[trigger] substituted_list(es, depth, v).len() == es.len(),
    decreases es,
{
    if es.len() > 0 {
        lemma_substituted_list_len(es.drop_first(), depth, v);
    }
}

/// Each element of `substituted_list` is the substitution into the
/// matching element.
pub broadcast proof fn lemma_substituted_list_index(es: Seq<Term>, depth: int, v: Term, i: int)
    requires
        0 <= i < es.len(),
    ensures
        #[trigger] substituted_list(es, depth, v)[i] == substituted(es[i], depth, v),
    decreases es,
{
    lemma_substituted_list_len(es, depth, v);
    if i > 0 {
        lemma_substituted_list_index(es.drop_first(), depth, v, i - 1);
    }
}

/// Every shift of `v` that substituting it at `depth` would perform
/// stays within 32 bits, so the substitution is computable.
pub open spec fn subst_fits(t: Term, depth: int, v: Term) -> bool
    decreases t,
{
    match t {
        Term::App(es) => forall|i: int|
            0 <= i < es.len() ==> subst_fits(#[trigger] es[i], depth, v),
        Term::Abs(body) => subst_fits(*body, depth + 1, v),
        Term::Var(id) => id == depth ==> shift_fits(v, 0, depth),
        Term::Atom(_) => true,
    }
}

/// The canonical form of `t`: every application of exactly one element
/// collapses into that element, recursively, so no length-1 application
/// remains; other nodes keep their shape and are canonicalized below,
/// and the empty application stays.
pub open spec fn simplified(t: Term) -> Term
    decreases t,
{
    match t {
        Term::App(es) => if es.len() == 1 {
            simplified(es[0])
        } else {
            Term::App(simplified_list(es))
        },
        Term::Abs(body) => Term::Abs(Box::new(simplified(*body))),
        Term::Var(id) => Term::Var(id),
        Term::Atom(name) => Term::Atom(name),
    }
}

/// The canonical-form invariant: the term holds no application of
/// exactly one element anywhere.
pub open spec fn no_singleton_app(t: Term) -> bool
    decreases t,
{
    match t {
        Term::App(es) => es.len() != 1 && forall|i: int|
            0 <= i < es.len() ==> no_singleton_app(#[trigger] es[i]),
        Term::Abs(body) => no_singleton_app(*body),
        _ => true,
    }
}

/// `simplified`, elementwise over a sequence of terms.
pub open spec fn simplified_list(es: Seq<Term>) -> Seq<Term>
    decreases es,
{
    if es.len() == 0 {
        Seq::empty()
    } else {
        seq![simplified(es[0])] + simplified_list(es.drop_first())
    }
}

/// The length and elements of `simplified_list` mirror the input.
pub broadcast proof fn lemma_simplified_list_len(es: Seq<Term>)
    ensures
        #[trigger] simplified_list(es).len() == es.len(),
    decreases es,
{
    if es.len() > 0 {
        lemma_simplified_list_len(es.drop_first());
    }
}

/// Each element of `simplified_list` is the canonical form of the
/// matching element.
pub broadcast proof fn lemma_simplified_list_index(es: Seq<Term>, i: int)
    requires
        0 <= i < es.len(),
    ensures
        #[trigger] simplified_list(es)[i] == simplified(es[i]),
    decreases es,
{
    lemma_simplified_list_len(es);
    if i > 0 {
        lemma_simplified_list_index(es.drop_first(), i - 1);
    }
}

fn simplify_go(t: Expr) -> (r: Expr)
    ensures
        term_of(r) == simplified(term_of(t)),
    decreases t,
{
    broadcast use group_terms_of;

    match t {
        Expr::Group(es) => {
            let ghost t0 = t;
            let ghost v0 = es;
            let ghost ts0 = terms_of(es@);
            let mut es = es;
            if es.len() == 1 {
                let inner = es.remove(0);
                proof {
                    assert(inner == v0@[0]);
                    assert(decreases_to!(t0 => v0@[0])) by {
                        assert(v0 == t0->Group_0);
                        assert(decreases_to!(t0 => t0->Group_0));
                        assert(decreases_to!(v0 => v0@[0]));
                    }
                    lemma_terms_of_index(v0@, 0);
                    assert(term_of(inner) == ts0[0]);
                }
                simplify_go(inner)
            } else {
                let mut out: Vec<Expr> = Vec::new();
                while es.len() > 0
                    invariant
                        t0 == t,
                        t0 == Expr::Group(v0),
                        es@ =~= v0@.subrange(out@.len() as int, v0@.len() as int),
                        out@.len() <= v0@.len(),
                        ts0 == terms_of(v0@),
                        ts0.len() == v0@.len(),
                        forall|k: int|
                            0 <= k < out@.len() ==> term_of(#[trigger] out@[k]) == simplified(
                                ts0[k],
                            ),
                    decreases es@.len(),
                {
                    let ghost j = out@.len() as int;
                    let c = es.remove(0);
                    proof {
                        assert(c == v0@[j]);
                        assert(decreases_to!(t0 => v0@[j])) by {
                            assert(v0 == t0->Group_0);
                            assert(decreases_to!(t0 => t0->Group_0));
                            assert(decreases_to!(v0 => v0@[j]));
                        }
                        lemma_terms_of_index(v0@, j);
                        assert(term_of(c) == ts0[j]);
                    }
                    let s = simplify_go(c);
                    out.push(s);
                }
                proof {
                    lemma_simplified_list_len(ts0);
                    assert forall|k: int| 0 <= k < ts0.len() implies #[trigger] terms_of(
                        out@,
                    )[k] == simplified_list(ts0)[k] by {
                        lemma_terms_of_index(out@, k);
                        lemma_simplified_list_index(ts0, k);
                    }
                    assert(terms_of(out@) =~= simplified_list(ts0));
                }
                Expr::Group(out)
            }
        }
        Expr::Def(body) => {
            let ghost t0 = t;
            proof {
                assert(decreases_to!(t0 => *t0->Def_0));
            }
            let b = simplify_go(*body);
            Expr::Def(Box::new(b))
        }
        Expr::Relative(id) => Expr::Relative(id),
        Expr::Label(name) => Expr::Label(name),
    }
}

fn subst_go(t: Expr, depth: u64, Ghost(d): Ghost<int>, value: &Expr) -> (r: Expr)
    requires
        subst_fits(term_of(t), d, value@),
        depth_rel(depth, d),
    ensures
        term_of(r) == substituted(term_of(t), d, value@),
    decreases t,
{
    broadcast use group_terms_of;

    match t {
        Expr::Group(es) => {
            let ghost t0 = t;
            let ghost v0 = es;
            let ghost ts0 = terms_of(es@);
            let mut es = es;
            let mut out: Vec<Expr> = Vec::new();
            while es.len() > 0
                invariant
                    t0 == t,
                    t0 == Expr::Group(v0),
                    es@ =~= v0@.subrange(out@.len() as int, v0@.len() as int),
                    out@.len() <= v0@.len(),
                    ts0 == terms_of(v0@),
                    ts0.len() == v0@.len(),
                    subst_fits(Term::App(ts0), d, value@),
                    depth_rel(depth, d),
                    forall|k: int|
                        0 <= k < out@.len() ==> term_of(#[trigger] out@[k]) == substituted(
                            ts0[k],
                            d,
                            value@,
                        ),
                decreases es@.len(),
            {
                let ghost j = out@.len() as int;
                let c = es.remove(0);
                proof {
                    assert(c == v0@[j]);
                    assert(decreases_to!(t0 => v0@[j])) by {
                        assert(v0 == t0->Group_0);
                        assert(decreases_to!(t0 => t0->Group_0));
                        assert(decreases_to!(v0 => v0@[j]));
                    }
                    lemma_terms_of_index(v0@, j);
                    assert(term_of(c) == ts0[j]);
                    assert(subst_fits(ts0[j], d, value@)) by {
                        assert(subst_fits(Term::App(ts0), d, value@));
                        assert(Term::App(ts0)->App_0 == ts0);
                    }
                }
                let s = subst_go(c, depth, Ghost(d), value);
                out.push(s);
            }
            proof {
                lemma_substituted_list_len(ts0, d, value@);
                assert forall|k: int| 0 <= k < ts0.len() implies #[trigger] terms_of(out@)[k]
                    == substituted_list(ts0, d, value@)[k] by {
                    lemma_terms_of_index(out@, k);
                    lemma_substituted_list_index(ts0, d, value@, k);
                }
                assert(terms_of(out@) =~= substituted_list(ts0, d, value@));
            }
            Expr::Group(out)
        }
        Expr::Def(body) => {
            let ghost t0 = t;
            proof {
                assert(decreases_to!(t0 => *t0->Def_0));
            }
            let b = subst_go(*body, bump(depth), Ghost(d + 1), value);
            Expr::Def(Box::new(b))
        }
        Expr::Relative(id) => {
            if (id as u64) == depth {
                let copy = value.clone();
                shift_go(copy, 0, Ghost(0), id)
            } else if (id as u64) > depth {
                Expr::Relative(id - 1)
            } else {
                Expr::Relative(id)
            }
        }
        Expr::Label(name) => Expr::Label(name),
    }
}

impl Expr {
    /// Replaces every occurrence of the de Bruijn index `depth` (adjusted
    /// for binders crossed along the way) inside `self` with its own
    /// shifted copy of `value`, decrementing the indices that pointed past
    /// the eliminated binder.
    pub fn replace_relative(&mut self, depth: u32, value: Expr)
        requires
            subst_fits(old(self)@, depth as int, value@),
        ensures
            final(self)@ == substituted(old(self)@, depth as int, value@),
    {
        let mut tmp = Expr::Relative(0);
        core::mem::swap(self, &mut tmp);
        let mut res = subst_go(tmp, depth as u64, Ghost(depth as int), &value);
        core::mem::swap(self, &mut res);
    }

    /// Rewrites `self` into its canonical form: every application of
    /// exactly one element collapses into that element, recursively, so
    /// no length-1 application remains. Applying it twice gives the same
    /// term as applying it once.
    pub fn simplify(&mut self)
        ensures
            final(self)@ == simplified(old(self)@),
            no_singleton_app(final(self)@),
    {
        let mut tmp = Expr::Relative(0);
        core::mem::swap(self, &mut tmp);
        let mut res = simplify_go(tmp);
        core::mem::swap(self, &mut res);
        proof {
            crate::laws::lemma_simplified_canonical(old(self)@);
        }
    }

    /// Adds `at` to every de Bruijn index at or above `depth` (counted
    /// relative to the root of `self`), leaving lower indices alone. Used
    /// when a sub-term is relocated under a different number of binders.
    pub fn update(&mut self, depth: u32, at: u32)
        requires
            shift_fits(old(self)@, depth as int, at as int),
        ensures
            final(self)@ == shifted(old(self)@, depth as int, at as int),
    {
        let mut tmp = Expr::Relative(0);
        core::mem::swap(self, &mut tmp);
        let mut res = shift_go(tmp, depth as u64, Ghost(depth as int), at);
        core::mem::swap(self, &mut res);
    }
}

/// The encoding of the natural number `n` that the constructor builds:
/// two abstractions around `church_body(n)`, wrapped in a one-element
/// application.
pub open spec fn church(n: nat) -> Term {
    Term::App(
        seq![Term::Abs(Box::new(Term::Abs(Box::new(Term::App(church_body(n))))))],
    )
}

/// The body of the numeral for `n`: `n` nested applications of the outer
/// binder to the chain ending in the inner binder.
pub open spec fn church_body(n: nat) -> Seq<Term>
    decreases n,
{
    if n == 0 {
        seq![Term::Var(0)]
    } else if n == 1 {
        seq![Term::Var(1), Term::Var(0)]
    } else {
        seq![Term::Var(1), Term::App(church_body((n - 1) as nat))]
    }
}

impl Expr {
    /// Builds the term encoding the natural number `n` as a numeral: an
    /// abstraction over an abstraction whose body applies the outer
    /// binder `n` times to the inner one.
    pub fn from_number(n: usize) -> (r: Expr)
        ensures
            r@ == church(n as nat),
    {
        broadcast use group_terms_of;

        let mut body: Vec<Expr> = Vec::new();
        if n == 0 {
            body.push(Expr::Relative(0));
            proof {
                assert(terms_of(body@) =~= church_body(0));
            }
        } else {
            body.push(Expr::Relative(1));
            body.push(Expr::Relative(0));
            proof {
                assert(terms_of(body@) =~= church_body(1));
            }
            let mut level: usize = 1;
            while level < n
                invariant
                    1 <= level <= n,
                    terms_of(body@) == church_body(level as nat),
                decreases n - level,
            {
                let mut next: Vec<Expr> = Vec::new();
                next.push(Expr::Relative(1));
                next.push(Expr::Group(body));
                proof {
                    lemma_terms_of_len(next@);
                    lemma_terms_of_index(next@, 0);
                    lemma_terms_of_index(next@, 1);
                    assert(terms_of(next@) =~= church_body((level + 1) as nat));
                }
                body = next;
                level = level + 1;
            }
        }
        let inner = Expr::Group(body);
        proof {
            assert(term_of(inner) == Term::App(church_body(n as nat)));
        }
        let halfway = Expr::Def(Box::new(inner));
        proof {
            assert(term_of(halfway) == Term::Abs(
                Box::new(Term::App(church_body(n as nat))),
            ));
        }
        let wrapped = Expr::Def(Box::new(halfway));
        proof {
            assert(term_of(wrapped) == Term::Abs(
                Box::new(Term::Abs(Box::new(Term::App(church_body(n as nat))))),
            ));
        }
        let mut out: Vec<Expr> = Vec::new();
        out.push(wrapped);
        proof {
            assert(terms_of(out@) =~= seq![term_of(wrapped)]);
            assert(Term::App(terms_of(out@)) == church(n as nat));
        }
        Expr::Group(out)
    }
}

/// The view keeps the head constructor of the expression.
pub proof fn lemma_view_variant(e: Expr)
    ensures
        e is Group <==> term_of(e) is App,
        e is Def <==> term_of(e) is Abs,
        e is Relative <==> term_of(e) is Var,
        e is Label <==> term_of(e) is Atom,
{
}

impl PartialEq for Expr {
    /// Structural equality: two expressions are equal exactly when their
    /// views are the same term.
    fn eq(&self, other: &Self) -> (r: bool)
        ensures
            r == (self@ == other@),
        decreases self,
    {
        broadcast use group_terms_of;

        match (self, other) {
            (Expr::Group(a), Expr::Group(b)) => {
                if a.len() != b.len() {
                    proof {
                        assert(terms_of(a@).len() != terms_of(b@).len());
                    }
                    return false;
                }
                let mut i: usize = 0;
                while i < a.len()
                    invariant
                        i <= a.len(),
                        a@.len() == b@.len(),
                        *self == Expr::Group(*a),
                        *other == Expr::Group(*b),
                        forall|k: int|
                            0 <= k < i ==> term_of(#[trigger] a@[k]) == term_of(b@[k]),
                    decreases a.len() - i,
                {
                    proof {
                        assert(decreases_to!(*self => a@[i as int])) by {
                            assert(*a == self->Group_0);
                            assert(decreases_to!(*self => self->Group_0));
                            assert(decreases_to!(*a => a@[i as int]));
                        }
                    }
                    if !(a[i].eq(&b[i])) {
                        proof {
                            lemma_terms_of_index(a@, i as int);
                            lemma_terms_of_index(b@, i as int);
                            assert(terms_of(a@)[i as int] != terms_of(b@)[i as int]);
                        }
                        return false;
                    }
                    i = i + 1;
                }
                proof {
                    assert forall|k: int| 0 <= k < a@.len() implies #[trigger] terms_of(
                        a@,
                    )[k] == terms_of(b@)[k] by {
                        lemma_terms_of_index(a@, k);
                        lemma_terms_of_index(b@, k);
                    }
                    assert(terms_of(a@) =~= terms_of(b@));
                }
                true
            }
            (Expr::Def(a), Expr::Def(b)) => {
                proof {
                    assert(decreases_to!(*self => *self->Def_0));
                }
                (**a).eq(&**b)
            }
            (Expr::Relative(a), Expr::Relative(b)) => *a == *b,
            (Expr::Label(a), Expr::Label(b)) => a.eq(b),
            _ => {
                proof {
                    lemma_view_variant(*self);
                    lemma_view_variant(*other);
                }
                false
            },
        }
    }
}

impl vstd::std_specs::cmp::PartialEqSpecImpl for Expr {
    open spec fn obeys_eq_spec() -> bool {
        true
    }

    open spec fn eq_spec(&self, other: &Expr) -> bool {
        self@ == other@
    }
}

} // verus!
