//! The reducer: finding beta-redex positions and applying a reduction at
//! a given tree path.
//!
//! A path is the sequence of child indices chosen at each application
//! node on the way down; descending into an abstraction body consumes no
//! path step. A path names a redex when it ends at an abstraction and,
//! walking back up through application nodes only, some enclosing
//! application holds a slot right after the descent position whose term
//! is closed under the abstraction's binder depth: that slot is the
//! argument. Discovery returns exactly the redexes whose abstraction
//! heads the application that supplies the argument, reached from it by
//! first-slot descents alone.

use vstd::prelude::*;

use crate::term::bump;
use crate::term::closed_under;
use crate::term::depth_rel;
use crate::term::free_bound_exec;
use crate::term::lemma_closed_free_bound;
use crate::term::lemma_terms_of_index;
use crate::term::lemma_terms_of_len;
use crate::term::lemma_view_variant;
use crate::term::simplified;
use crate::term::subst_fits;
use crate::term::substituted;
use crate::term::term_of;
use crate::term::terms_of;
use crate::term::Expr;
use crate::term::Term;

verus! {

broadcast use vstd::std_specs::vec::group_vec_axioms;

/// The outcome of the argument search below one node.
pub enum Search {
    /// The path does not name a reducible position in this subtree.
    NotRedex,
    /// The path ends at an abstraction whose binder depth is recorded
    /// here, but no enclosing application inside this subtree supplies
    /// an argument yet.
    NeedArg(int),
    /// An application at path position `.0` supplies the argument for
    /// the abstraction at depth `.1`.
    Found(int, int),
}

/// Walks `t` along `path` from step `k` with `depth` abstractions
/// already crossed. The path must end at an abstraction; on the way back
/// up, the innermost application whose slot right after the descent
/// position exists and is closed under the abstraction's depth accepts,
/// and an abstraction met before any application accepts refuses.
pub open spec fn search(t: Term, path: Seq<usize>, k: int, depth: int) -> Search
    decreases t,
{
    if k >= path.len() {
        if t is Abs {
            Search::NeedArg(depth)
        } else {
            Search::NotRedex
        }
    } else {
        match t {
            Term::App(es) => {
                let i = path[k] as int;
                if i < es.len() {
                    match search(es[i], path, k + 1, depth) {
                        Search::NeedArg(d) => if i + 1 < es.len() && closed_under(
                            es[i + 1],
                            d,
                        ) {
                            Search::Found(k, d)
                        } else {
                            Search::NeedArg(d)
                        },
                        r => r,
                    }
                } else {
                    Search::NotRedex
                }
            }
            Term::Abs(body) => match search(*body, path, k, depth + 1) {
                Search::NeedArg(_) => Search::NotRedex,
                r => r,
            },
            _ => Search::NotRedex,
        }
    }
}

/// Whether `path` names a position of `t` where a reduction succeeds.
pub open spec fn redex_at(t: Term, path: Seq<usize>) -> bool {
    search(t, path, 0, 0) is Found
}

/// Whether every path step from index `q` on enters slot 0: the node at
/// the path's end is then reached from the application at step `q` by
/// head-slot descents alone, so it heads that application.
pub open spec fn heads_from(path: Seq<usize>, q: int) -> bool {
    forall|m: int| q <= m < path.len() ==> path[m] == 0
}

/// Whether `path` names a redex whose abstraction heads the application
/// that supplies the argument: the search accepts at some step `q`, and
/// from there the abstraction is reached by descending only into first
/// slots (possibly through nested applications wrapping it).
pub open spec fn candidate_at(t: Term, path: Seq<usize>) -> bool {
    search(t, path, 0, 0) matches Search::Found(q, d) && heads_from(path, q)
}

/// The executable outcome of the argument search; the depths it
/// carries saturate at 2^32 as in `depth_rel`.
enum SearchRes {
    No,
    Need(u64),
    At(usize, u64),
}

/// The argument search, executable: mirrors `search`, carrying the
/// saturated depth of `depth_rel`.
fn search_exec(e: &Expr, path: &[usize], k: usize, depth: u64, Ghost(d): Ghost<int>) -> (r:
    SearchRes)
    requires
        depth_rel(depth, d),
        k <= path@.len(),
    ensures
        ({
            let s = search(e@, path@, k as int, d);
            match r {
                SearchRes::No => s is NotRedex,
                SearchRes::Need(dep) => s is NeedArg && depth_rel(dep, s->NeedArg_0),
                SearchRes::At(q, dep) => s is Found && s->Found_0 == q && depth_rel(
                    dep,
                    s->Found_1,
                ),
            }
        }),
    decreases e,
{
    if k == path.len() {
        if matches!(e, Expr::Def(_)) {
            proof {
                lemma_view_variant(*e);
            }
            SearchRes::Need(depth)
        } else {
            proof {
                lemma_view_variant(*e);
            }
            SearchRes::No
        }
    } else {
        match e {
            Expr::Group(es) => {
                proof {
                    lemma_terms_of_len(es@);
                }
                let i = path[k];
                if i >= es.len() {
                    return SearchRes::No;
                }
                proof {
                    assert(decreases_to!(*e => es@[i as int])) by {
                        assert(*es == e->Group_0);
                        assert(decreases_to!(*e => e->Group_0));
                        assert(decreases_to!(*es => es@[i as int]));
                    }
                    lemma_terms_of_index(es@, i as int);
                }
                let sub = search_exec(&es[i], path, k + 1, depth, Ghost(d));
                match sub {
                    SearchRes::Need(dep) => {
                        if i + 1 < es.len() {
                            proof {
                                lemma_terms_of_index(es@, i + 1);
                            }
                            let fb = free_bound_exec(&es[i + 1]);
                            let ghost dd = search(
                                term_of(es@[i as int]),
                                path@,
                                k + 1,
                                d,
                            )->NeedArg_0;
                            proof {
                                lemma_closed_free_bound(terms_of(es@)[i + 1], dd);
                            }
                            if fb <= dep {
                                SearchRes::At(k, dep)
                            } else {
                                SearchRes::Need(dep)
                            }
                        } else {
                            SearchRes::Need(dep)
                        }
                    }
                    SearchRes::No => SearchRes::No,
                    SearchRes::At(q, dep) => SearchRes::At(q, dep),
                }
            }
            Expr::Def(body) => {
                proof {
                    assert(decreases_to!(*e => *e->Def_0));
                }
                let sub = search_exec(&**body, path, k, bump(depth), Ghost(d + 1));
                match sub {
                    SearchRes::Need(_) => SearchRes::No,
                    SearchRes::No => SearchRes::No,
                    SearchRes::At(q, dep) => SearchRes::At(q, dep),
                }
            }
            _ => {
                proof {
                    lemma_view_variant(*e);
                }
                SearchRes::No
            },
        }
    }
}

/// A search that accepts does so at a path position between the current
/// step and the end of the path.
pub proof fn lemma_search_found_range(t: Term, path: Seq<usize>, k: int, depth: int)
    requires
        search(t, path, k, depth) is Found,
    ensures
        k <= search(t, path, k, depth)->Found_0 < path.len(),
    decreases t,
{
    if k < path.len() {
        match t {
            Term::App(es) => {
                let i = path[k] as int;
                if i < es.len() {
                    if search(es[i], path, k + 1, depth) is Found {
                        lemma_search_found_range(es[i], path, k + 1, depth);
                    }
                }
            }
            Term::Abs(body) => {
                lemma_search_found_range(*body, path, k, depth + 1);
            }
            _ => {}
        }
    }
}

/// The subtree below the accepting application, rewritten: the argument
/// `arg` has already been detached above and travels down the rest of
/// the path; at its end the abstraction is replaced by its body with
/// `arg` substituted for the freed binder, canonicalized.
pub open spec fn carried(t: Term, path: Seq<usize>, k: int, arg: Term) -> Term
    decreases t,
{
    if k >= path.len() {
        match t {
            Term::Abs(body) => simplified(substituted(*body, 0, arg)),
            _ => t,
        }
    } else {
        match t {
            Term::App(es) => {
                let i = path[k] as int;
                if i < es.len() {
                    Term::App(es.update(i, carried(es[i], path, k + 1, arg)))
                } else {
                    t
                }
            }
            Term::Abs(body) => Term::Abs(Box::new(carried(*body, path, k, arg))),
            _ => t,
        }
    }
}

/// The whole term after reducing at `path`, where the application at
/// path position `q` supplies the argument: that application loses the
/// slot right after its descent position, and the slot's term is carried
/// down to the abstraction at the end of the path.
pub open spec fn rewritten(t: Term, path: Seq<usize>, k: int, q: int) -> Term
    decreases t,
{
    match t {
        Term::App(es) => {
            let i = path[k] as int;
            if k == q {
                if i + 1 < es.len() {
                    Term::App(
                        es.remove(i + 1).update(i, carried(es[i], path, k + 1, es[i + 1])),
                    )
                } else {
                    t
                }
            } else {
                if i < es.len() {
                    Term::App(es.update(i, rewritten(es[i], path, k + 1, q)))
                } else {
                    t
                }
            }
        }
        Term::Abs(body) => Term::Abs(Box::new(rewritten(*body, path, k, q))),
        _ => t,
    }
}

/// The substitution performed when carrying `arg` down the rest of the
/// path stays within 32-bit indices.
pub open spec fn carried_fits(t: Term, path: Seq<usize>, k: int, arg: Term) -> bool
    decreases t,
{
    if k >= path.len() {
        match t {
            Term::Abs(body) => subst_fits(*body, 0, arg),
            _ => true,
        }
    } else {
        match t {
            Term::App(es) => {
                let i = path[k] as int;
                if i < es.len() {
                    carried_fits(es[i], path, k + 1, arg)
                } else {
                    true
                }
            }
            Term::Abs(body) => carried_fits(*body, path, k, arg),
            _ => true,
        }
    }
}

/// The substitution performed when reducing at `path` with the argument
/// supplied at path position `q` stays within 32-bit indices.
pub open spec fn rewrite_fits(t: Term, path: Seq<usize>, k: int, q: int) -> bool
    decreases t,
{
    match t {
        Term::App(es) => {
            let i = path[k] as int;
            if k == q {
                if i + 1 < es.len() {
                    carried_fits(es[i], path, k + 1, es[i + 1])
                } else {
                    true
                }
            } else {
                if i < es.len() {
                    rewrite_fits(es[i], path, k + 1, q)
                } else {
                    true
                }
            }
        }
        Term::Abs(body) => rewrite_fits(*body, path, k, q),
        _ => true,
    }
}

/// Carries the detached argument down the rest of the path and
/// substitutes it at the abstraction: mirrors `carried`.
fn carry_exec(t: Expr, path: &[usize], k: usize, arg: Expr, Ghost(d1): Ghost<int>) -> (r: Expr)
    requires
        k <= path@.len(),
        search(term_of(t), path@, k as int, d1) is NeedArg,
        carried_fits(term_of(t), path@, k as int, arg@),
    ensures
        term_of(r) == carried(term_of(t), path@, k as int, arg@),
    decreases t,
{
    broadcast use crate::term::group_terms_of;

    if k == path.len() {
        match t {
            Expr::Def(body) => {
                let mut b: Expr = *body;
                b.replace_relative(0, arg);
                b.simplify();
                b
            }
            _ => {
                proof {
                    lemma_view_variant(t);
                    assert(false);
                }
                vstd::pervasive::unreached()
            },
        }
    } else {
        match t {
            Expr::Group(es) => {
                let ghost t0 = t;
                let ghost v0 = es;
                let ghost ts0 = terms_of(es@);
                proof {
                    lemma_terms_of_len(es@);
                }
                let mut es = es;
                let i = path[k];
                proof {
                    assert(i < es@.len());
                }
                let c = es.remove(i);
                proof {
                    assert(c == v0@[i as int]);
                    assert(decreases_to!(t0 => v0@[i as int])) by {
                        assert(v0 == t0->Group_0);
                        assert(decreases_to!(t0 => t0->Group_0));
                        assert(decreases_to!(v0 => v0@[i as int]));
                    }
                    lemma_terms_of_index(v0@, i as int);
                }
                let c2 = carry_exec(c, path, k + 1, arg, Ghost(d1));
                es.insert(i, c2);
                proof {
                    v0@.remove(i as int).insert_ensures(i as int, c2);
                    v0@.remove_ensures(i as int);
                    let goal = ts0.update(
                        i as int,
                        carried(ts0[i as int], path@, k + 1, arg@),
                    );
                    lemma_terms_of_len(es@);
                    assert forall|j: int| 0 <= j < es@.len() implies #[trigger] terms_of(
                        es@,
                    )[j] == goal[j] by {
                        lemma_terms_of_index(es@, j);
                        if j != i {
                            assert(es@[j] == v0@[j]);
                            lemma_terms_of_index(v0@, j);
                        }
                    }
                    assert(terms_of(es@) =~= goal);
                }
                Expr::Group(es)
            }
            _ => {
                proof {
                    lemma_view_variant(t);
                    assert(false);
                }
                vstd::pervasive::unreached()
            },
        }
    }
}

/// Rebuilds the term after a reduction at `path` with the argument
/// supplied at path position `q`: mirrors `rewritten`.
fn rewrite_exec(t: Expr, path: &[usize], k: usize, q: usize, Ghost(d0): Ghost<int>) -> (r: Expr)
    requires
        k <= q,
        (search(term_of(t), path@, k as int, d0) matches Search::Found(qq, dd) && qq == q),
        rewrite_fits(term_of(t), path@, k as int, q as int),
    ensures
        term_of(r) == rewritten(term_of(t), path@, k as int, q as int),
    decreases t,
{
    broadcast use crate::term::group_terms_of;

    proof {
        lemma_search_found_range(term_of(t), path@, k as int, d0);
    }
    match t {
        Expr::Group(es) => {
            let ghost t0 = t;
            let ghost v0 = es;
            let ghost ts0 = terms_of(es@);
            proof {
                lemma_terms_of_len(es@);
            }
            let mut es = es;
            let i = path[k];
            proof {
                assert(i < es@.len());
            }
            if k == q {
                proof {
                    if search(ts0[i as int], path@, k + 1, d0) is Found {
                        lemma_search_found_range(ts0[i as int], path@, k + 1, d0);
                    }
                    assert(search(ts0[i as int], path@, k + 1, d0) is NeedArg);
                    assert(i + 1 < es@.len());
                }
                let n = es.len();
                proof {
                    assert(i + 1 < n);
                }
                let arg = es.remove(i + 1);
                let c = es.remove(i);
                proof {
                    v0@.remove_ensures(i + 1);
                    assert(c == v0@[i as int]);
                    assert(arg == v0@[i + 1]);
                    assert(decreases_to!(t0 => v0@[i as int])) by {
                        assert(v0 == t0->Group_0);
                        assert(decreases_to!(t0 => t0->Group_0));
                        assert(decreases_to!(v0 => v0@[i as int]));
                    }
                    lemma_terms_of_index(v0@, i as int);
                    lemma_terms_of_index(v0@, i + 1);
                }
                let c2 = carry_exec(c, path, k + 1, arg, Ghost(d0));
                es.insert(i, c2);
                proof {
                    let after1 = v0@.remove(i + 1);
                    after1.remove_ensures(i as int);
                    after1.remove(i as int).insert_ensures(i as int, c2);
                    v0@.remove_ensures(i + 1);
                    ts0.remove_ensures(i + 1);
                    let carried_term = carried(ts0[i as int], path@, k + 1, ts0[i + 1]);
                    let goal = ts0.remove(i + 1).update(i as int, carried_term);
                    lemma_terms_of_len(es@);
                    assert forall|j: int| 0 <= j < es@.len() implies #[trigger] terms_of(
                        es@,
                    )[j] == goal[j] by {
                        lemma_terms_of_index(es@, j);
                        if j < i {
                            assert(es@[j] == v0@[j]);
                            lemma_terms_of_index(v0@, j);
                        } else if j > i {
                            assert(es@[j] == after1[j]);
                            assert(after1[j] == v0@[j + 1]);
                            lemma_terms_of_index(v0@, j + 1);
                        }
                    }
                    assert(terms_of(es@) =~= goal);
                }
                Expr::Group(es)
            } else {
                let c = es.remove(i);
                proof {
                    assert(c == v0@[i as int]);
                    assert(decreases_to!(t0 => v0@[i as int])) by {
                        assert(v0 == t0->Group_0);
                        assert(decreases_to!(t0 => t0->Group_0));
                        assert(decreases_to!(v0 => v0@[i as int]));
                    }
                    lemma_terms_of_index(v0@, i as int);
                }
                let c2 = rewrite_exec(c, path, k + 1, q, Ghost(d0));
                es.insert(i, c2);
                proof {
                    v0@.remove(i as int).insert_ensures(i as int, c2);
                    v0@.remove_ensures(i as int);
                    let goal = ts0.update(
                        i as int,
                        rewritten(ts0[i as int], path@, k + 1, q as int),
                    );
                    lemma_terms_of_len(es@);
                    assert forall|j: int| 0 <= j < es@.len() implies #[trigger] terms_of(
                        es@,
                    )[j] == goal[j] by {
                        lemma_terms_of_index(es@, j);
                        if j != i {
                            assert(es@[j] == v0@[j]);
                            lemma_terms_of_index(v0@, j);
                        }
                    }
                    assert(terms_of(es@) =~= goal);
                }
                Expr::Group(es)
            }
        }
        Expr::Def(body) => {
            let ghost t0 = t;
            proof {
                assert(decreases_to!(t0 => *t0->Def_0));
            }
            let b = rewrite_exec(*body, path, k, q, Ghost(d0 + 1));
            Expr::Def(Box::new(b))
        }
        _ => {
            proof {
                lemma_view_variant(t);
                assert(false);
            }
            vstd::pervasive::unreached()
        },
    }
}

/// The positions, in depth-first order, of every abstraction that
/// heads an application: the node reached after the path's last step is
/// an abstraction and that step entered slot 0 of an application.
/// `fresh` records whether `t` itself was just reached by an
/// application step, so that of several abstractions sharing a position
/// only the outermost one is counted.
pub open spec fn head_positions(t: Term, pos: Seq<usize>, fresh: bool) -> Seq<Seq<usize>>
    decreases t, 0int,
{
    match t {
        Term::App(es) => head_positions_list(es, 0, pos),
        Term::Abs(body) => (if fresh && pos.len() > 0 && pos.last() == 0usize {
            seq![pos]
        } else {
            Seq::empty()
        }) + head_positions(*body, pos, false),
        _ => Seq::empty(),
    }
}

/// `head_positions` over the children of an application from index `j`
/// on, each child's position extended with its index.
pub open spec fn head_positions_list(es: Seq<Term>, j: int, pos: Seq<usize>) -> Seq<
    Seq<usize>,
>
    decreases es, es.len() - j,
{
    if 0 <= j < es.len() {
        head_positions(es[j], pos.push(j as usize), true) + head_positions_list(
            es,
            j + 1,
            pos,
        )
    } else {
        Seq::empty()
    }
}

/// A priority from a binder depth: the depth itself, held at `u32::MAX`
/// for depths no 32-bit priority can express.
pub open spec fn score_of(d: int) -> u32 {
    if d <= u32::MAX as int {
        d as u32
    } else {
        u32::MAX
    }
}

/// The candidates among `ps` (from index `j` on) whose path names a
/// redex whose abstraction heads the application supplying the
/// argument, each scored with the binder depth of the abstraction.
pub open spec fn reducible_from(t: Term, ps: Seq<Seq<usize>>, j: int) -> Seq<
    (u32, Seq<usize>),
>
    decreases ps.len() - j,
{
    if 0 <= j < ps.len() {
        (if candidate_at(t, ps[j]) {
            seq![(score_of(search(t, ps[j], 0, 0)->Found_1), ps[j])]
        } else {
            Seq::empty()
        }) + reducible_from(t, ps, j + 1)
    } else {
        Seq::empty()
    }
}

/// Everything redex discovery returns for `t`: each position of an
/// abstraction that heads an application supplying it a reachable
/// argument (see `candidate_at`), in depth-first order, scored with the
/// abstraction's binder depth so that the most deeply nested redex
/// carries the highest priority.
pub open spec fn discovered(t: Term) -> Seq<(u32, Seq<usize>)> {
    reducible_from(t, head_positions(t, Seq::empty(), false), 0)
}

/// The filtered list is empty exactly when none of the listed paths
/// (from index `j` on) is a candidate.
pub proof fn lemma_reducible_from_empty(t: Term, ps: Seq<Seq<usize>>, j: int)
    requires
        0 <= j,
    ensures
        (reducible_from(t, ps, j).len() == 0) <==> (forall|i: int|
            j <= i < ps.len() ==> !candidate_at(t, #[trigger] ps[i])),
    decreases ps.len() - j,
{
    if j < ps.len() {
        lemma_reducible_from_empty(t, ps, j + 1);
    }
}

/// A path contained in one child's enumeration is contained in the
/// enumeration over the children from any earlier index on.
pub proof fn lemma_heads_list_contains(
    es: Seq<Term>,
    j: int,
    pos: Seq<usize>,
    i: int,
    p: Seq<usize>,
)
    requires
        0 <= j <= i < es.len(),
        head_positions(es[i], pos.push(i as usize), true).contains(p),
    ensures
        head_positions_list(es, j, pos).contains(p),
    decreases i - j,
{
    if j < i {
        lemma_heads_list_contains(es, j + 1, pos, i, p);
        let rest = head_positions_list(es, j + 1, pos);
        let idx = choose|idx: int| 0 <= idx < rest.len() && rest[idx] == p;
        let own = head_positions(es[j], pos.push(j as usize), true);
        assert(head_positions_list(es, j, pos)[own.len() + idx] == p);
    } else {
        let own = head_positions(es[i], pos.push(i as usize), true);
        let idx = choose|idx: int| 0 <= idx < own.len() && own[idx] == p;
        assert(head_positions_list(es, j, pos)[idx] == p);
    }
}

/// A path on which the search does not fail outright is enumerated by
/// `head_positions`: the enumeration misses no position the search can
/// accept at. `fresh` must hold when the path is already exhausted.
pub proof fn lemma_heads_complete_rec(t: Term, p: Seq<usize>, k: int, d: int, fresh: bool)
    requires
        0 <= k <= p.len(),
        p.len() > 0,
        p.last() == 0usize,
        !(search(t, p, k, d) is NotRedex),
        k == p.len() ==> fresh,
    ensures
        head_positions(t, p.subrange(0, k), fresh).contains(p),
    decreases t,
{
    let pos = p.subrange(0, k);
    if k == p.len() {
        assert(t is Abs);
        assert(pos =~= p);
        assert(pos.len() > 0 && pos.last() == 0usize);
        assert(head_positions(t, pos, fresh)[0] == p);
    } else {
        match t {
            Term::App(es) => {
                let i = p[k] as int;
                assert(i < es.len());
                assert(!(search(es[i], p, k + 1, d) is NotRedex));
                lemma_heads_complete_rec(es[i], p, k + 1, d, true);
                assert(p.subrange(0, k + 1) =~= pos.push(p[k]));
                lemma_heads_list_contains(es, 0, pos, i, p);
            }
            Term::Abs(body) => {
                assert(!(search(*body, p, k, d + 1) is NotRedex));
                lemma_heads_complete_rec(*body, p, k, d + 1, false);
                let own = head_positions(*body, pos, false);
                let idx = choose|idx: int| 0 <= idx < own.len() && own[idx] == p;
                let emitted = if fresh && pos.len() > 0 && pos.last() == 0usize {
                    seq![pos]
                } else {
                    Seq::<Seq<usize>>::empty()
                };
                assert(head_positions(t, pos, fresh)[emitted.len() + idx] == p);
            }
            _ => {
                assert(false);
            }
        }
    }
}

/// Every candidate path is enumerated by `head_positions`.
pub proof fn lemma_heads_complete(t: Term, p: Seq<usize>)
    requires
        candidate_at(t, p),
    ensures
        head_positions(t, Seq::empty(), false).contains(p),
{
    let q = search(t, p, 0, 0)->Found_0;
    lemma_search_found_range(t, p, 0, 0);
    assert(p[p.len() - 1] == 0usize);
    assert(p.subrange(0, 0) =~= Seq::<usize>::empty());
    lemma_heads_complete_rec(t, p, 0, 0, false);
}

/// Every entry of `discovered` names a position where reduction
/// succeeds.
pub proof fn lemma_discovered_reducible(t: Term, i: int)
    requires
        0 <= i < discovered(t).len(),
    ensures
        redex_at(t, discovered(t)[i].1),
{
    lemma_reducible_from_sound(t, head_positions(t, Seq::empty(), false), 0, i);
}

/// Every entry of `reducible_from` names a position where reduction
/// succeeds.
pub proof fn lemma_reducible_from_sound(t: Term, ps: Seq<Seq<usize>>, j: int, i: int)
    requires
        0 <= i < reducible_from(t, ps, j).len(),
    ensures
        redex_at(t, reducible_from(t, ps, j)[i].1),
    decreases ps.len() - j,
{
    if 0 <= j < ps.len() {
        if candidate_at(t, ps[j]) {
            if i > 0 {
                lemma_reducible_from_sound(t, ps, j + 1, i - 1);
            }
        } else {
            lemma_reducible_from_sound(t, ps, j + 1, i);
        }
    }
}

/// The views of a sequence of index vectors, elementwise.
pub open spec fn views_of(ps: Seq<Vec<usize>>) -> Seq<Seq<usize>>
    decreases ps,
{
    if ps.len() == 0 {
        Seq::empty()
    } else {
        seq![ps[0]@] + views_of(ps.drop_first())
    }
}

/// The length and elements of `views_of` mirror the input.
pub broadcast proof fn lemma_views_of_len(ps: Seq<Vec<usize>>)
    ensures
        #[trigger] views_of(ps).len() == ps.len(),
    decreases ps,
{
    if ps.len() > 0 {
        lemma_views_of_len(ps.drop_first());
    }
}

/// Each element of `views_of` is the view of the matching vector.
pub broadcast proof fn lemma_views_of_index(ps: Seq<Vec<usize>>, i: int)
    requires
        0 <= i < ps.len(),
    ensures
        #[trigger] views_of(ps)[i] == ps[i]@,
    decreases ps,
{
    lemma_views_of_len(ps);
    if i > 0 {
        lemma_views_of_index(ps.drop_first(), i - 1);
    }
}

/// A copy of an index vector with the same view.
fn copy_path(v: &Vec<usize>) -> (r: Vec<usize>)
    ensures
        r@ == v@,
{
    let mut r: Vec<usize> = Vec::new();
    let mut i: usize = 0;
    while i < v.len()
        invariant
            i <= v.len(),
            r@ =~= v@.subrange(0, i as int),
        decreases v.len() - i,
    {
        r.push(v[i]);
        i = i + 1;
    }
    proof {
        assert(r@ =~= v@);
    }
    r
}

fn collect_heads(e: &Expr, pos: &Vec<usize>, fresh: bool, out: &mut Vec<Vec<usize>>)
    ensures
        views_of(final(out)@) == views_of(old(out)@) + head_positions(e@, pos@, fresh),
    decreases e,
{
    broadcast use crate::term::group_terms_of;

    match e {
        Expr::Group(es) => {
            proof {
                lemma_terms_of_len(es@);
            }
            let ghost ts0 = terms_of(es@);
            let mut j: usize = 0;
            while j < es.len()
                invariant
                    j <= es.len(),
                    *e == Expr::Group(*es),
                    ts0 == terms_of(es@),
                    ts0.len() == es@.len(),
                    views_of(out@) + head_positions_list(ts0, j as int, pos@) == views_of(
                        old(out)@,
                    ) + head_positions_list(ts0, 0, pos@),
                decreases es.len() - j,
            {
                proof {
                    assert(decreases_to!(*e => es@[j as int])) by {
                        assert(*es == e->Group_0);
                        assert(decreases_to!(*e => e->Group_0));
                        assert(decreases_to!(*es => es@[j as int]));
                    }
                    lemma_terms_of_index(es@, j as int);
                }
                let mut p2 = copy_path(pos);
                p2.push(j);
                collect_heads(&es[j], &p2, true, out);
                proof {
                    assert(p2@ == pos@.push(j as usize));
                    assert(head_positions_list(ts0, j as int, pos@) == head_positions(
                        ts0[j as int],
                        p2@,
                        true,
                    ) + head_positions_list(ts0, j + 1, pos@));
                    assert(views_of(out@) + head_positions_list(ts0, j + 1, pos@)
                        =~= views_of(old(out)@) + head_positions_list(ts0, 0, pos@));
                }
                j = j + 1;
            }
            proof {
                assert(head_positions_list(ts0, es@.len() as int, pos@) == Seq::<
                    Seq<usize>,
                >::empty());
                assert(views_of(out@) =~= views_of(old(out)@) + head_positions(
                    e@,
                    pos@,
                    fresh,
                ));
            }
        }
        Expr::Def(body) => {
            let is_head = pos.len() > 0 && pos[pos.len() - 1] == 0;
            if fresh && is_head {
                let copy = copy_path(pos);
                out.push(copy);
                proof {
                    lemma_views_of_len(out@);
                    lemma_views_of_len(old(out)@);
                    assert forall|i: int| 0 <= i < out@.len() implies #[trigger] views_of(
                        out@,
                    )[i] == (if i < old(out)@.len() {
                        views_of(old(out)@)[i]
                    } else {
                        pos@
                    }) by {
                        lemma_views_of_index(out@, i);
                        if i < old(out)@.len() {
                            lemma_views_of_index(old(out)@, i);
                            assert(out@[i] == old(out)@[i]);
                        } else {
                            assert(out@[i] == copy);
                        }
                    }
                    assert(views_of(out@) =~= views_of(old(out)@) + seq![pos@]);
                }
            }
            proof {
                assert(decreases_to!(*e => *e->Def_0));
            }
            collect_heads(&**body, pos, false, out);
            proof {
                assert(views_of(out@) =~= views_of(old(out)@) + head_positions(
                    e@,
                    pos@,
                    fresh,
                ));
            }
        }
        _ => {
            proof {
                assert(views_of(out@) =~= views_of(old(out)@) + head_positions(
                    e@,
                    pos@,
                    fresh,
                ));
            }
        },
    }
}

/// Whether every component of `p` from index `q` on is zero.
fn all_zero_from(p: &Vec<usize>, q: usize) -> (r: bool)
    requires
        q <= p@.len(),
    ensures
        r == heads_from(p@, q as int),
{
    let mut m = q;
    while m < p.len()
        invariant
            q <= m <= p@.len(),
            forall|k: int| q <= k < m ==> p@[k] == 0,
        decreases p@.len() - m,
    {
        if p[m] != 0 {
            proof {
                assert(q <= m < p@.len() && p@[m as int] != 0);
            }
            return false;
        }
        m = m + 1;
    }
    true
}

/// The views of a sequence of scored candidates, elementwise.
pub open spec fn entry_views(rs: Seq<(u32, Vec<usize>)>) -> Seq<(u32, Seq<usize>)>
    decreases rs,
{
    if rs.len() == 0 {
        Seq::empty()
    } else {
        seq![(rs[0].0, rs[0].1@)] + entry_views(rs.drop_first())
    }
}

/// The length and elements of `entry_views` mirror the input.
pub broadcast proof fn lemma_entry_views_len(rs: Seq<(u32, Vec<usize>)>)
    ensures
        #[trigger] entry_views(rs).len() == rs.len(),
    decreases rs,
{
    if rs.len() > 0 {
        lemma_entry_views_len(rs.drop_first());
    }
}

/// Each element of `entry_views` keeps the score and takes the path's
/// view.
pub broadcast proof fn lemma_entry_views_index(rs: Seq<(u32, Vec<usize>)>, i: int)
    requires
        0 <= i < rs.len(),
    ensures
        #[trigger] entry_views(rs)[i] == (rs[i].0, rs[i].1@),
    decreases rs,
{
    lemma_entry_views_len(rs);
    if i > 0 {
        lemma_entry_views_index(rs.drop_first(), i - 1);
    }
}

impl Expr {
    /// Returns every reducible position of `self` as a (priority, path)
    /// pair, in depth-first order: each position of an abstraction that
    /// heads an application supplying it a reachable argument (see
    /// `candidate_at`), scored with the abstraction's binder depth, so
    /// that the most deeply nested redex carries the highest priority.
    /// The result is empty exactly when no such position exists, and a
    /// caller that reduces at a returned path never sees the reduction
    /// fail.
    pub fn find_beta_reductions(&self) -> (r: Vec<(u32, Vec<usize>)>)
        ensures
            entry_views(r@) == discovered(self@),
            forall|i: int| 0 <= i < r@.len() ==> redex_at(self@, #[trigger] r@[i].1@),
            (r@.len() == 0) <==> (forall|p: Seq<usize>| !(#[trigger] candidate_at(self@, p))),
    {
        let empty_pos: Vec<usize> = Vec::new();
        let mut cands: Vec<Vec<usize>> = Vec::new();
        collect_heads(self, &empty_pos, false, &mut cands);
        proof {
            assert(views_of(cands@) =~= head_positions(self@, Seq::empty(), false));
        }
        let ghost cs = views_of(cands@);
        let mut result: Vec<(u32, Vec<usize>)> = Vec::new();
        let mut j: usize = 0;
        proof {
            lemma_views_of_len(cands@);
        }
        while j < cands.len()
            invariant
                j <= cands.len(),
                cs == views_of(cands@),
                cs.len() == cands@.len(),
                entry_views(result@) + reducible_from(self@, cs, j as int) == entry_views(
                    Seq::empty(),
                ) + reducible_from(self@, cs, 0),
                forall|i: int| 0 <= i < result@.len() ==> redex_at(self@, #[trigger] result@[i].1@),
            decreases cands.len() - j,
        {
            proof {
                lemma_views_of_index(cands@, j as int);
            }
            let cand = &cands[j];
            let res = search_exec(self, cand.as_slice(), 0, 0u64, Ghost(0));
            let accepted = match res {
                SearchRes::At(q, _) => {
                    proof {
                        lemma_search_found_range(self@, cs[j as int], 0, 0);
                    }
                    all_zero_from(cand, q)
                }
                _ => false,
            };
            if accepted {
                let dep = match res {
                    SearchRes::At(_, dd) => dd,
                    _ => 0u64,
                };
                let ghost pre = result@;
                let ghost dspec = search(self@, cs[j as int], 0, 0)->Found_1;
                let c2 = copy_path(cand);
                let score = if dep <= u32::MAX as u64 {
                    dep as u32
                } else {
                    u32::MAX
                };
                proof {
                    assert(score == score_of(dspec));
                }
                result.push((score, c2));
                proof {
                    lemma_entry_views_len(result@);
                    lemma_entry_views_len(pre);
                    assert forall|i: int| 0 <= i < result@.len() implies #[trigger] entry_views(
                        result@,
                    )[i] == (if i < pre.len() {
                        entry_views(pre)[i]
                    } else {
                        (score_of(dspec), cs[j as int])
                    }) by {
                        lemma_entry_views_index(result@, i);
                        if i < pre.len() {
                            lemma_entry_views_index(pre, i);
                            assert(result@[i] == pre[i]);
                        } else {
                            assert(result@[i] == (score, c2));
                        }
                    }
                    assert(entry_views(result@) =~= entry_views(pre) + seq![
                        (score_of(dspec), cs[j as int]),
                    ]);
                    assert(entry_views(result@) + reducible_from(self@, cs, j + 1)
                        =~= entry_views(Seq::empty()) + reducible_from(self@, cs, 0));
                }
            } else {
                proof {
                    assert(!candidate_at(self@, cs[j as int]));
                    assert(entry_views(result@) + reducible_from(self@, cs, j + 1)
                        =~= entry_views(Seq::empty()) + reducible_from(self@, cs, 0));
                }
            }
            j = j + 1;
        }
        proof {
            assert(reducible_from(self@, cs, cands@.len() as int) == Seq::<
                (u32, Seq<usize>),
            >::empty());
            assert(entry_views(result@) =~= discovered(self@));
            lemma_entry_views_len(result@);
            lemma_reducible_from_empty(self@, cs, 0);
            if result@.len() == 0 {
                assert forall|p: Seq<usize>| !(#[trigger] candidate_at(self@, p)) by {
                    if candidate_at(self@, p) {
                        lemma_heads_complete(self@, p);
                        let jx = choose|jx: int| 0 <= jx < cs.len() && cs[jx] == p;
                        assert(!candidate_at(self@, cs[jx]));
                    }
                }
            } else {
                let jx = choose|jx: int|
                    0 <= jx < cs.len() && candidate_at(self@, #[trigger] cs[jx]);
                assert(candidate_at(self@, cs[jx]));
            }
        }
        result
    }

    /// Reduces the redex that `at` names, in place. The path must reach
    /// an abstraction; the nearest enclosing application (with no
    /// abstraction in between) whose slot right after the descent
    /// position holds a term closed under the abstraction's binder depth
    /// gives up that slot as the argument, the abstraction's body
    /// receives it by substitution, and the rewritten subtree is
    /// canonicalized. Returns whether the path named such a redex; on
    /// failure the term is unchanged.
    pub fn beta_reduction_at(&mut self, at: &[usize]) -> (r: bool)
        requires
            (search(old(self)@, at@, 0, 0) matches Search::Found(q, dd) ==> rewrite_fits(
                old(self)@,
                at@,
                0,
                q,
            )),
        ensures
            r == redex_at(old(self)@, at@),
            (search(old(self)@, at@, 0, 0) matches Search::Found(q, dd) ==> final(self)@
                == rewritten(old(self)@, at@, 0, q)),
            !r ==> final(self)@ == old(self)@,
    {
        let res = search_exec(self, at, 0, 0u64, Ghost(0));
        match res {
            SearchRes::At(q, _) => {
                let mut tmp = Expr::Relative(0);
                core::mem::swap(self, &mut tmp);
                let mut res = rewrite_exec(tmp, at, 0, q, Ghost(0));
                core::mem::swap(self, &mut res);
                true
            }
            _ => false,
        }
    }
}

} // verus!
