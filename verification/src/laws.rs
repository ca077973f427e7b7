//! General properties stated and proved once for all terms: shifting by
//! zero changes nothing, closure is monotonic in the cutoff,
//! canonicalization is idempotent and leaves no singleton application,
//! number encodings are normal forms, and one reduction step keeps a
//! closed term closed. The consistency of discovery with reduction
//! lives beside the reducer, and the closedness of parsed terms beside
//! the parser.

use vstd::prelude::*;

use crate::reduce::carried;
use crate::reduce::discovered;
use crate::reduce::head_positions;
use crate::reduce::head_positions_list;
use crate::reduce::lemma_search_found_range;
use crate::reduce::redex_at;
use crate::reduce::reducible_from;
use crate::reduce::rewritten;
use crate::reduce::search;
use crate::reduce::Search;
use crate::term::church;
use crate::term::church_body;
use crate::term::closed_under;
use crate::term::shifted;
use crate::term::shifted_list;
use crate::term::simplified;
use crate::term::simplified_list;
use crate::term::substituted;
use crate::term::substituted_list;
use crate::term::no_singleton_app;
use crate::term::lemma_shifted_list_len;
use crate::term::lemma_shifted_list_index;
use crate::term::lemma_simplified_list_len;
use crate::term::lemma_simplified_list_index;
use crate::term::lemma_substituted_list_len;
use crate::term::lemma_substituted_list_index;
use crate::term::Term;

verus! {

/// Shifting by zero is the identity, whatever the cutoff.
pub proof fn lemma_shift_zero(t: Term, cutoff: int)
    ensures
        shifted(t, cutoff, 0) == t,
    decreases t,
{
    match t {
        Term::App(es) => {
            lemma_shift_zero_list(es, cutoff);
        }
        Term::Abs(body) => {
            lemma_shift_zero(*body, cutoff + 1);
        }
        _ => {}
    }
}

/// Shifting a sequence of terms by zero is the identity.
pub proof fn lemma_shift_zero_list(es: Seq<Term>, cutoff: int)
    ensures
        shifted_list(es, cutoff, 0) == es,
    decreases es,
{
    if es.len() > 0 {
        lemma_shift_zero(es[0], cutoff);
        lemma_shift_zero_list(es.drop_first(), cutoff);
        assert(shifted_list(es, cutoff, 0) =~= es);
    } else {
        assert(shifted_list(es, cutoff, 0) =~= es);
    }
}

/// A term closed under a cutoff is closed under every larger cutoff.
pub proof fn lemma_closed_monotonic(t: Term, c: int, c2: int)
    requires
        closed_under(t, c),
        c <= c2,
    ensures
        closed_under(t, c2),
    decreases t,
{
    match t {
        Term::App(es) => {
            assert forall|i: int| 0 <= i < es.len() implies closed_under(
                #[trigger] es[i],
                c2,
            ) by {
                lemma_closed_monotonic(es[i], c, c2);
            }
        }
        Term::Abs(body) => {
            lemma_closed_monotonic(*body, c + 1, c2 + 1);
        }
        _ => {}
    }
}

/// Canonicalizing twice gives the same term as canonicalizing once.
pub proof fn lemma_simplified_idempotent(t: Term)
    ensures
        simplified(simplified(t)) == simplified(t),
    decreases t,
{
    match t {
        Term::App(es) => {
            if es.len() == 1 {
                lemma_simplified_idempotent(es[0]);
            } else {
                lemma_simplified_list_len(es);
                let once = simplified_list(es);
                assert forall|i: int| 0 <= i < once.len() implies #[trigger] simplified_list(
                    once,
                )[i] == once[i] by {
                    lemma_simplified_list_index(es, i);
                    lemma_simplified_list_index(once, i);
                    lemma_simplified_idempotent(es[i]);
                }
                lemma_simplified_list_len(once);
                assert(simplified_list(once) =~= once);
            }
        }
        Term::Abs(body) => {
            lemma_simplified_idempotent(*body);
        }
        _ => {}
    }
}

/// Canonicalization establishes the no-singleton invariant: after it,
/// no application of exactly one element remains anywhere in the term.
pub proof fn lemma_simplified_canonical(t: Term)
    ensures
        no_singleton_app(simplified(t)),
    decreases t,
{
    match t {
        Term::App(es) => {
            if es.len() == 1 {
                lemma_simplified_canonical(es[0]);
            } else {
                lemma_simplified_list_len(es);
                assert forall|i: int| 0 <= i < simplified_list(es).len() implies no_singleton_app(
                    #[trigger] simplified_list(es)[i],
                ) by {
                    lemma_simplified_list_index(es, i);
                    lemma_simplified_canonical(es[i]);
                }
            }
        }
        Term::Abs(body) => {
            lemma_simplified_canonical(*body);
        }
        _ => {}
    }
}

/// A numeral body holds no abstraction, so it contributes no head
/// positions.
pub proof fn lemma_church_body_no_heads(n: nat, pos: Seq<usize>, j: int)
    ensures
        head_positions_list(church_body(n), j, pos) == Seq::<Seq<usize>>::empty(),
    decreases n, church_body(n).len() - j,
{
    let cb = church_body(n);
    if 0 <= j < cb.len() {
        assert(head_positions_list(cb, j, pos) == head_positions(cb[j], pos.push(j as usize), true)
            + head_positions_list(cb, j + 1, pos));
        if n >= 2 && j == 1 {
            lemma_church_body_no_heads((n - 1) as nat, pos.push(1usize), 0);
            assert(head_positions(cb[j], pos.push(1usize), true) == Seq::<Seq<usize>>::empty());
        } else {
            assert(cb[j] is Var);
        }
        lemma_church_body_no_heads(n, pos, j + 1);
        assert(head_positions_list(cb, j, pos) =~= Seq::<Seq<usize>>::empty());
    }
}

/// The encoding of a natural number is already in normal form: redex
/// discovery on it returns nothing, so reducing it changes nothing.
pub proof fn lemma_number_normal_form(n: nat)
    ensures
        discovered(church(n)) == Seq::<(u32, Seq<usize>)>::empty(),
{
    let t = church(n);
    let body_app = Term::App(church_body(n));
    let inner_abs = Term::Abs(Box::new(body_app));
    let wrapped = Term::Abs(Box::new(inner_abs));
    let pos0 = seq![0usize];
    lemma_church_body_no_heads(n, pos0, 0);
    assert(head_positions(body_app, pos0, false) == Seq::<Seq<usize>>::empty());
    assert(head_positions(inner_abs, pos0, false) =~= Seq::<Seq<usize>>::empty());
    assert(head_positions(wrapped, pos0, true) =~= seq![pos0]);
    assert(Seq::<usize>::empty().push(0usize) =~= pos0);
    assert(head_positions_list(seq![wrapped], 1, Seq::empty()) == Seq::<Seq<usize>>::empty());
    assert(head_positions_list(seq![wrapped], 0, Seq::empty()) =~= seq![pos0]);
    assert(head_positions(t, Seq::empty(), false) =~= seq![pos0]);
    assert(seq![wrapped][0] == wrapped);
    assert(search(wrapped, pos0, 1, 0) == Search::NeedArg(0));
    assert(search(t, pos0, 0, 0) == Search::NeedArg(0));
    assert(!redex_at(t, pos0));
    assert(reducible_from(t, seq![pos0], 1) == Seq::<(u32, Seq<usize>)>::empty());
    assert(reducible_from(t, seq![pos0], 0) =~= Seq::<(u32, Seq<usize>)>::empty());
}

/// A term closed under `c` stays closed under `c + amount` after a
/// shift by a nonnegative `amount`, whatever the cutoff.
pub proof fn lemma_shifted_closed(t: Term, d: int, c: int, amount: int)
    requires
        0 <= amount,
        closed_under(t, c),
    ensures
        closed_under(shifted(t, d, amount), c + amount),
    decreases t,
{
    match t {
        Term::App(es) => {
            lemma_shifted_list_len(es, d, amount);
            assert forall|i: int| 0 <= i < es.len() implies closed_under(
                #[trigger] shifted_list(es, d, amount)[i],
                c + amount,
            ) by {
                lemma_shifted_list_index(es, d, amount, i);
                lemma_shifted_closed(es[i], d, c, amount);
            }
        }
        Term::Abs(body) => {
            lemma_shifted_closed(*body, d + 1, c + 1, amount);
        }
        _ => {}
    }
}

/// Substituting a term closed under `c` for the binder at `d` of a body
/// closed under `d + 1 + c` yields a term closed under `d + c`.
pub proof fn lemma_substituted_closed(t: Term, d: int, v: Term, c: int)
    requires
        0 <= d,
        0 <= c,
        closed_under(t, d + 1 + c),
        closed_under(v, c),
    ensures
        closed_under(substituted(t, d, v), d + c),
    decreases t,
{
    match t {
        Term::App(es) => {
            lemma_substituted_list_len(es, d, v);
            assert forall|i: int| 0 <= i < es.len() implies closed_under(
                #[trigger] substituted_list(es, d, v)[i],
                d + c,
            ) by {
                lemma_substituted_list_index(es, d, v, i);
                lemma_substituted_closed(es[i], d, v, c);
            }
        }
        Term::Abs(body) => {
            lemma_substituted_closed(*body, d + 1, v, c);
        }
        Term::Var(id) => {
            if id == d {
                lemma_shifted_closed(v, 0, c, d);
            }
        }
        _ => {}
    }
}

/// Canonicalization keeps a term closed under its cutoff.
pub proof fn lemma_simplified_closed(t: Term, c: int)
    requires
        closed_under(t, c),
    ensures
        closed_under(simplified(t), c),
    decreases t,
{
    match t {
        Term::App(es) => {
            if es.len() == 1 {
                assert(closed_under(es[0], c));
                lemma_simplified_closed(es[0], c);
            } else {
                lemma_simplified_list_len(es);
                assert forall|i: int| 0 <= i < es.len() implies closed_under(
                    #[trigger] simplified_list(es)[i],
                    c,
                ) by {
                    lemma_simplified_list_index(es, i);
                    lemma_simplified_closed(es[i], c);
                }
            }
        }
        Term::Abs(body) => {
            lemma_simplified_closed(*body, c + 1);
        }
        _ => {}
    }
}

/// Carrying an argument that is closed under the target's binder depth
/// down to the abstraction keeps the subtree closed under its own
/// cutoff.
pub proof fn lemma_carried_closed(t: Term, path: Seq<usize>, k: int, arg: Term, dcut: int)
    requires
        0 <= dcut,
        closed_under(t, dcut),
        search(t, path, k, dcut) is NeedArg,
        closed_under(arg, search(t, path, k, dcut)->NeedArg_0),
    ensures
        closed_under(carried(t, path, k, arg), dcut),
    decreases t,
{
    if k >= path.len() {
        match t {
            Term::Abs(body) => {
                lemma_substituted_closed(*body, 0, arg, dcut);
                lemma_simplified_closed(substituted(*body, 0, arg), dcut);
            }
            _ => {}
        }
    } else {
        match t {
            Term::App(es) => {
                let i = path[k] as int;
                assert(i < es.len());
                lemma_carried_closed(es[i], path, k + 1, arg, dcut);
                let es2 = es.update(i, carried(es[i], path, k + 1, arg));
                assert forall|j: int| 0 <= j < es2.len() implies closed_under(
                    #[trigger] es2[j],
                    dcut,
                ) by {
                    if j != i {
                        assert(es2[j] == es[j]);
                    }
                }
            }
            Term::Abs(body) => {
                assert(false);
            }
            _ => {}
        }
    }
}

/// Rewriting at an accepted redex keeps the term closed under its
/// cutoff: the argument the search accepted is closed under the
/// target's binder depth, so the substitution frees no reference.
pub proof fn lemma_rewritten_closed(t: Term, path: Seq<usize>, k: int, q: int, dcut: int)
    requires
        0 <= dcut,
        closed_under(t, dcut),
        (search(t, path, k, dcut) matches Search::Found(qq, dd) && qq == q),
    ensures
        closed_under(rewritten(t, path, k, q), dcut),
    decreases t,
{
    lemma_search_found_range(t, path, k, dcut);
    match t {
        Term::App(es) => {
            let i = path[k] as int;
            assert(i < es.len());
            if k == q {
                if search(es[i], path, k + 1, dcut) is Found {
                    lemma_search_found_range(es[i], path, k + 1, dcut);
                }
                assert(search(es[i], path, k + 1, dcut) is NeedArg);
                lemma_carried_closed(es[i], path, k + 1, es[i + 1], dcut);
                let es2 = es.remove(i + 1).update(
                    i,
                    carried(es[i], path, k + 1, es[i + 1]),
                );
                es.remove_ensures(i + 1);
                assert forall|j: int| 0 <= j < es2.len() implies closed_under(
                    #[trigger] es2[j],
                    dcut,
                ) by {
                    if j != i {
                        assert(es2[j] == es.remove(i + 1)[j]);
                        if j < i + 1 {
                            assert(es.remove(i + 1)[j] == es[j]);
                        } else {
                            assert(es.remove(i + 1)[j] == es[j + 1]);
                        }
                    }
                }
            } else {
                lemma_rewritten_closed(es[i], path, k + 1, q, dcut);
                let es2 = es.update(i, rewritten(es[i], path, k + 1, q));
                assert forall|j: int| 0 <= j < es2.len() implies closed_under(
                    #[trigger] es2[j],
                    dcut,
                ) by {
                    if j != i {
                        assert(es2[j] == es[j]);
                    }
                }
            }
        }
        Term::Abs(body) => {
            lemma_rewritten_closed(*body, path, k, q, dcut + 1);
        }
        _ => {}
    }
}

/// One reduction step keeps a closed term closed: no dangling reference
/// arises from reducing at a redex.
pub proof fn lemma_reduction_preserves_closed(t: Term, path: Seq<usize>)
    requires
        closed_under(t, 0),
        redex_at(t, path),
    ensures
        closed_under(rewritten(t, path, 0, search(t, path, 0, 0)->Found_0), 0),
{
    lemma_rewritten_closed(t, path, 0, search(t, path, 0, 0)->Found_0, 0);
}

} // verus!
