//! The printer: canonical text for a term, plain or with one node
//! wrapped in terminal color escapes.
//!
//! Applications render as parenthesized, space-separated sequences;
//! abstractions as `name:body` with one letter per depth (`a` at depth
//! 0, `b` at 1, and so on). Running past `z` is a display failure,
//! reported as no text rather than wrapped around. A reference with no
//! matching binder renders as the sentinel `!index!` instead of
//! failing, since such a reference can appear while a reduction is in
//! flight.

use vstd::prelude::*;

use crate::term::term_of;
use crate::term::terms_of;
use crate::term::lemma_terms_of_index;
use crate::term::lemma_terms_of_len;
use crate::term::Expr;
use crate::term::Term;

verus! {

broadcast use vstd::std_specs::vec::group_vec_axioms;

/// The variable letter for a binder depth: `a` for 0 through `z` for
/// 25.
pub open spec fn letter_of(id: int) -> char {
    if id == 0 {
        'a'
    } else if id == 1 {
        'b'
    } else if id == 2 {
        'c'
    } else if id == 3 {
        'd'
    } else if id == 4 {
        'e'
    } else if id == 5 {
        'f'
    } else if id == 6 {
        'g'
    } else if id == 7 {
        'h'
    } else if id == 8 {
        'i'
    } else if id == 9 {
        'j'
    } else if id == 10 {
        'k'
    } else if id == 11 {
        'l'
    } else if id == 12 {
        'm'
    } else if id == 13 {
        'n'
    } else if id == 14 {
        'o'
    } else if id == 15 {
        'p'
    } else if id == 16 {
        'q'
    } else if id == 17 {
        'r'
    } else if id == 18 {
        's'
    } else if id == 19 {
        't'
    } else if id == 20 {
        'u'
    } else if id == 21 {
        'v'
    } else if id == 22 {
        'w'
    } else if id == 23 {
        'x'
    } else if id == 24 {
        'y'
    } else {
        'z'
    }
}

/// Mirrors `letter_of`.
fn letter_exec(id: u32) -> (c: char)
    requires
        id < 26,
    ensures
        c == letter_of(id as int),
{
    match id {
        0 => 'a',
        1 => 'b',
        2 => 'c',
        3 => 'd',
        4 => 'e',
        5 => 'f',
        6 => 'g',
        7 => 'h',
        8 => 'i',
        9 => 'j',
        10 => 'k',
        11 => 'l',
        12 => 'm',
        13 => 'n',
        14 => 'o',
        15 => 'p',
        16 => 'q',
        17 => 'r',
        18 => 's',
        19 => 't',
        20 => 'u',
        21 => 'v',
        22 => 'w',
        23 => 'x',
        24 => 'y',
        _ => 'z',
    }
}

/// The decimal digit character for a value below ten.
pub open spec fn digit_of(d: int) -> char {
    if d == 0 {
        '0'
    } else if d == 1 {
        '1'
    } else if d == 2 {
        '2'
    } else if d == 3 {
        '3'
    } else if d == 4 {
        '4'
    } else if d == 5 {
        '5'
    } else if d == 6 {
        '6'
    } else if d == 7 {
        '7'
    } else if d == 8 {
        '8'
    } else {
        '9'
    }
}

/// The decimal spelling of a natural number, most significant digit
/// first.
pub open spec fn decimal_of(n: nat) -> Seq<char>
    decreases n,
{
    if n < 10 {
        seq![digit_of(n as int)]
    } else {
        decimal_of(n / 10).push(digit_of((n % 10) as int))
    }
}

/// Mirrors `digit_of`.
fn digit_exec(d: u32) -> (c: char)
    requires
        d < 10,
    ensures
        c == digit_of(d as int),
{
    match d {
        0 => '0',
        1 => '1',
        2 => '2',
        3 => '3',
        4 => '4',
        5 => '5',
        6 => '6',
        7 => '7',
        8 => '8',
        _ => '9',
    }
}

/// Mirrors `decimal_of`.
fn decimal_exec(n: u32) -> (r: Vec<char>)
    ensures
        r@ == decimal_of(n as nat),
    decreases n,
{
    if n < 10 {
        let mut r: Vec<char> = Vec::new();
        r.push(digit_exec(n));
        proof {
            assert(r@ =~= seq![digit_of(n as int)]);
        }
        r
    } else {
        let mut r = decimal_exec(n / 10);
        r.push(digit_exec(n % 10));
        r
    }
}

/// The canonical text of a term at a binder depth, or `None` when some
/// abstraction would need a letter past `z`.
pub open spec fn rendered(t: Term, depth: int) -> Option<Seq<char>>
    decreases t, 1int,
{
    match t {
        Term::App(es) => match rendered_from(es, 0, depth) {
            Some(inner) => Some(seq!['('] + inner + seq![')']),
            None => None,
        },
        Term::Abs(body) => if 0 <= depth < 26 {
            match rendered(*body, depth + 1) {
                Some(b) => Some(seq![letter_of(depth), ':'] + b),
                None => None,
            }
        } else {
            None
        },
        Term::Var(id) => {
            let d = depth - id - 1;
            if d >= 0 {
                if d < 26 {
                    Some(seq![letter_of(d)])
                } else {
                    None
                }
            } else {
                Some(seq!['!'] + decimal_of(id as nat) + seq!['!'])
            }
        },
        Term::Atom(name) => Some(seq!['\''] + name),
    }
}

/// The texts of an application's elements from index `j` on, separated
/// by single spaces.
pub open spec fn rendered_from(es: Seq<Term>, j: int, depth: int) -> Option<Seq<char>>
    decreases es, es.len() - j, 0int,
{
    if !(0 <= j < es.len()) {
        Some(Seq::empty())
    } else {
        match rendered(es[j], depth) {
            Some(h) => match rendered_from(es, j + 1, depth) {
                Some(rest) => Some(
                    h + (if j + 1 < es.len() {
                        seq![' ']
                    } else {
                        Seq::empty()
                    }) + rest,
                ),
                None => None,
            },
            None => None,
        }
    }
}

/// Renders a term's text: mirrors `rendered`.
fn render_exec(e: &Expr, depth: u32) -> (r: Option<Vec<char>>)
    ensures
        ({
            match r {
                Some(cs) => rendered(e@, depth as int) == Some(cs@),
                None => rendered(e@, depth as int) is None,
            }
        }),
    decreases e,
{
    broadcast use crate::term::group_terms_of;

    match e {
        Expr::Group(es) => {
            proof {
                lemma_terms_of_len(es@);
            }
            let ghost ts0 = terms_of(es@);
            let mut acc: Vec<char> = Vec::new();
            let mut j: usize = 0;
            while j < es.len()
                invariant
                    j <= es.len(),
                    *e == Expr::Group(*es),
                    ts0 == terms_of(es@),
                    ts0.len() == es@.len(),
                    ({
                        match rendered_from(ts0, j as int, depth as int) {
                            Some(rest) => rendered_from(ts0, 0, depth as int) == Some(
                                acc@ + rest,
                            ),
                            None => rendered_from(ts0, 0, depth as int) is None,
                        }
                    }),
                decreases es.len() - j,
            {
                proof {
                    assert(decreases_to!(*e => es@[j as int])) by {
                        assert(*es == e->Group_0);
                        assert(decreases_to!(*e => e->Group_0));
                        assert(decreases_to!(*es => es@[j as int]));
                    }
                    lemma_terms_of_index(es@, j as int);
                }
                let sub = render_exec(&es[j], depth);
                match sub {
                    Some(mut cs) => {
                        acc.append(&mut cs);
                        if j + 1 < es.len() {
                            acc.push(' ');
                        }
                    }
                    None => {
                        return None;
                    }
                }
                j = j + 1;
            }
            proof {
                assert(rendered_from(ts0, es@.len() as int, depth as int)
                    == Some(Seq::<char>::empty()));
                assert(acc@ + Seq::<char>::empty() =~= acc@);
            }
            let mut out: Vec<char> = Vec::new();
            out.push('(');
            out.append(&mut acc);
            out.push(')');
            proof {
                assert(out@ =~= seq!['('] + rendered_from(ts0, 0, depth as int)->0
                    + seq![')']);
            }
            Some(out)
        }
        Expr::Def(body) => {
            if depth >= 26 {
                return None;
            }
            proof {
                assert(decreases_to!(*e => *e->Def_0));
            }
            match render_exec(body, depth + 1) {
                Some(b) => {
                    let mut out: Vec<char> = Vec::new();
                    out.push(letter_exec(depth));
                    out.push(':');
                    let mut b = b;
                    out.append(&mut b);
                    proof {
                        assert(out@ =~= seq![letter_of(depth as int), ':'] + rendered(
                            term_of(*e->Def_0),
                            depth + 1,
                        )->0);
                    }
                    Some(out)
                }
                None => None,
            }
        }
        Expr::Relative(id) => {
            let idd = *id as u64;
            if idd + 1 <= depth as u64 {
                let d = depth - id - 1;
                if d < 26 {
                    let mut out: Vec<char> = Vec::new();
                    out.push(letter_exec(d));
                    proof {
                        assert(out@ =~= seq![letter_of(d as int)]);
                    }
                    Some(out)
                } else {
                    None
                }
            } else {
                let mut out: Vec<char> = Vec::new();
                out.push('!');
                let mut digits = decimal_exec(*id);
                out.append(&mut digits);
                out.push('!');
                proof {
                    assert(out@ =~= seq!['!'] + decimal_of(*id as nat) + seq!['!']);
                }
                Some(out)
            }
        }
        Expr::Label(name) => {
            let mut out: Vec<char> = Vec::new();
            out.push('\'');
            let mut cs = crate::parser::str_chars(name.as_str());
            out.append(&mut cs);
            proof {
                assert(out@ =~= seq!['\''] + name@);
            }
            Some(out)
        }
    }
}

/// The escape sequence opening a highlight with the given terminal
/// color code.
pub open spec fn esc_open(ansi: Seq<char>) -> Seq<char> {
    seq!['\x1B', '['] + ansi + seq!['m']
}

/// The escape sequence restoring the default foreground and background.
pub open spec fn esc_close() -> Seq<char> {
    seq!['\x1B', '[', '3', '9', 'm', '\x1B', '[', '4', '9', 'm']
}

/// The rest of a target path after descending into child `j` of an
/// application: descent into any other child leaves the target behind.
pub open spec fn path_step(rem: Option<Seq<usize>>, j: int) -> Option<Seq<usize>> {
    match rem {
        Some(p) => if p.len() > 0 && p[0] == j {
            Some(p.drop_first())
        } else {
            None
        },
        None => None,
    }
}

/// The text of a term with the node that the remaining target path
/// names wrapped in color escapes; all other nodes print exactly as the
/// plain renderer prints them. Descending into an abstraction body
/// consumes no path step, matching the discovery and reduction path
/// convention.
pub open spec fn highlighted(
    t: Term,
    depth: int,
    rem: Option<Seq<usize>>,
    ansi: Seq<char>,
) -> Option<Seq<char>>
    decreases t, 1int,
{
    let here = (rem == Some(Seq::<usize>::empty()));
    let core = match t {
        Term::App(es) => match highlighted_from(es, 0, depth, rem, ansi) {
            Some(inner) => Some(seq!['('] + inner + seq![')']),
            None => None,
        },
        Term::Abs(body) => if 0 <= depth < 26 {
            match highlighted(*body, depth + 1, rem, ansi) {
                Some(b) => Some(seq![letter_of(depth), ':'] + b),
                None => None,
            }
        } else {
            None
        },
        _ => rendered(t, depth),
    };
    match core {
        Some(cs) => Some(
            (if here {
                esc_open(ansi)
            } else {
                Seq::empty()
            }) + cs + (if here {
                esc_close()
            } else {
                Seq::empty()
            }),
        ),
        None => None,
    }
}

/// The highlighted texts of an application's elements from index `j`
/// on, separated by single spaces.
pub open spec fn highlighted_from(
    es: Seq<Term>,
    j: int,
    depth: int,
    rem: Option<Seq<usize>>,
    ansi: Seq<char>,
) -> Option<Seq<char>>
    decreases es, es.len() - j, 0int,
{
    if !(0 <= j < es.len()) {
        Some(Seq::empty())
    } else {
        match highlighted(es[j], depth, path_step(rem, j), ansi) {
            Some(h) => match highlighted_from(es, j + 1, depth, rem, ansi) {
                Some(rest) => Some(
                    h + (if j + 1 < es.len() {
                        seq![' ']
                    } else {
                        Seq::empty()
                    }) + rest,
                ),
                None => None,
            },
            None => None,
        }
    }
}

/// The view of an optional remaining path.
pub open spec fn rem_view(rem: Option<&[usize]>) -> Option<Seq<usize>> {
    match rem {
        Some(p) => Some(p@),
        None => None,
    }
}

#[verifier::rlimit(60)]
/// Renders with one node wrapped in color escapes: mirrors
/// `highlighted` with the remaining target path.
fn hl_exec(e: &Expr, depth: u32, rem: Option<&[usize]>, ansi: &str) -> (r: Option<Vec<char>>)
    ensures
        ({
            match r {
                Some(cs) => highlighted(e@, depth as int, rem_view(rem), ansi@) == Some(cs@),
                None => highlighted(e@, depth as int, rem_view(rem), ansi@) is None,
            }
        }),
    decreases e,
{
    broadcast use crate::term::group_terms_of;

    let here = match rem {
        Some(p) => p.len() == 0,
        None => false,
    };
    let core: Option<Vec<char>> = match e {
        Expr::Group(es) => {
            proof {
                lemma_terms_of_len(es@);
            }
            let ghost ts0 = terms_of(es@);
            let mut acc: Vec<char> = Vec::new();
            let mut j: usize = 0;
            let mut failed = false;
            while j < es.len() && !failed
                invariant
                    j <= es.len(),
                    *e == Expr::Group(*es),
                    ts0 == terms_of(es@),
                    ts0.len() == es@.len(),
                    ({
                        if failed {
                            highlighted_from(ts0, 0, depth as int, rem_view(rem), ansi@)
                                is None
                        } else {
                            match highlighted_from(
                                ts0,
                                j as int,
                                depth as int,
                                rem_view(rem),
                                ansi@,
                            ) {
                                Some(rest) => highlighted_from(
                                    ts0,
                                    0,
                                    depth as int,
                                    rem_view(rem),
                                    ansi@,
                                ) == Some(acc@ + rest),
                                None => highlighted_from(
                                    ts0,
                                    0,
                                    depth as int,
                                    rem_view(rem),
                                    ansi@,
                                ) is None,
                            }
                        }
                    }),
                decreases es.len() - j + (if failed {
                    0int
                } else {
                    1int
                }),
            {
                proof {
                    assert(decreases_to!(*e => es@[j as int])) by {
                        assert(*es == e->Group_0);
                        assert(decreases_to!(*e => e->Group_0));
                        assert(decreases_to!(*es => es@[j as int]));
                    }
                    lemma_terms_of_index(es@, j as int);
                }
                let child_rem: Option<&[usize]> = match rem {
                    Some(p) => {
                        if p.len() > 0 && p[0] == j {
                            Some(&p[1..p.len()])
                        } else {
                            None
                        }
                    }
                    None => None,
                };
                proof {
                    match rem {
                        Some(p) => {
                            if p@.len() > 0 && p@[0] == j {
                                assert(rem_view(child_rem)->0 =~= p@.drop_first());
                            }
                        }
                        None => {}
                    }
                    assert(rem_view(child_rem) == path_step(rem_view(rem), j as int));
                }
                let sub = hl_exec(&es[j], depth, child_rem, ansi);
                match sub {
                    Some(mut cs) => {
                        acc.append(&mut cs);
                        if j + 1 < es.len() {
                            acc.push(' ');
                        }
                        j = j + 1;
                    }
                    None => {
                        failed = true;
                    }
                }
            }
            if failed {
                None
            } else {
                proof {
                    assert(highlighted_from(
                        ts0,
                        es@.len() as int,
                        depth as int,
                        rem_view(rem),
                        ansi@,
                    ) == Some(Seq::<char>::empty()));
                    assert(acc@ + Seq::<char>::empty() =~= acc@);
                }
                let mut out: Vec<char> = Vec::new();
                out.push('(');
                out.append(&mut acc);
                out.push(')');
                proof {
                    assert(out@ =~= seq!['('] + highlighted_from(
                        ts0,
                        0,
                        depth as int,
                        rem_view(rem),
                        ansi@,
                    )->0 + seq![')']);
                }
                Some(out)
            }
        }
        Expr::Def(body) => {
            if depth >= 26 {
                None
            } else {
                proof {
                    assert(decreases_to!(*e => *e->Def_0));
                }
                match hl_exec(body, depth + 1, rem, ansi) {
                    Some(b) => {
                        let mut out: Vec<char> = Vec::new();
                        out.push(letter_exec(depth));
                        out.push(':');
                        let mut b = b;
                        out.append(&mut b);
                        proof {
                            assert(out@ =~= seq![letter_of(depth as int), ':'] + highlighted(
                                term_of(*e->Def_0),
                                depth + 1,
                                rem_view(rem),
                                ansi@,
                            )->0);
                        }
                        Some(out)
                    }
                    None => None,
                }
            }
        }
        _ => {
            proof {
                crate::term::lemma_view_variant(*e);
            }
            render_exec(e, depth)
        },
    };
    match core {
        Some(cs) => {
            let ghost cs0 = cs@;
            if here {
                proof {
                    match rem {
                        Some(p) => {
                            assert(p@ =~= Seq::<usize>::empty());
                        }
                        None => {}
                    }
                    assert(rem_view(rem) == Some(Seq::<usize>::empty()));
                }
                let mut out: Vec<char> = Vec::new();
                out.push('\x1B');
                out.push('[');
                let mut code = crate::parser::str_chars(ansi);
                out.append(&mut code);
                out.push('m');
                let mut cs = cs;
                out.append(&mut cs);
                out.push('\x1B');
                out.push('[');
                out.push('3');
                out.push('9');
                out.push('m');
                out.push('\x1B');
                out.push('[');
                out.push('4');
                out.push('9');
                out.push('m');
                proof {
                    assert(out@ =~= esc_open(ansi@) + cs0 + esc_close());
                }
                Some(out)
            } else {
                proof {
                    match rem {
                        Some(p) => {
                            if p@.len() == 0 {
                                assert(p@ =~= Seq::<usize>::empty());
                            }
                        }
                        None => {}
                    }
                    assert(rem_view(rem) != Some(Seq::<usize>::empty()));
                    assert(Seq::<char>::empty() + cs0 + Seq::<char>::empty() =~= cs0);
                }
                Some(cs)
            }
        }
        None => None,
    }
}

impl Expr {
    /// The canonical text of `self`, rendered at binder depth `depth`,
    /// or `None` when an abstraction would need a letter past `z`.
    pub fn format(&self, depth: u32) -> (r: Option<String>)
        ensures
            ({
                match r {
                    Some(s) => rendered(self@, depth as int) == Some(s@),
                    None => rendered(self@, depth as int) is None,
                }
            }),
    {
        match render_exec(self, depth) {
            Some(cs) => Some(crate::parser::chars_to_string(&cs)),
            None => None,
        }
    }

    /// The canonical text of `self` with the node that `at` names
    /// (matched by the discovery and reduction path convention) wrapped
    /// in the given terminal color escape; every other node prints as
    /// `format` prints it. `None` when an abstraction would need a
    /// letter past `z`.
    pub fn format_highlightd(&self, depth: u32, at: &[usize], ansi_color: &str) -> (r:
        Option<String>)
        ensures
            ({
                match r {
                    Some(s) => highlighted(self@, depth as int, Some(at@), ansi_color@)
                        == Some(s@),
                    None => highlighted(self@, depth as int, Some(at@), ansi_color@) is None,
                }
            }),
    {
        match hl_exec(self, depth, Some(at), ansi_color) {
            Some(cs) => Some(crate::parser::chars_to_string(&cs)),
            None => None,
        }
    }
}

} // verus!
