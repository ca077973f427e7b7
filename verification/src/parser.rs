//! The parser: text to term.
//!
//! Grammar: a term is `(` term* `)` (an application), `name:` term (an
//! abstraction binding `name`), a bare `name` (resolved against the
//! binder scope), or `'name` (an atom, read verbatim until whitespace or
//! a parenthesis). Whitespace only terminates names. A bare name that no
//! enclosing binder introduced is a hard failure: no term is produced.

use vstd::prelude::*;

use crate::term::term_of;
use crate::term::terms_of;
use crate::term::lemma_terms_of_index;
use crate::term::lemma_terms_of_len;
use crate::term::Expr;
use crate::term::Term;
use vstd::string::StrSliceExecFns;

verus! {

broadcast use vstd::std_specs::vec::group_vec_axioms;

/// What `char::is_whitespace` returns: a function of the character
/// alone.
pub uninterp spec fn whitespace_char(c: char) -> bool;

/// Relies on `char::is_whitespace`: whether the character has the
/// Unicode `White_Space` property; the result depends on the character
/// alone. Its documentation lists space, tab, carriage return and line
/// feed among the whitespace characters, and the property excludes
/// letters, digits and punctuation such as the grammar's delimiters.
#[verifier::external_body]
fn is_whitespace_char(c: char) -> (r: bool)
    ensures
        r == whitespace_char(c),
        (c == ' ' || c == '\t' || c == '\n' || c == '\r') ==> r,
        (('a' <= c <= 'z') || ('A' <= c <= 'Z') || ('0' <= c <= '9') || c == ':' || c == '('
            || c == ')' || c == '\'' || c == '!') ==> !r,
{
    c.is_whitespace()
}

/// What `char::is_alphabetic` returns: a function of the character
/// alone.
pub uninterp spec fn alphabetic_char(c: char) -> bool;

/// Relies on `char::is_alphabetic`: whether the character has the
/// Unicode `Alphabetic` property; the result depends on the character
/// alone. Its documentation gives that ASCII letters are alphabetic and
/// that digits, whitespace and punctuation such as the grammar's
/// delimiters are not.
#[verifier::external_body]
fn is_alphabetic_char(c: char) -> (r: bool)
    ensures
        r == alphabetic_char(c),
        (('a' <= c <= 'z') || ('A' <= c <= 'Z')) ==> r,
        (('0' <= c <= '9') || c == ':' || c == '(' || c == ')' || c == '\'' || c == ' '
            || c == '\t' || c == '\n' || c == '\r' || c == '!') ==> !r,
{
    c.is_alphabetic()
}

/// The characters of a string slice, in order.
pub(crate) fn str_chars(s: &str) -> (r: Vec<char>)
    ensures
        r@ == s@,
{
    let n = s.unicode_len();
    let mut r: Vec<char> = Vec::new();
    let mut i: usize = 0;
    while i < n
        invariant
            i <= n,
            n == s@.len(),
            r@ =~= s@.subrange(0, i as int),
        decreases n - i,
    {
        r.push(s.get_char(i));
        i = i + 1;
    }
    proof {
        assert(r@ =~= s@);
    }
    r
}

/// Relies on `String`'s construction from an iterator of characters
/// (`FromIterator`): the result holds exactly the given characters, in
/// order.
#[verifier::external_body]
pub(crate) fn chars_to_string(v: &Vec<char>) -> (r: String)
    ensures
        r@ == v@,
{
    v.iter().collect()
}

/// A copy of a character vector with the same view.
fn copy_chars(v: &Vec<char>) -> (r: Vec<char>)
    ensures
        r@ == v@,
{
    let mut r: Vec<char> = Vec::new();
    let mut i: usize = 0;
    while i < v.len()
        invariant
            i <= v.len(),
            r@ =~= v@.subrange(0, i as int),
        decreases v.len() - i,
    {
        r.push(v[i]);
        i = i + 1;
    }
    proof {
        assert(r@ =~= v@);
    }
    r
}

/// Whether two character vectors hold the same characters.
fn eq_chars(a: &Vec<char>, b: &Vec<char>) -> (r: bool)
    ensures
        r == (a@ == b@),
{
    if a.len() != b.len() {
        return false;
    }
    let mut i: usize = 0;
    while i < a.len()
        invariant
            i <= a.len(),
            a@.len() == b@.len(),
            forall|k: int| 0 <= k < i ==> a@[k] == b@[k],
        decreases a.len() - i,
    {
        if a[i] != b[i] {
            return false;
        }
        i = i + 1;
    }
    proof {
        assert(a@ =~= b@);
    }
    true
}

/// How a name scan ends: at a colon (a binder) or otherwise (a bare
/// name to resolve), with the gathered name and the next index.
pub enum ScanEnd {
    Binder(Seq<char>, int),
    Name(Seq<char>, int),
}

/// Scans a name from `i`: alphabetic characters extend the name, other
/// characters are consumed and skipped, whitespace ends it (consumed), a
/// parenthesis ends it (not consumed), a colon makes it a binder, and
/// the end of input ends it.
pub open spec fn scan_name(s: Seq<char>, i: int, acc: Seq<char>) -> ScanEnd
    decreases s.len() - i,
{
    if !(0 <= i < s.len()) {
        ScanEnd::Name(acc, if i < 0 {
            i
        } else {
            s.len() as int
        })
    } else {
        let c = s[i];
        if whitespace_char(c) {
            ScanEnd::Name(acc, i + 1)
        } else if c == ':' {
            ScanEnd::Binder(acc, i + 1)
        } else if c == ')' || c == '(' {
            ScanEnd::Name(acc, i)
        } else if alphabetic_char(c) {
            scan_name(s, i + 1, acc.push(c))
        } else {
            scan_name(s, i + 1, acc)
        }
    }
}

/// Scans an atom name from `i`: every character extends the name until
/// whitespace (consumed), a parenthesis (not consumed), or the end.
pub open spec fn scan_label(s: Seq<char>, i: int, acc: Seq<char>) -> (Seq<char>, int)
    decreases s.len() - i,
{
    if !(0 <= i < s.len()) {
        (acc, if i < 0 {
            i
        } else {
            s.len() as int
        })
    } else {
        let c = s[i];
        if whitespace_char(c) {
            (acc, i + 1)
        } else if c == ')' || c == '(' {
            (acc, i)
        } else {
            scan_label(s, i + 1, acc.push(c))
        }
    }
}

/// The executable shape of `ScanEnd`.
enum ScanOut {
    Binder(Vec<char>, usize),
    Name(Vec<char>, usize),
}

/// Mirrors `scan_name`, with the bounds on the returned index.
fn scan_name_exec(s: &Vec<char>, i: usize, acc: Vec<char>) -> (r: ScanOut)
    requires
        i <= s@.len(),
    ensures
        ({
            match r {
                ScanOut::Binder(name, j) => scan_name(s@, i as int, acc@) == ScanEnd::Binder(
                    name@,
                    j as int,
                ) && i < j <= s@.len(),
                ScanOut::Name(name, j) => scan_name(s@, i as int, acc@) == ScanEnd::Name(
                    name@,
                    j as int,
                ) && i <= j <= s@.len(),
            }
        }),
    decreases s@.len() - i,
{
    if i == s.len() {
        ScanOut::Name(acc, i)
    } else {
        let c = s[i];
        if is_whitespace_char(c) {
            ScanOut::Name(acc, i + 1)
        } else if c == ':' {
            ScanOut::Binder(acc, i + 1)
        } else if c == ')' || c == '(' {
            ScanOut::Name(acc, i)
        } else if is_alphabetic_char(c) {
            let mut acc = acc;
            acc.push(c);
            scan_name_exec(s, i + 1, acc)
        } else {
            scan_name_exec(s, i + 1, acc)
        }
    }
}

/// The binder scope: name and de Bruijn depth of each enclosing binder,
/// outermost first.
pub open spec fn scope_of(sc: Seq<(Vec<char>, u32)>) -> Seq<(Seq<char>, u32)> {
    Seq::new(sc.len(), |i: int| (sc[i].0@, sc[i].1))
}

/// Every stored depth grows by one when a new binder is entered.
pub open spec fn scope_shifted(sc: Seq<(Seq<char>, u32)>) -> Seq<(Seq<char>, u32)> {
    Seq::new(sc.len(), |i: int| (sc[i].0, (sc[i].1 + 1) as u32))
}

/// The innermost scope entry whose name matches, if any: its stored
/// depth is the de Bruijn index of the reference.
pub open spec fn scope_lookup(sc: Seq<(Seq<char>, u32)>, name: Seq<char>) -> Option<u32>
    decreases sc,
{
    if sc.len() == 0 {
        None
    } else if sc.last().0 == name {
        Some(sc.last().1)
    } else {
        scope_lookup(sc.drop_last(), name)
    }
}

/// All stored depths lie below `i`.
pub open spec fn scope_bounded(sc: Seq<(Seq<char>, u32)>, i: int) -> bool {
    forall|k: int| 0 <= k < sc.len() ==> (#[trigger] sc[k].1) < i
}

/// The innermost scope entry whose name matches, if any.
fn lookup_exec(sc: &Vec<(Vec<char>, u32)>, name: &Vec<char>) -> (r: Option<u32>)
    ensures
        r == scope_lookup(scope_of(sc@), name@),
{
    proof {
        assert(scope_of(sc@).subrange(0, sc@.len() as int) =~= scope_of(sc@));
    }
    let mut k: usize = sc.len();
    loop
        invariant
            k <= sc@.len(),
            scope_lookup(scope_of(sc@), name@) == scope_lookup(
                scope_of(sc@).subrange(0, k as int),
                name@,
            ),
        decreases k,
    {
        if k == 0 {
            proof {
                assert(scope_of(sc@).subrange(0, 0) =~= Seq::<(Seq<char>, u32)>::empty());
            }
            return None;
        }
        k = k - 1;
        proof {
            let pre = scope_of(sc@).subrange(0, k + 1);
            assert(pre.last() == scope_of(sc@)[k as int]);
            assert(pre.drop_last() =~= scope_of(sc@).subrange(0, k as int));
        }
        if eq_chars(&sc[k].0, name) {
            return Some(sc[k].1);
        }
    }
}

/// How one attempt to parse a term ends.
pub enum Parsed {
    /// A term, and the index just after it.
    Term(Term, int),
    /// A closing parenthesis stood where a term would begin; the index
    /// is just after it.
    Closed(int),
    /// The input ended where a term would begin.
    Ended,
    /// Malformed input or an unbound name: no term is produced. The
    /// index is the position of the offending input: the start of an
    /// unbound name or of an unusable character, a closing parenthesis
    /// or end of input where an abstraction body should stand, or the
    /// end of input inside an unterminated application.
    Failed(int),
}

/// Parses one term of `s` at `i` under the binder scope `sc`.
pub open spec fn parse_term(s: Seq<char>, i: int, sc: Seq<(Seq<char>, u32)>) -> Parsed
    decreases s.len() - i, 0int,
{
    if !(0 <= i < s.len()) {
        Parsed::Ended
    } else {
        let c = s[i];
        if whitespace_char(c) {
            parse_term(s, i + 1, sc)
        } else if c == '\'' {
            let (name, j) = scan_label(s, i + 1, Seq::empty());
            Parsed::Term(Term::Atom(name), j)
        } else if alphabetic_char(c) {
            match scan_name(s, i + 1, seq![c]) {
                ScanEnd::Binder(name, j) => {
                    if i < j <= s.len() {
                        match parse_term(s, j, scope_shifted(sc).push((name, 0u32))) {
                            Parsed::Term(body, j2) => Parsed::Term(
                                Term::Abs(Box::new(body)),
                                j2,
                            ),
                            Parsed::Closed(j2) => Parsed::Failed(j2 - 1),
                            Parsed::Ended => Parsed::Failed(s.len() as int),
                            Parsed::Failed(ix) => Parsed::Failed(ix),
                        }
                    } else {
                        Parsed::Failed(j)
                    }
                }
                ScanEnd::Name(name, j) => match scope_lookup(sc, name) {
                    Some(depth) => Parsed::Term(Term::Var(depth), j),
                    None => Parsed::Failed(i),
                },
            }
        } else if c == ')' {
            Parsed::Closed(i + 1)
        } else if c == '(' {
            parse_group(s, i + 1, sc, Seq::empty())
        } else {
            Parsed::Failed(i)
        }
    }
}

/// Parses the elements of an application until its closing parenthesis.
/// The input ending before the parenthesis is a failure: the
/// application is unterminated.
pub open spec fn parse_group(
    s: Seq<char>,
    i: int,
    sc: Seq<(Seq<char>, u32)>,
    acc: Seq<Term>,
) -> Parsed
    decreases s.len() - i, 1int,
{
    if !(0 <= i <= s.len()) {
        Parsed::Failed(i)
    } else {
        match parse_term(s, i, sc) {
            Parsed::Term(t, j) => if i < j <= s.len() {
                parse_group(s, j, sc, acc.push(t))
            } else {
                Parsed::Failed(j)
            },
            Parsed::Closed(j) => Parsed::Term(Term::App(acc), j),
            Parsed::Ended => Parsed::Failed(s.len() as int),
            Parsed::Failed(ix) => Parsed::Failed(ix),
        }
    }
}

/// What parsing a whole line yields: the first term of the text, if the
/// text holds one; what follows it is ignored.
pub open spec fn parsed(s: Seq<char>) -> Option<Term> {
    match parse_term(s, 0, Seq::empty()) {
        Parsed::Term(t, j) => Some(t),
        _ => None,
    }
}

/// The executable shape of `Parsed`.
enum Step {
    Term(Expr, usize),
    Closed(usize),
    End,
    Fail(usize),
}

/// Parses one term: mirrors `parse_term` under the scope's view.
fn parse_term_exec(s: &Vec<char>, i: usize, sc: &Vec<(Vec<char>, u32)>) -> (r: Step)
    requires
        s@.len() <= u32::MAX,
        i <= s@.len(),
        scope_bounded(scope_of(sc@), i as int),
    ensures
        ({
            let p = parse_term(s@, i as int, scope_of(sc@));
            match r {
                Step::Term(e, j) => p == Parsed::Term(e@, j as int) && i < j <= s@.len(),
                Step::Closed(j) => p == Parsed::Closed(j as int) && i < j <= s@.len(),
                Step::End => p is Ended,
                Step::Fail(ix) => p == Parsed::Failed(ix as int),
            }
        }),
    decreases s@.len() - i, 0int,
{
    broadcast use crate::term::group_terms_of;

    if i == s.len() {
        Step::End
    } else {
        let c = s[i];
        if is_whitespace_char(c) {
            parse_term_exec(s, i + 1, sc)
        } else if c == '\'' {
            let acc: Vec<char> = Vec::new();
            let (name, j) = scan_label_exec(s, i + 1, acc);
            let text = chars_to_string(&name);
            Step::Term(Expr::Label(text), j)
        } else if is_alphabetic_char(c) {
            let mut acc: Vec<char> = Vec::new();
            acc.push(c);
            proof {
                assert(acc@ =~= seq![c]);
            }
            match scan_name_exec(s, i + 1, acc) {
                ScanOut::Binder(name, j) => {
                    let mut sc2: Vec<(Vec<char>, u32)> = Vec::new();
                    let mut k: usize = 0;
                    while k < sc.len()
                        invariant
                            k <= sc@.len(),
                            i < j <= s@.len(),
                            s@.len() <= u32::MAX,
                            scope_bounded(scope_of(sc@), i as int),
                            i as int + 1 < j,
                            sc2@.len() == k,
                            forall|m: int|
                                0 <= m < k ==> (#[trigger] sc2@[m]).0@ == sc@[m].0@ && sc2@[m].1
                                    == sc@[m].1 + 1,
                        decreases sc@.len() - k,
                    {
                        let entry_name = copy_chars(&sc[k].0);
                        let entry_depth = sc[k].1;
                        proof {
                            assert(scope_of(sc@)[k as int].1 == sc@[k as int].1);
                            assert(sc@[k as int].1 < i as int);
                        }
                        sc2.push((entry_name, entry_depth + 1));
                        k = k + 1;
                    }
                    sc2.push((name, 0));
                    proof {
                        assert(scope_of(sc2@) =~= scope_shifted(scope_of(sc@)).push(
                            (scan_name(s@, i + 1, seq![c])->Binder_0, 0u32),
                        ));
                    }
                    match parse_term_exec(s, j, &sc2) {
                        Step::Term(body, j2) => Step::Term(Expr::Def(Box::new(body)), j2),
                        Step::Closed(j2) => Step::Fail(j2 - 1),
                        Step::End => Step::Fail(s.len()),
                        Step::Fail(ix) => Step::Fail(ix),
                    }
                }
                ScanOut::Name(name, j) => {
                    match lookup_exec(sc, &name) {
                        Some(depth) => Step::Term(Expr::Relative(depth), j),
                        None => Step::Fail(i),
                    }
                }
            }
        } else if c == ')' {
            Step::Closed(i + 1)
        } else if c == '(' {
            let mut elems: Vec<Expr> = Vec::new();
            let mut idx = i + 1;
            let ghost sc_spec = scope_of(sc@);
            proof {
                assert(parse_term(s@, i as int, sc_spec) == parse_group(
                    s@,
                    i + 1,
                    sc_spec,
                    Seq::empty(),
                ));
            }
            loop
                invariant
                    i as int + 1 <= idx as int <= s@.len(),
                    i < s@.len(),
                    s@.len() <= u32::MAX,
                    sc_spec == scope_of(sc@),
                    scope_bounded(sc_spec, idx as int),
                    parse_term(s@, i as int, sc_spec) == parse_group(
                        s@,
                        i + 1,
                        sc_spec,
                        Seq::empty(),
                    ),
                    parse_group(s@, i + 1, sc_spec, Seq::empty()) == parse_group(
                        s@,
                        idx as int,
                        sc_spec,
                        terms_of(elems@),
                    ),
                decreases s@.len() - idx,
            {
                match parse_term_exec(s, idx, sc) {
                    Step::Term(e, j) => {
                        let ghost prev = elems@;
                        let ghost pre = terms_of(elems@);
                        elems.push(e);
                        proof {
                            lemma_terms_of_len(elems@);
                            lemma_terms_of_len(prev);
                            assert forall|m: int| 0 <= m < elems@.len() implies
                                #[trigger] terms_of(elems@)[m] == pre.push(e@)[m] by {
                                lemma_terms_of_index(elems@, m);
                                if m < pre.len() {
                                    assert(elems@[m] == prev[m]);
                                    lemma_terms_of_index(prev, m);
                                } else {
                                    assert(elems@[m] == e);
                                }
                            }
                            assert(terms_of(elems@) =~= pre.push(e@));
                        }
                        idx = j;
                    }
                    Step::Closed(j) => {
                        return Step::Term(Expr::Group(elems), j);
                    }
                    Step::End => {
                        return Step::Fail(s.len());
                    }
                    Step::Fail(ix) => {
                        return Step::Fail(ix);
                    }
                }
            }
        } else {
            Step::Fail(i)
        }
    }
}

impl Expr {
    /// Parses `text` into the term it spells, or `None` when the text is
    /// malformed or a bare name is not bound by an enclosing binder.
    /// Text after the first complete term is ignored.
    pub fn parse(text: &str) -> (r: Option<Self>)
        requires
            text@.len() <= u32::MAX,
        ensures
            (r is Some) == (parsed(text@) is Some),
            (r matches Some(e) ==> parsed(text@) == Some(e@)),
    {
        let cs = str_chars(text);
        let sc: Vec<(Vec<char>, u32)> = Vec::new();
        proof {
            assert(scope_of(sc@) =~= Seq::<(Seq<char>, u32)>::empty());
        }
        match parse_term_exec(&cs, 0, &sc) {
            Step::Term(e, _) => Some(e),
            _ => None,
        }
    }

    /// Like `parse`, but a failure carries the character index of the
    /// offending input (see `parse_fault`), so that a caller can show a
    /// positioned diagnostic.
    pub fn parse_located(text: &str) -> (r: Result<Self, usize>)
        requires
            text@.len() <= u32::MAX,
        ensures
            (r is Ok) == (parsed(text@) is Some),
            (r matches Ok(e) ==> parsed(text@) == Some(e@)),
            (r matches Err(ix) ==> ix == parse_fault(text@)),
    {
        let cs = str_chars(text);
        let sc: Vec<(Vec<char>, u32)> = Vec::new();
        proof {
            assert(scope_of(sc@) =~= Seq::<(Seq<char>, u32)>::empty());
        }
        match parse_term_exec(&cs, 0, &sc) {
            Step::Term(e, _) => Ok(e),
            Step::Closed(j) => Err(j - 1),
            Step::End => Err(cs.len()),
            Step::Fail(ix) => Err(ix),
        }
    }
}

/// The character index reported when a parse of the whole text fails:
/// the position a failure records, the position of a closing
/// parenthesis standing where the term would begin, or the input's
/// length when the input ends too early.
pub open spec fn parse_fault(s: Seq<char>) -> int {
    match parse_term(s, 0, Seq::empty()) {
        Parsed::Failed(ix) => ix,
        Parsed::Closed(j) => j - 1,
        _ => s.len() as int,
    }
}

/// A successful lookup returns the depth of some scope entry.
pub proof fn lemma_lookup_capped(sc: Seq<(Seq<char>, u32)>, name: Seq<char>, b: int)
    requires
        forall|k: int| 0 <= k < sc.len() ==> (#[trigger] sc[k].1) < b,
        scope_lookup(sc, name) is Some,
    ensures
        scope_lookup(sc, name)->0 < b,
    decreases sc,
{
    if sc.len() > 0 && sc.last().0 != name {
        lemma_lookup_capped(sc.drop_last(), name, b);
    }
}

/// A term parsed under a scope whose depths all lie below `b` is closed
/// under `b`: it holds no dangling reference.
pub proof fn lemma_parse_term_closed(
    s: Seq<char>,
    i: int,
    sc: Seq<(Seq<char>, u32)>,
    b: int,
)
    requires
        0 <= b,
        forall|k: int| 0 <= k < sc.len() ==> (#[trigger] sc[k].1) < b,
        parse_term(s, i, sc) is Term,
    ensures
        crate::term::closed_under(parse_term(s, i, sc)->Term_0, b),
    decreases s.len() - i, 0int,
{
    if 0 <= i < s.len() {
        let c = s[i];
        if whitespace_char(c) {
            lemma_parse_term_closed(s, i + 1, sc, b);
        } else if c == '\'' {
        } else if alphabetic_char(c) {
            match scan_name(s, i + 1, seq![c]) {
                ScanEnd::Binder(name, j) => {
                    if i < j <= s.len() {
                        let sc2 = scope_shifted(sc).push((name, 0u32));
                        assert forall|k: int| 0 <= k < sc2.len() implies (#[trigger] sc2[k].1)
                            < b + 1 by {
                            if k < sc.len() {
                                assert(sc[k].1 < b);
                            }
                        }
                        lemma_parse_term_closed(s, j, sc2, b + 1);
                    }
                }
                ScanEnd::Name(name, j) => {
                    lemma_lookup_capped(sc, name, b);
                }
            }
        } else if c == ')' {
        } else if c == '(' {
            lemma_parse_group_closed(s, i + 1, sc, Seq::empty(), b);
        }
    }
}

/// The elements parsed for an application stay closed under `b` when the
/// already-gathered ones are.
pub proof fn lemma_parse_group_closed(
    s: Seq<char>,
    i: int,
    sc: Seq<(Seq<char>, u32)>,
    acc: Seq<Term>,
    b: int,
)
    requires
        0 <= b,
        forall|k: int| 0 <= k < sc.len() ==> (#[trigger] sc[k].1) < b,
        forall|k: int| 0 <= k < acc.len() ==> crate::term::closed_under(#[trigger] acc[k], b),
        parse_group(s, i, sc, acc) is Term,
    ensures
        crate::term::closed_under(parse_group(s, i, sc, acc)->Term_0, b),
    decreases s.len() - i, 1int,
{
    if 0 <= i <= s.len() {
        match parse_term(s, i, sc) {
            Parsed::Term(t, j) => {
                if i < j <= s.len() {
                    lemma_parse_term_closed(s, i, sc, b);
                    let acc2 = acc.push(t);
                    assert forall|k: int| 0 <= k < acc2.len() implies crate::term::closed_under(
                        #[trigger] acc2[k],
                        b,
                    ) by {
                        if k < acc.len() {
                            assert(crate::term::closed_under(acc[k], b));
                        }
                    }
                    lemma_parse_group_closed(s, j, sc, acc2, b);
                }
            }
            Parsed::Closed(_) => {
            }
            _ => {}
        }
    }
}

/// A parsed term holds no dangling reference: an unbound bare name
/// always fails the parse, so a term that is produced is closed.
pub proof fn lemma_parsed_closed(s: Seq<char>)
    ensures
        (parsed(s) matches Some(t) ==> crate::term::closed_under(t, 0)),
{
    if parse_term(s, 0, Seq::empty()) is Term {
        lemma_parse_term_closed(s, 0, Seq::empty(), 0);
    }
}

/// Mirrors `scan_label`, with the bounds on the returned index.
fn scan_label_exec(s: &Vec<char>, i: usize, acc: Vec<char>) -> (r: (Vec<char>, usize))
    requires
        i <= s@.len(),
    ensures
        scan_label(s@, i as int, acc@) == (r.0@, r.1 as int),
        i <= r.1 <= s@.len(),
    decreases s@.len() - i,
{
    if i == s.len() {
        (acc, i)
    } else {
        let c = s[i];
        if is_whitespace_char(c) {
            (acc, i + 1)
        } else if c == ')' || c == '(' {
            (acc, i)
        } else {
            let mut acc = acc;
            acc.push(c);
            scan_label_exec(s, i + 1, acc)
        }
    }
}

} // verus!
