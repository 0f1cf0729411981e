use vstd::prelude::*;
use crate::syntax::{Val, TermV, TypedValue, Term, Atom, Rule, names_v, term_v, terms_v, atom_v, atoms_v, rule_v};

verus! {

/// A three-way comparison that is a total order: antisymmetric, zero exactly
/// on equal values, and transitive.
pub open spec fn good_cmp<A>(c: spec_fn(A, A) -> int) -> bool {
    &&& forall|a: A, b: A| #[trigger] c(a, b) == -c(b, a)
    &&& forall|a: A, b: A| (#[trigger] c(a, b) == 0) == (a == b)
    &&& forall|a: A, b: A| -1 <= #[trigger] c(a, b) <= 1
    &&& forall|a: A, b: A, d: A| #[trigger] c(a, b) < 0 && #[trigger] c(b, d) < 0 ==> c(a, d) < 0
}

/// Lexicographic comparison of sequences by an element comparison.
pub open spec fn seq_cmp<A>(a: Seq<A>, b: Seq<A>, c: spec_fn(A, A) -> int) -> int
    decreases a.len(),
{
    if a.len() == 0 {
        if b.len() == 0 {
            0
        } else {
            -1
        }
    } else if b.len() == 0 {
        1
    } else if c(a[0], b[0]) != 0 {
        c(a[0], b[0])
    } else {
        seq_cmp(a.drop_first(), b.drop_first(), c)
    }
}

pub proof fn lemma_seq_cmp_basic<A>(a: Seq<A>, b: Seq<A>, c: spec_fn(A, A) -> int)
    requires
        good_cmp(c),
    ensures
        seq_cmp(a, b, c) == -seq_cmp(b, a, c),
        (seq_cmp(a, b, c) == 0) == (a == b),
        -1 <= seq_cmp(a, b, c) <= 1,
    decreases a.len(),
{
    if a.len() > 0 && b.len() > 0 {
        assert(c(a[0], b[0]) == -c(b[0], a[0]));
        lemma_seq_cmp_basic(a.drop_first(), b.drop_first(), c);
        if c(a[0], b[0]) == 0 && a.drop_first() == b.drop_first() {
            assert(a[0] == b[0]);
            assert(a.len() == b.len());
            assert forall|i: int| 0 <= i < a.len() implies a[i] == b[i] by {
                if i > 0 {
                    assert(a[i] == a.drop_first()[i - 1]);
                    assert(b[i] == b.drop_first()[i - 1]);
                }
            }
            assert(a =~= b);
        }
        if a == b {
            assert(c(a[0], b[0]) == 0);
        }
    } else if a.len() == 0 && b.len() == 0 {
        assert(a =~= b);
    }
}

pub proof fn lemma_seq_cmp_trans<A>(a: Seq<A>, b: Seq<A>, d: Seq<A>, c: spec_fn(A, A) -> int)
    requires
        good_cmp(c),
        seq_cmp(a, b, c) < 0,
        seq_cmp(b, d, c) < 0,
    ensures
        seq_cmp(a, d, c) < 0,
    decreases a.len(),
{
    if a.len() > 0 && b.len() > 0 && d.len() > 0 {
        let (x, y, z) = (a[0], b[0], d[0]);
        if c(x, y) == 0 && c(y, z) == 0 {
            assert(x == y && y == z);
            lemma_seq_cmp_trans(a.drop_first(), b.drop_first(), d.drop_first(), c);
        } else if c(x, y) == 0 {
            assert(x == y);
        } else if c(y, z) == 0 {
            assert(y == z);
        } else {
            assert(c(x, y) < 0 && c(y, z) < 0);
        }
    }
}

pub proof fn lemma_seq_cmp_good<A>(c: spec_fn(A, A) -> int)
    requires
        good_cmp(c),
    ensures
        good_cmp(|a: Seq<A>, b: Seq<A>| seq_cmp(a, b, c)),
{
    let sc = |a: Seq<A>, b: Seq<A>| seq_cmp(a, b, c);
    assert forall|a: Seq<A>, b: Seq<A>| #[trigger] sc(a, b) == -sc(b, a) by {
        lemma_seq_cmp_basic(a, b, c);
    }
    assert forall|a: Seq<A>, b: Seq<A>| (#[trigger] sc(a, b) == 0) == (a == b) by {
        lemma_seq_cmp_basic(a, b, c);
    }
    assert forall|a: Seq<A>, b: Seq<A>| -1 <= #[trigger] sc(a, b) <= 1 by {
        lemma_seq_cmp_basic(a, b, c);
    }
    assert forall|a: Seq<A>, b: Seq<A>, d: Seq<A>| #[trigger] sc(a, b) < 0 && #[trigger] sc(b, d) < 0 implies sc(a, d) < 0 by {
        lemma_seq_cmp_trans(a, b, d, c);
    }
}

/// Comparison of pairs: first components, then second ones.
pub open spec fn pair_cmp<A, B>(a: (A, B), b: (A, B), c1: spec_fn(A, A) -> int, c2: spec_fn(B, B) -> int) -> int {
    if c1(a.0, b.0) != 0 {
        c1(a.0, b.0)
    } else {
        c2(a.1, b.1)
    }
}

pub proof fn lemma_pair_cmp_good<A, B>(c1: spec_fn(A, A) -> int, c2: spec_fn(B, B) -> int)
    requires
        good_cmp(c1),
        good_cmp(c2),
    ensures
        good_cmp(|a: (A, B), b: (A, B)| pair_cmp(a, b, c1, c2)),
{
    let pc = |a: (A, B), b: (A, B)| pair_cmp(a, b, c1, c2);
    assert forall|a: (A, B), b: (A, B)| #[trigger] pc(a, b) == -pc(b, a) by {
        assert(c1(a.0, b.0) == -c1(b.0, a.0));
        assert(c2(a.1, b.1) == -c2(b.1, a.1));
    }
    assert forall|a: (A, B), b: (A, B)| (#[trigger] pc(a, b) == 0) == (a == b) by {
        assert((c1(a.0, b.0) == 0) == (a.0 == b.0));
        assert((c2(a.1, b.1) == 0) == (a.1 == b.1));
    }
    assert forall|a: (A, B), b: (A, B)| -1 <= #[trigger] pc(a, b) <= 1 by {
        assert(-1 <= c1(a.0, b.0) <= 1);
        assert(-1 <= c2(a.1, b.1) <= 1);
    }
    assert forall|a: (A, B), b: (A, B), d: (A, B)| #[trigger] pc(a, b) < 0 && #[trigger] pc(b, d) < 0 implies pc(a, d) < 0 by {
        assert((c1(a.0, b.0) == 0) == (a.0 == b.0));
        assert((c1(b.0, d.0) == 0) == (b.0 == d.0));
        assert((c1(a.0, d.0) == 0) == (a.0 == d.0));
        if c1(a.0, b.0) < 0 && c1(b.0, d.0) < 0 {
            assert(c1(a.0, d.0) < 0);
        } else if c1(a.0, b.0) == 0 && c1(b.0, d.0) == 0 {
            assert(c2(a.1, b.1) < 0 && c2(b.1, d.1) < 0);
        }
    }
}

} // verus!
verus! {

/// Characters by their code.
pub open spec fn char_c() -> spec_fn(char, char) -> int {
    |a: char, b: char| if (a as u32) < (b as u32) { -1int } else if (a as u32) > (b as u32) { 1int } else { 0int }
}

pub proof fn lemma_char_c_good()
    ensures
        good_cmp(char_c()),
{
    assert forall|a: char, b: char| (#[trigger] char_c()(a, b) == 0) == (a == b) by {
        if (a as u32) == (b as u32) {
            vstd::utf8::char_u32_cast(a, a as u32);
            vstd::utf8::char_u32_cast(b, b as u32);
            assert(a == b);
        }
    }
}

} // verus!

verus! {

pub open spec fn int_c(a: int, b: int) -> int {
    if a < b {
        -1
    } else if a > b {
        1
    } else {
        0
    }
}

/// Texts, character by character.
pub open spec fn text_c() -> spec_fn(Seq<char>, Seq<char>) -> int {
    |a: Seq<char>, b: Seq<char>| seq_cmp(a, b, char_c())
}

/// Lists of texts.
pub open spec fn texts_c() -> spec_fn(Seq<Seq<char>>, Seq<Seq<char>>) -> int {
    |a: Seq<Seq<char>>, b: Seq<Seq<char>>| seq_cmp(a, b, text_c())
}

pub open spec fn val_rank(v: Val) -> int {
    match v {
        Val::Str(_) => 0,
        Val::Int(_) => 1,
        Val::Bool(_) => 2,
    }
}

/// Values: strings, then integers, then booleans; within a kind, by value.
pub open spec fn val_c() -> spec_fn(Val, Val) -> int {
    |a: Val, b: Val|
        if val_rank(a) != val_rank(b) {
            int_c(val_rank(a), val_rank(b))
        } else {
            match a {
                Val::Str(x) => text_c()(x, b->Str_0),
                Val::Int(n) => int_c(n as int, b->Int_0 as int),
                Val::Bool(x) => int_c(if x { 1int } else { 0int }, if b->Bool_0 { 1int } else { 0int }),
            }
        }
}

pub open spec fn term_rank(t: TermV) -> int {
    match t {
        TermV::Var(_) => 0,
        TermV::Const(_) => 1,
        TermV::Skolem(_, _) => 2,
    }
}

/// Terms: variables, then constants, then value-inventing terms; within a
/// kind, by name, value, or name and arguments.
pub open spec fn term_c() -> spec_fn(TermV, TermV) -> int {
    |a: TermV, b: TermV|
        if term_rank(a) != term_rank(b) {
            int_c(term_rank(a), term_rank(b))
        } else {
            match a {
                TermV::Var(x) => text_c()(x, b->Var_0),
                TermV::Const(v) => val_c()(v, b->Const_0),
                TermV::Skolem(n, d) => pair_cmp((n, d), (b->Skolem_0, b->Skolem_1), text_c(), texts_c()),
            }
        }
}

/// Atoms: terms, then relation name.
pub open spec fn atom_c() -> spec_fn((Seq<TermV>, Seq<char>), (Seq<TermV>, Seq<char>)) -> int {
    |a: (Seq<TermV>, Seq<char>), b: (Seq<TermV>, Seq<char>)| pair_cmp(a, b, |x: Seq<TermV>, y: Seq<TermV>| seq_cmp(x, y, term_c()), text_c())
}

/// Rules: head, then body.
pub open spec fn rule_c() -> spec_fn(
    ((Seq<TermV>, Seq<char>), Seq<(Seq<TermV>, Seq<char>)>),
    ((Seq<TermV>, Seq<char>), Seq<(Seq<TermV>, Seq<char>)>),
) -> int {
    |a: ((Seq<TermV>, Seq<char>), Seq<(Seq<TermV>, Seq<char>)>), b: ((Seq<TermV>, Seq<char>), Seq<(Seq<TermV>, Seq<char>)>)|
        pair_cmp(a, b, atom_c(), |x: Seq<(Seq<TermV>, Seq<char>)>, y: Seq<(Seq<TermV>, Seq<char>)>| seq_cmp(x, y, atom_c()))
}

pub proof fn lemma_text_good()
    ensures
        good_cmp(text_c()),
        good_cmp(texts_c()),
{
    lemma_char_c_good();
    lemma_seq_cmp_good(char_c());
    assert(text_c() == (|a: Seq<char>, b: Seq<char>| seq_cmp(a, b, char_c())));
    lemma_seq_cmp_good(text_c());
    assert(texts_c() == (|a: Seq<Seq<char>>, b: Seq<Seq<char>>| seq_cmp(a, b, text_c())));
}

pub proof fn lemma_val_good()
    ensures
        good_cmp(val_c()),
{
    lemma_text_good();
    let c = val_c();
    assert forall|a: Val, b: Val| #[trigger] c(a, b) == -c(b, a) by {
        if val_rank(a) == val_rank(b) {
            match a {
                Val::Str(x) => {
                    assert(text_c()(x, b->Str_0) == -text_c()(b->Str_0, x));
                },
                _ => {},
            }
        }
    }
    assert forall|a: Val, b: Val| (#[trigger] c(a, b) == 0) == (a == b) by {
        if val_rank(a) == val_rank(b) {
            match a {
                Val::Str(x) => {
                    assert((text_c()(x, b->Str_0) == 0) == (x == b->Str_0));
                },
                _ => {},
            }
        }
    }
    assert forall|a: Val, b: Val| -1 <= #[trigger] c(a, b) <= 1 by {
        if val_rank(a) == val_rank(b) {
            match a {
                Val::Str(x) => {
                    assert(-1 <= text_c()(x, b->Str_0) <= 1);
                },
                _ => {},
            }
        }
    }
    assert forall|a: Val, b: Val, d: Val| #[trigger] c(a, b) < 0 && #[trigger] c(b, d) < 0 implies c(a, d) < 0 by {
        if val_rank(a) == val_rank(b) && val_rank(b) == val_rank(d) {
            match a {
                Val::Str(x) => {
                    assert(text_c()(x, b->Str_0) < 0 && text_c()(b->Str_0, d->Str_0) < 0);
                },
                _ => {},
            }
        }
    }
}

pub proof fn lemma_term_good()
    ensures
        good_cmp(term_c()),
{
    lemma_text_good();
    lemma_val_good();
    lemma_pair_cmp_good(text_c(), texts_c());
    let pc = |a: (Seq<char>, Seq<Seq<char>>), b: (Seq<char>, Seq<Seq<char>>)| pair_cmp(a, b, text_c(), texts_c());
    let c = term_c();
    assert forall|a: TermV, b: TermV| #[trigger] c(a, b) == -c(b, a) by {
        if term_rank(a) == term_rank(b) {
            match a {
                TermV::Var(x) => {
                    assert(text_c()(x, b->Var_0) == -text_c()(b->Var_0, x));
                },
                TermV::Const(v) => {
                    assert(val_c()(v, b->Const_0) == -val_c()(b->Const_0, v));
                },
                TermV::Skolem(n, d) => {
                    assert(pc((n, d), (b->Skolem_0, b->Skolem_1)) == -pc((b->Skolem_0, b->Skolem_1), (n, d)));
                },
            }
        }
    }
    assert forall|a: TermV, b: TermV| (#[trigger] c(a, b) == 0) == (a == b) by {
        if term_rank(a) == term_rank(b) {
            match a {
                TermV::Var(x) => {
                    assert((text_c()(x, b->Var_0) == 0) == (x == b->Var_0));
                },
                TermV::Const(v) => {
                    assert((val_c()(v, b->Const_0) == 0) == (v == b->Const_0));
                },
                TermV::Skolem(n, d) => {
                    assert((pc((n, d), (b->Skolem_0, b->Skolem_1)) == 0) == ((n, d) == (b->Skolem_0, b->Skolem_1)));
                },
            }
        }
    }
    assert forall|a: TermV, b: TermV| -1 <= #[trigger] c(a, b) <= 1 by {
        if term_rank(a) == term_rank(b) {
            match a {
                TermV::Var(x) => {
                    assert(-1 <= text_c()(x, b->Var_0) <= 1);
                },
                TermV::Const(v) => {
                    assert(-1 <= val_c()(v, b->Const_0) <= 1);
                },
                TermV::Skolem(n, d) => {
                    assert(-1 <= pc((n, d), (b->Skolem_0, b->Skolem_1)) <= 1);
                },
            }
        }
    }
    assert forall|a: TermV, b: TermV, e: TermV| #[trigger] c(a, b) < 0 && #[trigger] c(b, e) < 0 implies c(a, e) < 0 by {
        if term_rank(a) == term_rank(b) && term_rank(b) == term_rank(e) {
            match a {
                TermV::Var(x) => {
                    assert(text_c()(x, b->Var_0) < 0 && text_c()(b->Var_0, e->Var_0) < 0);
                },
                TermV::Const(v) => {
                    assert(val_c()(v, b->Const_0) < 0 && val_c()(b->Const_0, e->Const_0) < 0);
                },
                TermV::Skolem(n, d) => {
                    assert(pc((n, d), (b->Skolem_0, b->Skolem_1)) < 0 && pc((b->Skolem_0, b->Skolem_1), (e->Skolem_0, e->Skolem_1)) < 0);
                },
            }
        }
    }
}

pub proof fn lemma_rule_good()
    ensures
        good_cmp(rule_c()),
{
    lemma_text_good();
    lemma_term_good();
    lemma_seq_cmp_good(term_c());
    let tc = |x: Seq<TermV>, y: Seq<TermV>| seq_cmp(x, y, term_c());
    lemma_pair_cmp_good(tc, text_c());
    assert(atom_c() == (|a: (Seq<TermV>, Seq<char>), b: (Seq<TermV>, Seq<char>)| pair_cmp(a, b, tc, text_c())));
    lemma_seq_cmp_good(atom_c());
    let ac = |x: Seq<(Seq<TermV>, Seq<char>)>, y: Seq<(Seq<TermV>, Seq<char>)>| seq_cmp(x, y, atom_c());
    lemma_pair_cmp_good(atom_c(), ac);
    assert(rule_c() == (|a: ((Seq<TermV>, Seq<char>), Seq<(Seq<TermV>, Seq<char>)>), b: ((Seq<TermV>, Seq<char>), Seq<(Seq<TermV>, Seq<char>)>)| pair_cmp(a, b, atom_c(), ac)));
}

} // verus!

verus! {

pub proof fn lemma_seq_cmp_skip<A>(a: Seq<A>, b: Seq<A>, c: spec_fn(A, A) -> int, i: int)
    requires
        0 <= i < a.len(),
        i < b.len(),
    ensures
        seq_cmp(a.skip(i), b.skip(i), c) == if c(a[i], b[i]) != 0 {
            c(a[i], b[i])
        } else {
            seq_cmp(a.skip(i + 1), b.skip(i + 1), c)
        },
{
    assert(a.skip(i)[0] == a[i]);
    assert(b.skip(i)[0] == b[i]);
    assert(a.skip(i).drop_first() =~= a.skip(i + 1));
    assert(b.skip(i).drop_first() =~= b.skip(i + 1));
}

pub proof fn lemma_seq_cmp_end<A>(a: Seq<A>, b: Seq<A>, c: spec_fn(A, A) -> int, i: int)
    requires
        0 <= i <= a.len(),
        i <= b.len(),
        i == a.len() || i == b.len(),
    ensures
        seq_cmp(a.skip(i), b.skip(i), c) == if a.len() == b.len() {
            0int
        } else if a.len() < b.len() {
            -1int
        } else {
            1int
        },
{
}

/// Compares two texts, character by character.
pub fn cmp_text(a: &String, b: &String) -> (r: i8)
    ensures
        r as int == text_c()(a@, b@),
{
    let sa = a.as_str();
    let sb = b.as_str();
    let la = sa.unicode_len();
    let lb = sb.unicode_len();
    let mut i: usize = 0;
    assert(a@.skip(0) =~= a@);
    assert(b@.skip(0) =~= b@);
    while i < la && i < lb
        invariant
            la == a@.len(),
            lb == b@.len(),
            sa@ == a@,
            sb@ == b@,
            i <= la,
            i <= lb,
            seq_cmp(a@, b@, char_c()) == seq_cmp(a@.skip(i as int), b@.skip(i as int), char_c()),
        decreases la - i,
    {
        let x = sa.get_char(i);
        let y = sb.get_char(i);
        proof {
            lemma_seq_cmp_skip(a@, b@, char_c(), i as int);
        }
        if (x as u32) < (y as u32) {
            return -1;
        }
        if (x as u32) > (y as u32) {
            return 1;
        }
        i = i + 1;
    }
    proof {
        lemma_seq_cmp_end(a@, b@, char_c(), i as int);
    }
    if la == lb {
        0
    } else if la < lb {
        -1
    } else {
        1
    }
}

pub fn cmp_int(a: usize, b: usize) -> (r: i8)
    ensures
        r as int == int_c(a as int, b as int),
{
    if a < b {
        -1
    } else if a > b {
        1
    } else {
        0
    }
}

pub fn cmp_value(a: &TypedValue, b: &TypedValue) -> (r: i8)
    ensures
        r as int == val_c()(a@, b@),
{
    match a {
        TypedValue::Str(x) => match b {
            TypedValue::Str(y) => cmp_text(x, y),
            _ => -1,
        },
        TypedValue::Int(x) => match b {
            TypedValue::Str(_) => 1,
            TypedValue::Int(y) => cmp_int(*x, *y),
            TypedValue::Bool(_) => -1,
        },
        TypedValue::Bool(x) => match b {
            TypedValue::Bool(y) => cmp_int(if *x { 1 } else { 0 }, if *y { 1 } else { 0 }),
            _ => 1,
        },
    }
}

fn cmp_text_ref(a: &String, b: &String) -> (r: i8)
    ensures
        r as int == text_c()(a@, b@),
{
    cmp_text(a, b)
}

pub fn cmp_texts(a: &Vec<String>, b: &Vec<String>) -> (r: i8)
    ensures
        r as int == seq_cmp(names_v(a@), names_v(b@), text_c()),
{
    let mut i: usize = 0;
    assert(names_v(a@).skip(0) =~= names_v(a@));
    assert(names_v(b@).skip(0) =~= names_v(b@));
    while i < a.len() && i < b.len()
        invariant
            i <= a@.len(),
            i <= b@.len(),
            seq_cmp(names_v(a@), names_v(b@), text_c()) == seq_cmp(names_v(a@).skip(i as int), names_v(b@).skip(i as int), text_c()),
        decreases a.len() - i,
    {
        let c = cmp_text_ref(&a[i], &b[i]);
        proof {
            assert(names_v(a@)[i as int] == view_of_string(a@[i as int]));
            assert(names_v(b@)[i as int] == view_of_string(b@[i as int]));
            lemma_seq_cmp_skip(names_v(a@), names_v(b@), text_c(), i as int);
        }
        if c != 0 {
            return c;
        }
        i = i + 1;
    }
    proof {
        lemma_seq_cmp_end(names_v(a@), names_v(b@), text_c(), i as int);
    }
    if a.len() == b.len() {
        0
    } else if a.len() < b.len() {
        -1
    } else {
        1
    }
}

pub open spec fn view_of_string(s: String) -> Seq<char> {
    s@
}

pub fn cmp_term(a: &Term, b: &Term) -> (r: i8)
    ensures
        r as int == term_c()(term_v(*a), term_v(*b)),
{
    match a {
        Term::Variable(x) => match b {
            Term::Variable(y) => cmp_text(x, y),
            _ => -1,
        },
        Term::Constant(x) => match b {
            Term::Variable(_) => 1,
            Term::Constant(y) => cmp_value(x, y),
            Term::Skolemizer(_) => -1,
        },
        Term::Skolemizer(f) => match b {
            Term::Skolemizer(g) => {
                let c = cmp_text(&f.name, &g.name);
                if c != 0 {
                    c
                } else {
                    cmp_texts(&f.deps, &g.deps)
                }
            },
            _ => 1,
        },
    }
}

pub fn cmp_terms(a: &Vec<Term>, b: &Vec<Term>) -> (r: i8)
    ensures
        r as int == seq_cmp(terms_v(a@), terms_v(b@), term_c()),
{
    let mut i: usize = 0;
    assert(terms_v(a@).skip(0) =~= terms_v(a@));
    assert(terms_v(b@).skip(0) =~= terms_v(b@));
    while i < a.len() && i < b.len()
        invariant
            i <= a@.len(),
            i <= b@.len(),
            seq_cmp(terms_v(a@), terms_v(b@), term_c()) == seq_cmp(terms_v(a@).skip(i as int), terms_v(b@).skip(i as int), term_c()),
        decreases a.len() - i,
    {
        let c = cmp_term(&a[i], &b[i]);
        proof {
            assert(terms_v(a@)[i as int] == term_v(a@[i as int]));
            assert(terms_v(b@)[i as int] == term_v(b@[i as int]));
            lemma_seq_cmp_skip(terms_v(a@), terms_v(b@), term_c(), i as int);
        }
        if c != 0 {
            return c;
        }
        i = i + 1;
    }
    proof {
        lemma_seq_cmp_end(terms_v(a@), terms_v(b@), term_c(), i as int);
    }
    if a.len() == b.len() {
        0
    } else if a.len() < b.len() {
        -1
    } else {
        1
    }
}

pub fn cmp_atom(a: &Atom, b: &Atom) -> (r: i8)
    ensures
        r as int == atom_c()(atom_v(*a), atom_v(*b)),
{
    let c = cmp_terms(&a.terms, &b.terms);
    if c != 0 {
        c
    } else {
        cmp_text(&a.symbol, &b.symbol)
    }
}

pub fn cmp_atoms(a: &Vec<Atom>, b: &Vec<Atom>) -> (r: i8)
    ensures
        r as int == seq_cmp(atoms_v(a@), atoms_v(b@), atom_c()),
{
    let mut i: usize = 0;
    assert(atoms_v(a@).skip(0) =~= atoms_v(a@));
    assert(atoms_v(b@).skip(0) =~= atoms_v(b@));
    while i < a.len() && i < b.len()
        invariant
            i <= a@.len(),
            i <= b@.len(),
            seq_cmp(atoms_v(a@), atoms_v(b@), atom_c()) == seq_cmp(atoms_v(a@).skip(i as int), atoms_v(b@).skip(i as int), atom_c()),
        decreases a.len() - i,
    {
        let c = cmp_atom(&a[i], &b[i]);
        proof {
            assert(atoms_v(a@)[i as int] == atom_v(a@[i as int]));
            assert(atoms_v(b@)[i as int] == atom_v(b@[i as int]));
            lemma_seq_cmp_skip(atoms_v(a@), atoms_v(b@), atom_c(), i as int);
        }
        if c != 0 {
            return c;
        }
        i = i + 1;
    }
    proof {
        lemma_seq_cmp_end(atoms_v(a@), atoms_v(b@), atom_c(), i as int);
    }
    if a.len() == b.len() {
        0
    } else if a.len() < b.len() {
        -1
    } else {
        1
    }
}

/// Compares two rules by head, then body.
pub fn cmp_rule(a: &Rule, b: &Rule) -> (r: i8)
    ensures
        r as int == rule_c()(rule_v(*a), rule_v(*b)),
{
    let c = cmp_atom(&a.head, &b.head);
    if c != 0 {
        c
    } else {
        cmp_atoms(&a.body, &b.body)
    }
}

} // verus!
