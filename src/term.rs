use vstd::prelude::*;
use vstd::utf8::*;

verus! {

broadcast use vstd::utf8::encode_utf8_decode_utf8;

/// The mathematical shape of a decoded value: what the contracts speak of.
pub enum Term {
    Int(int),
    Text(Seq<char>),
    Bytes(Seq<u8>),
    List(Seq<Term>),
    Dict(Seq<(Term, Term)>),
}

/// Position of a variant in the order: integers first, then byte strings
/// (held as text or not), lists and dictionaries.
pub open spec fn rank(t: Term) -> int {
    match t {
        Term::Int(_) => 0,
        Term::Text(_) => 1,
        Term::Bytes(_) => 1,
        Term::List(_) => 2,
        Term::Dict(_) => 3,
    }
}

/// The bytes of a byte string: the UTF-8 encoding of text, or the raw bytes.
pub open spec fn str_bytes(t: Term) -> Seq<u8> {
    match t {
        Term::Text(x) => encode_utf8(x),
        Term::Bytes(b) => b,
        _ => seq![],
    }
}

/// Between byte strings with the same bytes, text comes first.
pub open spec fn form(t: Term) -> int {
    match t {
        Term::Bytes(_) => 1,
        _ => 0,
    }
}

/// Byte strings compare by their bytes, whichever form holds them.
pub open spec fn cmp_strings(a: Term, b: Term) -> int {
    let c = cmp_bytes(str_bytes(a), str_bytes(b));
    if c != 0 {
        c
    } else {
        sign(form(a) - form(b))
    }
}

pub open spec fn sign(x: int) -> int {
    if x < 0 {
        -1
    } else if x > 0 {
        1
    } else {
        0
    }
}

/// Lexicographic comparison of byte strings: -1, 0 or 1.
pub open spec fn cmp_bytes(a: Seq<u8>, b: Seq<u8>) -> int
    decreases a.len(),
{
    if a.len() == 0 {
        if b.len() == 0 {
            0
        } else {
            -1
        }
    } else if b.len() == 0 {
        1
    } else if a[0] != b[0] {
        sign(a[0] - b[0])
    } else {
        cmp_bytes(a.subrange(1, a.len() as int), b.subrange(1, b.len() as int))
    }
}

/// The total order on terms: by kind first, then integers by value, byte
/// strings by their bytes (text by its UTF-8 encoding), lists and
/// dictionaries lexicographically (a dictionary as its sorted sequence of
/// entries).
pub open spec fn cmp_term(a: Term, b: Term) -> int
    decreases a,
{
    if rank(a) != rank(b) {
        sign(rank(a) - rank(b))
    } else {
        match a {
            Term::Int(x) => sign(x - b->Int_0),
            Term::Text(_) => cmp_strings(a, b),
            Term::Bytes(_) => cmp_strings(a, b),
            Term::List(xs) => cmp_terms(xs, b->List_0),
            Term::Dict(ps) => cmp_entries(ps, b->Dict_0),
        }
    }
}

pub open spec fn cmp_terms(xs: Seq<Term>, ys: Seq<Term>) -> int
    decreases xs,
{
    if xs.len() == 0 {
        if ys.len() == 0 {
            0
        } else {
            -1
        }
    } else if ys.len() == 0 {
        1
    } else {
        let c = cmp_term(xs[0], ys[0]);
        if c != 0 {
            c
        } else {
            cmp_terms(xs.subrange(1, xs.len() as int), ys.subrange(1, ys.len() as int))
        }
    }
}

pub open spec fn cmp_entry(p: (Term, Term), q: (Term, Term)) -> int
    decreases p,
{
    let c = cmp_term(p.0, q.0);
    if c != 0 {
        c
    } else {
        cmp_term(p.1, q.1)
    }
}

pub open spec fn cmp_entries(ps: Seq<(Term, Term)>, qs: Seq<(Term, Term)>) -> int
    decreases ps,
{
    if ps.len() == 0 {
        if qs.len() == 0 {
            0
        } else {
            -1
        }
    } else if qs.len() == 0 {
        1
    } else {
        let c = cmp_entry(ps[0], qs[0]);
        if c != 0 {
            c
        } else {
            cmp_entries(ps.subrange(1, ps.len() as int), qs.subrange(1, qs.len() as int))
        }
    }
}

pub proof fn lemma_cmp_bytes_antisym(a: Seq<u8>, b: Seq<u8>)
    ensures
        cmp_bytes(a, b) == -cmp_bytes(b, a),
        (cmp_bytes(a, b) == 0) == (a == b),
    decreases a.len(),
{
    if a.len() > 0 && b.len() > 0 {
        lemma_cmp_bytes_antisym(a.subrange(1, a.len() as int), b.subrange(1, b.len() as int));
        lemma_seq_cons(a, b);
    } else if a.len() == 0 && b.len() == 0 {
        assert(a =~= b);
    }
}

pub proof fn lemma_cmp_bytes_trans(a: Seq<u8>, b: Seq<u8>, c: Seq<u8>)
    requires
        cmp_bytes(a, b) < 0,
        cmp_bytes(b, c) < 0,
    ensures
        cmp_bytes(a, c) < 0,
    decreases a.len(),
{
    if a.len() > 0 && a[0] == b[0] && b[0] == c[0] {
        lemma_cmp_bytes_trans(
            a.subrange(1, a.len() as int),
            b.subrange(1, b.len() as int),
            c.subrange(1, c.len() as int),
        );
    }
}

proof fn lemma_seq_cons<A>(s: Seq<A>, t: Seq<A>)
    requires
        s.len() > 0,
        t.len() > 0,
    ensures
        (s == t) == (s[0] == t[0] && s.subrange(1, s.len() as int) == t.subrange(1, t.len() as int)),
{
    if s[0] == t[0] && s.subrange(1, s.len() as int) == t.subrange(1, t.len() as int) {
        assert(s =~= seq![s[0]] + s.subrange(1, s.len() as int));
        assert(t =~= seq![t[0]] + t.subrange(1, t.len() as int));
    }
}

proof fn lemma_cmp_strings_antisym(a: Term, b: Term)
    requires
        rank(a) == 1,
        rank(b) == 1,
    ensures
        cmp_strings(a, b) == -cmp_strings(b, a),
        (cmp_strings(a, b) == 0) == (a == b),
{
    lemma_cmp_bytes_antisym(str_bytes(a), str_bytes(b));
    if a is Text && b is Text {
        assert(decode_utf8(encode_utf8(a->Text_0)) == a->Text_0);
        assert(decode_utf8(encode_utf8(b->Text_0)) == b->Text_0);
    }
}

proof fn lemma_cmp_strings_trans(a: Term, b: Term, c: Term)
    requires
        rank(a) == 1,
        rank(b) == 1,
        rank(c) == 1,
        cmp_strings(a, b) < 0,
        cmp_strings(b, c) < 0,
    ensures
        cmp_strings(a, c) < 0,
{
    let (x, y, z) = (str_bytes(a), str_bytes(b), str_bytes(c));
    lemma_cmp_bytes_antisym(x, y);
    lemma_cmp_bytes_antisym(y, z);
    lemma_cmp_bytes_antisym(x, z);
    if cmp_bytes(x, y) < 0 && cmp_bytes(y, z) < 0 {
        lemma_cmp_bytes_trans(x, y, z);
    }
}

/// The order on terms is antisymmetric, and two terms compare equal exactly
/// when they are the same term.
pub proof fn lemma_cmp_term_antisym(a: Term, b: Term)
    ensures
        cmp_term(a, b) == -cmp_term(b, a),
        (cmp_term(a, b) == 0) == (a == b),
    decreases a,
{
    if rank(a) == rank(b) {
        match a {
            Term::Int(x) => {},
            Term::Text(_) => {
                lemma_cmp_strings_antisym(a, b);
            },
            Term::Bytes(_) => {
                lemma_cmp_strings_antisym(a, b);
            },
            Term::List(xs) => {
                lemma_cmp_terms_antisym(xs, b->List_0);
            },
            Term::Dict(ps) => {
                lemma_cmp_entries_antisym(ps, b->Dict_0);
            },
        }
    }
}

pub proof fn lemma_cmp_terms_antisym(xs: Seq<Term>, ys: Seq<Term>)
    ensures
        cmp_terms(xs, ys) == -cmp_terms(ys, xs),
        (cmp_terms(xs, ys) == 0) == (xs == ys),
    decreases xs,
{
    if xs.len() > 0 && ys.len() > 0 {
        lemma_cmp_term_antisym(xs[0], ys[0]);
        lemma_cmp_terms_antisym(xs.subrange(1, xs.len() as int), ys.subrange(1, ys.len() as int));
        lemma_seq_cons(xs, ys);
    } else if xs.len() == 0 && ys.len() != 0 {
        assert(xs != ys);
    } else if xs.len() != 0 && ys.len() == 0 {
        assert(xs != ys);
    } else {
        assert(xs =~= ys);
    }
}

pub proof fn lemma_cmp_entry_antisym(p: (Term, Term), q: (Term, Term))
    ensures
        cmp_entry(p, q) == -cmp_entry(q, p),
        (cmp_entry(p, q) == 0) == (p == q),
    decreases p,
{
    lemma_cmp_term_antisym(p.0, q.0);
    lemma_cmp_term_antisym(p.1, q.1);
}

pub proof fn lemma_cmp_entries_antisym(ps: Seq<(Term, Term)>, qs: Seq<(Term, Term)>)
    ensures
        cmp_entries(ps, qs) == -cmp_entries(qs, ps),
        (cmp_entries(ps, qs) == 0) == (ps == qs),
    decreases ps,
{
    if ps.len() > 0 && qs.len() > 0 {
        lemma_cmp_entry_antisym(ps[0], qs[0]);
        lemma_cmp_entries_antisym(ps.subrange(1, ps.len() as int), qs.subrange(1, qs.len() as int));
        lemma_seq_cons(ps, qs);
    } else if ps.len() == 0 && qs.len() != 0 {
        assert(ps != qs);
    } else if ps.len() != 0 && qs.len() == 0 {
        assert(ps != qs);
    } else {
        assert(ps =~= qs);
    }
}

/// The order on terms is transitive.
pub proof fn lemma_cmp_term_trans(a: Term, b: Term, c: Term)
    requires
        cmp_term(a, b) < 0,
        cmp_term(b, c) < 0,
    ensures
        cmp_term(a, c) < 0,
    decreases a,
{
    if rank(a) == rank(b) && rank(b) == rank(c) {
        match a {
            Term::Int(x) => {},
            Term::Text(_) => {
                lemma_cmp_strings_trans(a, b, c);
            },
            Term::Bytes(_) => {
                lemma_cmp_strings_trans(a, b, c);
            },
            Term::List(xs) => {
                lemma_cmp_terms_trans(xs, b->List_0, c->List_0);
            },
            Term::Dict(ps) => {
                lemma_cmp_entries_trans(ps, b->Dict_0, c->Dict_0);
            },
        }
    }
}

proof fn lemma_cmp_terms_trans(xs: Seq<Term>, ys: Seq<Term>, zs: Seq<Term>)
    requires
        cmp_terms(xs, ys) < 0,
        cmp_terms(ys, zs) < 0,
    ensures
        cmp_terms(xs, zs) < 0,
    decreases xs,
{
    if xs.len() > 0 {
        lemma_cmp_term_antisym(xs[0], ys[0]);
        lemma_cmp_term_antisym(ys[0], zs[0]);
        let c1 = cmp_term(xs[0], ys[0]);
        let c2 = cmp_term(ys[0], zs[0]);
        if c1 < 0 && c2 < 0 {
            lemma_cmp_term_trans(xs[0], ys[0], zs[0]);
        } else if c1 == 0 && c2 == 0 {
            lemma_cmp_terms_trans(
                xs.subrange(1, xs.len() as int),
                ys.subrange(1, ys.len() as int),
                zs.subrange(1, zs.len() as int),
            );
        }
    }
}

proof fn lemma_cmp_entry_trans(p: (Term, Term), q: (Term, Term), r: (Term, Term))
    requires
        cmp_entry(p, q) < 0,
        cmp_entry(q, r) < 0,
    ensures
        cmp_entry(p, r) < 0,
    decreases p,
{
    lemma_cmp_term_antisym(p.0, q.0);
    lemma_cmp_term_antisym(q.0, r.0);
    let c1 = cmp_term(p.0, q.0);
    let c2 = cmp_term(q.0, r.0);
    if c1 < 0 && c2 < 0 {
        lemma_cmp_term_trans(p.0, q.0, r.0);
    } else if c1 == 0 && c2 == 0 {
        lemma_cmp_term_trans(p.1, q.1, r.1);
    }
}

proof fn lemma_cmp_entries_trans(ps: Seq<(Term, Term)>, qs: Seq<(Term, Term)>, rs: Seq<(Term, Term)>)
    requires
        cmp_entries(ps, qs) < 0,
        cmp_entries(qs, rs) < 0,
    ensures
        cmp_entries(ps, rs) < 0,
    decreases ps,
{
    if ps.len() > 0 {
        lemma_cmp_entry_antisym(ps[0], qs[0]);
        lemma_cmp_entry_antisym(qs[0], rs[0]);
        let c1 = cmp_entry(ps[0], qs[0]);
        let c2 = cmp_entry(qs[0], rs[0]);
        if c1 < 0 && c2 < 0 {
            lemma_cmp_entry_trans(ps[0], qs[0], rs[0]);
        } else if c1 == 0 && c2 == 0 {
            lemma_cmp_entries_trans(
                ps.subrange(1, ps.len() as int),
                qs.subrange(1, qs.len() as int),
                rs.subrange(1, rs.len() as int),
            );
        }
    }
}

} // verus!
