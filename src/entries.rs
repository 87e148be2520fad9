use vstd::prelude::*;
use crate::term::{cmp_term, lemma_cmp_term_antisym, lemma_cmp_term_trans, Term};

verus! {

/// The keys of a dictionary's entries are strictly increasing.
pub open spec fn keys_sorted(ps: Seq<(Term, Term)>) -> bool {
    forall|i: int, j: int| 0 <= i < j < ps.len() ==> cmp_term(#[trigger] ps[i].0, #[trigger] ps[j].0) < 0
}

/// Every dictionary inside the term, at any depth, keeps its keys strictly
/// increasing.
pub open spec fn well_formed(t: Term) -> bool
    decreases t,
{
    match t {
        Term::List(xs) => all_well_formed(xs),
        Term::Dict(ps) => keys_sorted(ps) && entries_well_formed(ps),
        _ => true,
    }
}

pub open spec fn all_well_formed(xs: Seq<Term>) -> bool
    decreases xs,
{
    xs.len() == 0 || (well_formed(xs[0]) && all_well_formed(xs.subrange(1, xs.len() as int)))
}

pub open spec fn well_formed_entry(p: (Term, Term)) -> bool
    decreases p,
{
    well_formed(p.0) && well_formed(p.1)
}

pub open spec fn entries_well_formed(ps: Seq<(Term, Term)>) -> bool
    decreases ps,
{
    ps.len() == 0 || (well_formed_entry(ps[0]) && entries_well_formed(ps.subrange(1, ps.len() as int)))
}

pub proof fn lemma_all_well_formed(xs: Seq<Term>)
    ensures
        all_well_formed(xs) <==> forall|i: int| 0 <= i < xs.len() ==> #[trigger] well_formed(xs[i]),
    decreases xs.len(),
{
    if xs.len() > 0 {
        let t = xs.subrange(1, xs.len() as int);
        assert(decreases_to!(xs => xs[0]));
        assert(decreases_to!(xs => xs.subrange(1, xs.len() as int)));
        assert(all_well_formed(xs) == (well_formed(xs[0]) && all_well_formed(t)));
        lemma_all_well_formed(t);
        if forall|i: int| 0 <= i < xs.len() ==> #[trigger] well_formed(xs[i]) {
            assert forall|i: int| 0 <= i < t.len() implies #[trigger] well_formed(t[i]) by {
                assert(t[i] == xs[i + 1]);
            }
        }
        if all_well_formed(xs) {
            assert forall|i: int| 0 <= i < xs.len() implies #[trigger] well_formed(xs[i]) by {
                if i > 0 {
                    assert(xs[i] == t[i - 1]);
                }
            }
        }
    }
}

pub proof fn lemma_entries_well_formed(ps: Seq<(Term, Term)>)
    ensures
        entries_well_formed(ps) <==> forall|i: int| 0 <= i < ps.len() ==> #[trigger] well_formed_entry(ps[i]),
    decreases ps.len(),
{
    if ps.len() > 0 {
        let t = ps.subrange(1, ps.len() as int);
        assert(decreases_to!(ps => ps[0]));
        assert(decreases_to!(ps => ps.subrange(1, ps.len() as int)));
        assert(entries_well_formed(ps) == (well_formed_entry(ps[0]) && entries_well_formed(t)));
        lemma_entries_well_formed(t);
        if forall|i: int| 0 <= i < ps.len() ==> #[trigger] well_formed_entry(ps[i]) {
            assert forall|i: int| 0 <= i < t.len() implies #[trigger] well_formed_entry(t[i]) by {
                assert(t[i] == ps[i + 1]);
            }
        }
        if entries_well_formed(ps) {
            assert forall|i: int| 0 <= i < ps.len() implies #[trigger] well_formed_entry(ps[i]) by {
                if i > 0 {
                    assert(ps[i] == t[i - 1]);
                }
            }
        }
    }
}

/// The entries after putting `(k, v)` in its place; an entry with key `k`
/// already there is replaced.
pub open spec fn insert_entry(ps: Seq<(Term, Term)>, k: Term, v: Term) -> Seq<(Term, Term)>
    decreases ps.len(),
{
    if ps.len() == 0 {
        seq![(k, v)]
    } else {
        let c = cmp_term(ps[0].0, k);
        if c < 0 {
            seq![ps[0]] + insert_entry(ps.subrange(1, ps.len() as int), k, v)
        } else if c == 0 {
            seq![(k, v)] + ps.subrange(1, ps.len() as int)
        } else {
            seq![(k, v)] + ps
        }
    }
}

/// The dictionary built from entries in the order they were read.
pub open spec fn build_dict(ps: Seq<(Term, Term)>) -> Seq<(Term, Term)>
    decreases ps.len(),
{
    if ps.len() == 0 {
        seq![]
    } else {
        insert_entry(build_dict(ps.drop_last()), ps.last().0, ps.last().1)
    }
}

/// The value stored under `k` in a dictionary's entries.
pub open spec fn lookup(ps: Seq<(Term, Term)>, k: Term) -> Option<Term>
    decreases ps.len(),
{
    if ps.len() == 0 {
        None
    } else if ps[0].0 == k {
        Some(ps[0].1)
    } else {
        lookup(ps.subrange(1, ps.len() as int), k)
    }
}

/// The value of the last of the entries read with key `k`.
pub open spec fn last_value(ps: Seq<(Term, Term)>, k: Term) -> Option<Term>
    decreases ps.len(),
{
    if ps.len() == 0 {
        None
    } else if ps.last().0 == k {
        Some(ps.last().1)
    } else {
        last_value(ps.drop_last(), k)
    }
}

proof fn lemma_insert_lower_bound(ps: Seq<(Term, Term)>, k: Term, v: Term, b: Term)
    requires
        cmp_term(b, k) < 0,
        forall|j: int| 0 <= j < ps.len() ==> cmp_term(b, #[trigger] ps[j].0) < 0,
    ensures
        forall|i: int|
            0 <= i < insert_entry(ps, k, v).len() ==> cmp_term(b, #[trigger] insert_entry(ps, k, v)[i].0) < 0,
    decreases ps.len(),
{
    let r = insert_entry(ps, k, v);
    if ps.len() == 0 {
        assert forall|i: int| 0 <= i < r.len() implies cmp_term(b, #[trigger] r[i].0) < 0 by {
            assert(r[i] == (k, v));
        }
    } else {
        let tail = ps.subrange(1, ps.len() as int);
        assert forall|j: int| 0 <= j < tail.len() implies cmp_term(b, #[trigger] tail[j].0) < 0 by {
            assert(tail[j] == ps[j + 1]);
        }
        let c = cmp_term(ps[0].0, k);
        if c < 0 {
            lemma_insert_lower_bound(tail, k, v, b);
            let rt = insert_entry(tail, k, v);
            assert forall|i: int| 0 <= i < r.len() implies cmp_term(b, #[trigger] r[i].0) < 0 by {
                if i > 0 {
                    assert(r[i] == rt[i - 1]);
                }
            }
        } else if c == 0 {
            assert forall|i: int| 0 <= i < r.len() implies cmp_term(b, #[trigger] r[i].0) < 0 by {
                if i > 0 {
                    assert(r[i] == tail[i - 1]);
                }
            }
        } else {
            assert forall|i: int| 0 <= i < r.len() implies cmp_term(b, #[trigger] r[i].0) < 0 by {
                if i > 0 {
                    assert(r[i] == ps[i - 1]);
                }
            }
        }
    }
}

proof fn lemma_insert_sorted(ps: Seq<(Term, Term)>, k: Term, v: Term)
    requires
        keys_sorted(ps),
    ensures
        keys_sorted(insert_entry(ps, k, v)),
        forall|x: Term| #[trigger] lookup(insert_entry(ps, k, v), x) == if x == k { Some(v) } else { lookup(ps, x) },
    decreases ps.len(),
{
    if ps.len() == 0 {
        let r = insert_entry(ps, k, v);
        assert forall|x: Term| #[trigger] lookup(r, x) == if x == k { Some(v) } else { lookup(ps, x) } by {
            assert(r[0] == (k, v));
            assert(r.subrange(1, r.len() as int).len() == 0);
            assert(lookup(r.subrange(1, r.len() as int), x) is None);
            assert(lookup(ps, x) is None);
        }
    } else {
        let tail = ps.subrange(1, ps.len() as int);
        let c = cmp_term(ps[0].0, k);
        lemma_cmp_term_antisym(ps[0].0, k);
        assert(keys_sorted(tail)) by {
            assert forall|i: int, j: int| 0 <= i < j < tail.len() implies cmp_term(
                #[trigger] tail[i].0,
                #[trigger] tail[j].0,
            ) < 0 by {
                assert(tail[i] == ps[i + 1] && tail[j] == ps[j + 1]);
            }
        }
        let r = insert_entry(ps, k, v);
        if c < 0 {
            lemma_insert_sorted(tail, k, v);
            assert forall|j: int| 0 <= j < tail.len() implies cmp_term(ps[0].0, #[trigger] tail[j].0) < 0 by {
                assert(tail[j] == ps[j + 1]);
            }
            lemma_insert_lower_bound(tail, k, v, ps[0].0);
            let rt = insert_entry(tail, k, v);
            assert(r == seq![ps[0]] + rt);
            assert forall|i: int, j: int| 0 <= i < j < r.len() implies cmp_term(
                #[trigger] r[i].0,
                #[trigger] r[j].0,
            ) < 0 by {
                assert(r[j] == rt[j - 1]);
                if i > 0 {
                    assert(r[i] == rt[i - 1]);
                }
            }
            assert forall|x: Term| #[trigger] lookup(r, x) == if x == k { Some(v) } else { lookup(ps, x) } by {
                assert(r.subrange(1, r.len() as int) =~= rt);
                assert(r[0] == ps[0]);
                if ps[0].0 != x {
                    assert(lookup(r, x) == lookup(rt, x));
                    assert(lookup(ps, x) == lookup(tail, x));
                }
            }
        } else if c == 0 {
            assert(ps[0].0 == k);
            assert forall|i: int, j: int| 0 <= i < j < r.len() implies cmp_term(
                #[trigger] r[i].0,
                #[trigger] r[j].0,
            ) < 0 by {
                assert(r[j] == ps[j]);
                if i > 0 {
                    assert(r[i] == ps[i]);
                }
            }
            assert forall|x: Term| #[trigger] lookup(r, x) == if x == k { Some(v) } else { lookup(ps, x) } by {
                assert(r.subrange(1, r.len() as int) =~= tail);
                assert(r[0] == (k, v));
            }
        } else {
            assert forall|i: int, j: int| 0 <= i < j < r.len() implies cmp_term(
                #[trigger] r[i].0,
                #[trigger] r[j].0,
            ) < 0 by {
                assert(r[j] == ps[j - 1]);
                if i > 0 {
                    assert(r[i] == ps[i - 1]);
                } else if j > 1 {
                    lemma_cmp_term_trans(k, ps[0].0, ps[j - 1].0);
                }
            }
            assert forall|x: Term| #[trigger] lookup(r, x) == if x == k { Some(v) } else { lookup(ps, x) } by {
                assert(r.subrange(1, r.len() as int) =~= ps);
                assert(r[0] == (k, v));
            }
        }
    }
}

proof fn lemma_build(ps: Seq<(Term, Term)>)
    ensures
        keys_sorted(build_dict(ps)),
        forall|x: Term| #[trigger] lookup(build_dict(ps), x) == last_value(ps, x),
    decreases ps.len(),
{
    if ps.len() > 0 {
        let prev = build_dict(ps.drop_last());
        lemma_build(ps.drop_last());
        lemma_insert_sorted(prev, ps.last().0, ps.last().1);
        assert forall|x: Term| #[trigger] lookup(build_dict(ps), x) == last_value(ps, x) by {
            assert(lookup(build_dict(ps), x) == lookup(insert_entry(prev, ps.last().0, ps.last().1), x));
            assert(lookup(prev, x) == last_value(ps.drop_last(), x));
        }
    } else {
        assert forall|x: Term| #[trigger] lookup(build_dict(ps), x) == last_value(ps, x) by {
            assert(build_dict(ps).len() == 0);
        }
    }
}

proof fn lemma_absent_below(ps: Seq<(Term, Term)>, x: Term)
    requires
        keys_sorted(ps),
        ps.len() > 0,
        cmp_term(x, ps[0].0) < 0,
    ensures
        lookup(ps, x) is None,
    decreases ps.len(),
{
    lemma_cmp_term_antisym(x, ps[0].0);
    let tail = ps.subrange(1, ps.len() as int);
    assert(ps[0].0 != x);
    assert(lookup(ps, x) == lookup(tail, x));
    if tail.len() == 0 {
        assert(lookup(tail, x) is None);
    } else {
        assert(cmp_term(ps[0].0, ps[1].0) < 0);
        lemma_cmp_term_trans(x, ps[0].0, ps[1].0);
        assert(tail[0] == ps[1]);
        assert(keys_sorted(tail)) by {
            assert forall|i: int, j: int| 0 <= i < j < tail.len() implies cmp_term(
                #[trigger] tail[i].0,
                #[trigger] tail[j].0,
            ) < 0 by {
                assert(tail[i] == ps[i + 1] && tail[j] == ps[j + 1]);
            }
        }
        lemma_absent_below(tail, x);
    }
}

proof fn lemma_sorted_unique(ps: Seq<(Term, Term)>, qs: Seq<(Term, Term)>)
    requires
        keys_sorted(ps),
        keys_sorted(qs),
        forall|x: Term| #[trigger] lookup(ps, x) == lookup(qs, x),
    ensures
        ps == qs,
    decreases ps.len(),
{
    if ps.len() == 0 || qs.len() == 0 {
        if ps.len() > 0 {
            assert(lookup(ps, ps[0].0) is Some);
            assert(lookup(qs, ps[0].0) is None);
        }
        if qs.len() > 0 {
            assert(lookup(qs, qs[0].0) is Some);
            assert(lookup(ps, qs[0].0) is None);
        }
        assert(ps =~= qs);
    } else {
        let k = ps[0].0;
        let m = qs[0].0;
        lemma_cmp_term_antisym(k, m);
        if cmp_term(k, m) < 0 {
            lemma_absent_below(qs, k);
            assert(lookup(ps, k) is Some);
        }
        if cmp_term(m, k) < 0 {
            lemma_absent_below(ps, m);
            assert(lookup(qs, m) is Some);
        }
        assert(k == m);
        assert(lookup(ps, k) == Some(ps[0].1));
        assert(lookup(qs, k) == Some(qs[0].1));
        let pt = ps.subrange(1, ps.len() as int);
        let qt = qs.subrange(1, qs.len() as int);
        assert(keys_sorted(pt)) by {
            assert forall|i: int, j: int| 0 <= i < j < pt.len() implies cmp_term(
                #[trigger] pt[i].0,
                #[trigger] pt[j].0,
            ) < 0 by {
                assert(pt[i] == ps[i + 1] && pt[j] == ps[j + 1]);
            }
        }
        assert(keys_sorted(qt)) by {
            assert forall|i: int, j: int| 0 <= i < j < qt.len() implies cmp_term(
                #[trigger] qt[i].0,
                #[trigger] qt[j].0,
            ) < 0 by {
                assert(qt[i] == qs[i + 1] && qt[j] == qs[j + 1]);
            }
        }
        assert forall|x: Term| lookup(pt, x) == lookup(qt, x) by {
            if x == k {
                if pt.len() > 0 {
                    assert(pt[0] == ps[1]);
                    lemma_absent_below(pt, x);
                }
                if qt.len() > 0 {
                    assert(qt[0] == qs[1]);
                    lemma_absent_below(qt, x);
                }
            } else {
                assert(lookup(ps, x) == lookup(pt, x));
                assert(lookup(qs, x) == lookup(qt, x));
            }
        }
        lemma_sorted_unique(pt, qt);
        assert(ps[0] == qs[0]);
        assert(ps =~= seq![ps[0]] + pt);
        assert(qs =~= seq![qs[0]] + qt);
    }
}

/// A dictionary's keys are strictly increasing, and under each key it holds
/// the value of the last entry read with that key.
pub proof fn lemma_build_dict_contents(ps: Seq<(Term, Term)>)
    ensures
        keys_sorted(build_dict(ps)),
        forall|x: Term| #[trigger] lookup(build_dict(ps), x) == last_value(ps, x),
{
    lemma_build(ps);
}

/// Entries that give the same contents, read in any order, build the same
/// dictionary, in the same sorted order.
pub proof fn lemma_build_dict_order_free(ps: Seq<(Term, Term)>, qs: Seq<(Term, Term)>)
    requires
        forall|x: Term| #[trigger] last_value(ps, x) == last_value(qs, x),
    ensures
        build_dict(ps) == build_dict(qs),
{
    lemma_build(ps);
    lemma_build(qs);
    assert forall|x: Term| #[trigger] lookup(build_dict(ps), x) == lookup(build_dict(qs), x) by {
        assert(last_value(ps, x) == last_value(qs, x));
    }
    lemma_sorted_unique(build_dict(ps), build_dict(qs));
}

proof fn lemma_insert_well_formed(ps: Seq<(Term, Term)>, k: Term, v: Term)
    requires
        forall|i: int| 0 <= i < ps.len() ==> #[trigger] well_formed_entry(ps[i]),
        well_formed_entry((k, v)),
    ensures
        forall|i: int|
            0 <= i < insert_entry(ps, k, v).len() ==> #[trigger] well_formed_entry(insert_entry(ps, k, v)[i]),
    decreases ps.len(),
{
    let r = insert_entry(ps, k, v);
    if ps.len() > 0 {
        let tail = ps.subrange(1, ps.len() as int);
        assert forall|i: int| 0 <= i < tail.len() implies #[trigger] well_formed_entry(tail[i]) by {
            assert(tail[i] == ps[i + 1]);
        }
        let c = cmp_term(ps[0].0, k);
        if c < 0 {
            lemma_insert_well_formed(tail, k, v);
            let rt = insert_entry(tail, k, v);
            assert forall|i: int| 0 <= i < r.len() implies #[trigger] well_formed_entry(r[i]) by {
                if i > 0 {
                    assert(r[i] == rt[i - 1]);
                }
            }
        } else if c == 0 {
            assert forall|i: int| 0 <= i < r.len() implies #[trigger] well_formed_entry(r[i]) by {
                if i > 0 {
                    assert(r[i] == tail[i - 1]);
                }
            }
        } else {
            assert forall|i: int| 0 <= i < r.len() implies #[trigger] well_formed_entry(r[i]) by {
                if i > 0 {
                    assert(r[i] == ps[i - 1]);
                }
            }
        }
    } else {
        assert forall|i: int| 0 <= i < r.len() implies #[trigger] well_formed_entry(r[i]) by {
            assert(r[i] == (k, v));
        }
    }
}

proof fn lemma_build_entries_well_formed(ps: Seq<(Term, Term)>)
    requires
        forall|i: int| 0 <= i < ps.len() ==> #[trigger] well_formed_entry(ps[i]),
    ensures
        forall|i: int| 0 <= i < build_dict(ps).len() ==> #[trigger] well_formed_entry(build_dict(ps)[i]),
    decreases ps.len(),
{
    if ps.len() > 0 {
        let prev = ps.drop_last();
        assert forall|i: int| 0 <= i < prev.len() implies #[trigger] well_formed_entry(prev[i]) by {
            assert(prev[i] == ps[i]);
        }
        lemma_build_entries_well_formed(prev);
        assert(well_formed_entry(ps[ps.len() - 1]));
        lemma_insert_well_formed(build_dict(prev), ps.last().0, ps.last().1);
    }
}

/// A dictionary built from well-formed entries is well formed.
pub proof fn lemma_build_dict_well_formed(ps: Seq<(Term, Term)>)
    requires
        forall|i: int| 0 <= i < ps.len() ==> #[trigger] well_formed_entry(ps[i]),
    ensures
        well_formed(Term::Dict(build_dict(ps))),
{
    lemma_build(ps);
    lemma_build_entries_well_formed(ps);
    lemma_entries_well_formed(build_dict(ps));
}

} // verus!
