use vstd::prelude::*;
use vstd::slice::slice_to_vec;
use vstd::utf8::encode_utf8;
use crate::entries::{insert_entry, lookup};
use crate::term::{str_bytes, cmp_bytes, cmp_entries, cmp_entry, cmp_term, cmp_terms, rank, Term};

verus! {

/// A byte string of the wire format: text when its bytes are well-formed
/// UTF-8, raw bytes otherwise.
#[derive(PartialEq, Eq, Debug)]
pub enum ByteString {
    String(String),
    ByteString(Vec<u8>),
}

/// A decoded value. A dictionary holds its entries with strictly increasing
/// keys (see `keys_sorted`).
#[derive(PartialEq, Eq, Debug)]
pub enum Value {
    Integer(i64),
    String(ByteString),
    List(Vec<Value>),
    Dict(Vec<(Value, Value)>),
}

pub open spec fn term(v: Value) -> Term
    decreases v,
{
    match v {
        Value::Integer(i) => Term::Int(i as int),
        Value::String(ByteString::String(s)) => Term::Text(s@),
        Value::String(ByteString::ByteString(b)) => Term::Bytes(b@),
        Value::List(l) => Term::List(terms(l@)),
        Value::Dict(d) => Term::Dict(entry_terms(d@)),
    }
}

pub open spec fn terms(s: Seq<Value>) -> Seq<Term>
    decreases s,
{
    if s.len() == 0 {
        seq![]
    } else {
        seq![term(s[0])] + terms(s.subrange(1, s.len() as int))
    }
}

pub open spec fn entry_term(p: (Value, Value)) -> (Term, Term)
    decreases p,
{
    (term(p.0), term(p.1))
}

pub open spec fn entry_terms(s: Seq<(Value, Value)>) -> Seq<(Term, Term)>
    decreases s,
{
    if s.len() == 0 {
        seq![]
    } else {
        seq![entry_term(s[0])] + entry_terms(s.subrange(1, s.len() as int))
    }
}

impl View for Value {
    type V = Term;

    open spec fn view(&self) -> Term {
        term(*self)
    }
}

pub proof fn lemma_terms(s: Seq<Value>)
    ensures
        terms(s).len() == s.len(),
        forall|i: int| 0 <= i < s.len() ==> #[trigger] terms(s)[i] == term(s[i]),
    decreases s.len(),
{
    if s.len() > 0 {
        let t = s.subrange(1, s.len() as int);
        lemma_terms(t);
        assert forall|i: int| 0 <= i < s.len() implies #[trigger] terms(s)[i] == term(s[i]) by {
            if i > 0 {
                assert(s[i] == t[i - 1]);
            }
        }
    }
}

pub proof fn lemma_entry_terms(s: Seq<(Value, Value)>)
    ensures
        entry_terms(s).len() == s.len(),
        forall|i: int| 0 <= i < s.len() ==> #[trigger] entry_terms(s)[i] == entry_term(s[i]),
    decreases s.len(),
{
    if s.len() > 0 {
        let t = s.subrange(1, s.len() as int);
        lemma_entry_terms(t);
        assert forall|i: int| 0 <= i < s.len() implies #[trigger] entry_terms(s)[i] == entry_term(s[i]) by {
            if i > 0 {
                assert(s[i] == t[i - 1]);
            }
        }
    }
}

fn rank_of(v: &Value) -> (r: u8)
    ensures
        r as int == rank(v@),
{
    match v {
        Value::Integer(_) => 0,
        Value::String(ByteString::String(_)) => 1,
        Value::String(ByteString::ByteString(_)) => 1,
        Value::List(_) => 2,
        Value::Dict(_) => 3,
    }
}

/// The bytes of a byte string: the UTF-8 encoding of text, or the raw bytes.
fn string_bytes(s: &ByteString) -> (r: &[u8])
    ensures
        r@ == str_bytes(Value::String(*s)@),
{
    match s {
        ByteString::String(t) => t.as_str().as_bytes(),
        ByteString::ByteString(b) => b.as_slice(),
    }
}

/// Lexicographic comparison of two byte strings.
pub fn compare_bytes(a: &[u8], b: &[u8]) -> (r: i8)
    ensures
        r as int == cmp_bytes(a@, b@),
{
    let mut i: usize = 0;
    assert(a@.subrange(0, a@.len() as int) =~= a@);
    assert(b@.subrange(0, b@.len() as int) =~= b@);
    while i < a.len() && i < b.len() && a[i] == b[i]
        invariant
            i <= a.len(),
            i <= b.len(),
            cmp_bytes(a@, b@) == cmp_bytes(
                a@.subrange(i as int, a@.len() as int),
                b@.subrange(i as int, b@.len() as int),
            ),
        decreases a.len() - i,
    {
        let ghost ta = a@.subrange(i as int, a@.len() as int);
        let ghost tb = b@.subrange(i as int, b@.len() as int);
        assert(ta.subrange(1, ta.len() as int) =~= a@.subrange(i + 1, a@.len() as int));
        assert(tb.subrange(1, tb.len() as int) =~= b@.subrange(i + 1, b@.len() as int));
        i = i + 1;
    }
    let ghost ta = a@.subrange(i as int, a@.len() as int);
    let ghost tb = b@.subrange(i as int, b@.len() as int);
    if i == a.len() {
        if i == b.len() {
            0
        } else {
            -1
        }
    } else if i == b.len() {
        1
    } else {
        assert(ta[0] == a@[i as int] && tb[0] == b@[i as int]);
        if a[i] < b[i] {
            -1
        } else {
            1
        }
    }
}

/// The order in which dictionary keys are kept: -1, 0 or 1 as `a` comes
/// before, is equal to, or comes after `b`.
pub fn compare(a: &Value, b: &Value) -> (r: i8)
    ensures
        r as int == cmp_term(a@, b@),
    decreases a,
{
    let ra = rank_of(a);
    let rb = rank_of(b);
    if ra < rb {
        return -1;
    }
    if ra > rb {
        return 1;
    }
    match a {
        Value::Integer(x) => {
            let y = match b {
                Value::Integer(y) => y,
                _ => {
                    return 0;
                },
            };
            if *x < *y {
                -1
            } else if *x > *y {
                1
            } else {
                0
            }
        },
        Value::String(x) => {
            let y = match b {
                Value::String(y) => y,
                _ => {
                    return 0;
                },
            };
            let c = compare_bytes(string_bytes(x), string_bytes(y));
            if c != 0 {
                return c;
            }
            let fx: i8 = match x {
                ByteString::String(_) => 0,
                ByteString::ByteString(_) => 1,
            };
            let fy: i8 = match y {
                ByteString::String(_) => 0,
                ByteString::ByteString(_) => 1,
            };
            fx - fy
        },
        Value::List(xs) => {
            let ys = match b {
                Value::List(ys) => ys,
                _ => {
                    return 0;
                },
            };
            proof {
                lemma_terms(xs@);
                lemma_terms(ys@);
            }
            let ghost tx = terms(xs@);
            let ghost ty = terms(ys@);
            assert(a@ == Term::List(tx) && b@ == Term::List(ty));
            assert(tx.subrange(0, tx.len() as int) =~= tx);
            assert(ty.subrange(0, ty.len() as int) =~= ty);
            let mut i: usize = 0;
            while i < xs.len() && i < ys.len()
                invariant
                    *a == Value::List(*xs),
                    i <= xs.len(),
                    i <= ys.len(),
                    tx.len() == xs.len(),
                    ty.len() == ys.len(),
                    forall|j: int| 0 <= j < xs.len() ==> #[trigger] tx[j] == term(xs@[j]),
                    forall|j: int| 0 <= j < ys.len() ==> #[trigger] ty[j] == term(ys@[j]),
                    cmp_term(a@, b@) == cmp_terms(
                        tx.subrange(i as int, tx.len() as int),
                        ty.subrange(i as int, ty.len() as int),
                    ),
                decreases xs.len() - i,
            {
                let ghost sx = tx.subrange(i as int, tx.len() as int);
                let ghost sy = ty.subrange(i as int, ty.len() as int);
                assert(sx[0] == tx[i as int] && sy[0] == ty[i as int]);
                assert(decreases_to!(*a => xs@[i as int]));
                let c = compare(&xs[i], &ys[i]);
                if c != 0 {
                    return c;
                }
                assert(sx.subrange(1, sx.len() as int) =~= tx.subrange(i + 1, tx.len() as int));
                assert(sy.subrange(1, sy.len() as int) =~= ty.subrange(i + 1, ty.len() as int));
                i = i + 1;
            }
            if i == xs.len() {
                if i == ys.len() {
                    0
                } else {
                    -1
                }
            } else {
                1
            }
        },
        Value::Dict(ps) => {
            let qs = match b {
                Value::Dict(qs) => qs,
                _ => {
                    return 0;
                },
            };
            proof {
                lemma_entry_terms(ps@);
                lemma_entry_terms(qs@);
            }
            let ghost tp = entry_terms(ps@);
            let ghost tq = entry_terms(qs@);
            assert(a@ == Term::Dict(tp) && b@ == Term::Dict(tq));
            assert(tp.subrange(0, tp.len() as int) =~= tp);
            assert(tq.subrange(0, tq.len() as int) =~= tq);
            let mut i: usize = 0;
            while i < ps.len() && i < qs.len()
                invariant
                    *a == Value::Dict(*ps),
                    i <= ps.len(),
                    i <= qs.len(),
                    tp.len() == ps.len(),
                    tq.len() == qs.len(),
                    forall|j: int| 0 <= j < ps.len() ==> #[trigger] tp[j] == entry_term(ps@[j]),
                    forall|j: int| 0 <= j < qs.len() ==> #[trigger] tq[j] == entry_term(qs@[j]),
                    cmp_term(a@, b@) == cmp_entries(
                        tp.subrange(i as int, tp.len() as int),
                        tq.subrange(i as int, tq.len() as int),
                    ),
                decreases ps.len() - i,
            {
                let ghost sp = tp.subrange(i as int, tp.len() as int);
                let ghost sq = tq.subrange(i as int, tq.len() as int);
                assert(sp[0] == tp[i as int] && sq[0] == tq[i as int]);
                assert(decreases_to!(*a => ps@[i as int].0));
                assert(decreases_to!(*a => ps@[i as int].1));
                assert(tp[i as int] == (ps@[i as int].0@, ps@[i as int].1@));
                assert(tq[i as int] == (qs@[i as int].0@, qs@[i as int].1@));
                let c = compare(&ps[i].0, &qs[i].0);
                if c != 0 {
                    assert(cmp_entry(tp[i as int], tq[i as int]) == c);
                    assert(cmp_entries(sp, sq) == c);
                    return c;
                }
                let c = compare(&ps[i].1, &qs[i].1);
                assert(cmp_entry(tp[i as int], tq[i as int]) == c);
                if c != 0 {
                    assert(cmp_entries(sp, sq) == c);
                    return c;
                }
                assert(sp.subrange(1, sp.len() as int) =~= tp.subrange(i + 1, tp.len() as int));
                assert(sq.subrange(1, sq.len() as int) =~= tq.subrange(i + 1, tq.len() as int));
                i = i + 1;
            }
            if i == ps.len() {
                if i == qs.len() {
                    0
                } else {
                    -1
                }
            } else {
                1
            }
        },
    }
}

/// Puts the entry `(k, v)` in its place among dictionary entries kept in
/// key order; an entry with an equal key is replaced.
pub fn dict_insert(entries: &mut Vec<(Value, Value)>, k: Value, v: Value)
    ensures
        entry_terms(final(entries)@) == insert_entry(entry_terms(old(entries)@), k@, v@),
{
    let ghost e = entry_terms(old(entries)@);
    proof {
        lemma_entry_terms(old(entries)@);
    }
    let mut i: usize = 0;
    assert(e.subrange(0, e.len() as int) =~= e);
    assert(e.subrange(0, 0) + e =~= e);
    while i < entries.len()
        invariant
            i <= entries.len(),
            entries@ == old(entries)@,
            e == entry_terms(old(entries)@),
            e.len() == entries.len(),
            forall|j: int| 0 <= j < entries.len() ==> #[trigger] e[j] == entry_term(entries@[j]),
            insert_entry(e, k@, v@) == e.subrange(0, i as int) + insert_entry(
                e.subrange(i as int, e.len() as int),
                k@,
                v@,
            ),
        decreases entries.len() - i,
    {
        let ghost rest = e.subrange(i as int, e.len() as int);
        assert(rest[0] == e[i as int]);
        assert(rest.subrange(1, rest.len() as int) =~= e.subrange(i + 1, e.len() as int));
        let c = compare(&entries[i].0, &k);
        assert(e[i as int] == entry_term(entries@[i as int]));
        if c == 0 {
            let ghost r = insert_entry(rest, k@, v@);
            assert(r == seq![(k@, v@)] + rest.subrange(1, rest.len() as int));
            entries[i] = (k, v);
            proof {
                lemma_entry_terms(entries@);
                let t = entry_terms(entries@);
                let goal = e.subrange(0, i as int) + r;
                assert forall|j: int| 0 <= j < t.len() implies t[j] == goal[j] by {
                    if j < i {
                        assert(entries@[j] == old(entries)@[j]);
                    } else if j == i {
                        assert(entries@[j] == (k, v));
                    } else {
                        assert(entries@[j] == old(entries)@[j]);
                        assert(goal[j] == r[j - i]);
                    }
                }
                assert(t =~= goal);
            }
            return;
        } else if c > 0 {
            let ghost r = insert_entry(rest, k@, v@);
            assert(r == seq![(k@, v@)] + rest);
            entries.insert(i, (k, v));
            proof {
                lemma_entry_terms(entries@);
                let t = entry_terms(entries@);
                let goal = e.subrange(0, i as int) + r;
                assert forall|j: int| 0 <= j < t.len() implies t[j] == goal[j] by {
                    if j < i {
                        assert(entries@[j] == old(entries)@[j]);
                    } else if j == i {
                        assert(entries@[j] == (k, v));
                    } else {
                        assert(entries@[j] == old(entries)@[j - 1]);
                        assert(goal[j] == r[j - i]);
                    }
                }
                assert(t =~= goal);
            }
            return;
        }
        assert(insert_entry(rest, k@, v@) == seq![rest[0]] + insert_entry(e.subrange(i + 1, e.len() as int), k@, v@));
        assert(e.subrange(0, i + 1) =~= e.subrange(0, i as int) + seq![e[i as int]]);
        i = i + 1;
    }
    entries.push((k, v));
    proof {
        lemma_entry_terms(entries@);
        assert(e.subrange(0, i as int) =~= e);
        let rest = e.subrange(i as int, e.len() as int);
        assert(rest.len() == 0);
        assert(insert_entry(rest, k@, v@) == seq![(k@, v@)]);
        let t = entry_terms(entries@);
        assert forall|j: int| 0 <= j < t.len() implies t[j] == insert_entry(e, k@, v@)[j] by {
            if j < i {
                assert(entries@[j] == old(entries)@[j]);
            } else {
                assert(entries@[j] == (k, v));
            }
        }
        assert(t =~= insert_entry(e, k@, v@));
    }
}

/// The value under the text key `key` when `t` is a dictionary.
pub open spec fn field(t: Term, key: Seq<char>) -> Option<Term> {
    match t {
        Term::Dict(ps) => lookup(ps, Term::Text(key)),
        _ => None,
    }
}

/// The bytes of a byte string, held as text or not.
pub open spec fn bytes_of(t: Term) -> Option<Seq<u8>> {
    match t {
        Term::Text(s) => Some(encode_utf8(s)),
        Term::Bytes(b) => Some(b),
        _ => None,
    }
}

/// The texts of a list whose items are all text.
pub open spec fn texts_of(t: Term) -> Option<Seq<Seq<char>>> {
    match t {
        Term::List(xs) => {
            if forall|i: int| 0 <= i < xs.len() ==> (#[trigger] xs[i]) is Text {
                Some(Seq::new(xs.len(), |i: int| xs[i]->Text_0))
            } else {
                None
            }
        },
        _ => None,
    }
}

pub open spec fn string_views(v: Seq<String>) -> Seq<Seq<char>> {
    v.map_values(|s: String| s@)
}

impl Value {
    /// The integer, when this is an integer.
    pub fn to_integer(&self) -> (r: Option<i64>)
        ensures
            r is Some <==> self@ is Int,
            r matches Some(x) ==> self@ == Term::Int(x as int),
    {
        match self {
            Value::Integer(x) => Some(*x),
            _ => None,
        }
    }

    /// A copy of the text, when this is a byte string held as text.
    pub fn to_string(&self) -> (r: Option<String>)
        ensures
            r is Some <==> self@ is Text,
            r matches Some(s) ==> self@ == Term::Text(s@),
    {
        match self {
            Value::String(ByteString::String(s)) => Some(s.clone()),
            _ => None,
        }
    }

    /// A copy of the bytes, when this is a byte string, held as text or not.
    pub fn to_bytes(&self) -> (r: Option<Vec<u8>>)
        ensures
            r is Some <==> bytes_of(self@) is Some,
            r matches Some(b) ==> bytes_of(self@) == Some(b@),
    {
        match self {
            Value::String(ByteString::String(s)) => Some(slice_to_vec(s.as_str().as_bytes())),
            Value::String(ByteString::ByteString(b)) => Some(slice_to_vec(b.as_slice())),
            _ => None,
        }
    }

    /// The value under the text key `key`, when this is a dictionary that
    /// holds one.
    pub fn get_value(&self, key: &str) -> (r: Option<&Value>)
        ensures
            r matches Some(v) ==> field(self@, key@) == Some(v@),
            r is None ==> field(self@, key@) is None,
    {
        match self {
            Value::Dict(d) => {
                let key_s = key.to_owned();
                let ghost k = Term::Text(key@);
                let ghost e = entry_terms(d@);
                proof {
                    lemma_entry_terms(d@);
                    assert(e.subrange(0, e.len() as int) =~= e);
                }
                let mut i: usize = 0;
                while i < d.len()
                    invariant
                        *self == Value::Dict(*d),
                        key_s@ == key@,
                        k == Term::Text(key@),
                        e == entry_terms(d@),
                        e.len() == d.len(),
                        forall|j: int| 0 <= j < d.len() ==> #[trigger] e[j] == entry_term(d@[j]),
                        i <= d.len(),
                        lookup(e, k) == lookup(e.subrange(i as int, e.len() as int), k),
                    decreases d.len() - i,
                {
                    let ghost rest = e.subrange(i as int, e.len() as int);
                    assert(rest[0] == e[i as int]);
                    assert(e[i as int] == (d@[i as int].0@, d@[i as int].1@));
                    if let Value::String(ByteString::String(s)) = &d[i].0 {
                        if *s == key_s {
                            return Some(&d[i].1);
                        }
                    }
                    assert(rest.subrange(1, rest.len() as int) =~= e.subrange(i + 1, e.len() as int));
                    i = i + 1;
                }
                None
            },
            _ => None,
        }
    }

    /// The integer under `key`, when it is there and is an integer.
    pub fn get_integer(&self, key: &str) -> (r: Option<i64>)
        ensures
            r is Some <==> (field(self@, key@) matches Some(t) && t is Int),
            r matches Some(x) ==> field(self@, key@) == Some(Term::Int(x as int)),
    {
        match self.get_value(key) {
            Some(value) => value.to_integer(),
            None => None,
        }
    }

    /// The text under `key`, when it is there and is held as text.
    pub fn get_string(&self, key: &str) -> (r: Option<String>)
        ensures
            r is Some <==> (field(self@, key@) matches Some(t) && t is Text),
            r matches Some(s) ==> field(self@, key@) == Some(Term::Text(s@)),
    {
        match self.get_value(key) {
            Some(value) => value.to_string(),
            None => None,
        }
    }

    /// The bytes under `key`, when it is there and is a byte string.
    pub fn get_bytes(&self, key: &str) -> (r: Option<Vec<u8>>)
        ensures
            r is Some <==> (field(self@, key@) matches Some(t) && bytes_of(t) is Some),
            r matches Some(b) ==> bytes_of(field(self@, key@)->0) == Some(b@),
    {
        match self.get_value(key) {
            Some(value) => value.to_bytes(),
            None => None,
        }
    }

    /// The list under `key`, when it is there and is a list.
    pub fn get_list(&self, key: &str) -> (r: Option<&Vec<Value>>)
        ensures
            r is Some <==> (field(self@, key@) matches Some(t) && t is List),
            r matches Some(l) ==> field(self@, key@) == Some(Term::List(terms(l@))),
    {
        match self.get_value(key) {
            Some(Value::List(list)) => Some(list),
            _ => None,
        }
    }

    /// The entries of the dictionary under `key`, when it is there and is a
    /// dictionary.
    pub fn get_dict(&self, key: &str) -> (r: Option<&Vec<(Value, Value)>>)
        ensures
            r is Some <==> (field(self@, key@) matches Some(t) && t is Dict),
            r matches Some(d) ==> field(self@, key@) == Some(Term::Dict(entry_terms(d@))),
    {
        match self.get_value(key) {
            Some(Value::Dict(dict)) => Some(dict),
            _ => None,
        }
    }

    /// The texts of the list under `key`, when it is there, is a list, and
    /// every item of it is held as text.
    pub fn get_string_list(&self, key: &str) -> (r: Option<Vec<String>>)
        ensures
            r is Some <==> (field(self@, key@) matches Some(t) && texts_of(t) is Some),
            r matches Some(v) ==> texts_of(field(self@, key@)->0) == Some(string_views(v@)),
    {
        let list = match self.get_list(key) {
            Some(list) => list,
            None => {
                return None;
            },
        };
        let ghost xs = terms(list@);
        proof {
            lemma_terms(list@);
        }
        let mut strings: Vec<String> = Vec::with_capacity(list.len());
        let mut i: usize = 0;
        while i < list.len()
            invariant
                field(self@, key@) == Some(Term::List(xs)),
                xs == terms(list@),
                xs.len() == list.len(),
                forall|j: int| 0 <= j < list.len() ==> #[trigger] xs[j] == list@[j]@,
                i <= list.len(),
                strings@.len() == i,
                forall|j: int| 0 <= j < i ==> (#[trigger] xs[j]) is Text && xs[j]->Text_0 == strings@[j]@,
            decreases list.len() - i,
        {
            let string = match list[i].to_string() {
                Some(string) => string,
                None => {
                    assert(!(xs[i as int] is Text));
                    return None;
                },
            };
            strings.push(string);
            i = i + 1;
        }
        assert(string_views(strings@) =~= Seq::new(xs.len(), |i: int| xs[i]->Text_0));
        Some(strings)
    }
}

} // verus!
