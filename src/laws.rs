use vstd::prelude::*;
use crate::decode::{
    all_digits, digits_value, find_from, is_digit, parse_within, parse_entries, parse_items, ParseError, COLON,
    DICT_START, END, INT_START, LIST_START,
};
use crate::entries::{
    all_well_formed, build_dict, entries_well_formed, keys_sorted, last_value, lemma_build_dict_contents,
    lemma_build_dict_order_free, lemma_build_dict_well_formed, lemma_entries_well_formed, well_formed,
    well_formed_entry,
};
use crate::term::Term;

verus! {

proof fn lemma_find_from(s: Seq<u8>, b: u8, i: int)
    requires
        0 <= i,
    ensures
        find_from(s, b, i) matches Some(k) ==> i <= k < s.len() && s[k] == b && forall|j: int|
            i <= j < k ==> s[j] != b,
        find_from(s, b, i) is None ==> forall|j: int| i <= j < s.len() ==> s[j] != b,
    decreases s.len() - i,
{
    if i < s.len() && s[i] != b {
        lemma_find_from(s, b, i + 1);
    }
}

proof fn lemma_find_from_at(s: Seq<u8>, b: u8, i: int, k: int)
    requires
        0 <= i <= k < s.len(),
        s[k] == b,
        forall|j: int| i <= j < k ==> s[j] != b,
    ensures
        find_from(s, b, i) == Some(k),
    decreases k - i,
{
    if i < k {
        lemma_find_from_at(s, b, i + 1, k);
    }
}

/// A value that decodes takes at least one byte and no more than there are.
pub proof fn lemma_parse_consumed(d: Seq<u8>, depth: nat)
    ensures
        parse_within(d, depth) matches Ok((_, n)) ==> 1 <= n <= d.len(),
    decreases d.len(), 0nat,
{
    if d.len() > 0 {
        if d[0] == INT_START {
            lemma_find_from(d.subrange(1, d.len() as int), END, 0);
        } else if d[0] == LIST_START {
            lemma_items_consumed(d.subrange(1, d.len() as int), (depth - 1) as nat);
        } else if d[0] == DICT_START {
            lemma_entries_consumed(d.subrange(1, d.len() as int), (depth - 1) as nat);
        } else {
            lemma_find_from(d, COLON, 0);
        }
    }
}

proof fn lemma_items_consumed(rest: Seq<u8>, depth: nat)
    ensures
        parse_items(rest, depth) matches Ok((_, m)) ==> 1 <= m <= rest.len(),
    decreases rest.len(), 1nat,
{
    if rest.len() > 0 && rest[0] != END {
        lemma_parse_consumed(rest, depth);
        if let Ok((_, n)) = parse_within(rest, depth) {
            if 1 <= n <= rest.len() {
                lemma_items_consumed(rest.subrange(n as int, rest.len() as int), depth);
            }
        }
    }
}

proof fn lemma_entries_consumed(rest: Seq<u8>, depth: nat)
    ensures
        parse_entries(rest, depth) matches Ok((_, m)) ==> 1 <= m <= rest.len(),
    decreases rest.len(), 2nat,
{
    if rest.len() > 0 && rest[0] != END {
        lemma_parse_consumed(rest, depth);
        if let Ok((_, n)) = parse_within(rest, depth) {
            if 1 <= n <= rest.len() {
                let after = rest.subrange(n as int, rest.len() as int);
                lemma_parse_consumed(after, depth);
                if let Ok((_, m)) = parse_within(after, depth) {
                    if 1 <= m <= after.len() {
                        lemma_entries_consumed(after.subrange(m as int, after.len() as int), depth);
                    }
                }
            }
        }
    }
}

/// Decoding reads no byte past the value: any buffer that starts with the
/// same bytes decodes to the same value and length.
pub proof fn lemma_parse_prefix(d: Seq<u8>, e: Seq<u8>, depth: nat)
    requires
        parse_within(d, depth) is Ok,
        parse_within(d, depth)->Ok_0.1 <= e.len(),
        forall|i: int| 0 <= i < parse_within(d, depth)->Ok_0.1 ==> d[i] == e[i],
    ensures
        parse_within(e, depth) == parse_within(d, depth),
    decreases d.len(), 0nat,
{
    lemma_parse_consumed(d, depth);
    let n = parse_within(d, depth)->Ok_0.1;
    assert(d[0] == e[0]);
    if d[0] == INT_START {
        let bd = d.subrange(1, d.len() as int);
        let be = e.subrange(1, e.len() as int);
        lemma_find_from(bd, END, 0);
        let k = find_from(bd, END, 0)->0;
        assert(bd[k] == d[k + 1] && be[k] == e[k + 1]);
        assert forall|j: int| 0 <= j < k implies be[j] != END by {
            assert(bd[j] == d[j + 1] && be[j] == e[j + 1]);
        }
        lemma_find_from_at(be, END, 0, k);
        assert(bd.subrange(0, k) =~= be.subrange(0, k));
    } else if d[0] == LIST_START {
        let bd = d.subrange(1, d.len() as int);
        let be = e.subrange(1, e.len() as int);
        assert forall|i: int| 0 <= i < parse_items(bd, (depth - 1) as nat)->Ok_0.1 implies bd[i] == be[i] by {
            assert(bd[i] == d[i + 1] && be[i] == e[i + 1]);
        }
        lemma_items_prefix(bd, be, (depth - 1) as nat);
    } else if d[0] == DICT_START {
        let bd = d.subrange(1, d.len() as int);
        let be = e.subrange(1, e.len() as int);
        assert forall|i: int| 0 <= i < parse_entries(bd, (depth - 1) as nat)->Ok_0.1 implies bd[i] == be[i] by {
            assert(bd[i] == d[i + 1] && be[i] == e[i + 1]);
        }
        lemma_entries_prefix(bd, be, (depth - 1) as nat);
    } else {
        lemma_find_from(d, COLON, 0);
        let k = find_from(d, COLON, 0)->0;
        lemma_find_from_at(e, COLON, 0, k);
        assert(d.subrange(0, k) =~= e.subrange(0, k));
        assert(d.subrange(k + 1, n as int) =~= e.subrange(k + 1, n as int));
    }
}

proof fn lemma_items_prefix(a: Seq<u8>, b: Seq<u8>, depth: nat)
    requires
        parse_items(a, depth) is Ok,
        parse_items(a, depth)->Ok_0.1 <= b.len(),
        forall|i: int| 0 <= i < parse_items(a, depth)->Ok_0.1 ==> a[i] == b[i],
    ensures
        parse_items(b, depth) == parse_items(a, depth),
    decreases a.len(), 1nat,
{
    lemma_items_consumed(a, depth);
    assert(a[0] == b[0]);
    if a[0] != END {
        lemma_parse_consumed(a, depth);
        let n = parse_within(a, depth)->Ok_0.1;
        let ta = a.subrange(n as int, a.len() as int);
        let tb = b.subrange(n as int, b.len() as int);
        lemma_items_consumed(ta, depth);
        lemma_parse_prefix(a, b, depth);
        assert forall|i: int| 0 <= i < parse_items(ta, depth)->Ok_0.1 implies ta[i] == tb[i] by {
            assert(ta[i] == a[i + n] && tb[i] == b[i + n]);
        }
        lemma_items_prefix(ta, tb, depth);
    }
}

proof fn lemma_entries_prefix(a: Seq<u8>, b: Seq<u8>, depth: nat)
    requires
        parse_entries(a, depth) is Ok,
        parse_entries(a, depth)->Ok_0.1 <= b.len(),
        forall|i: int| 0 <= i < parse_entries(a, depth)->Ok_0.1 ==> a[i] == b[i],
    ensures
        parse_entries(b, depth) == parse_entries(a, depth),
    decreases a.len(), 2nat,
{
    lemma_entries_consumed(a, depth);
    assert(a[0] == b[0]);
    if a[0] != END {
        lemma_parse_consumed(a, depth);
        let n = parse_within(a, depth)->Ok_0.1;
        let aa = a.subrange(n as int, a.len() as int);
        let ab = b.subrange(n as int, b.len() as int);
        lemma_parse_prefix(a, b, depth);
        lemma_parse_consumed(aa, depth);
        let m = parse_within(aa, depth)->Ok_0.1;
        let ta = aa.subrange(m as int, aa.len() as int);
        let tb = ab.subrange(m as int, ab.len() as int);
        lemma_entries_consumed(ta, depth);
        assert forall|i: int| 0 <= i < m implies aa[i] == ab[i] by {
            assert(aa[i] == a[i + n] && ab[i] == b[i + n]);
        }
        lemma_parse_prefix(aa, ab, depth);
        assert forall|i: int| 0 <= i < parse_entries(ta, depth)->Ok_0.1 implies ta[i] == tb[i] by {
            assert(ta[i] == a[i + n + m] && tb[i] == b[i + n + m]);
        }
        lemma_entries_prefix(ta, tb, depth);
    }
}

/// Cutting a value's encoding short anywhere before its end makes it fail to
/// decode: a missing terminator or a missing part of a byte string is always
/// reported.
pub proof fn lemma_truncated_fails(d: Seq<u8>, j: int, depth: nat)
    requires
        parse_within(d, depth) is Ok,
        0 <= j < parse_within(d, depth)->Ok_0.1,
    ensures
        parse_within(d.subrange(0, j), depth) is Err,
    decreases d.len(), 0nat,
{
    lemma_parse_consumed(d, depth);
    let p = d.subrange(0, j);
    if j > 0 {
        assert(p[0] == d[0]);
        if d[0] == INT_START {
            let bd = d.subrange(1, d.len() as int);
            let bp = p.subrange(1, p.len() as int);
            lemma_find_from(bd, END, 0);
            lemma_find_from(bp, END, 0);
            if let Some(k) = find_from(bp, END, 0) {
                assert(bp[k] == bd[k]);
            }
        } else if d[0] == LIST_START {
            let bd = d.subrange(1, d.len() as int);
            assert(p.subrange(1, p.len() as int) =~= bd.subrange(0, j - 1));
            lemma_items_truncated(bd, j - 1, (depth - 1) as nat);
        } else if d[0] == DICT_START {
            let bd = d.subrange(1, d.len() as int);
            assert(p.subrange(1, p.len() as int) =~= bd.subrange(0, j - 1));
            lemma_entries_truncated(bd, j - 1, (depth - 1) as nat);
        } else {
            lemma_find_from(d, COLON, 0);
            lemma_find_from(p, COLON, 0);
            let k = find_from(d, COLON, 0)->0;
            if let Some(kp) = find_from(p, COLON, 0) {
                assert(p[kp] == d[kp]);
                if kp < k {
                    assert(d[kp] != COLON);
                }
                if kp > k {
                    assert(p[k] == d[k]);
                }
                assert(kp == k);
                assert(p.subrange(0, k) =~= d.subrange(0, k));
            }
        }
    }
}

proof fn lemma_items_truncated(a: Seq<u8>, j: int, depth: nat)
    requires
        parse_items(a, depth) is Ok,
        0 <= j < parse_items(a, depth)->Ok_0.1,
    ensures
        parse_items(a.subrange(0, j), depth) is Err,
    decreases a.len(), 1nat,
{
    lemma_items_consumed(a, depth);
    let b = a.subrange(0, j);
    if j > 0 {
        assert(b[0] == a[0]);
        lemma_parse_consumed(a, depth);
        let n = parse_within(a, depth)->Ok_0.1;
        let ta = a.subrange(n as int, a.len() as int);
        lemma_items_consumed(ta, depth);
        if j < n {
            lemma_truncated_fails(a, j, depth);
        } else {
            lemma_parse_prefix(a, b, depth);
            assert(b.subrange(n as int, b.len() as int) =~= ta.subrange(0, j - n));
            lemma_items_truncated(ta, j - n, depth);
        }
    }
}

proof fn lemma_entries_truncated(a: Seq<u8>, j: int, depth: nat)
    requires
        parse_entries(a, depth) is Ok,
        0 <= j < parse_entries(a, depth)->Ok_0.1,
    ensures
        parse_entries(a.subrange(0, j), depth) is Err,
    decreases a.len(), 2nat,
{
    lemma_entries_consumed(a, depth);
    let b = a.subrange(0, j);
    if j > 0 {
        assert(b[0] == a[0]);
        lemma_parse_consumed(a, depth);
        let n = parse_within(a, depth)->Ok_0.1;
        let aa = a.subrange(n as int, a.len() as int);
        lemma_parse_consumed(aa, depth);
        let m = parse_within(aa, depth)->Ok_0.1;
        let ta = aa.subrange(m as int, aa.len() as int);
        lemma_entries_consumed(ta, depth);
        if j < n {
            lemma_truncated_fails(a, j, depth);
        } else {
            lemma_parse_prefix(a, b, depth);
            let ab = b.subrange(n as int, b.len() as int);
            assert(ab =~= aa.subrange(0, j - n));
            if j - n < m {
                lemma_truncated_fails(aa, j - n, depth);
            } else {
                lemma_parse_prefix(aa, ab, depth);
                assert(ab.subrange(m as int, ab.len() as int) =~= ta.subrange(0, j - n - m));
                lemma_entries_truncated(ta, j - n - m, depth);
            }
        }
    }
}

/// A byte string whose declared length runs past the end of the buffer is
/// reported as truncated.
pub proof fn lemma_length_past_end(digits: Seq<u8>, payload: Seq<u8>, depth: nat)
    requires
        all_digits(digits),
        payload.len() < digits_value(digits),
    ensures
        parse_within(digits + seq![COLON] + payload, depth) == Err::<(Term, nat), ParseError>(ParseError::Truncated),
{
    let d = digits + seq![COLON] + payload;
    assert(d[0] == digits[0] && is_digit(digits[0]));
    assert forall|j: int| 0 <= j < digits.len() implies d[j] != COLON by {
        assert(d[j] == digits[j] && is_digit(digits[j]));
    }
    lemma_find_from_at(d, COLON, 0, digits.len() as int);
    assert(d.subrange(0, digits.len() as int) =~= digits);
}

/// A byte string whose length is not a run of digits is reported as a
/// conversion error.
pub proof fn lemma_length_not_digits(prefix: Seq<u8>, rest: Seq<u8>, depth: nat)
    requires
        !all_digits(prefix),
        forall|i: int| 0 <= i < prefix.len() ==> prefix[i] != COLON,
        prefix.len() > 0 ==> prefix[0] != INT_START && prefix[0] != LIST_START && prefix[0] != DICT_START,
    ensures
        parse_within(prefix + seq![COLON] + rest, depth) == Err::<(Term, nat), ParseError>(ParseError::ConvertError),
{
    let d = prefix + seq![COLON] + rest;
    assert forall|j: int| 0 <= j < prefix.len() implies d[j] != COLON by {
        assert(d[j] == prefix[j]);
    }
    lemma_find_from_at(d, COLON, 0, prefix.len() as int);
    assert(d.subrange(0, prefix.len() as int) =~= prefix);
    if prefix.len() > 0 {
        assert(d[0] == prefix[0]);
    }
}

/// The encodings, one after another.
pub open spec fn concat(encs: Seq<Seq<u8>>) -> Seq<u8>
    decreases encs.len(),
{
    if encs.len() == 0 {
        seq![]
    } else {
        encs[0] + concat(encs.subrange(1, encs.len() as int))
    }
}

/// Key and value encodings, alternating.
pub open spec fn concat_entries(keys: Seq<Seq<u8>>, vals: Seq<Seq<u8>>) -> Seq<u8>
    decreases keys.len(),
{
    if keys.len() == 0 || vals.len() == 0 {
        seq![]
    } else {
        keys[0] + vals[0] + concat_entries(keys.subrange(1, keys.len() as int), vals.subrange(1, vals.len() as int))
    }
}

/// The lengths of the encodings, added up.
pub open spec fn total_len(encs: Seq<Seq<u8>>) -> nat
    decreases encs.len(),
{
    if encs.len() == 0 {
        0
    } else {
        encs[0].len() + total_len(encs.subrange(1, encs.len() as int))
    }
}

/// `e` is exactly the encoding of one value.
pub open spec fn whole(e: Seq<u8>, depth: nat) -> bool {
    parse_within(e, depth) matches Ok((_, n)) && n == e.len()
}

pub open spec fn value_of(e: Seq<u8>, depth: nat) -> Term {
    parse_within(e, depth)->Ok_0.0
}

pub open spec fn values_of(encs: Seq<Seq<u8>>, depth: nat) -> Seq<Term> {
    Seq::new(encs.len(), |i: int| value_of(encs[i], depth))
}

pub open spec fn entries_of(keys: Seq<Seq<u8>>, vals: Seq<Seq<u8>>, depth: nat) -> Seq<(Term, Term)> {
    Seq::new(keys.len(), |i: int| (value_of(keys[i], depth), value_of(vals[i], depth)))
}

/// The encoding of a dictionary with the given keys and values, in that order.
pub open spec fn dict_encoding(keys: Seq<Seq<u8>>, vals: Seq<Seq<u8>>) -> Seq<u8> {
    seq![DICT_START] + concat_entries(keys, vals) + seq![END]
}

proof fn lemma_whole_not_end(e: Seq<u8>, depth: nat)
    requires
        whole(e, depth),
    ensures
        e.len() >= 1,
        e[0] != END,
{
    lemma_parse_consumed(e, depth);
    lemma_find_from(e, COLON, 0);
    if e[0] == END {
        if let Some(k) = find_from(e, COLON, 0) {
            if k > 0 {
                assert(e.subrange(0, k)[0] == e[0]);
            }
        }
    }
}

proof fn lemma_items_concat(encs: Seq<Seq<u8>>, rest: Seq<u8>, depth: nat)
    requires
        forall|i: int| 0 <= i < encs.len() ==> whole(#[trigger] encs[i], depth),
    ensures
        parse_items(concat(encs) + seq![END] + rest, depth) == Ok::<(Seq<Term>, nat), ParseError>(
            (values_of(encs, depth), total_len(encs) + 1),
        ),
    decreases encs.len(),
{
    let x = concat(encs) + seq![END] + rest;
    if encs.len() == 0 {
        assert(x[0] == END);
        assert(values_of(encs, depth) =~= seq![]);
    } else {
        let e0 = encs[0];
        let tail = encs.subrange(1, encs.len() as int);
        let y = concat(tail) + seq![END] + rest;
        assert(x =~= e0 + y);
        assert(whole(e0, depth));
        lemma_whole_not_end(e0, depth);
        lemma_parse_prefix(e0, x, depth);
        assert forall|i: int| 0 <= i < tail.len() implies whole(#[trigger] tail[i], depth) by {
            assert(tail[i] == encs[i + 1]);
        }
        lemma_items_concat(tail, rest, depth);
        assert(x.subrange(e0.len() as int, x.len() as int) =~= y);
        assert(seq![value_of(e0, depth)] + values_of(tail, depth) =~= values_of(encs, depth));
    }
}

/// A list takes two bytes more than its items together, and holds their
/// values in order; bytes after it do not matter. The items may nest
/// `depth` deep, the list one more.
pub proof fn lemma_list_length(encs: Seq<Seq<u8>>, rest: Seq<u8>, depth: nat)
    requires
        forall|i: int| 0 <= i < encs.len() ==> whole(#[trigger] encs[i], depth),
    ensures
        parse_within(seq![LIST_START] + concat(encs) + seq![END] + rest, depth + 1) == Ok::<(Term, nat), ParseError>(
            (Term::List(values_of(encs, depth)), total_len(encs) + 2),
        ),
{
    let d = seq![LIST_START] + concat(encs) + seq![END] + rest;
    lemma_items_concat(encs, rest, depth);
    assert(d.subrange(1, d.len() as int) =~= concat(encs) + seq![END] + rest);
}

proof fn lemma_entries_concat(keys: Seq<Seq<u8>>, vals: Seq<Seq<u8>>, rest: Seq<u8>, depth: nat)
    requires
        keys.len() == vals.len(),
        forall|i: int| 0 <= i < keys.len() ==> whole(#[trigger] keys[i], depth),
        forall|i: int| 0 <= i < vals.len() ==> whole(#[trigger] vals[i], depth),
    ensures
        parse_entries(concat_entries(keys, vals) + seq![END] + rest, depth) == Ok::<
            (Seq<(Term, Term)>, nat),
            ParseError,
        >((entries_of(keys, vals, depth), total_len(keys) + total_len(vals) + 1)),
    decreases keys.len(),
{
    let x = concat_entries(keys, vals) + seq![END] + rest;
    if keys.len() == 0 {
        assert(x[0] == END);
        assert(entries_of(keys, vals, depth) =~= seq![]);
    } else {
        let k0 = keys[0];
        let v0 = vals[0];
        let kt = keys.subrange(1, keys.len() as int);
        let vt = vals.subrange(1, vals.len() as int);
        let y = concat_entries(kt, vt) + seq![END] + rest;
        assert(x =~= k0 + (v0 + y));
        assert(whole(k0, depth) && whole(v0, depth));
        lemma_whole_not_end(k0, depth);
        lemma_whole_not_end(v0, depth);
        lemma_parse_prefix(k0, x, depth);
        let after = x.subrange(k0.len() as int, x.len() as int);
        assert(after =~= v0 + y);
        lemma_parse_prefix(v0, after, depth);
        assert(after.subrange(v0.len() as int, after.len() as int) =~= y);
        assert forall|i: int| 0 <= i < kt.len() implies whole(#[trigger] kt[i], depth) by {
            assert(kt[i] == keys[i + 1]);
        }
        assert forall|i: int| 0 <= i < vt.len() implies whole(#[trigger] vt[i], depth) by {
            assert(vt[i] == vals[i + 1]);
        }
        lemma_entries_concat(kt, vt, rest, depth);
        assert(seq![(value_of(k0, depth), value_of(v0, depth))] + entries_of(kt, vt, depth) =~= entries_of(keys, vals, depth));
    }
}

/// A dictionary takes two bytes more than its keys and values together, and
/// holds the entries they give, put in key order; bytes after it do not
/// matter. Keys and values may nest `depth` deep, the dictionary one more.
pub proof fn lemma_dict_length(keys: Seq<Seq<u8>>, vals: Seq<Seq<u8>>, rest: Seq<u8>, depth: nat)
    requires
        keys.len() == vals.len(),
        forall|i: int| 0 <= i < keys.len() ==> whole(#[trigger] keys[i], depth),
        forall|i: int| 0 <= i < vals.len() ==> whole(#[trigger] vals[i], depth),
    ensures
        parse_within(dict_encoding(keys, vals) + rest, depth + 1) == Ok::<(Term, nat), ParseError>(
            (Term::Dict(build_dict(entries_of(keys, vals, depth))), total_len(keys) + total_len(vals) + 2),
        ),
{
    let d = dict_encoding(keys, vals) + rest;
    lemma_entries_concat(keys, vals, rest, depth);
    assert(d.subrange(1, d.len() as int) =~= concat_entries(keys, vals) + seq![END] + rest);
}

/// Two encodings of a dictionary whose entries give the same contents, in
/// whatever order they are written, decode to the same dictionary, whose
/// keys come in increasing order.
pub proof fn lemma_dict_order_free(
    keys1: Seq<Seq<u8>>,
    vals1: Seq<Seq<u8>>,
    keys2: Seq<Seq<u8>>,
    vals2: Seq<Seq<u8>>,
    depth: nat,
)
    requires
        keys1.len() == vals1.len(),
        keys2.len() == vals2.len(),
        forall|i: int| 0 <= i < keys1.len() ==> whole(#[trigger] keys1[i], depth),
        forall|i: int| 0 <= i < vals1.len() ==> whole(#[trigger] vals1[i], depth),
        forall|i: int| 0 <= i < keys2.len() ==> whole(#[trigger] keys2[i], depth),
        forall|i: int| 0 <= i < vals2.len() ==> whole(#[trigger] vals2[i], depth),
        forall|x: Term| #[trigger]
            last_value(entries_of(keys1, vals1, depth), x) == last_value(entries_of(keys2, vals2, depth), x),
    ensures
        parse_within(dict_encoding(keys1, vals1), depth + 1) is Ok,
        parse_within(dict_encoding(keys2, vals2), depth + 1) is Ok,
        parse_within(dict_encoding(keys1, vals1), depth + 1)->Ok_0.0 == parse_within(dict_encoding(keys2, vals2), depth + 1)->Ok_0.0,
        parse_within(dict_encoding(keys1, vals1), depth + 1)->Ok_0.0 matches Term::Dict(ps) && keys_sorted(ps),
{
    lemma_dict_length(keys1, vals1, seq![], depth);
    lemma_dict_length(keys2, vals2, seq![], depth);
    assert(dict_encoding(keys1, vals1) + seq![] =~= dict_encoding(keys1, vals1));
    assert(dict_encoding(keys2, vals2) + seq![] =~= dict_encoding(keys2, vals2));
    lemma_build_dict_order_free(entries_of(keys1, vals1, depth), entries_of(keys2, vals2, depth));
    lemma_build_dict_contents(entries_of(keys1, vals1, depth));
}

/// Every value that decodes is well formed: each dictionary in it, at any
/// depth, keeps its keys strictly increasing.
pub proof fn lemma_decoded_well_formed(d: Seq<u8>, depth: nat)
    ensures
        parse_within(d, depth) matches Ok((t, _)) ==> well_formed(t),
    decreases d.len(), 0nat,
{
    if d.len() > 0 {
        if d[0] == LIST_START {
            lemma_items_well_formed(d.subrange(1, d.len() as int), (depth - 1) as nat);
        } else if d[0] == DICT_START {
            let body = d.subrange(1, d.len() as int);
            lemma_entries_parse_well_formed(body, (depth - 1) as nat);
            if let Ok((ps, _)) = parse_entries(body, (depth - 1) as nat) {
                lemma_entries_well_formed(ps);
                lemma_build_dict_well_formed(ps);
            }
        }
    }
}

proof fn lemma_items_well_formed(rest: Seq<u8>, depth: nat)
    ensures
        parse_items(rest, depth) matches Ok((xs, _)) ==> all_well_formed(xs),
    decreases rest.len(), 1nat,
{
    if rest.len() > 0 && rest[0] != END {
        lemma_decoded_well_formed(rest, depth);
        if let Ok((t, n)) = parse_within(rest, depth) {
            if 1 <= n <= rest.len() {
                lemma_items_well_formed(rest.subrange(n as int, rest.len() as int), depth);
                if let Ok((xs, _)) = parse_items(rest, depth) {
                    let ts = parse_items(rest.subrange(n as int, rest.len() as int), depth)->Ok_0.0;
                    assert(xs == seq![t] + ts);
                    assert(xs.subrange(1, xs.len() as int) =~= ts);
                    assert(decreases_to!(xs => xs[0]));
                    assert(decreases_to!(xs => xs.subrange(1, xs.len() as int)));
                    assert(all_well_formed(xs) == (well_formed(xs[0]) && all_well_formed(
                        xs.subrange(1, xs.len() as int),
                    )));
                }
            }
        }
    } else if rest.len() > 0 {
        assert(all_well_formed(seq![]));
    }
}

proof fn lemma_entries_parse_well_formed(rest: Seq<u8>, depth: nat)
    ensures
        parse_entries(rest, depth) matches Ok((ps, _)) ==> entries_well_formed(ps),
    decreases rest.len(), 2nat,
{
    if rest.len() > 0 && rest[0] != END {
        lemma_decoded_well_formed(rest, depth);
        if let Ok((k, n)) = parse_within(rest, depth) {
            if 1 <= n <= rest.len() {
                let after = rest.subrange(n as int, rest.len() as int);
                lemma_decoded_well_formed(after, depth);
                if let Ok((v, m)) = parse_within(after, depth) {
                    if 1 <= m <= after.len() {
                        let tail = after.subrange(m as int, after.len() as int);
                        lemma_entries_parse_well_formed(tail, depth);
                        if let Ok((ps, _)) = parse_entries(rest, depth) {
                            let qs = parse_entries(tail, depth)->Ok_0.0;
                            assert(ps == seq![(k, v)] + qs);
                            assert(ps.subrange(1, ps.len() as int) =~= qs);
                            assert(well_formed_entry(ps[0]));
                            assert(decreases_to!(ps => ps[0]));
                            assert(decreases_to!(ps => ps.subrange(1, ps.len() as int)));
                            assert(entries_well_formed(ps) == (well_formed_entry(ps[0]) && entries_well_formed(
                                ps.subrange(1, ps.len() as int),
                            )));
                        }
                    }
                }
            }
        }
    } else if rest.len() > 0 {
        assert(entries_well_formed(seq![]));
    }
}

/// Item `i` decodes from `offs[i]`, does not start with `e`, and ends where
/// item `i + 1` starts.
#[verifier::opaque]
pub open spec fn item_at(data: Seq<u8>, offs: Seq<int>, items: Seq<Term>, depth: nat, i: int) -> bool {
    let r = parse_within(data.subrange(offs[i], data.len() as int), depth);
    &&& 0 <= offs[i] < data.len()
    &&& data[offs[i]] != END
    &&& r is Ok
    &&& r->Ok_0.0 == items[i]
    &&& offs[i + 1] == offs[i] + r->Ok_0.1
}

/// The items decode one after another from `offs[0]`, each starting where
/// the one before ends, and none starts with `e`.
pub open spec fn items_at(data: Seq<u8>, offs: Seq<int>, items: Seq<Term>, depth: nat) -> bool {
    &&& offs.len() == items.len() + 1
    &&& forall|i: int| 0 <= i < items.len() ==> #[trigger] item_at(data, offs, items, depth, i)
}

proof fn lemma_item_step(data: Seq<u8>, start: int, next: int, t: Term, depth: nat)
    requires
        0 <= start < data.len(),
        data[start] != END,
        parse_within(data.subrange(start, data.len() as int), depth) == Ok::<(Term, nat), ParseError>(
            (t, (next - start) as nat),
        ),
        start <= next,
    ensures
        start < next <= data.len(),
        parse_items(data.subrange(start, data.len() as int), depth) == match parse_items(
            data.subrange(next, data.len() as int),
            depth,
        ) {
            Ok((ts, m)) => Ok((seq![t] + ts, (next - start) as nat + m)),
            Err(e) => Err(e),
        },
{
    let rest = data.subrange(start, data.len() as int);
    lemma_parse_consumed(rest, depth);
    assert(rest[0] == data[start]);
    assert(rest.subrange(next - start, rest.len() as int) =~= data.subrange(next, data.len() as int));
}

proof fn lemma_item_facts(data: Seq<u8>, offs: Seq<int>, items: Seq<Term>, depth: nat, i: int)
    requires
        item_at(data, offs, items, depth, i),
    ensures
        0 <= offs[i] < data.len(),
        data[offs[i]] != END,
        offs[i] <= offs[i + 1],
        parse_within(data.subrange(offs[i], data.len() as int), depth) == Ok::<(Term, nat), ParseError>(
            (items[i], (offs[i + 1] - offs[i]) as nat),
        ),
{
    reveal(item_at);
}

proof fn lemma_items_at(data: Seq<u8>, offs: Seq<int>, items: Seq<Term>, depth: nat, i: int)
    requires
        items_at(data, offs, items, depth),
        0 <= i <= items.len(),
        0 <= offs[items.len() as int] < data.len(),
        data[offs[items.len() as int]] == END,
        0 <= offs[i],
    ensures
        offs[i] <= offs[items.len() as int],
        parse_items(data.subrange(offs[i], data.len() as int), depth) == Ok::<(Seq<Term>, nat), ParseError>(
            (items.subrange(i, items.len() as int), (offs[items.len() as int] + 1 - offs[i]) as nat),
        ),
    decreases items.len() - i,
{
    let n = items.len() as int;
    if i == n {
        let rest = data.subrange(offs[i], data.len() as int);
        assert(rest[0] == END);
        assert(items.subrange(i, n) =~= seq![]);
    } else {
        assert(item_at(data, offs, items, depth, i));
        lemma_item_facts(data, offs, items, depth, i);
        lemma_item_step(data, offs[i], offs[i + 1], items[i], depth);
        lemma_items_at(data, offs, items, depth, i + 1);
        assert(seq![items[i]] + items.subrange(i + 1, n) =~= items.subrange(i, n));
    }
}

/// A list read from one buffer: when its items decode one after another
/// from just after the `l`, and an `e` follows the last, the list holds
/// them and takes two bytes more than they do together.
pub proof fn lemma_list_at_offsets(data: Seq<u8>, offs: Seq<int>, items: Seq<Term>, depth: nat)
    requires
        data.len() > 0,
        data[0] == LIST_START,
        items_at(data, offs, items, depth),
        offs[0] == 1,
        0 <= offs[items.len() as int] < data.len(),
        data[offs[items.len() as int]] == END,
    ensures
        parse_within(data, depth + 1) == Ok::<(Term, nat), ParseError>(
            (Term::List(items), (offs[items.len() as int] + 1) as nat),
        ),
{
    lemma_items_at(data, offs, items, depth, 0);
    assert(items.subrange(0, items.len() as int) =~= items);
}

/// A list fails to decode when one of its items fails, after the items
/// before it decode one after another from just after the `l`.
pub proof fn lemma_list_item_fails(data: Seq<u8>, offs: Seq<int>, items: Seq<Term>, depth: nat)
    requires
        data.len() > 0,
        data[0] == LIST_START,
        items_at(data, offs, items, depth),
        offs[0] == 1,
        0 <= offs[items.len() as int] < data.len(),
        data[offs[items.len() as int]] != END,
        parse_within(data.subrange(offs[items.len() as int], data.len() as int), depth) is Err,
    ensures
        parse_within(data, depth + 1) is Err,
{
    lemma_items_fail_at(data, offs, items, depth, 0);
}

proof fn lemma_items_fail_at(data: Seq<u8>, offs: Seq<int>, items: Seq<Term>, depth: nat, i: int)
    requires
        items_at(data, offs, items, depth),
        0 <= i <= items.len(),
        0 <= offs[i],
        0 <= offs[items.len() as int] < data.len(),
        data[offs[items.len() as int]] != END,
        parse_within(data.subrange(offs[items.len() as int], data.len() as int), depth) is Err,
    ensures
        parse_items(data.subrange(offs[i], data.len() as int), depth) is Err,
    decreases items.len() - i,
{
    let n = items.len() as int;
    if i < n {
        assert(item_at(data, offs, items, depth, i));
        lemma_item_facts(data, offs, items, depth, i);
        lemma_item_step(data, offs[i], offs[i + 1], items[i], depth);
        lemma_items_fail_at(data, offs, items, depth, i + 1);
    } else {
        let rest = data.subrange(offs[i], data.len() as int);
        assert(rest[0] == data[offs[i]]);
    }
}

/// The entries of a dictionary whose keys and values alternate in `items`.
pub open spec fn pairs_of(items: Seq<Term>) -> Seq<(Term, Term)> {
    Seq::new(items.len() / 2, |j: int| (items[2 * j], items[2 * j + 1]))
}

proof fn lemma_entry_step(data: Seq<u8>, start: int, mid: int, next: int, k: Term, v: Term, depth: nat)
    requires
        0 <= start < data.len(),
        data[start] != END,
        start <= mid <= next,
        parse_within(data.subrange(start, data.len() as int), depth) == Ok::<(Term, nat), ParseError>(
            (k, (mid - start) as nat),
        ),
        parse_within(data.subrange(mid, data.len() as int), depth) == Ok::<(Term, nat), ParseError>(
            (v, (next - mid) as nat),
        ),
    ensures
        start < next <= data.len(),
        parse_entries(data.subrange(start, data.len() as int), depth) == match parse_entries(
            data.subrange(next, data.len() as int),
            depth,
        ) {
            Ok((ps, m)) => Ok((seq![(k, v)] + ps, (next - start) as nat + m)),
            Err(e) => Err(e),
        },
{
    let rest = data.subrange(start, data.len() as int);
    lemma_parse_consumed(rest, depth);
    assert(rest[0] == data[start]);
    let after = rest.subrange(mid - start, rest.len() as int);
    assert(after =~= data.subrange(mid, data.len() as int));
    lemma_parse_consumed(after, depth);
    assert(after.subrange(next - mid, after.len() as int) =~= data.subrange(next, data.len() as int));
}

proof fn lemma_entries_at(data: Seq<u8>, offs: Seq<int>, items: Seq<Term>, depth: nat, j: int)
    requires
        items_at(data, offs, items, depth),
        items.len() % 2 == 0,
        0 <= j <= items.len() / 2,
        0 <= offs[2 * j],
        0 <= offs[items.len() as int] < data.len(),
        data[offs[items.len() as int]] == END,
    ensures
        offs[2 * j] <= offs[items.len() as int],
        parse_entries(data.subrange(offs[2 * j], data.len() as int), depth) == Ok::<
            (Seq<(Term, Term)>, nat),
            ParseError,
        >((pairs_of(items).subrange(j, items.len() as int / 2), (offs[items.len() as int] + 1 - offs[2 * j]) as nat)),
    decreases items.len() - 2 * j,
{
    let k = items.len() as int / 2;
    if j == k {
        assert(2 * j == items.len());
        let rest = data.subrange(offs[2 * j], data.len() as int);
        assert(rest[0] == END);
        assert(pairs_of(items).subrange(j, k) =~= seq![]);
    } else {
        assert(item_at(data, offs, items, depth, 2 * j));
        assert(item_at(data, offs, items, depth, 2 * j + 1));
        lemma_item_facts(data, offs, items, depth, 2 * j);
        lemma_item_facts(data, offs, items, depth, 2 * j + 1);
        lemma_entry_step(data, offs[2 * j], offs[2 * j + 1], offs[2 * j + 2], items[2 * j], items[2 * j + 1], depth);
        assert(2 * j + 2 == 2 * (j + 1));
        lemma_entries_at(data, offs, items, depth, j + 1);
        assert(seq![(items[2 * j], items[2 * j + 1])] + pairs_of(items).subrange(j + 1, k) =~= pairs_of(
            items,
        ).subrange(j, k));
    }
}

/// A dictionary read from one buffer: when its keys and values decode one
/// after another from just after the `d`, and an `e` follows the last value,
/// the dictionary holds those entries, put in key order with a repeated key
/// keeping its last value, and takes two bytes more than they do together.
pub proof fn lemma_dict_at_offsets(data: Seq<u8>, offs: Seq<int>, items: Seq<Term>, depth: nat)
    requires
        data.len() > 0,
        data[0] == DICT_START,
        items_at(data, offs, items, depth),
        items.len() % 2 == 0,
        offs[0] == 1,
        0 <= offs[items.len() as int] < data.len(),
        data[offs[items.len() as int]] == END,
    ensures
        parse_within(data, depth + 1) == Ok::<(Term, nat), ParseError>(
            (Term::Dict(build_dict(pairs_of(items))), (offs[items.len() as int] + 1) as nat),
        ),
{
    lemma_entries_at(data, offs, items, depth, 0);
    assert(pairs_of(items).subrange(0, items.len() as int / 2) =~= pairs_of(items));
}

proof fn lemma_entries_fail_at(data: Seq<u8>, offs: Seq<int>, items: Seq<Term>, depth: nat, j: int)
    requires
        items_at(data, offs, items, depth),
        0 <= 2 * j <= items.len(),
        0 <= offs[2 * j],
        0 <= offs[items.len() as int] < data.len(),
        data[offs[items.len() as int]] != END,
        parse_within(data.subrange(offs[items.len() as int], data.len() as int), depth) is Err,
    ensures
        parse_entries(data.subrange(offs[2 * j], data.len() as int), depth) is Err,
    decreases items.len() - 2 * j,
{
    let n = items.len() as int;
    let rest = data.subrange(offs[2 * j], data.len() as int);
    if 2 * j == n {
        assert(rest[0] == data[offs[2 * j]]);
    } else {
        assert(item_at(data, offs, items, depth, 2 * j));
        lemma_item_facts(data, offs, items, depth, 2 * j);
        lemma_parse_consumed(rest, depth);
        assert(rest[0] == data[offs[2 * j]]);
        let len = offs[2 * j + 1] - offs[2 * j];
        assert(rest.subrange(len, rest.len() as int) =~= data.subrange(offs[2 * j + 1], data.len() as int));
        if 2 * j + 1 < n {
            assert(item_at(data, offs, items, depth, 2 * j + 1));
            lemma_item_facts(data, offs, items, depth, 2 * j + 1);
            lemma_entry_step(
                data,
                offs[2 * j],
                offs[2 * j + 1],
                offs[2 * j + 2],
                items[2 * j],
                items[2 * j + 1],
                depth,
            );
            assert(2 * j + 2 == 2 * (j + 1));
            lemma_entries_fail_at(data, offs, items, depth, j + 1);
        }
    }
}

/// A dictionary fails to decode when one of its keys or values fails, after
/// the ones before it decode one after another from just after the `d`.
pub proof fn lemma_dict_item_fails(data: Seq<u8>, offs: Seq<int>, items: Seq<Term>, depth: nat)
    requires
        data.len() > 0,
        data[0] == DICT_START,
        items_at(data, offs, items, depth),
        offs[0] == 1,
        0 <= offs[items.len() as int] < data.len(),
        data[offs[items.len() as int]] != END,
        parse_within(data.subrange(offs[items.len() as int], data.len() as int), depth) is Err,
    ensures
        parse_within(data, depth + 1) is Err,
{
    lemma_entries_fail_at(data, offs, items, depth, 0);
}

} // verus!
