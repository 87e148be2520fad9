use vstd::prelude::*;
use vstd::slice::slice_to_vec;
use vstd::utf8::{decode_utf8, valid_utf8};
use crate::entries::{build_dict, well_formed};
use crate::laws::lemma_decoded_well_formed;
use crate::term::Term;
use crate::value::{dict_insert, entry_terms, lemma_terms, terms, ByteString, Value};

verus! {

/// `i`: an integer follows.
pub const INT_START: u8 = 0x69;

/// `l`: a list follows.
pub const LIST_START: u8 = 0x6c;

/// `d`: a dictionary follows.
pub const DICT_START: u8 = 0x64;

/// `e`: the end of an integer, list or dictionary.
pub const END: u8 = 0x65;

/// `:`: the end of a byte string's length.
pub const COLON: u8 = 0x3a;

/// How deep lists and dictionaries may nest in a decoded value.
pub const MAX_DEPTH: usize = 256;

pub const MINUS: u8 = 0x2d;

pub const DIGIT_0: u8 = 0x30;

pub const DIGIT_9: u8 = 0x39;

/// Why a buffer could not be decoded.
#[derive(PartialEq, Eq, Debug, Clone, Copy)]
pub enum ParseError {
    /// A value of another kind than the one asked for; the decoder itself
    /// does not report it.
    WrongType,
    /// The text of an integer is not well-formed UTF-8.
    UtfError,
    /// An integer or a length prefix is not a decimal number that fits.
    ConvertError,
    /// An integer, list or dictionary has no closing `e`, or a byte string
    /// has no `:` after its length.
    NoTerminator,
    /// The buffer ends before a value starts, or before a byte string's
    /// declared length.
    Truncated,
    /// Lists and dictionaries are nested deeper than the decoder goes.
    TooDeep,
}

pub open spec fn is_digit(b: u8) -> bool {
    DIGIT_0 <= b <= DIGIT_9
}

/// A non-empty run of ASCII digits.
pub open spec fn all_digits(s: Seq<u8>) -> bool {
    s.len() > 0 && forall|i: int| 0 <= i < s.len() ==> is_digit(#[trigger] s[i])
}

/// The number that decimal digits spell.
pub open spec fn digits_value(s: Seq<u8>) -> nat
    decreases s.len(),
{
    if s.len() == 0 {
        0
    } else {
        digits_value(s.drop_last()) * 10 + (s.last() - DIGIT_0) as nat
    }
}

/// The integer that `s` spells: digits, optionally after one `-`, within
/// the range of a 64-bit signed integer.
pub open spec fn integer_of(s: Seq<u8>) -> Option<int> {
    if s.len() > 0 && s[0] == MINUS {
        let d = s.subrange(1, s.len() as int);
        if all_digits(d) && digits_value(d) <= 0x8000_0000_0000_0000 {
            Some(-digits_value(d))
        } else {
            None
        }
    } else if all_digits(s) && digits_value(s) <= 0x7fff_ffff_ffff_ffff {
        Some(digits_value(s) as int)
    } else {
        None
    }
}

/// The index of the first `b` in `s` at or after `i`.
pub open spec fn find_from(s: Seq<u8>, b: u8, i: int) -> Option<int>
    decreases s.len() - i,
{
    if i < 0 || i >= s.len() {
        None
    } else if s[i] == b {
        Some(i)
    } else {
        find_from(s, b, i + 1)
    }
}

/// A byte string's payload: text when it is well-formed UTF-8.
pub open spec fn text_or_bytes(p: Seq<u8>) -> Term {
    if valid_utf8(p) {
        Term::Text(decode_utf8(p))
    } else {
        Term::Bytes(p)
    }
}

/// What decoding the front of `d` gives, with lists and dictionaries nested
/// at most `depth` deep: the value and the number of bytes it takes, or the
/// error.
pub open spec fn parse_within(d: Seq<u8>, depth: nat) -> Result<(Term, nat), ParseError>
    decreases d.len(), 0nat,
{
    if d.len() == 0 {
        Err(ParseError::Truncated)
    } else if d[0] == INT_START {
        let body = d.subrange(1, d.len() as int);
        match find_from(body, END, 0) {
            None => Err(ParseError::NoTerminator),
            Some(k) => {
                let span = body.subrange(0, k);
                if !valid_utf8(span) {
                    Err(ParseError::UtfError)
                } else {
                    match integer_of(span) {
                        None => Err(ParseError::ConvertError),
                        Some(x) => Ok((Term::Int(x), (k + 2) as nat)),
                    }
                }
            },
        }
    } else if (d[0] == LIST_START || d[0] == DICT_START) && depth == 0 {
        Err(ParseError::TooDeep)
    } else if d[0] == LIST_START {
        match parse_items(d.subrange(1, d.len() as int), (depth - 1) as nat) {
            Err(e) => Err(e),
            Ok((xs, n)) => Ok((Term::List(xs), n + 1)),
        }
    } else if d[0] == DICT_START {
        match parse_entries(d.subrange(1, d.len() as int), (depth - 1) as nat) {
            Err(e) => Err(e),
            Ok((ps, n)) => Ok((Term::Dict(build_dict(ps)), n + 1)),
        }
    } else {
        match find_from(d, COLON, 0) {
            None => Err(ParseError::NoTerminator),
            Some(k) => {
                let digits = d.subrange(0, k);
                if !all_digits(digits) {
                    Err(ParseError::ConvertError)
                } else if k + 1 + digits_value(digits) > d.len() {
                    Err(ParseError::Truncated)
                } else {
                    let end = k + 1 + digits_value(digits);
                    Ok((text_or_bytes(d.subrange(k + 1, end)), end as nat))
                }
            },
        }
    }
}

/// What `decode` gives for the front of `d`.
pub open spec fn parse(d: Seq<u8>) -> Result<(Term, nat), ParseError> {
    parse_within(d, MAX_DEPTH as nat)
}

/// The items of a list body up to and including its closing `e`, and the
/// bytes they take.
pub open spec fn parse_items(rest: Seq<u8>, depth: nat) -> Result<(Seq<Term>, nat), ParseError>
    decreases rest.len(), 1nat,
{
    if rest.len() == 0 {
        Err(ParseError::NoTerminator)
    } else if rest[0] == END {
        Ok((seq![], 1))
    } else {
        match parse_within(rest, depth) {
            Err(e) => Err(e),
            Ok((t, n)) => {
                // Never taken: a value takes at least one byte and no more
                // than there are (`lemma_parse_consumed`).
                if n == 0 || n > rest.len() {
                    Err(ParseError::NoTerminator)
                } else {
                    match parse_items(rest.subrange(n as int, rest.len() as int), depth) {
                        Err(e) => Err(e),
                        Ok((ts, m)) => Ok((seq![t] + ts, n + m)),
                    }
                }
            },
        }
    }
}

/// The entries of a dictionary body, in the order they are read, up to and
/// including its closing `e`, and the bytes they take.
pub open spec fn parse_entries(rest: Seq<u8>, depth: nat) -> Result<(Seq<(Term, Term)>, nat), ParseError>
    decreases rest.len(), 2nat,
{
    if rest.len() == 0 {
        Err(ParseError::NoTerminator)
    } else if rest[0] == END {
        Ok((seq![], 1))
    } else {
        match parse_within(rest, depth) {
            Err(e) => Err(e),
            Ok((k, n)) => {
                // Never taken (`lemma_parse_consumed`).
                if n == 0 || n > rest.len() {
                    Err(ParseError::NoTerminator)
                } else {
                    let after = rest.subrange(n as int, rest.len() as int);
                    match parse_within(after, depth) {
                        Err(e) => Err(e),
                        Ok((v, m)) => {
                            if m == 0 || m > after.len() {
                                Err(ParseError::NoTerminator)
                            } else {
                                match parse_entries(after.subrange(m as int, after.len() as int), depth) {
                                    Err(e) => Err(e),
                                    Ok((ps, l)) => Ok((seq![(k, v)] + ps, n + m + l)),
                                }
                            }
                        },
                    }
                }
            },
        }
    }
}

/// The outcome of `decode` as a term.
pub open spec fn outcome(r: Result<(Value, usize), ParseError>) -> Result<(Term, nat), ParseError> {
    match r {
        Ok((v, n)) => Ok((v@, n as nat)),
        Err(e) => Err(e),
    }
}

/// Relies on std::str::from_utf8: it accepts exactly the well-formed UTF-8
/// byte strings, and the text it gives holds the characters they encode.
#[verifier::external_body]
fn utf8_text(b: &[u8]) -> (r: Option<String>)
    ensures
        r is Some <==> valid_utf8(b@),
        r matches Some(s) ==> s@ == decode_utf8(b@),
{
    match std::str::from_utf8(b) {
        Ok(s) => Some(s.to_owned()),
        Err(_) => None,
    }
}

fn find_byte(s: &[u8], b: u8) -> (r: Option<usize>)
    ensures
        r matches Some(k) ==> find_from(s@, b, 0) == Some(k as int) && k < s.len(),
        r is None ==> find_from(s@, b, 0) is None,
{
    let mut i: usize = 0;
    while i < s.len()
        invariant
            i <= s.len(),
            find_from(s@, b, 0) == find_from(s@, b, i as int),
        decreases s.len() - i,
    {
        if s[i] == b {
            return Some(i);
        }
        i = i + 1;
    }
    None
}

fn check_digits(s: &[u8]) -> (r: bool)
    ensures
        r == all_digits(s@),
{
    if s.len() == 0 {
        return false;
    }
    let mut i: usize = 0;
    while i < s.len()
        invariant
            i <= s.len(),
            forall|j: int| 0 <= j < i ==> is_digit(#[trigger] s@[j]),
        decreases s.len() - i,
    {
        if s[i] < DIGIT_0 || s[i] > DIGIT_9 {
            return false;
        }
        i = i + 1;
    }
    true
}

/// The number that the digits `s` spell, when it is at most `cap`.
fn read_decimal(s: &[u8], cap: u64) -> (r: Option<u64>)
    requires
        all_digits(s@),
    ensures
        r matches Some(x) ==> x == digits_value(s@) && x <= cap,
        r is None ==> digits_value(s@) > cap,
{
    let mut value: u64 = 0;
    let mut over = false;
    let mut i: usize = 0;
    assert(s@.subrange(0, 0).len() == 0);
    while i < s.len()
        invariant
            all_digits(s@),
            i <= s.len(),
            !over ==> value == digits_value(s@.subrange(0, i as int)) && value <= cap,
            over ==> digits_value(s@.subrange(0, i as int)) > cap,
        decreases s.len() - i,
    {
        assert(s@.subrange(0, i + 1).drop_last() =~= s@.subrange(0, i as int));
        assert(is_digit(s@[i as int]));
        let d = s[i] - DIGIT_0;
        if !over {
            let next: u128 = value as u128 * 10 + d as u128;
            if next > cap as u128 {
                over = true;
            } else {
                value = next as u64;
            }
        }
        i = i + 1;
    }
    assert(s@.subrange(0, s@.len() as int) =~= s@);
    if over {
        None
    } else {
        Some(value)
    }
}

fn read_integer(s: &[u8]) -> (r: Option<i64>)
    ensures
        r matches Some(x) ==> integer_of(s@) == Some(x as int),
        r is None ==> integer_of(s@) is None,
{
    if s.len() > 0 && s[0] == MINUS {
        let d = &s[1..s.len()];
        assert(d@ =~= s@.subrange(1, s@.len() as int));
        if !check_digits(d) {
            return None;
        }
        match read_decimal(d, 0x8000_0000_0000_0000) {
            None => None,
            Some(m) => {
                if m == 0x8000_0000_0000_0000 {
                    Some(i64::MIN)
                } else {
                    Some(-(m as i64))
                }
            },
        }
    } else {
        if !check_digits(s) {
            return None;
        }
        match read_decimal(s, 0x7fff_ffff_ffff_ffff) {
            None => None,
            Some(m) => Some(m as i64),
        }
    }
}

spec fn items_after(acc: Seq<Term>, off: nat, r: Result<(Seq<Term>, nat), ParseError>) -> Result<
    (Seq<Term>, nat),
    ParseError,
> {
    match r {
        Ok((xs, m)) => Ok((acc + xs, off + m)),
        Err(e) => Err(e),
    }
}

spec fn entries_after(
    acc: Seq<(Term, Term)>,
    off: nat,
    r: Result<(Seq<(Term, Term)>, nat), ParseError>,
) -> Result<(Seq<(Term, Term)>, nat), ParseError> {
    match r {
        Ok((ps, m)) => Ok((acc + ps, off + m)),
        Err(e) => Err(e),
    }
}

proof fn lemma_terms_push(s: Seq<Value>, v: Value)
    ensures
        terms(s.push(v)) == terms(s) + seq![v@],
{
    lemma_terms(s);
    lemma_terms(s.push(v));
    assert(terms(s.push(v)) =~= terms(s) + seq![v@]);
}

/// Decodes the value at the front of `data`, and gives the number of bytes
/// it takes; bytes after it are left to the caller. Lists and dictionaries
/// nested deeper than `MAX_DEPTH` are refused with `TooDeep`.
pub fn decode(data: &[u8]) -> (r: Result<(Value, usize), ParseError>)
    ensures
        outcome(r) == parse(data@),
        r matches Ok((v, n)) ==> 1 <= n <= data.len() && well_formed(v@),
{
    decode_within(data, MAX_DEPTH)
}

fn decode_within(data: &[u8], depth: usize) -> (r: Result<(Value, usize), ParseError>)
    ensures
        outcome(r) == parse_within(data@, depth as nat),
        r matches Ok((v, n)) ==> 1 <= n <= data.len() && well_formed(v@),
    decreases data@.len(),
{
    proof {
        lemma_decoded_well_formed(data@, depth as nat);
    }
    if data.len() == 0 {
        return Err(ParseError::Truncated);
    }
    let first = data[0];
    if (first == LIST_START || first == DICT_START) && depth == 0 {
        return Err(ParseError::TooDeep);
    }
    if first == INT_START {
        let body = &data[1..data.len()];
        assert(body@ =~= data@.subrange(1, data@.len() as int));
        let len = match find_byte(body, END) {
            Some(k) => k,
            None => {
                return Err(ParseError::NoTerminator);
            },
        };
        let span = &body[0..len];
        assert(span@ =~= body@.subrange(0, len as int));
        if utf8_text(span).is_none() {
            return Err(ParseError::UtfError);
        }
        match read_integer(span) {
            Some(x) => Ok((Value::Integer(x), len + 2)),
            None => Err(ParseError::ConvertError),
        }
    } else if first == LIST_START {
        let body = &data[1..data.len()];
        assert(body@ =~= data@.subrange(1, data@.len() as int));
        assert(body@.subrange(0, body@.len() as int) =~= body@);
        let mut list: Vec<Value> = Vec::new();
        let mut off: usize = 0;
        assert(terms(list@) + seq![] =~= seq![]);
        loop
            invariant
                data@.len() >= 1,
                data@[0] == LIST_START,
                depth >= 1,
                off <= body.len(),
                body@ == data@.subrange(1, data@.len() as int),
                parse_items(body@, (depth - 1) as nat) == items_after(
                    terms(list@),
                    off as nat,
                    parse_items(body@.subrange(off as int, body@.len() as int), (depth - 1) as nat),
                ),
            ensures
                off < body.len(),
                body@[off as int] == END,
            decreases body.len() - off,
        {
            let ghost rs = body@.subrange(off as int, body@.len() as int);
            if off == body.len() {
                return Err(ParseError::NoTerminator);
            }
            assert(rs[0] == body@[off as int]);
            if body[off] == END {
                break;
            }
            let rest = &body[off..body.len()];
            assert(rest@ == rs);
            match decode_within(rest, depth - 1) {
                Err(e) => {
                    return Err(e);
                },
                Ok((value, len)) => {
                    proof {
                        let next = body@.subrange((off + len) as int, body@.len() as int);
                        assert(rs.subrange(len as int, rs.len() as int) =~= next);
                        lemma_terms_push(list@, value);
                        if let Ok((ts, m)) = parse_items(next, (depth - 1) as nat) {
                            assert(terms(list@) + (seq![value@] + ts) =~= (terms(list@) + seq![value@]) + ts);
                        }
                    }
                    list.push(value);
                    off = off + len;
                },
            }
        }
        proof {
            let rs = body@.subrange(off as int, body@.len() as int);
            assert(rs[0] == END);
            assert(terms(list@) + seq![] =~= terms(list@));
        }
        Ok((Value::List(list), off + 2))
    } else if first == DICT_START {
        let body = &data[1..data.len()];
        assert(body@ =~= data@.subrange(1, data@.len() as int));
        assert(body@.subrange(0, body@.len() as int) =~= body@);
        let mut dict: Vec<(Value, Value)> = Vec::new();
        let mut off: usize = 0;
        let ghost mut pairs: Seq<(Term, Term)> = seq![];
        assert(pairs + seq![] =~= seq![]);
        assert(entry_terms(dict@) =~= build_dict(pairs));
        loop
            invariant
                data@.len() >= 1,
                data@[0] == DICT_START,
                depth >= 1,
                off <= body.len(),
                body@ == data@.subrange(1, data@.len() as int),
                entry_terms(dict@) == build_dict(pairs),
                parse_entries(body@, (depth - 1) as nat) == entries_after(
                    pairs,
                    off as nat,
                    parse_entries(body@.subrange(off as int, body@.len() as int), (depth - 1) as nat),
                ),
            ensures
                off < body.len(),
                body@[off as int] == END,
            decreases body.len() - off,
        {
            let ghost rs = body@.subrange(off as int, body@.len() as int);
            if off == body.len() {
                return Err(ParseError::NoTerminator);
            }
            assert(rs[0] == body@[off as int]);
            if body[off] == END {
                break;
            }
            let rest = &body[off..body.len()];
            assert(rest@ == rs);
            let (key, klen) = match decode_within(rest, depth - 1) {
                Err(e) => {
                    return Err(e);
                },
                Ok(r) => r,
            };
            let after = &body[off + klen..body.len()];
            assert(after@ =~= rs.subrange(klen as int, rs.len() as int));
            let (value, vlen) = match decode_within(after, depth - 1) {
                Err(e) => {
                    return Err(e);
                },
                Ok(r) => r,
            };
            proof {
                let next = body@.subrange((off + klen + vlen) as int, body@.len() as int);
                assert(after@.subrange(vlen as int, after@.len() as int) =~= next);
                let p = (key@, value@);
                assert(pairs.push(p).drop_last() =~= pairs);
                if let Ok((ps, m)) = parse_entries(next, (depth - 1) as nat) {
                    assert(pairs + (seq![p] + ps) =~= pairs.push(p) + ps);
                }
            }
            proof {
                pairs = pairs.push((key@, value@));
            }
            dict_insert(&mut dict, key, value);
            off = off + klen + vlen;
        }
        proof {
            let rs = body@.subrange(off as int, body@.len() as int);
            assert(rs[0] == END);
            assert(pairs + seq![] =~= pairs);
        }
        Ok((Value::Dict(dict), off + 2))
    } else {
        let k = match find_byte(data, COLON) {
            Some(k) => k,
            None => {
                return Err(ParseError::NoTerminator);
            },
        };
        let digits = &data[0..k];
        assert(digits@ =~= data@.subrange(0, k as int));
        if !check_digits(digits) {
            return Err(ParseError::ConvertError);
        }
        let room = data.len() - k - 1;
        let len = match read_decimal(digits, room as u64) {
            Some(n) => n as usize,
            None => {
                return Err(ParseError::Truncated);
            },
        };
        let end = k + 1 + len;
        let payload = &data[k + 1..end];
        assert(payload@ =~= data@.subrange(k + 1, end as int));
        let value = match utf8_text(payload) {
            Some(s) => Value::String(ByteString::String(s)),
            None => Value::String(ByteString::ByteString(slice_to_vec(payload))),
        };
        Ok((value, end))
    }
}

} // verus!
