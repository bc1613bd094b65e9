//! A self-contained recursive-descent JSON parser producing a generic value
//! tree, and the extractor that maps that tree to typed interface entries.
//!
//! The parser owns a private cursor over an in-memory character buffer. Its
//! whole observable behaviour is pinned to a specification-level parser
//! (`sp_value` and friends) over the buffer's character sequence: each parsing
//! method returns `Ok` exactly when the specification parser succeeds from the
//! same position, with the same resulting value and end position.

use vstd::prelude::*;
use crate::chars::{is_ws_char, ws_char, is_digit_char, digit_char, digit_val, hex_digit_val,
    hex_digit, char_from_u32, push_char, str_eq, str_to_chars};
use crate::abi::{AbiInput, AbiItem, AbiOutput, ParamModel, OutModel, ItemModel, input_model,
    output_model, item_model, item_models, input_models, output_models, opt_str_model};

verus! {

/// A generic parsed JSON value: a tagged union over the JSON kinds.
///
/// A numeric literal with a fractional or exponent part is recorded as
/// `Float`; nothing downstream ever reads a float's numeric value (only
/// strings and booleans are coerced out of the tree), so only the validity
/// of the literal is kept, not the number.
///
/// An object is an association list in insertion order; lookups take the
/// last binding of a key, so a repeated key behaves as last-write-wins.
#[derive(Debug)]
pub enum Value {
    Str(String),
    Int(i64),
    Float,
    Bool(bool),
    Null,
    Array(Vec<Value>),
    Object(Vec<(String, Value)>),
}

/// The mathematical model of a parsed JSON value.
pub enum JsonVal {
    Str(Seq<char>),
    Int(int),
    Float,
    Bool(bool),
    Null,
    Arr(Seq<JsonVal>),
    Obj(Seq<(Seq<char>, JsonVal)>),
}

pub open spec fn value_model(v: Value) -> JsonVal
    decreases v,
    when true
    via value_model_via
{
    match v {
        Value::Str(s) => JsonVal::Str(s@),
        Value::Int(i) => JsonVal::Int(i as int),
        Value::Float => JsonVal::Float,
        Value::Bool(b) => JsonVal::Bool(b),
        Value::Null => JsonVal::Null,
        Value::Array(vs) => JsonVal::Arr(value_models(vs@)),
        Value::Object(ps) => JsonVal::Obj(pair_models(ps@)),
    }
}

#[via_fn]
proof fn value_model_via(v: Value) {
    match v {
        Value::Array(vs) => {
            assert(decreases_to!(v => vs));
            assert(decreases_to!(vs => vs@));
        },
        Value::Object(ps) => {
            assert(decreases_to!(v => ps));
            assert(decreases_to!(ps => ps@));
        },
        _ => {},
    }
}

pub open spec fn value_models(s: Seq<Value>) -> Seq<JsonVal>
    decreases s,
{
    if s.len() == 0 {
        Seq::empty()
    } else {
        value_models(s.drop_last()).push(value_model(s.last()))
    }
}

pub open spec fn pair_models(s: Seq<(String, Value)>) -> Seq<(Seq<char>, JsonVal)>
    decreases s,
    when true
    via pair_models_via
{
    if s.len() == 0 {
        Seq::empty()
    } else {
        pair_models(s.drop_last()).push((s.last().0@, value_model(s.last().1)))
    }
}

#[via_fn]
proof fn pair_models_via(s: Seq<(String, Value)>) {
    if s.len() > 0 {
        assert(decreases_to!(s => s[s.len() - 1]));
        assert(decreases_to!(s[s.len() - 1] => s[s.len() - 1].1));
    }
}

pub proof fn lemma_value_models(s: Seq<Value>)
    ensures
        value_models(s).len() == s.len(),
        forall|i: int| 0 <= i < s.len() ==> value_models(s)[i] == value_model(s[i]),
    decreases s.len(),
{
    if s.len() > 0 {
        lemma_value_models(s.drop_last());
    }
}

pub proof fn lemma_pair_models(s: Seq<(String, Value)>)
    ensures
        pair_models(s).len() == s.len(),
        forall|i: int| 0 <= i < s.len() ==> pair_models(s)[i]
            == (s[i].0@, value_model(s[i].1)),
    decreases s.len(),
{
    if s.len() > 0 {
        lemma_pair_models(s.drop_last());
    }
}

/// The value bound to a key in an object: the last binding wins.
pub open spec fn sp_get(pairs: Seq<(Seq<char>, JsonVal)>, key: Seq<char>) -> Option<JsonVal>
    decreases pairs.len(),
{
    if pairs.len() == 0 {
        None
    } else if pairs.last().0 == key {
        Some(pairs.last().1)
    } else {
        sp_get(pairs.drop_last(), key)
    }
}

/// The index just past any leading whitespace.
pub open spec fn sp_ws(s: Seq<char>, i: int) -> int
    decreases s.len() - i,
{
    if 0 <= i < s.len() && is_ws_char(s[i]) {
        sp_ws(s, i + 1)
    } else {
        i
    }
}

pub proof fn lemma_sp_ws_bounds(s: Seq<char>, i: int)
    ensures
        i <= sp_ws(s, i),
        i <= s.len() ==> sp_ws(s, i) <= s.len(),
    decreases s.len() - i,
{
    if 0 <= i < s.len() && is_ws_char(s[i]) {
        lemma_sp_ws_bounds(s, i + 1);
    }
}

/// Whether the characters of `w` occur in `s` starting at `i`.
pub open spec fn word_at(s: Seq<char>, i: int, w: Seq<char>) -> bool {
    0 <= i && i + w.len() <= s.len() && s.subrange(i, i + w.len()) == w
}

/// A boolean literal at `i`: the word `true` or the word `false`.
pub open spec fn sp_bool(s: Seq<char>, i: int) -> Option<(JsonVal, int)> {
    if word_at(s, i, "true"@) {
        Some((JsonVal::Bool(true), i + 4))
    } else if word_at(s, i, "false"@) {
        Some((JsonVal::Bool(false), i + 5))
    } else {
        None
    }
}

/// The null literal at `i`.
pub open spec fn sp_null(s: Seq<char>, i: int) -> Option<(JsonVal, int)> {
    if word_at(s, i, "null"@) {
        Some((JsonVal::Null, i + 4))
    } else {
        None
    }
}

/// The characters a numeric literal is scanned over: digits, sign, decimal
/// point and exponent marks.
pub open spec fn is_num_char(c: char) -> bool {
    is_digit_char(c) || c == '.' || c == 'e' || c == 'E' || c == '+' || c == '-'
}

/// The end of the greedy scan of numeric characters from `i`.
pub open spec fn sp_num_end(s: Seq<char>, i: int) -> int
    decreases s.len() - i,
{
    if 0 <= i < s.len() && is_num_char(s[i]) {
        sp_num_end(s, i + 1)
    } else {
        i
    }
}

pub proof fn lemma_sp_num_end_bounds(s: Seq<char>, i: int)
    ensures
        i <= sp_num_end(s, i),
        i <= s.len() ==> sp_num_end(s, i) <= s.len(),
    decreases s.len() - i,
{
    if 0 <= i < s.len() && is_num_char(s[i]) {
        lemma_sp_num_end_bounds(s, i + 1);
    }
}

pub open spec fn all_digits(t: Seq<char>) -> bool {
    forall|j: int| 0 <= j < t.len() ==> is_digit_char(t[j])
}

/// The value of a sequence of decimal digits.
pub open spec fn digits_val(t: Seq<char>) -> int
    decreases t.len(),
{
    if t.len() == 0 {
        0
    } else {
        10 * digits_val(t.drop_last()) + digit_val(t.last())
    }
}

/// An optional sign followed by at least one digit, nothing else.
pub open spec fn int_lit_ok(t: Seq<char>) -> bool {
    let d = if t.len() > 0 && (t[0] == '+' || t[0] == '-') {
        t.drop_first()
    } else {
        t
    };
    d.len() > 0 && all_digits(d)
}

/// The signed value of an integer literal.
pub open spec fn int_lit_val(t: Seq<char>) -> int {
    let neg = t.len() > 0 && t[0] == '-';
    let d = if t.len() > 0 && (t[0] == '+' || t[0] == '-') {
        t.drop_first()
    } else {
        t
    };
    if neg {
        -digits_val(d)
    } else {
        digits_val(d)
    }
}

/// What parsing the literal as a signed 64-bit integer yields: the value when
/// the literal is well-formed and in range, nothing otherwise.
pub open spec fn sp_parse_i64(t: Seq<char>) -> Option<int> {
    if int_lit_ok(t) && i64::MIN <= int_lit_val(t) <= i64::MAX {
        Some(int_lit_val(t))
    } else {
        None
    }
}

/// The end of a run of decimal digits within `t` starting at `i`.
pub open spec fn sp_digit_run(t: Seq<char>, i: int) -> int
    decreases t.len() - i,
{
    if 0 <= i < t.len() && is_digit_char(t[i]) {
        sp_digit_run(t, i + 1)
    } else {
        i
    }
}

pub proof fn lemma_sp_digit_run_bounds(t: Seq<char>, i: int)
    ensures
        i <= sp_digit_run(t, i),
        i <= t.len() ==> sp_digit_run(t, i) <= t.len(),
    decreases t.len() - i,
{
    if 0 <= i < t.len() && is_digit_char(t[i]) {
        lemma_sp_digit_run_bounds(t, i + 1);
    }
}

/// Whether the literal is accepted when parsed as a 64-bit float: an optional
/// sign, a mantissa of digits with at most one decimal point and at least one
/// digit, and an optional exponent (`e` or `E`, an optional sign, at least
/// one digit), with nothing left over.
pub open spec fn float_lit_ok(t: Seq<char>) -> bool {
    let i0: int = if t.len() > 0 && (t[0] == '+' || t[0] == '-') {
        1
    } else {
        0
    };
    let j1 = sp_digit_run(t, i0);
    let j2: int = if j1 < t.len() && t[j1] == '.' {
        j1 + 1
    } else {
        j1
    };
    let j3 = sp_digit_run(t, j2);
    (j1 - i0) + (j3 - j2) > 0 && (j3 == t.len() || (j3 < t.len() && (t[j3] == 'e' || t[j3]
        == 'E') && {
        let j4 = j3 + 1;
        let j5: int = if j4 < t.len() && (t[j4] == '+' || t[j4] == '-') {
            j4 + 1
        } else {
            j4
        };
        let j6 = sp_digit_run(t, j5);
        j6 > j5 && j6 == t.len()
    }))
}

/// Whether the scanned literal is routed to the float path: it holds a
/// decimal point or an exponent mark.
pub open spec fn has_float_marker(t: Seq<char>) -> bool {
    exists|j: int| 0 <= j < t.len() && (t[j] == '.' || t[j] == 'e' || t[j] == 'E')
}

/// A numeric literal at `i`: the greedy scan of numeric characters is taken
/// as one literal, parsed as a float when it holds a marker and as a signed
/// 64-bit integer otherwise; an ill-formed literal fails the parse.
pub open spec fn sp_number(s: Seq<char>, i: int) -> Option<(JsonVal, int)> {
    let e = sp_num_end(s, i);
    let t = s.subrange(i, e);
    if has_float_marker(t) {
        if float_lit_ok(t) {
            Some((JsonVal::Float, e))
        } else {
            None
        }
    } else {
        match sp_parse_i64(t) {
            Some(v) => Some((JsonVal::Int(v), e)),
            None => None,
        }
    }
}

pub proof fn lemma_digits_nonneg(d: Seq<char>)
    requires
        all_digits(d),
    ensures
        digits_val(d) >= 0,
    decreases d.len(),
{
    if d.len() > 0 {
        assert(all_digits(d.drop_last()));
        lemma_digits_nonneg(d.drop_last());
    }
}

/// The value of a digit sequence is at least the value of any of its
/// prefixes.
pub proof fn lemma_digits_prefix(d: Seq<char>, m: int)
    requires
        all_digits(d),
        0 <= m <= d.len(),
    ensures
        digits_val(d) >= digits_val(d.subrange(0, m)),
    decreases d.len() - m,
{
    if m == d.len() {
        assert(d.subrange(0, m) =~= d);
    } else {
        lemma_digits_prefix(d, m + 1);
        let p = d.subrange(0, m + 1);
        assert(all_digits(p));
        assert(p.drop_last() =~= d.subrange(0, m));
        assert(all_digits(p.drop_last()));
        lemma_digits_nonneg(p.drop_last());
        assert(digit_val(p.last()) >= 0);
        assert(digits_val(p) >= digits_val(d.subrange(0, m)));
    }
}

fn num_char(c: char) -> (r: bool)
    ensures
        r == is_num_char(c),
{
    digit_char(c) || c == '.' || c == 'e' || c == 'E' || c == '+' || c == '-'
}

/// The end of a run of digits in `v` between `from` and `end`, as an
/// absolute index.
fn exec_digit_run(v: &Vec<char>, start: usize, end: usize, from: usize) -> (r: usize)
    requires
        start <= from <= end <= v.len(),
    ensures
        from <= r <= end,
        r - start == sp_digit_run(v@.subrange(start as int, end as int), from - start),
{
    let ghost t = v@.subrange(start as int, end as int);
    let mut a = from;
    while a < end && digit_char(v[a])
        invariant
            start <= from <= a <= end <= v.len(),
            t == v@.subrange(start as int, end as int),
            sp_digit_run(t, from - start) == sp_digit_run(t, a - start),
        decreases end - a,
    {
        proof {
            assert(t[a - start] == v@[a as int]);
        }
        a += 1;
    }
    proof {
        if a < end {
            assert(t[a - start] == v@[a as int]);
        }
        assert(sp_digit_run(t, a - start) == a - start);
    }
    a
}

/// Parses the characters between `start` and `end` as a signed 64-bit
/// integer, exactly as `sp_parse_i64` describes.
fn parse_i64_range(v: &Vec<char>, start: usize, end: usize) -> (r: Option<i64>)
    requires
        start <= end <= v.len(),
    ensures
        match r {
            Some(x) => sp_parse_i64(v@.subrange(start as int, end as int)) == Some(x as int),
            None => sp_parse_i64(v@.subrange(start as int, end as int)) is None,
        },
{
    let ghost t = v@.subrange(start as int, end as int);
    let mut idx = start;
    let mut neg = false;
    if idx < end && (v[idx] == '+' || v[idx] == '-') {
        neg = v[idx] == '-';
        idx += 1;
    }
    let digits_start = idx;
    let ghost d = t.subrange(digits_start - start, t.len() as int);
    proof {
        if start < end && (t[0] == '+' || t[0] == '-') {
            assert(d =~= t.drop_first());
        } else {
            assert(d =~= t);
        }
    }
    if idx == end {
        proof {
            assert(!int_lit_ok(t));
        }
        return None;
    }
    let limit: u64 = if neg {
        9223372036854775808u64
    } else {
        9223372036854775807u64
    };
    let mut acc: u64 = 0;
    while idx < end
        invariant
            start <= digits_start <= idx <= end <= v.len(),
            t == v@.subrange(start as int, end as int),
            d == t.subrange(digits_start - start, t.len() as int),
            limit == (if neg {
                9223372036854775808u64
            } else {
                9223372036854775807u64
            }),
            digits_start <= start + 1,
            digits_start == start + 1 ==> (start < end && (t[0] == '+' || t[0] == '-')),
            digits_start == start ==> !(start < end && (t[0] == '+' || t[0] == '-')),
            neg == (start < end && t[0] == '-'),
            digits_start < end,
            forall|j: int| 0 <= j < idx - digits_start ==> is_digit_char(d[j]),
            acc as int == digits_val(d.subrange(0, idx - digits_start)),
            acc <= limit,
        decreases end - idx,
    {
        let c = v[idx];
        proof {
            assert(d[idx - digits_start] == v@[idx as int]);
        }
        if !digit_char(c) {
            proof {
                assert(!all_digits(d));
                if digits_start == start + 1 {
                    assert(d =~= t.drop_first());
                } else {
                    assert(d =~= t);
                }
                assert(!int_lit_ok(t));
            }
            return None;
        }
        let dv: u64 = (c as u32) as u64 - 0x30;
        if acc > limit / 10 || (acc == limit / 10 && dv > limit % 10) {
            proof {
                let k = idx - digits_start;
                let p = d.subrange(0, k + 1);
                assert(p.drop_last() =~= d.subrange(0, k));
                assert(p.last() == d[k]);
                assert(digits_val(p) == 10 * (acc as int) + dv);
                assert(10 * (acc as int) + dv > limit);
                if digits_start == start + 1 {
                    assert(d =~= t.drop_first());
                } else {
                    assert(d =~= t);
                }
                if int_lit_ok(t) {
                    assert(all_digits(d));
                    lemma_digits_prefix(d, k + 1);
                    assert(digits_val(d) > limit);
                    assert(int_lit_val(t) == if neg {
                        -digits_val(d)
                    } else {
                        digits_val(d)
                    });
                    assert(!(i64::MIN <= int_lit_val(t) <= i64::MAX));
                }
            }
            return None;
        }
        proof {
            let k = idx - digits_start;
            let p = d.subrange(0, k + 1);
            assert(p.drop_last() =~= d.subrange(0, k));
            assert(p.last() == d[k]);
        }
        acc = acc * 10 + dv;
        idx += 1;
    }
    proof {
        assert(d.subrange(0, idx - digits_start) =~= d);
        assert(all_digits(d));
        assert(d.len() > 0);
        if digits_start == start + 1 {
            assert(d =~= t.drop_first());
        } else {
            assert(d =~= t);
        }
        assert(int_lit_ok(t));
        assert(int_lit_val(t) == if neg {
            -(acc as int)
        } else {
            acc as int
        });
    }
    if neg {
        if acc == 9223372036854775808u64 {
            Some(i64::MIN)
        } else {
            Some(-(acc as i64))
        }
    } else {
        Some(acc as i64)
    }
}

/// Whether the characters between `start` and `end` form a well-formed
/// float literal, exactly as `float_lit_ok` describes.
fn float_ok_range(v: &Vec<char>, start: usize, end: usize) -> (r: bool)
    requires
        start <= end <= v.len(),
    ensures
        r == float_lit_ok(v@.subrange(start as int, end as int)),
{
    let ghost t = v@.subrange(start as int, end as int);
    let mut i0 = start;
    if start < end && (v[start] == '+' || v[start] == '-') {
        i0 = start + 1;
    }
    proof {
        if t.len() > 0 {
            assert(t[0] == v@[start as int]);
        }
    }
    let j1 = exec_digit_run(v, start, end, i0);
    let mut j2 = j1;
    if j1 < end && v[j1] == '.' {
        j2 = j1 + 1;
    }
    proof {
        if j1 < end {
            assert(t[j1 - start] == v@[j1 as int]);
        }
    }
    let j3 = exec_digit_run(v, start, end, j2);
    let mantissa = (j1 - i0) + (j3 - j2) > 0;
    if !mantissa {
        return false;
    }
    if j3 == end {
        return true;
    }
    let c = v[j3];
    proof {
        assert(t[j3 - start] == v@[j3 as int]);
    }
    if c != 'e' && c != 'E' {
        return false;
    }
    let j4 = j3 + 1;
    let mut j5 = j4;
    if j4 < end && (v[j4] == '+' || v[j4] == '-') {
        j5 = j4 + 1;
    }
    proof {
        if j4 < end {
            assert(t[j4 - start] == v@[j4 as int]);
        }
    }
    let j6 = exec_digit_run(v, start, end, j5);
    j6 > j5 && j6 == end
}

pub open spec fn all_hex(t: Seq<char>) -> bool {
    forall|j: int| 0 <= j < t.len() ==> hex_digit_val(t[j]) is Some
}

/// The value of a sequence of hexadecimal digits.
pub open spec fn hex_val(t: Seq<char>) -> int
    decreases t.len(),
{
    if t.len() == 0 {
        0
    } else {
        16 * hex_val(t.drop_last()) + (match hex_digit_val(t.last()) {
            Some(v) => v as int,
            None => 0,
        })
    }
}

pub open spec fn pow16(n: nat) -> int
    decreases n,
{
    if n == 0 {
        1
    } else {
        16 * pow16((n - 1) as nat)
    }
}

pub proof fn lemma_hex_val_bound(t: Seq<char>)
    requires
        all_hex(t),
    ensures
        0 <= hex_val(t) < pow16(t.len()),
    decreases t.len(),
{
    if t.len() > 0 {
        assert(all_hex(t.drop_last()));
        lemma_hex_val_bound(t.drop_last());
    }
}

/// What parsing the collected escape digits as a base-16 unsigned number
/// yields: an optional sign then at least one hexadecimal digit; a minus
/// sign is accepted only on a zero value.
pub open spec fn sp_hex_u32(t: Seq<char>) -> Option<int> {
    if t.len() > 0 && (t[0] == '+' || t[0] == '-') {
        let d = t.drop_first();
        if d.len() > 0 && all_hex(d) {
            if t[0] == '-' {
                if hex_val(d) == 0 {
                    Some(0)
                } else {
                    None
                }
            } else {
                Some(hex_val(d))
            }
        } else {
            None
        }
    } else if t.len() > 0 && all_hex(t) {
        Some(hex_val(t))
    } else {
        None
    }
}

/// The character contributed by a `\u` escape: none when the digits do not
/// parse or when the code is not a Unicode scalar value.
pub open spec fn sp_unicode_escape_char(hex: Seq<char>) -> Option<char> {
    match sp_hex_u32(hex) {
        Some(code) => if vstd::utf8::is_scalar(code as u32) {
            Some((code as u32) as char)
        } else {
            None
        },
        None => None,
    }
}

/// The body of a string literal from `i` (just past the opening quote) to
/// its closing quote: plain characters are taken verbatim; a backslash
/// starts an escape (`n`, `r`, `t`, backslash, quote, any other single
/// character taken verbatim, or `u` followed by up to four characters read
/// blindly as hexadecimal digits, contributing a character only when they
/// parse to a scalar value); input ending before the closing quote fails.
pub open spec fn sp_string_body(s: Seq<char>, i: int) -> Option<(Seq<char>, int)>
    decreases s.len() - i,
{
    if i < 0 || i >= s.len() {
        None
    } else if s[i] == '"' {
        Some((Seq::empty(), i + 1))
    } else if s[i] == '\\' {
        if i + 1 >= s.len() {
            None
        } else {
            let c = s[i + 1];
            if c == 'u' {
                let j: int = if i + 6 <= s.len() {
                    i + 6
                } else {
                    s.len() as int
                };
                let hex = s.subrange(i + 2, j);
                match sp_string_body(s, j) {
                    Some((rest, e)) => match sp_unicode_escape_char(hex) {
                        Some(u) => Some((seq![u] + rest, e)),
                        None => Some((rest, e)),
                    },
                    None => None,
                }
            } else {
                let u: char = if c == 'n' {
                    '\n'
                } else if c == 'r' {
                    '\r'
                } else if c == 't' {
                    '\t'
                } else {
                    c
                };
                match sp_string_body(s, i + 2) {
                    Some((rest, e)) => Some((seq![u] + rest, e)),
                    None => None,
                }
            }
        }
    } else {
        match sp_string_body(s, i + 1) {
            Some((rest, e)) => Some((seq![s[i]] + rest, e)),
            None => None,
        }
    }
}

/// A string literal at `i`: an opening quote followed by a body.
pub open spec fn sp_string(s: Seq<char>, i: int) -> Option<(Seq<char>, int)> {
    if 0 <= i < s.len() && s[i] == '"' {
        sp_string_body(s, i + 1)
    } else {
        None
    }
}

/// Parses up to four collected escape digits as a base-16 number, exactly
/// as `sp_hex_u32` describes.
fn hex4_val(buf: &Vec<char>) -> (r: Option<u32>)
    requires
        buf.len() <= 4,
    ensures
        match r {
            Some(x) => sp_hex_u32(buf@) == Some(x as int),
            None => sp_hex_u32(buf@) is None,
        },
{
    let mut idx: usize = 0;
    let mut neg = false;
    let mut signed = false;
    if buf.len() > 0 && (buf[0] == '+' || buf[0] == '-') {
        signed = true;
        neg = buf[0] == '-';
        idx = 1;
    }
    if idx >= buf.len() {
        return None;
    }
    let ghost d = if signed {
        buf@.drop_first()
    } else {
        buf@
    };
    let ghost idx0 = idx as int;
    let mut acc: u32 = 0;
    while idx < buf.len()
        invariant
            buf.len() <= 4,
            idx0 <= idx as int <= buf.len(),
            idx0 == (if signed {
                1int
            } else {
                0int
            }),
            signed == (buf@.len() > 0 && (buf@[0] == '+' || buf@[0] == '-')),
            neg == (buf@.len() > 0 && buf@[0] == '-'),
            d == (if signed {
                buf@.drop_first()
            } else {
                buf@
            }),
            d.len() > 0,
            forall|j: int| 0 <= j < idx - idx0 ==> hex_digit_val(d[j]) is Some,
            acc as int == hex_val(d.subrange(0, idx - idx0)),
        decreases buf.len() - idx,
    {
        let c = buf[idx];
        proof {
            assert(d[idx - idx0] == buf@[idx as int]);
        }
        match hex_digit(c) {
            Some(v) => {
                proof {
                    let k = idx - idx0;
                    let p = d.subrange(0, k + 1);
                    assert(p.drop_last() =~= d.subrange(0, k));
                    assert(p.last() == d[k]);
                    assert(all_hex(d.subrange(0, k)));
                    lemma_hex_val_bound(d.subrange(0, k));
                    assert(pow16(0) == 1);
                    assert(pow16(1) == 16);
                    assert(pow16(2) == 256);
                    assert(pow16(3) == 4096);
                    assert(k == 0 || k == 1 || k == 2 || k == 3);
                    assert(hex_val(d.subrange(0, k)) < 4096);
                }
                acc = acc * 16 + v;
            },
            None => {
                proof {
                    assert(!all_hex(d));
                }
                return None;
            },
        }
        idx += 1;
    }
    proof {
        assert(d.subrange(0, idx - idx0) =~= d);
        assert(all_hex(d));
    }
    if neg {
        if acc == 0 {
            Some(0)
        } else {
            None
        }
    } else {
        Some(acc)
    }
}


/// A JSON value at `i`, after leading whitespace: dispatched on the first
/// significant character.
pub open spec fn sp_value(s: Seq<char>, i: int) -> Option<(JsonVal, int)>
    decreases s.len() - i, 2int,
    when true
    via sp_value_via
{
    let j = sp_ws(s, i);
    if 0 <= j < s.len() {
        let c = s[j];
        if c == '"' {
            match sp_string(s, j) {
                Some((t, e)) => Some((JsonVal::Str(t), e)),
                None => None,
            }
        } else if c == '[' {
            match sp_array(s, j) {
                Some((a, e)) => Some((JsonVal::Arr(a), e)),
                None => None,
            }
        } else if c == '{' {
            match sp_object(s, j) {
                Some((o, e)) => Some((JsonVal::Obj(o), e)),
                None => None,
            }
        } else if c == 't' || c == 'f' {
            sp_bool(s, j)
        } else if c == 'n' {
            sp_null(s, j)
        } else if is_digit_char(c) || c == '-' {
            sp_number(s, j)
        } else {
            None
        }
    } else {
        None
    }
}

#[via_fn]
proof fn sp_value_via(s: Seq<char>, i: int) {
    lemma_sp_ws_bounds(s, i);
}

/// A JSON array at `i`: `[`, an optional list of values separated by `,`,
/// then `]`.
pub open spec fn sp_array(s: Seq<char>, i: int) -> Option<(Seq<JsonVal>, int)>
    decreases s.len() - i, 1int,
    when true
    via sp_array_via
{
    if 0 <= i < s.len() && s[i] == '[' {
        let k = sp_ws(s, i + 1);
        if 0 <= k < s.len() && s[k] == ']' {
            Some((Seq::empty(), k + 1))
        } else {
            sp_array_items(s, k)
        }
    } else {
        None
    }
}

#[via_fn]
proof fn sp_array_via(s: Seq<char>, i: int) {
    lemma_sp_ws_bounds(s, i + 1);
}

/// One or more comma-separated values, then `]`.
pub open spec fn sp_array_items(s: Seq<char>, i: int) -> Option<(Seq<JsonVal>, int)>
    decreases s.len() - i, 3int,
    when true
    via sp_array_items_via
{
    match sp_value(s, i) {
        Some((v, j)) => {
            let k = sp_ws(s, j);
            if 0 <= k < s.len() && s[k] == ',' {
                if k + 1 > i {
                    match sp_array_items(s, k + 1) {
                        Some((rest, e)) => Some((seq![v] + rest, e)),
                        None => None,
                    }
                } else {
                    None
                }
            } else if 0 <= k < s.len() && s[k] == ']' {
                Some((seq![v], k + 1))
            } else {
                None
            }
        },
        None => None,
    }
}

#[via_fn]
proof fn sp_array_items_via(s: Seq<char>, i: int) {
}

/// A JSON object at `i`: `{`, an optional list of `"key": value` members
/// separated by `,`, then `}`. Members are kept in source order.
pub open spec fn sp_object(s: Seq<char>, i: int) -> Option<(Seq<(Seq<char>, JsonVal)>, int)>
    decreases s.len() - i, 1int,
    when true
    via sp_object_via
{
    if 0 <= i < s.len() && s[i] == '{' {
        let k = sp_ws(s, i + 1);
        if 0 <= k < s.len() && s[k] == '}' {
            Some((Seq::empty(), k + 1))
        } else {
            sp_object_items(s, k)
        }
    } else {
        None
    }
}

#[via_fn]
proof fn sp_object_via(s: Seq<char>, i: int) {
    lemma_sp_ws_bounds(s, i + 1);
}

/// One or more comma-separated `"key": value` members, then `}`.
pub open spec fn sp_object_items(s: Seq<char>, i: int) -> Option<
    (Seq<(Seq<char>, JsonVal)>, int),
>
    decreases s.len() - i, 3int,
    when true
    via sp_object_items_via
{
    let k = sp_ws(s, i);
    match sp_string(s, k) {
        Some((key, j)) => {
            let m = sp_ws(s, j);
            if 0 <= m < s.len() && s[m] == ':' {
                if m + 1 > i {
                    match sp_value(s, m + 1) {
                        Some((v, p)) => {
                            let q = sp_ws(s, p);
                            if 0 <= q < s.len() && s[q] == ',' {
                                if q + 1 > i {
                                    match sp_object_items(s, q + 1) {
                                        Some((rest, e)) => Some((seq![(key, v)] + rest, e)),
                                        None => None,
                                    }
                                } else {
                                    None
                                }
                            } else if 0 <= q < s.len() && s[q] == '}' {
                                Some((seq![(key, v)], q + 1))
                            } else {
                                None
                            }
                        },
                        None => None,
                    }
                } else {
                    None
                }
            } else {
                None
            }
        },
        None => None,
    }
}

#[via_fn]
proof fn sp_object_items_via(s: Seq<char>, i: int) {
}


/// String coercion out of the tree: the text of a string value, nothing for
/// any other kind.
pub open spec fn sp_as_string(v: JsonVal) -> Option<Seq<char>> {
    match v {
        JsonVal::Str(t) => Some(t),
        _ => None,
    }
}

/// Boolean coercion out of the tree.
pub open spec fn sp_as_bool(v: JsonVal) -> Option<bool> {
    match v {
        JsonVal::Bool(b) => Some(b),
        _ => None,
    }
}

pub open spec fn sp_str_field(obj: Seq<(Seq<char>, JsonVal)>, key: Seq<char>) -> Option<
    Seq<char>,
> {
    match sp_get(obj, key) {
        Some(v) => sp_as_string(v),
        None => None,
    }
}

pub open spec fn sp_bool_field(obj: Seq<(Seq<char>, JsonVal)>, key: Seq<char>) -> Option<bool> {
    match sp_get(obj, key) {
        Some(v) => sp_as_bool(v),
        None => None,
    }
}

pub proof fn lemma_sp_get_smaller(pairs: Seq<(Seq<char>, JsonVal)>, key: Seq<char>)
    requires
        sp_get(pairs, key) is Some,
    ensures
        decreases_to!(pairs => sp_get(pairs, key)->0),
    decreases pairs.len(),
{
    if pairs.len() > 0 && pairs.last().0 == key {
        assert(decreases_to!(pairs => pairs[pairs.len() - 1]));
        assert(decreases_to!(pairs[pairs.len() - 1] => pairs[pairs.len() - 1].1));
    } else {
        lemma_sp_get_smaller(pairs.drop_last(), key);
        assert(decreases_to!(pairs => pairs.drop_last()));
    }
}

/// The input parameter extracted from one object: present exactly when the
/// object has a string `type` field; every other field is optional and
/// coerces to absent when of the wrong kind.
pub open spec fn sp_input_of(obj: Seq<(Seq<char>, JsonVal)>) -> Option<ParamModel>
    decreases obj,
    when true
    via sp_input_of_via
{
    match sp_str_field(obj, "type"@) {
        Some(t) => Some(ParamModel {
            name: sp_str_field(obj, "name"@),
            type_str: t,
            indexed: sp_bool_field(obj, "indexed"@),
            internal_type: sp_str_field(obj, "internalType"@),
            components: match sp_get(obj, "components"@) {
                Some(v) => sp_inputs_of(v),
                None => None,
            },
        }),
        None => None,
    }
}

#[via_fn]
proof fn sp_input_of_via(obj: Seq<(Seq<char>, JsonVal)>) {
    if sp_get(obj, "components"@) is Some {
        lemma_sp_get_smaller(obj, "components"@);
    }
}

/// The input parameters extracted from a value: present exactly when the
/// value is a list; elements that are not objects or lack a string `type`
/// are silently dropped.
pub open spec fn sp_inputs_of(v: JsonVal) -> Option<Seq<ParamModel>>
    decreases v,
{
    match v {
        JsonVal::Arr(a) => Some(sp_inputs_list(a)),
        _ => None,
    }
}

pub open spec fn sp_inputs_list(a: Seq<JsonVal>) -> Seq<ParamModel>
    decreases a,
    when true
    via sp_inputs_list_via
{
    if a.len() == 0 {
        Seq::empty()
    } else {
        let rest = sp_inputs_list(a.drop_last());
        match a.last() {
            JsonVal::Obj(obj) => match sp_input_of(obj) {
                Some(p) => rest.push(p),
                None => rest,
            },
            _ => rest,
        }
    }
}

#[via_fn]
proof fn sp_inputs_list_via(a: Seq<JsonVal>) {
    if a.len() > 0 {
        assert(decreases_to!(a => a.drop_last()));
        assert(decreases_to!(a => a[a.len() - 1]));
        if let JsonVal::Obj(obj) = a[a.len() - 1] {
            assert(decreases_to!(a[a.len() - 1] => obj));
        }
    }
}

/// The output parameter extracted from one object, as `sp_input_of` minus
/// the `indexed` flag.
pub open spec fn sp_output_of(obj: Seq<(Seq<char>, JsonVal)>) -> Option<OutModel>
    decreases obj,
    when true
    via sp_output_of_via
{
    match sp_str_field(obj, "type"@) {
        Some(t) => Some(OutModel {
            name: sp_str_field(obj, "name"@),
            type_str: t,
            internal_type: sp_str_field(obj, "internalType"@),
            components: match sp_get(obj, "components"@) {
                Some(v) => sp_outputs_of(v),
                None => None,
            },
        }),
        None => None,
    }
}

#[via_fn]
proof fn sp_output_of_via(obj: Seq<(Seq<char>, JsonVal)>) {
    if sp_get(obj, "components"@) is Some {
        lemma_sp_get_smaller(obj, "components"@);
    }
}

pub open spec fn sp_outputs_of(v: JsonVal) -> Option<Seq<OutModel>>
    decreases v,
{
    match v {
        JsonVal::Arr(a) => Some(sp_outputs_list(a)),
        _ => None,
    }
}

pub open spec fn sp_outputs_list(a: Seq<JsonVal>) -> Seq<OutModel>
    decreases a,
    when true
    via sp_outputs_list_via
{
    if a.len() == 0 {
        Seq::empty()
    } else {
        let rest = sp_outputs_list(a.drop_last());
        match a.last() {
            JsonVal::Obj(obj) => match sp_output_of(obj) {
                Some(p) => rest.push(p),
                None => rest,
            },
            _ => rest,
        }
    }
}

#[via_fn]
proof fn sp_outputs_list_via(a: Seq<JsonVal>) {
    if a.len() > 0 {
        assert(decreases_to!(a => a.drop_last()));
        assert(decreases_to!(a => a[a.len() - 1]));
        if let JsonVal::Obj(obj) = a[a.len() - 1] {
            assert(decreases_to!(a[a.len() - 1] => obj));
        }
    }
}

/// The interface entry extracted from one object: present exactly when the
/// object has a string `type` field.
pub open spec fn sp_item_of(obj: Seq<(Seq<char>, JsonVal)>) -> Option<ItemModel> {
    match sp_str_field(obj, "type"@) {
        Some(k) => Some(ItemModel {
            kind: k,
            name: sp_str_field(obj, "name"@),
            inputs: match sp_get(obj, "inputs"@) {
                Some(v) => sp_inputs_of(v),
                None => None,
            },
            outputs: match sp_get(obj, "outputs"@) {
                Some(v) => sp_outputs_of(v),
                None => None,
            },
            state_mutability: sp_str_field(obj, "stateMutability"@),
            anonymous: sp_bool_field(obj, "anonymous"@),
            payable: sp_bool_field(obj, "payable"@),
            constant: sp_bool_field(obj, "constant"@),
        }),
        None => None,
    }
}

/// The entries extracted from the root list: elements that are not objects
/// or lack a string `type` are silently dropped, and extraction of the
/// remaining elements goes on.
pub open spec fn sp_items_of(arr: Seq<JsonVal>) -> Seq<ItemModel>
    decreases arr,
{
    if arr.len() == 0 {
        Seq::empty()
    } else {
        let rest = sp_items_of(arr.drop_last());
        match arr.last() {
            JsonVal::Obj(obj) => match sp_item_of(obj) {
                Some(it) => rest.push(it),
                None => rest,
            },
            _ => rest,
        }
    }
}

/// What parsing a whole interface description from position `i` yields:
/// either a root list, or a root object whose `abi` key holds a list; the
/// entries are extracted from that list. Anything after the root value is
/// ignored.
pub open spec fn sp_parse_abi(s: Seq<char>, i: int) -> Option<Seq<ItemModel>> {
    let j = sp_ws(s, i);
    if 0 <= j < s.len() && s[j] == '[' {
        match sp_array(s, j) {
            Some((arr, e)) => Some(sp_items_of(arr)),
            None => None,
        }
    } else if 0 <= j < s.len() && s[j] == '{' {
        match sp_object(s, j) {
            Some((obj, e)) => match sp_get(obj, "abi"@) {
                Some(JsonVal::Arr(arr)) => Some(sp_items_of(arr)),
                _ => None,
            },
            None => None,
        }
    } else {
        None
    }
}

impl Value {
    /// The text of a string value, nothing for any other kind.
    pub fn as_string(&self) -> (r: Option<String>)
        ensures
            opt_str_model(r) == sp_as_string(value_model(*self)),
    {
        match self {
            Value::Str(s) => Some(s.clone()),
            _ => None,
        }
    }

    /// The value of a boolean, nothing for any other kind.
    pub fn as_bool(&self) -> (r: Option<bool>)
        ensures
            r == sp_as_bool(value_model(*self)),
    {
        match self {
            Value::Bool(b) => Some(*b),
            _ => None,
        }
    }
}

/// The value bound to a key in an object, scanning bindings from the most
/// recent: exactly `sp_get` on the object's model.
fn obj_get<'a>(obj: &'a Vec<(String, Value)>, key: &str) -> (r: Option<&'a Value>)
    ensures
        match r {
            Some(v) => sp_get(pair_models(obj@), key@) == Some(value_model(*v)) && exists|
                idx: int,
            | 0 <= idx < obj@.len() && *v == obj@[idx].1,
            None => sp_get(pair_models(obj@), key@) is None,
        },
{
    let ghost pairs = pair_models(obj@);
    proof {
        lemma_pair_models(obj@);
    }
    let mut i = obj.len();
    proof {
        assert(pairs.subrange(0, i as int) =~= pairs);
    }
    while i > 0
        invariant
            i <= obj.len(),
            pairs == pair_models(obj@),
            pairs.len() == obj@.len(),
            forall|j: int| 0 <= j < obj@.len() ==> pairs[j] == (obj@[j].0@, value_model(
                obj@[j].1,
            )),
            sp_get(pairs, key@) == sp_get(pairs.subrange(0, i as int), key@),
        decreases i,
    {
        i = i - 1;
        let pair = &obj[i];
        proof {
            assert(pairs.subrange(0, i + 1 as int).last() == pairs[i as int]);
            assert(pairs.subrange(0, i + 1 as int).drop_last() =~= pairs.subrange(0, i as int));
        }
        if str_eq(pair.0.as_str(), key) {
            return Some(&pair.1);
        }
    }
    proof {
        assert(pairs.subrange(0, 0) =~= Seq::<(Seq<char>, JsonVal)>::empty());
    }
    None
}

/// The string held by a key of the object, when the key is bound to a
/// string.
fn field_string(obj: &Vec<(String, Value)>, key: &str) -> (r: Option<String>)
    ensures
        opt_str_model(r) == sp_str_field(pair_models(obj@), key@),
{
    match obj_get(obj, key) {
        Some(v) => v.as_string(),
        None => None,
    }
}

/// The boolean held by a key of the object, when the key is bound to a
/// boolean.
fn field_bool(obj: &Vec<(String, Value)>, key: &str) -> (r: Option<bool>)
    ensures
        r == sp_bool_field(pair_models(obj@), key@),
{
    match obj_get(obj, key) {
        Some(v) => v.as_bool(),
        None => None,
    }
}

/// Parses raw interface-description text. The parser holds a private cursor
/// over the full character buffer of the input.
pub struct JsonParser {
    input: Vec<char>,
    position: usize,
}

impl JsonParser {
    /// The character sequence being parsed.
    pub closed spec fn text(&self) -> Seq<char> {
        self.input@
    }

    /// The cursor position.
    pub closed spec fn pos(&self) -> int {
        self.position as int
    }

    /// The cursor never runs past the end of the buffer.
    pub closed spec fn wf(&self) -> bool {
        self.position <= self.input.len()
    }

    pub fn new(input: &str) -> (r: JsonParser)
        ensures
            r.text() == input@,
            r.pos() == 0,
            r.wf(),
    {
        JsonParser { input: str_to_chars(input), position: 0 }
    }

    fn current(&self) -> (r: Option<char>)
        ensures
            r == (if self.pos() < self.text().len() {
                Some(self.text()[self.pos()])
            } else {
                None::<char>
            }),
    {
        if self.position < self.input.len() {
            Some(self.input[self.position])
        } else {
            None
        }
    }

    fn advance(&mut self)
        requires
            old(self).pos() < old(self).text().len(),
        ensures
            final(self).text() == old(self).text(),
            final(self).pos() == old(self).pos() + 1,
            final(self).wf(),
    {
        proof {
            assert(self.position < self.input.len());
        }
        self.position = self.position + 1;
    }

    fn skip_whitespace(&mut self)
        requires
            old(self).wf(),
        ensures
            final(self).text() == old(self).text(),
            final(self).wf(),
            old(self).pos() <= final(self).pos(),
            final(self).pos() == sp_ws(old(self).text(), old(self).pos()),
    {
        while self.position < self.input.len() && ws_char(self.input[self.position])
            invariant
                self.input == old(self).input,
                old(self).position <= self.position <= self.input.len(),
                sp_ws(self.input@, old(self).position as int)
                    == sp_ws(self.input@, self.position as int),
            decreases self.input.len() - self.position,
        {
            self.position = self.position + 1;
        }
    }

    fn expect(&mut self, expected: char) -> (r: Result<(), String>)
        requires
            old(self).wf(),
        ensures
            final(self).text() == old(self).text(),
            final(self).wf(),
            match r {
                Ok(_) => old(self).pos() < old(self).text().len()
                    && old(self).text()[old(self).pos()] == expected
                    && final(self).pos() == old(self).pos() + 1,
                Err(_) => final(self).pos() == old(self).pos()
                    && !(old(self).pos() < old(self).text().len()
                        && old(self).text()[old(self).pos()] == expected),
            },
    {
        if self.position < self.input.len() && self.input[self.position] == expected {
            self.position = self.position + 1;
            Ok(())
        } else {
            let mut m = String::from_str("Expected '");
            push_char(&mut m, expected);
            push_char(&mut m, '\'');
            Err(m)
        }
    }

    fn consume_word(&mut self, word: &str) -> (r: bool)
        requires
            old(self).wf(),
        ensures
            final(self).text() == old(self).text(),
            final(self).wf(),
            r == word_at(old(self).text(), old(self).pos(), word@),
            r ==> final(self).pos() == old(self).pos() + word@.len(),
            !r ==> final(self).pos() == old(self).pos(),
    {
        let n = word.unicode_len();
        let start = self.position;
        let mut i: usize = 0;
        while i < n
            invariant
                self.input == old(self).input,
                n == word@.len(),
                start == old(self).position,
                i <= n,
                self.position == start + i,
                self.position <= self.input.len(),
                forall|j: int| 0 <= j < i ==> self.input@[start + j] == word@[j],
            decreases n - i,
        {
            let expected = word.get_char(i);
            if self.position >= self.input.len() || self.input[self.position] != expected {
                self.position = start;
                return false;
            }
            self.position = self.position + 1;
            i += 1;
        }
        proof {
            assert(self.input@.subrange(start as int, start + n as int) =~= word@);
        }
        true
    }

    fn parse_bool(&mut self) -> (r: Result<Value, String>)
        requires
            old(self).wf(),
        ensures
            final(self).text() == old(self).text(),
            final(self).wf(),
            match r {
                Ok(val) => sp_bool(old(self).text(), old(self).pos())
                    == Some((value_model(val), final(self).pos()))
                    && final(self).pos() > old(self).pos(),
                Err(_) => sp_bool(old(self).text(), old(self).pos()) is None
                    && final(self).pos() == old(self).pos(),
            },
    {
        proof {
            reveal_strlit("true");
            reveal_strlit("false");
        }
        if self.consume_word("true") {
            Ok(Value::Bool(true))
        } else if self.consume_word("false") {
            Ok(Value::Bool(false))
        } else {
            Err(String::from_str("Invalid boolean"))
        }
    }

    fn parse_null(&mut self) -> (r: Result<Value, String>)
        requires
            old(self).wf(),
        ensures
            final(self).text() == old(self).text(),
            final(self).wf(),
            match r {
                Ok(val) => sp_null(old(self).text(), old(self).pos())
                    == Some((value_model(val), final(self).pos()))
                    && final(self).pos() > old(self).pos(),
                Err(_) => sp_null(old(self).text(), old(self).pos()) is None
                    && final(self).pos() == old(self).pos(),
            },
    {
        proof {
            reveal_strlit("null");
        }
        if self.consume_word("null") {
            Ok(Value::Null)
        } else {
            Err(String::from_str("Invalid null"))
        }
    }

    fn parse_number(&mut self) -> (r: Result<Value, String>)
        requires
            old(self).wf(),
        ensures
            final(self).text() == old(self).text(),
            final(self).wf(),
            match r {
                Ok(val) => sp_number(old(self).text(), old(self).pos())
                    == Some((value_model(val), final(self).pos()))
                    && final(self).pos() >= old(self).pos(),
                Err(_) => sp_number(old(self).text(), old(self).pos()) is None,
            },
    {
        let start = self.position;
        while self.position < self.input.len() && num_char(self.input[self.position])
            invariant
                self.input == old(self).input,
                start == old(self).position,
                start <= self.position <= self.input.len(),
                sp_num_end(self.input@, start as int)
                    == sp_num_end(self.input@, self.position as int),
            decreases self.input.len() - self.position,
        {
            self.position = self.position + 1;
        }
        let end = self.position;
        proof {
            assert(sp_num_end(self.input@, end as int) == end as int);
        }
        let ghost t = self.input@.subrange(start as int, end as int);
        let mut has_marker = false;
        let mut k = start;
        while k < end
            invariant
                self.input == old(self).input,
                start <= k <= end <= self.input.len(),
                has_marker == exists|j: int|
                    start <= j < k && (self.input@[j] == '.' || self.input@[j] == 'e'
                        || self.input@[j] == 'E'),
            decreases end - k,
        {
            let c = self.input[k];
            if c == '.' || c == 'e' || c == 'E' {
                has_marker = true;
            }
            k += 1;
        }
        proof {
            if has_marker {
                let j = choose|j: int|
                    start <= j < end && (self.input@[j] == '.' || self.input@[j] == 'e'
                        || self.input@[j] == 'E');
                assert(t[j - start] == self.input@[j]);
                assert(has_float_marker(t));
            } else {
                assert(forall|j: int| 0 <= j < t.len() ==> t[j] == self.input@[start + j]);
                assert(!has_float_marker(t));
            }
        }
        if has_marker {
            if float_ok_range(&self.input, start, end) {
                Ok(Value::Float)
            } else {
                Err(String::from_str("Invalid number"))
            }
        } else {
            match parse_i64_range(&self.input, start, end) {
                Some(x) => Ok(Value::Int(x)),
                None => Err(String::from_str("Invalid number")),
            }
        }
    }

    fn parse_string(&mut self) -> (r: Result<String, String>)
        requires
            old(self).wf(),
        ensures
            final(self).text() == old(self).text(),
            final(self).wf(),
            match r {
                Ok(out) => sp_string(old(self).text(), old(self).pos())
                    == Some((out@, final(self).pos()))
                    && final(self).pos() > old(self).pos(),
                Err(_) => sp_string(old(self).text(), old(self).pos()) is None,
            },
    {
        let ghost s = old(self).text();
        let ghost i0 = old(self).pos() + 1;
        match self.expect('"') {
            Ok(_) => {},
            Err(m) => {
                return Err(m);
            },
        }
        let mut out = String::new();
        while self.position < self.input.len()
            invariant
                self.input@ == s,
                s == old(self).text(),
                old(self).wf(),
                i0 == old(self).pos() + 1,
                old(self).pos() < s.len(),
                s[old(self).pos()] == '"',
                i0 <= self.position as int,
                self.position <= self.input.len(),
                match sp_string_body(s, self.position as int) {
                    Some((rest, e)) => sp_string_body(s, i0) == Some((out@ + rest, e)),
                    None => sp_string_body(s, i0) is None,
                },
            decreases self.input.len() - self.position,
        {
            let ghost p = self.position as int;
            let c = self.input[self.position];
            if c == '"' {
                self.advance();
                proof {
                    assert(out@ + Seq::<char>::empty() =~= out@);
                }
                return Ok(out);
            } else if c == '\\' {
                self.advance();
                if self.position >= self.input.len() {
                    return Err(String::from_str("Unexpected end of string"));
                }
                let e = self.input[self.position];
                if e == 'u' {
                    self.advance();
                    let ghost p2 = self.position as int;
                    let mut hexbuf: Vec<char> = Vec::new();
                    let mut k: usize = 0;
                    while k < 4 && self.position < self.input.len()
                        invariant
                            self.input@ == s,
                            k <= 4,
                            p2 == p + 2,
                            0 <= p2,
                            p2 <= self.position as int <= self.input.len(),
                            self.position as int == p2 + k,
                            hexbuf@ == s.subrange(p2, p2 + k),
                        decreases 4 - k,
                    {
                        let hc = self.input[self.position];
                        hexbuf.push(hc);
                        proof {
                            assert(hexbuf@ =~= s.subrange(p2, p2 + (k + 1)));
                        }
                        self.advance();
                        k += 1;
                    }
                    let ghost j: int = if p + 6 <= s.len() { p + 6 } else { s.len() as int };
                    proof {
                        assert(self.position as int == j);
                        assert(hexbuf@ == s.subrange(p + 2, j));
                    }
                    let ghost out_before = out@;
                    match hex4_val(&hexbuf) {
                        Some(code) => {
                            match char_from_u32(code) {
                                Some(ch) => {
                                    push_char(&mut out, ch);
                                    proof {
                                        assert(code as int == (code as u32) as int);
                                        assert(sp_unicode_escape_char(hexbuf@) == Some(ch));
                                    }
                                },
                                None => {
                                    proof {
                                        assert(sp_unicode_escape_char(hexbuf@) is None);
                                    }
                                },
                            }
                        },
                        None => {
                            proof {
                                assert(sp_unicode_escape_char(hexbuf@) is None);
                            }
                        },
                    }
                    proof {
                        match sp_string_body(s, j) {
                            Some((rest, e2)) => {
                                match sp_unicode_escape_char(s.subrange(p + 2, j)) {
                                    Some(u) => {
                                        assert(sp_string_body(s, p)
                                            == Some::<(Seq<char>, int)>((seq![u] + rest, e2)));
                                        assert(out_before + (seq![u] + rest)
                                            =~= (out_before + seq![u]) + rest);
                                        assert(out@ == out_before + seq![u]);
                                    },
                                    None => {
                                        assert(sp_string_body(s, p)
                                            == Some::<(Seq<char>, int)>((rest, e2)));
                                        assert(out@ == out_before);
                                    },
                                }
                            },
                            None => {
                                assert(sp_string_body(s, p) is None);
                            },
                        }
                    }
                } else {
                    let t = if e == 'n' {
                        '\n'
                    } else if e == 'r' {
                        '\r'
                    } else if e == 't' {
                        '\t'
                    } else {
                        e
                    };
                    let ghost out_before = out@;
                    push_char(&mut out, t);
                    self.advance();
                    proof {
                        match sp_string_body(s, p + 2) {
                            Some((rest, e2)) => {
                                assert(sp_string_body(s, p)
                                    == Some::<(Seq<char>, int)>((seq![t] + rest, e2)));
                                assert(out_before + (seq![t] + rest)
                                    =~= (out_before + seq![t]) + rest);
                            },
                            None => {
                                assert(sp_string_body(s, p) is None);
                            },
                        }
                    }
                }
            } else {
                let ghost out_before = out@;
                push_char(&mut out, c);
                self.advance();
                proof {
                    match sp_string_body(s, p + 1) {
                        Some((rest, e2)) => {
                            assert(sp_string_body(s, p)
                                == Some::<(Seq<char>, int)>((seq![c] + rest, e2)));
                            assert(out_before + (seq![c] + rest)
                                =~= (out_before + seq![c]) + rest);
                        },
                        None => {
                            assert(sp_string_body(s, p) is None);
                        },
                    }
                }
            }
        }
        Err(String::from_str("Unterminated string"))
    }

    fn parse_value(&mut self) -> (r: Result<Value, String>)
        requires
            old(self).wf(),
        ensures
            final(self).text() == old(self).text(),
            final(self).wf(),
            match r {
                Ok(v) => sp_value(old(self).text(), old(self).pos())
                    == Some((value_model(v), final(self).pos()))
                    && final(self).pos() > old(self).pos(),
                Err(_) => sp_value(old(self).text(), old(self).pos()) is None,
            },
        decreases self.input.len() - self.position, 2int,
    {
        let ghost s = old(self).text();
        let ghost i = old(self).pos();
        self.skip_whitespace();
        let cur = self.current();
        match cur {
            None => Err(String::from_str("Unexpected character")),
            Some(c) => {
                if c == '"' {
                    match self.parse_string() {
                        Ok(st) => Ok(Value::Str(st)),
                        Err(m) => Err(m),
                    }
                } else if c == '[' {
                    match self.parse_array() {
                        Ok(a) => Ok(Value::Array(a)),
                        Err(m) => Err(m),
                    }
                } else if c == '{' {
                    match self.parse_object() {
                        Ok(o) => Ok(Value::Object(o)),
                        Err(m) => Err(m),
                    }
                } else if c == 't' || c == 'f' {
                    self.parse_bool()
                } else if c == 'n' {
                    self.parse_null()
                } else if digit_char(c) || c == '-' {
                    self.parse_number()
                } else {
                    Err(String::from_str("Unexpected character"))
                }
            },
        }
    }

    fn parse_array(&mut self) -> (r: Result<Vec<Value>, String>)
        requires
            old(self).wf(),
        ensures
            final(self).text() == old(self).text(),
            final(self).wf(),
            match r {
                Ok(vs) => sp_array(old(self).text(), old(self).pos())
                    == Some((value_models(vs@), final(self).pos()))
                    && final(self).pos() > old(self).pos(),
                Err(_) => sp_array(old(self).text(), old(self).pos()) is None,
            },
        decreases self.input.len() - self.position, 1int,
    {
        let ghost s = old(self).text();
        let ghost i = old(self).pos();
        match self.expect('[') {
            Ok(_) => {},
            Err(m) => {
                return Err(m);
            },
        }
        self.skip_whitespace();
        let ghost k = self.pos();
        if self.position < self.input.len() && self.input[self.position] == ']' {
            self.advance();
            let vs: Vec<Value> = Vec::new();
            proof {
                assert(value_models(vs@) =~= Seq::<JsonVal>::empty());
            }
            return Ok(vs);
        }
        proof {
            assert(sp_array(s, i) == sp_array_items(s, k));
        }
        let mut arr: Vec<Value> = Vec::new();
        loop
            invariant
                self.input@ == s,
                s == old(self).text(),
                i == old(self).pos(),
                self.position <= self.input.len(),
                k <= self.position as int,
                i < k,
                sp_array(s, i) == sp_array_items(s, k),
                match sp_array_items(s, self.position as int) {
                    Some((rest, e)) => sp_array_items(s, k)
                        == Some::<(Seq<JsonVal>, int)>((value_models(arr@) + rest, e)),
                    None => sp_array_items(s, k) is None,
                },
            decreases self.input.len() - self.position,
        {
            let ghost p = self.pos();
            match self.parse_value() {
                Ok(v) => {
                    self.skip_whitespace();
                    let ghost q = self.pos();
                    if self.position < self.input.len() && self.input[self.position] == ',' {
                        self.advance();
                        let ghost arr_before = arr@;
                        arr.push(v);
                        proof {
                            assert(arr@.drop_last() =~= arr_before);
                            assert(value_models(arr@)
                                == value_models(arr_before).push(value_model(v)));
                            match sp_array_items(s, q + 1) {
                                Some((rest, e)) => {
                                    assert(sp_array_items(s, p) == Some::<(Seq<JsonVal>, int)>(
                                        (seq![value_model(v)] + rest, e)));
                                    assert(value_models(arr_before) + (seq![value_model(v)]
                                        + rest) =~= value_models(arr@) + rest);
                                },
                                None => {
                                    assert(sp_array_items(s, p) is None);
                                },
                            }
                        }
                    } else if self.position < self.input.len() && self.input[self.position]
                        == ']' {
                        self.advance();
                        let ghost arr_before = arr@;
                        arr.push(v);
                        proof {
                            assert(arr@.drop_last() =~= arr_before);
                            assert(sp_array_items(s, p) == Some::<(Seq<JsonVal>, int)>(
                                (seq![value_model(v)], q + 1)));
                            assert(value_models(arr_before) + seq![value_model(v)]
                                =~= value_models(arr@));
                        }
                        return Ok(arr);
                    } else {
                        proof {
                            assert(sp_array_items(s, p) is None);
                        }
                        return Err(String::from_str("Expected ',' or ']' in array"));
                    }
                },
                Err(m) => {
                    return Err(m);
                },
            }
        }
    }

    fn parse_object(&mut self) -> (r: Result<Vec<(String, Value)>, String>)
        requires
            old(self).wf(),
        ensures
            final(self).text() == old(self).text(),
            final(self).wf(),
            match r {
                Ok(ps) => sp_object(old(self).text(), old(self).pos())
                    == Some((pair_models(ps@), final(self).pos()))
                    && final(self).pos() > old(self).pos(),
                Err(_) => sp_object(old(self).text(), old(self).pos()) is None,
            },
        decreases self.input.len() - self.position, 1int,
    {
        let ghost s = old(self).text();
        let ghost i = old(self).pos();
        match self.expect('{') {
            Ok(_) => {},
            Err(m) => {
                return Err(m);
            },
        }
        self.skip_whitespace();
        let ghost k = self.pos();
        if self.position < self.input.len() && self.input[self.position] == '}' {
            self.advance();
            let ps: Vec<(String, Value)> = Vec::new();
            proof {
                assert(pair_models(ps@) =~= Seq::<(Seq<char>, JsonVal)>::empty());
            }
            return Ok(ps);
        }
        proof {
            assert(sp_object(s, i) == sp_object_items(s, k));
        }
        let mut obj: Vec<(String, Value)> = Vec::new();
        loop
            invariant
                self.input@ == s,
                s == old(self).text(),
                i == old(self).pos(),
                self.position <= self.input.len(),
                k <= self.position as int,
                i < k,
                sp_object(s, i) == sp_object_items(s, k),
                match sp_object_items(s, self.position as int) {
                    Some((rest, e)) => sp_object_items(s, k)
                        == Some::<(Seq<(Seq<char>, JsonVal)>, int)>(
                        (pair_models(obj@) + rest, e)),
                    None => sp_object_items(s, k) is None,
                },
            decreases self.input.len() - self.position,
        {
            let ghost p = self.pos();
            self.skip_whitespace();
            let key = match self.parse_string() {
                Ok(st) => st,
                Err(m) => {
                    return Err(m);
                },
            };
            self.skip_whitespace();
            match self.expect(':') {
                Ok(_) => {},
                Err(m) => {
                    return Err(m);
                },
            }
            let value = match self.parse_value() {
                Ok(v) => v,
                Err(m) => {
                    return Err(m);
                },
            };
            self.skip_whitespace();
            let ghost q = self.pos();
            if self.position < self.input.len() && self.input[self.position] == ',' {
                self.advance();
                let ghost obj_before = obj@;
                obj.push((key, value));
                proof {
                    assert(obj@.drop_last() =~= obj_before);
                    assert(pair_models(obj@) == pair_models(obj_before).push(
                        (obj@.last().0@, value_model(obj@.last().1))));
                    match sp_object_items(s, q + 1) {
                        Some((rest, e)) => {
                            assert(sp_object_items(s, p)
                                == Some::<(Seq<(Seq<char>, JsonVal)>, int)>(
                                (seq![(obj@.last().0@, value_model(obj@.last().1))] + rest, e)));
                            assert(pair_models(obj_before) + (seq![
                                (obj@.last().0@, value_model(obj@.last().1))] + rest)
                                =~= pair_models(obj@) + rest);
                        },
                        None => {
                            assert(sp_object_items(s, p) is None);
                        },
                    }
                }
            } else if self.position < self.input.len() && self.input[self.position] == '}' {
                self.advance();
                let ghost obj_before = obj@;
                obj.push((key, value));
                proof {
                    assert(obj@.drop_last() =~= obj_before);
                    assert(sp_object_items(s, p)
                        == Some::<(Seq<(Seq<char>, JsonVal)>, int)>(
                        (seq![(obj@.last().0@, value_model(obj@.last().1))], q + 1)));
                    assert(pair_models(obj_before) + seq![
                        (obj@.last().0@, value_model(obj@.last().1))] =~= pair_models(obj@));
                }
                return Ok(obj);
            } else {
                proof {
                    assert(sp_object_items(s, p) is None);
                }
                return Err(String::from_str("Expected ',' or '}' in object"));
            }
        }
    }

    fn convert_to_input(&self, obj: &Vec<(String, Value)>) -> (r: Option<AbiInput>)
        ensures
            match r {
                Some(p) => sp_input_of(pair_models(obj@)) == Some(input_model(p)),
                None => sp_input_of(pair_models(obj@)) is None,
            },
        decreases *obj,
    {
        let t = match field_string(obj, "type") {
            Some(t) => t,
            None => {
                return None;
            },
        };
        let components = match obj_get(obj, "components") {
            Some(v) => {
                proof {
                    let idx = choose|idx: int| 0 <= idx < obj@.len() && *v == obj@[idx].1;
                    assert(decreases_to!(*obj => obj@));
                    assert(decreases_to!(obj@ => obj@[idx]));
                    assert(decreases_to!(obj@[idx] => obj@[idx].1));
                }
                self.convert_to_inputs(v)
            },
            None => None,
        };
        Some(AbiInput {
            name: field_string(obj, "name"),
            type_str: t,
            indexed: field_bool(obj, "indexed"),
            internal_type: field_string(obj, "internalType"),
            components,
        })
    }

    fn convert_to_inputs(&self, value: &Value) -> (r: Option<Vec<AbiInput>>)
        ensures
            match r {
                Some(ins) => sp_inputs_of(value_model(*value)) == Some(input_models(ins@)),
                None => sp_inputs_of(value_model(*value)) is None,
            },
        decreases *value,
    {
        match value {
            Value::Array(arr) => {
                let mut inputs: Vec<AbiInput> = Vec::new();
                let mut idx: usize = 0;
                proof {
                    lemma_value_models(arr@);
                }
                while idx < arr.len()
                    invariant
                        idx <= arr.len(),
                        value == Value::Array(*arr),
                        input_models(inputs@) == sp_inputs_list(
                            value_models(arr@).subrange(0, idx as int),
                        ),
                    decreases arr.len() - idx,
                {
                    let ghost vm = value_models(arr@);
                    let ghost prefix = vm.subrange(0, idx as int);
                    let ghost prefix1 = vm.subrange(0, idx + 1 as int);
                    proof {
                        lemma_value_models(arr@);
                        assert(prefix1.drop_last() =~= prefix);
                        assert(prefix1.last() == value_model(arr@[idx as int]));
                    }
                    let item = &arr[idx];
                    match item {
                        Value::Object(obj) => {
                            proof {
                                assert(*value == Value::Array(*arr));
                                assert(decreases_to!(*value => value->Array_0));
                                assert(value->Array_0 == *arr);
                                assert(decreases_to!(*arr => arr@));
                                assert(decreases_to!(arr@ => arr@[idx as int]));
                                assert(arr@[idx as int] == Value::Object(*obj));
                                assert(decreases_to!(arr@[idx as int] => arr@[idx as int]->Object_0));
                                assert(arr@[idx as int]->Object_0 == *obj);
                            }
                            match self.convert_to_input(obj) {
                                Some(p) => {
                                    let ghost before = inputs@;
                                    inputs.push(p);
                                    proof {
                                        assert(inputs@.drop_last() =~= before);
                                    }
                                },
                                None => {},
                            }
                        },
                        _ => {},
                    }
                    idx += 1;
                }
                proof {
                    assert(value_models(arr@).subrange(0, arr@.len() as int)
                        =~= value_models(arr@));
                }
                Some(inputs)
            },
            _ => None,
        }
    }

    fn convert_to_output(&self, obj: &Vec<(String, Value)>) -> (r: Option<AbiOutput>)
        ensures
            match r {
                Some(p) => sp_output_of(pair_models(obj@)) == Some(output_model(p)),
                None => sp_output_of(pair_models(obj@)) is None,
            },
        decreases *obj,
    {
        let t = match field_string(obj, "type") {
            Some(t) => t,
            None => {
                return None;
            },
        };
        let components = match obj_get(obj, "components") {
            Some(v) => {
                proof {
                    let idx = choose|idx: int| 0 <= idx < obj@.len() && *v == obj@[idx].1;
                    assert(decreases_to!(*obj => obj@));
                    assert(decreases_to!(obj@ => obj@[idx]));
                    assert(decreases_to!(obj@[idx] => obj@[idx].1));
                }
                self.convert_to_outputs(v)
            },
            None => None,
        };
        Some(AbiOutput {
            name: field_string(obj, "name"),
            type_str: t,
            internal_type: field_string(obj, "internalType"),
            components,
        })
    }

    fn convert_to_outputs(&self, value: &Value) -> (r: Option<Vec<AbiOutput>>)
        ensures
            match r {
                Some(outs) => sp_outputs_of(value_model(*value)) == Some(output_models(outs@)),
                None => sp_outputs_of(value_model(*value)) is None,
            },
        decreases *value,
    {
        match value {
            Value::Array(arr) => {
                let mut outputs: Vec<AbiOutput> = Vec::new();
                let mut idx: usize = 0;
                proof {
                    lemma_value_models(arr@);
                }
                while idx < arr.len()
                    invariant
                        idx <= arr.len(),
                        value == Value::Array(*arr),
                        output_models(outputs@) == sp_outputs_list(
                            value_models(arr@).subrange(0, idx as int),
                        ),
                    decreases arr.len() - idx,
                {
                    let ghost vm = value_models(arr@);
                    let ghost prefix = vm.subrange(0, idx as int);
                    let ghost prefix1 = vm.subrange(0, idx + 1 as int);
                    proof {
                        lemma_value_models(arr@);
                        assert(prefix1.drop_last() =~= prefix);
                        assert(prefix1.last() == value_model(arr@[idx as int]));
                    }
                    let item = &arr[idx];
                    match item {
                        Value::Object(obj) => {
                            proof {
                                assert(*value == Value::Array(*arr));
                                assert(decreases_to!(*value => value->Array_0));
                                assert(value->Array_0 == *arr);
                                assert(decreases_to!(*arr => arr@));
                                assert(decreases_to!(arr@ => arr@[idx as int]));
                                assert(arr@[idx as int] == Value::Object(*obj));
                                assert(decreases_to!(arr@[idx as int] => arr@[idx as int]->Object_0));
                                assert(arr@[idx as int]->Object_0 == *obj);
                            }
                            match self.convert_to_output(obj) {
                                Some(p) => {
                                    let ghost before = outputs@;
                                    outputs.push(p);
                                    proof {
                                        assert(outputs@.drop_last() =~= before);
                                    }
                                },
                                None => {},
                            }
                        },
                        _ => {},
                    }
                    idx += 1;
                }
                proof {
                    assert(value_models(arr@).subrange(0, arr@.len() as int)
                        =~= value_models(arr@));
                }
                Some(outputs)
            },
            _ => None,
        }
    }

    fn convert_to_abi_item(&self, obj: &Vec<(String, Value)>) -> (r: Option<AbiItem>)
        ensures
            match r {
                Some(it) => sp_item_of(pair_models(obj@)) == Some(item_model(it)),
                None => sp_item_of(pair_models(obj@)) is None,
            },
    {
        let kind = match field_string(obj, "type") {
            Some(t) => t,
            None => {
                return None;
            },
        };
        let inputs = match obj_get(obj, "inputs") {
            Some(v) => self.convert_to_inputs(v),
            None => None,
        };
        let outputs = match obj_get(obj, "outputs") {
            Some(v) => self.convert_to_outputs(v),
            None => None,
        };
        Some(AbiItem {
            kind,
            name: field_string(obj, "name"),
            inputs,
            outputs,
            state_mutability: field_string(obj, "stateMutability"),
            anonymous: field_bool(obj, "anonymous"),
            payable: field_bool(obj, "payable"),
            constant: field_bool(obj, "constant"),
        })
    }

    fn convert_to_abi_items(&self, arr: &Vec<Value>) -> (r: Result<Vec<AbiItem>, String>)
        ensures
            match r {
                Ok(items) => item_models(items@) == sp_items_of(value_models(arr@)),
                Err(_) => false,
            },
    {
        let mut items: Vec<AbiItem> = Vec::new();
        let mut idx: usize = 0;
        proof {
            lemma_value_models(arr@);
        }
        while idx < arr.len()
            invariant
                idx <= arr.len(),
                item_models(items@) == sp_items_of(value_models(arr@).subrange(0, idx as int)),
            decreases arr.len() - idx,
        {
            let ghost vm = value_models(arr@);
            let ghost prefix = vm.subrange(0, idx as int);
            let ghost prefix1 = vm.subrange(0, idx + 1 as int);
            proof {
                lemma_value_models(arr@);
                assert(prefix1.drop_last() =~= prefix);
                assert(prefix1.last() == value_model(arr@[idx as int]));
            }
            let item = &arr[idx];
            match item {
                Value::Object(obj) => {
                    match self.convert_to_abi_item(obj) {
                        Some(it) => {
                            let ghost before = items@;
                            items.push(it);
                            proof {
                                assert(items@.drop_last() =~= before);
                                assert(item_models(items@) =~= item_models(before).push(
                                    item_model(it)));
                            }
                        },
                        None => {},
                    }
                },
                _ => {},
            }
            idx += 1;
        }
        proof {
            assert(value_models(arr@).subrange(0, arr@.len() as int) =~= value_models(arr@));
        }
        Ok(items)
    }

    fn parse_abi_array(&mut self) -> (r: Result<Vec<AbiItem>, String>)
        requires
            old(self).wf(),
        ensures
            final(self).text() == old(self).text(),
            final(self).wf(),
            match r {
                Ok(items) => match sp_array(old(self).text(), old(self).pos()) {
                    Some((arr, e)) => item_models(items@) == sp_items_of(arr),
                    None => false,
                },
                Err(_) => sp_array(old(self).text(), old(self).pos()) is None,
            },
    {
        let arr = match self.parse_array() {
            Ok(a) => a,
            Err(m) => {
                return Err(m);
            },
        };
        self.convert_to_abi_items(&arr)
    }

    /// Parses a whole interface description from the current position:
    /// either a root list of entries, or a root object whose `abi` key
    /// holds such a list. Succeeds exactly when `sp_parse_abi` does, with
    /// the extracted entries; malformed individual entries are dropped
    /// silently, while structural errors fail the whole parse.
    pub fn parse_abi(&mut self) -> (r: Result<Vec<AbiItem>, String>)
        requires
            old(self).wf(),
        ensures
            final(self).text() == old(self).text(),
            final(self).wf(),
            match r {
                Ok(items) => sp_parse_abi(old(self).text(), old(self).pos())
                    == Some(item_models(items@)),
                Err(_) => sp_parse_abi(old(self).text(), old(self).pos()) is None,
            },
    {
        self.skip_whitespace();
        let cur = self.current();
        match cur {
            Some(c) => {
                if c == '[' {
                    self.parse_abi_array()
                } else if c == '{' {
                    let obj = match self.parse_object() {
                        Ok(o) => o,
                        Err(m) => {
                            return Err(m);
                        },
                    };
                    match obj_get(&obj, "abi") {
                        Some(v) => match v {
                            Value::Array(arr) => self.convert_to_abi_items(arr),
                            _ => Err(String::from_str("Expected 'abi' field in object")),
                        },
                        None => Err(String::from_str("Expected 'abi' field in object")),
                    }
                } else {
                    Err(String::from_str("Expected JSON array or object"))
                }
            },
            None => Err(String::from_str("Expected JSON array or object")),
        }
    }
}


} // verus!
