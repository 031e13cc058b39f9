//! The generic bencode value tree and a forward-only parser for it.
use vstd::prelude::*;

verus! {

pub const BYTE_I: u8 = 0x69;

pub const BYTE_L: u8 = 0x6c;

pub const BYTE_D: u8 = 0x64;

pub const BYTE_E: u8 = 0x65;

pub const BYTE_COLON: u8 = 0x3a;

pub const BYTE_MINUS: u8 = 0x2d;

pub const BYTE_ZERO: u8 = 0x30;

/// A decoded bencode value. An integer keeps its decimal text (sign included),
/// so that no width limits what can be read; dictionaries keep their pairs in
/// the order in which they came.
pub enum Value {
    Int(Vec<u8>),
    Bytes(Vec<u8>),
    List(Vec<Value>),
    Dict(Vec<(Vec<u8>, Value)>),
}

/// An ASCII decimal digit.
pub open spec fn is_digit(b: u8) -> bool {
    0x30 <= b && b <= 0x39
}

/// The decimal text of `n`, with no leading zero.
pub open spec fn nat_text(n: nat) -> Seq<u8>
    decreases n,
{
    if n < 10 {
        seq![(n + 0x30) as u8]
    } else {
        nat_text(n / 10) + seq![((n % 10) + 0x30) as u8]
    }
}

/// The number that a run of decimal digits stands for.
pub open spec fn digits_num(t: Seq<u8>) -> nat
    decreases t.len(),
{
    if t.len() == 0 {
        0
    } else {
        digits_num(t.drop_last()) * 10 + (t.last() - 0x30) as nat
    }
}

/// A non-empty run of digits without a leading zero (but for `0` itself).
pub open spec fn digits_ok(t: Seq<u8>) -> bool {
    &&& t.len() > 0
    &&& forall|i: int| 0 <= i < t.len() ==> is_digit(#[trigger] t[i])
    &&& t[0] == BYTE_ZERO ==> t.len() == 1
}

/// The body of a bencode integer: digits, or `-` and digits that are not zero.
pub open spec fn int_text_ok(t: Seq<u8>) -> bool {
    digits_ok(t) || (t.len() > 1 && t[0] == BYTE_MINUS && digits_ok(t.drop_first()) && t[1]
        != BYTE_ZERO)
}

/// A byte string: its length in decimal, a colon, then its bytes.
pub open spec fn str_bytes(b: Seq<u8>) -> Seq<u8> {
    nat_text(b.len()) + seq![BYTE_COLON] + b
}

/// The bytes that a value was read from.
pub open spec fn value_bytes(v: Value) -> Seq<u8>
    decreases v,
{
    match v {
        Value::Int(t) => seq![BYTE_I] + t@ + seq![BYTE_E],
        Value::Bytes(b) => str_bytes(b@),
        Value::List(items) => seq![BYTE_L] + list_bytes(items@) + seq![BYTE_E],
        Value::Dict(pairs) => seq![BYTE_D] + dict_bytes(pairs@) + seq![BYTE_E],
    }
}

/// The bytes of a list's items, one after another.
pub open spec fn list_bytes(items: Seq<Value>) -> Seq<u8>
    decreases items,
{
    if items.len() == 0 {
        Seq::empty()
    } else {
        value_bytes(items[0]) + list_bytes(items.drop_first())
    }
}

/// The bytes of a dictionary's pairs: each key as a byte string, then its value.
pub open spec fn dict_bytes(pairs: Seq<(Vec<u8>, Value)>) -> Seq<u8>
    decreases pairs,
{
    if pairs.len() == 0 {
        Seq::empty()
    } else {
        str_bytes(pairs[0].0@) + value_bytes(pairs[0].1) + dict_bytes(pairs.drop_first())
    }
}

/// Every integer in the tree has a well-formed body.
pub open spec fn well_formed(v: Value) -> bool
    decreases v,
{
    match v {
        Value::Int(t) => int_text_ok(t@),
        Value::Bytes(_) => true,
        Value::List(items) => forall|i: int|
            0 <= i < items@.len() ==> well_formed(#[trigger] items@[i]),
        Value::Dict(pairs) => forall|i: int|
            0 <= i < pairs@.len() ==> well_formed(#[trigger] pairs@[i].1),
    }
}

/// `v` is a value that the bytes `s` hold, with nothing before or after it.
pub open spec fn holds_value(s: Seq<u8>, v: Value) -> bool {
    value_bytes(v) == s && well_formed(v)
}

proof fn lemma_digits_ok_drop_last(t: Seq<u8>)
    requires
        digits_ok(t),
        t.len() > 1,
    ensures
        digits_ok(t.drop_last()),
        t.drop_last()[0] != BYTE_ZERO,
{
    assert(forall|i: int| 0 <= i < t.len() - 1 ==> t.drop_last()[i] == t[i]);
}

proof fn lemma_digits_num_positive(t: Seq<u8>)
    requires
        digits_ok(t),
        t[0] != BYTE_ZERO,
    ensures
        digits_num(t) >= 1,
    decreases t.len(),
{
    if t.len() > 1 {
        lemma_digits_ok_drop_last(t);
        lemma_digits_num_positive(t.drop_last());
    } else {
        assert(is_digit(t[0]));
    }
}

/// Digits without a leading zero are the decimal text of their number.
pub proof fn lemma_nat_text_of_digits(t: Seq<u8>)
    requires
        digits_ok(t),
    ensures
        nat_text(digits_num(t)) == t,
    decreases t.len(),
{
    let n = digits_num(t);
    assert(is_digit(t[t.len() - 1]));
    if t.len() == 1 {
        assert(t.drop_last().len() == 0);
        assert(nat_text(n) =~= t);
    } else {
        let p = t.drop_last();
        lemma_digits_ok_drop_last(t);
        lemma_nat_text_of_digits(p);
        lemma_digits_num_positive(p);
        assert(n / 10 == digits_num(p));
        assert(n % 10 == (t.last() - 0x30) as nat);
        assert(nat_text(n) =~= t);
    }
}

/// One more digit multiplies the number by ten and adds the digit.
pub proof fn lemma_digits_num_push(t: Seq<u8>, d: u8)
    ensures
        digits_num(t.push(d)) == digits_num(t) * 10 + (d - 0x30) as nat,
{
    assert(t.push(d).drop_last() =~= t);
}

proof fn lemma_list_bytes_push(items: Seq<Value>, v: Value)
    ensures
        list_bytes(items.push(v)) == list_bytes(items) + value_bytes(v),
    decreases items.len(),
{
    if items.len() == 0 {
        assert(items.push(v).drop_first() =~= Seq::<Value>::empty());
        assert(list_bytes(Seq::<Value>::empty()) == Seq::<u8>::empty());
        assert(items.push(v)[0] == v);
        assert(list_bytes(items.push(v)) =~= value_bytes(v));
    } else {
        lemma_list_bytes_push(items.drop_first(), v);
        assert(items.push(v).drop_first() =~= items.drop_first().push(v));
        assert(list_bytes(items.push(v)) =~= list_bytes(items) + value_bytes(v));
    }
}

proof fn lemma_dict_bytes_push(pairs: Seq<(Vec<u8>, Value)>, p: (Vec<u8>, Value))
    ensures
        dict_bytes(pairs.push(p)) == dict_bytes(pairs) + str_bytes(p.0@) + value_bytes(p.1),
    decreases pairs.len(),
{
    if pairs.len() == 0 {
        assert(pairs.push(p).drop_first() =~= Seq::<(Vec<u8>, Value)>::empty());
        assert(dict_bytes(Seq::<(Vec<u8>, Value)>::empty()) == Seq::<u8>::empty());
        assert(pairs.push(p)[0] == p);
        assert(dict_bytes(pairs.push(p)) =~= str_bytes(p.0@) + value_bytes(p.1));
    } else {
        lemma_dict_bytes_push(pairs.drop_first(), p);
        assert(pairs.push(p).drop_first() =~= pairs.drop_first().push(p));
        assert(dict_bytes(pairs.push(p)) =~= dict_bytes(pairs) + str_bytes(p.0@) + value_bytes(
            p.1,
        ));
    }
}

/// The decimal text of a number: non-empty digits, no leading zero, and
/// read back as the same number.
pub proof fn lemma_nat_text(n: nat)
    ensures
        digits_ok(nat_text(n)),
        digits_num(nat_text(n)) == n,
    decreases n,
{
    let t = nat_text(n);
    assert(digits_num(Seq::<u8>::empty()) == 0);
    if n < 10 {
        assert(t.drop_last() =~= Seq::<u8>::empty());
        assert(is_digit(t[0]));
        assert(digits_num(t) == n);
    } else {
        lemma_nat_text(n / 10);
        let p = nat_text(n / 10);
        let d = ((n % 10) + 0x30) as u8;
        assert(t =~= p.push(d));
        lemma_digits_num_push(p, d);
        assert((n / 10) * 10 + n % 10 == n);
        if p[0] == BYTE_ZERO {
            assert(p.drop_last() =~= Seq::<u8>::empty());
            assert(digits_num(p) == 0);
        }
        assert forall|i: int| 0 <= i < t.len() implies is_digit(#[trigger] t[i]) by {
            if i < p.len() {
                assert(t[i] == p[i]);
            }
        }
        assert(t[0] == p[0]);
    }
}

/// The first byte of a value tells its kind.
pub proof fn lemma_value_first_byte(v: Value)
    ensures
        value_bytes(v).len() > 0,
        value_bytes(v)[0] == BYTE_I <==> v is Int,
        value_bytes(v)[0] == BYTE_L <==> v is List,
        value_bytes(v)[0] == BYTE_D <==> v is Dict,
        is_digit(value_bytes(v)[0]) <==> v is Bytes,
        value_bytes(v)[0] != BYTE_E,
{
    if let Value::Bytes(b) = v {
        lemma_nat_text(b@.len());
        assert(value_bytes(v)[0] == nat_text(b@.len())[0]);
    }
}

/// A byte string is read back whole: equal bytes hold the same string and
/// leave the same rest.
pub proof fn lemma_str_bytes_prefix(a: Seq<u8>, b: Seq<u8>, r1: Seq<u8>, r2: Seq<u8>)
    requires
        str_bytes(a) + r1 == str_bytes(b) + r2,
    ensures
        a == b,
        r1 == r2,
{
    let x = nat_text(a.len());
    let y = nat_text(b.len());
    lemma_nat_text(a.len());
    lemma_nat_text(b.len());
    let s = str_bytes(a) + r1;
    assert(s == x + seq![BYTE_COLON] + a + r1);
    assert(s == y + seq![BYTE_COLON] + b + r2);
    if x.len() < y.len() {
        assert(s[x.len() as int] == BYTE_COLON);
        assert(s[x.len() as int] == y[x.len() as int]);
        assert(is_digit(y[x.len() as int]));
    }
    if y.len() < x.len() {
        assert(s[y.len() as int] == BYTE_COLON);
        assert(s[y.len() as int] == x[y.len() as int]);
        assert(is_digit(x[y.len() as int]));
    }
    assert(x =~= s.subrange(0, x.len() as int));
    assert(y =~= s.subrange(0, y.len() as int));
    let k: int = x.len() as int + 1;
    assert(a =~= s.subrange(k, k + a.len() as int));
    assert(b =~= s.subrange(k, k + b.len() as int));
    assert(r1 =~= s.subrange(k + a.len() as int, s.len() as int));
    assert(r2 =~= s.subrange(k + b.len() as int, s.len() as int));
}

/// A value whose bytes begin like the integer `n` is that integer.
pub proof fn lemma_int_prefix(v: Value, n: nat, r1: Seq<u8>, r2: Seq<u8>)
    requires
        well_formed(v),
        value_bytes(v) + r1 == seq![BYTE_I] + nat_text(n) + seq![BYTE_E] + r2,
    ensures
        v matches Value::Int(t) && t@ == nat_text(n),
        r1 == r2,
{
    lemma_value_first_byte(v);
    lemma_nat_text(n);
    let s = value_bytes(v) + r1;
    assert(s[0] == value_bytes(v)[0]);
    if let Value::Int(t) = v {
        let t = t@;
        let x = nat_text(n);
        assert(forall|j: int| 0 <= j < t.len() ==> #[trigger] t[j] != BYTE_E) by {
            if !digits_ok(t) {
                assert forall|j: int| 0 <= j < t.len() implies #[trigger] t[j] != BYTE_E by {
                    if j > 0 {
                        assert(t[j] == t.drop_first()[j - 1]);
                        assert(is_digit(t.drop_first()[j - 1]));
                    }
                }
            } else {
                assert forall|j: int| 0 <= j < t.len() implies #[trigger] t[j] != BYTE_E by {
                    assert(is_digit(t[j]));
                }
            }
        }
        assert(s == seq![BYTE_I] + t + seq![BYTE_E] + r1);
        if t.len() < x.len() {
            assert(s[t.len() as int + 1] == BYTE_E);
            assert(s[t.len() as int + 1] == x[t.len() as int]);
            assert(is_digit(x[t.len() as int]));
        }
        if x.len() < t.len() {
            assert(s[x.len() as int + 1] == BYTE_E);
            assert(s[x.len() as int + 1] == t[x.len() as int]);
        }
        assert(t =~= s.subrange(1, 1 + t.len() as int));
        assert(x =~= s.subrange(1, 1 + x.len() as int));
        assert(r1 =~= s.subrange(2 + t.len() as int, s.len() as int));
        assert(r2 =~= s.subrange(2 + x.len() as int, s.len() as int));
    }
}

/// A value whose bytes begin like the byte string `b` is that string.
pub proof fn lemma_bytes_prefix(v: Value, b: Seq<u8>, r1: Seq<u8>, r2: Seq<u8>)
    requires
        value_bytes(v) + r1 == str_bytes(b) + r2,
    ensures
        v matches Value::Bytes(c) && c@ == b,
        r1 == r2,
{
    lemma_value_first_byte(v);
    lemma_nat_text(b.len());
    let s = value_bytes(v) + r1;
    assert(s[0] == value_bytes(v)[0]);
    assert(s[0] == nat_text(b.len())[0]);
    if let Value::Bytes(c) = v {
        lemma_str_bytes_prefix(c@, b, r1, r2);
    }
}

/// The first pair of a dictionary whose bytes begin with the key `k`.
pub proof fn lemma_dict_first(pairs: Seq<(Vec<u8>, Value)>, k: Seq<u8>, x: Seq<u8>, y: Seq<u8>)
    requires
        dict_bytes(pairs) + seq![BYTE_E] + x == str_bytes(k) + y,
    ensures
        pairs.len() > 0,
        pairs[0].0@ == k,
        value_bytes(pairs[0].1) + (dict_bytes(pairs.drop_first()) + seq![BYTE_E] + x) == y,
{
    lemma_nat_text(k.len());
    if pairs.len() == 0 {
        let s = dict_bytes(pairs) + seq![BYTE_E] + x;
        assert(s[0] == BYTE_E);
        assert(s[0] == nat_text(k.len())[0]);
    } else {
        let p = pairs[0];
        assert(dict_bytes(pairs) + seq![BYTE_E] + x =~= str_bytes(p.0@) + (value_bytes(p.1) + (
        dict_bytes(pairs.drop_first()) + seq![BYTE_E] + x)));
        lemma_str_bytes_prefix(
            p.0@,
            k,
            value_bytes(p.1) + (dict_bytes(pairs.drop_first()) + seq![BYTE_E] + x),
            y,
        );
    }
}

/// A dictionary whose bytes end where `e` comes has no more pairs.
pub proof fn lemma_dict_end(pairs: Seq<(Vec<u8>, Value)>, x: Seq<u8>, y: Seq<u8>)
    requires
        dict_bytes(pairs) + seq![BYTE_E] + x == seq![BYTE_E] + y,
    ensures
        pairs.len() == 0,
        x == y,
{
    let s = seq![BYTE_E] + y;
    if pairs.len() > 0 {
        let p = pairs[0];
        lemma_nat_text(p.0@.len());
        assert(dict_bytes(pairs) + seq![BYTE_E] + x =~= nat_text(p.0@.len()) + (seq![BYTE_COLON]
            + p.0@ + value_bytes(p.1) + dict_bytes(pairs.drop_first()) + seq![BYTE_E] + x));
        assert(s[0] == nat_text(p.0@.len())[0]);
    } else {
        assert(dict_bytes(pairs) + seq![BYTE_E] + x =~= seq![BYTE_E] + x);
        assert(x =~= s.subrange(1, s.len() as int));
        assert(y =~= s.subrange(1, s.len() as int));
    }
}

/// The first item of a list whose bytes begin with something other than `e`.
pub proof fn lemma_list_first(items: Seq<Value>, w: Seq<u8>, x: Seq<u8>, y: Seq<u8>)
    requires
        list_bytes(items) + seq![BYTE_E] + x == w + y,
        w.len() > 0,
        w[0] != BYTE_E,
    ensures
        items.len() > 0,
        value_bytes(items[0]) + (list_bytes(items.drop_first()) + seq![BYTE_E] + x) == w + y,
{
    if items.len() == 0 {
        let s = w + y;
        assert(list_bytes(items) + seq![BYTE_E] + x =~= seq![BYTE_E] + x);
        assert(s[0] == w[0]);
    } else {
        assert(list_bytes(items) + seq![BYTE_E] + x =~= value_bytes(items[0]) + (list_bytes(
            items.drop_first(),
        ) + seq![BYTE_E] + x));
    }
}

/// A list whose bytes end where `e` comes has no more items.
pub proof fn lemma_list_end(items: Seq<Value>, x: Seq<u8>, y: Seq<u8>)
    requires
        list_bytes(items) + seq![BYTE_E] + x == seq![BYTE_E] + y,
    ensures
        items.len() == 0,
        x == y,
{
    let s = seq![BYTE_E] + y;
    if items.len() > 0 {
        lemma_value_first_byte(items[0]);
        assert(list_bytes(items) + seq![BYTE_E] + x =~= value_bytes(items[0]) + (list_bytes(
            items.drop_first(),
        ) + seq![BYTE_E] + x));
        assert(s[0] == value_bytes(items[0])[0]);
    } else {
        assert(list_bytes(items) + seq![BYTE_E] + x =~= seq![BYTE_E] + x);
        assert(x =~= s.subrange(1, s.len() as int));
        assert(y =~= s.subrange(1, s.len() as int));
    }
}

/// The bytes `w` stand in `s` from `pos` on.
pub open spec fn occurs_at(s: Seq<u8>, pos: int, w: Seq<u8>) -> bool {
    0 <= pos && pos + w.len() <= s.len() && s.subrange(pos, pos + w.len()) == w
}

/// A well-formed value whose bytes stand in `s` from `pos` on.
pub open spec fn value_at(s: Seq<u8>, pos: int, v: Value) -> bool {
    well_formed(v) && occurs_at(s, pos, value_bytes(v))
}

/// Every item is well formed.
pub open spec fn all_well_formed(items: Seq<Value>) -> bool {
    forall|j: int| 0 <= j < items.len() ==> well_formed(#[trigger] items[j])
}

/// Every value of the pairs is well formed.
pub open spec fn all_well_formed_pairs(pairs: Seq<(Vec<u8>, Value)>) -> bool {
    forall|j: int| 0 <= j < pairs.len() ==> well_formed(#[trigger] pairs[j].1)
}

proof fn lemma_occurs_split(s: Seq<u8>, pos: int, a: Seq<u8>, b: Seq<u8>)
    requires
        occurs_at(s, pos, a + b),
    ensures
        occurs_at(s, pos, a),
        occurs_at(s, pos + a.len(), b),
{
    let w = s.subrange(pos, pos + (a + b).len());
    assert(w == a + b);
    assert(s.subrange(pos, pos + a.len()) =~= w.subrange(0, a.len() as int));
    assert(w.subrange(0, a.len() as int) =~= a);
    assert(s.subrange(pos + a.len(), pos + a.len() + b.len()) =~= w.subrange(
        a.len() as int,
        w.len() as int,
    ));
    assert(w.subrange(a.len() as int, w.len() as int) =~= b);
}

proof fn lemma_occurs_index(s: Seq<u8>, pos: int, w: Seq<u8>, j: int)
    requires
        occurs_at(s, pos, w),
        0 <= j < w.len(),
    ensures
        s[pos + j] == w[j],
{
    assert(s.subrange(pos, pos + w.len())[j] == s[pos + j]);
}

/// Digits before a prefix of them never stand for more than the whole run.
pub proof fn lemma_digits_num_prefix(t: Seq<u8>, j: int)
    requires
        0 <= j <= t.len(),
    ensures
        digits_num(t.subrange(0, j)) <= digits_num(t),
    decreases t.len(),
{
    if j < t.len() {
        assert(t.drop_last().subrange(0, j) =~= t.subrange(0, j));
        lemma_digits_num_prefix(t.drop_last(), j);
    } else {
        assert(t.subrange(0, j) =~= t);
    }
}

proof fn lemma_int_text_no_e(t: Seq<u8>)
    requires
        int_text_ok(t),
    ensures
        forall|j: int| 0 <= j < t.len() ==> #[trigger] t[j] != BYTE_E,
{
    assert forall|j: int| 0 <= j < t.len() implies #[trigger] t[j] != BYTE_E by {
        if digits_ok(t) {
            assert(is_digit(t[j]));
        } else if j > 0 {
            assert(t[j] == t.drop_first()[j - 1]);
            assert(is_digit(t.drop_first()[j - 1]));
        }
    }
}

/// Two byte strings that stand at the same place are the same string.
pub proof fn lemma_str_unique(s: Seq<u8>, pos: int, a: Seq<u8>, b: Seq<u8>)
    requires
        occurs_at(s, pos, str_bytes(a)),
        occurs_at(s, pos, str_bytes(b)),
    ensures
        a == b,
{
    let r1 = s.subrange(pos + str_bytes(a).len(), s.len() as int);
    let r2 = s.subrange(pos + str_bytes(b).len(), s.len() as int);
    assert(s.subrange(pos, s.len() as int) =~= str_bytes(a) + r1);
    assert(s.subrange(pos, s.len() as int) =~= str_bytes(b) + r2);
    lemma_str_bytes_prefix(a, b, r1, r2);
}

/// No value's bytes are a proper prefix of another's: two values that stand
/// at the same place have the same bytes.
pub proof fn lemma_prefix_free(s: Seq<u8>, pos: int, a: Value, b: Value)
    requires
        value_at(s, pos, a),
        value_at(s, pos, b),
    ensures
        value_bytes(a) == value_bytes(b),
    decreases a,
{
    lemma_value_first_byte(a);
    lemma_value_first_byte(b);
    lemma_occurs_index(s, pos, value_bytes(a), 0);
    lemma_occurs_index(s, pos, value_bytes(b), 0);
    match (a, b) {
        (Value::Int(ta), Value::Int(tb)) => {
            lemma_int_text_no_e(ta@);
            lemma_int_text_no_e(tb@);
            let la = ta@.len() as int;
            let lb = tb@.len() as int;
            if la < lb {
                lemma_occurs_index(s, pos, value_bytes(a), la + 1);
                lemma_occurs_index(s, pos, value_bytes(b), la + 1);
                assert(value_bytes(b)[la + 1] == tb@[la]);
            }
            if lb < la {
                lemma_occurs_index(s, pos, value_bytes(a), lb + 1);
                lemma_occurs_index(s, pos, value_bytes(b), lb + 1);
                assert(value_bytes(a)[lb + 1] == ta@[lb]);
            }
        },
        (Value::Bytes(ba), Value::Bytes(bb)) => {
            lemma_str_unique(s, pos, ba@, bb@);
        },
        (Value::List(xa), Value::List(xb)) => {
            assert(value_bytes(a) =~= seq![BYTE_L] + (list_bytes(xa@) + seq![BYTE_E]));
            assert(value_bytes(b) =~= seq![BYTE_L] + (list_bytes(xb@) + seq![BYTE_E]));
            lemma_occurs_split(s, pos, seq![BYTE_L], list_bytes(xa@) + seq![BYTE_E]);
            lemma_occurs_split(s, pos, seq![BYTE_L], list_bytes(xb@) + seq![BYTE_E]);
            lemma_list_prefix_free(s, pos + 1, xa@, xb@);
        },
        (Value::Dict(pa), Value::Dict(pb)) => {
            assert(value_bytes(a) =~= seq![BYTE_D] + (dict_bytes(pa@) + seq![BYTE_E]));
            assert(value_bytes(b) =~= seq![BYTE_D] + (dict_bytes(pb@) + seq![BYTE_E]));
            lemma_occurs_split(s, pos, seq![BYTE_D], dict_bytes(pa@) + seq![BYTE_E]);
            lemma_occurs_split(s, pos, seq![BYTE_D], dict_bytes(pb@) + seq![BYTE_E]);
            lemma_dict_prefix_free(s, pos + 1, pa@, pb@);
        },
        _ => {},
    }
}

proof fn lemma_list_prefix_free(s: Seq<u8>, pos: int, xs: Seq<Value>, ys: Seq<Value>)
    requires
        all_well_formed(xs),
        all_well_formed(ys),
        occurs_at(s, pos, list_bytes(xs) + seq![BYTE_E]),
        occurs_at(s, pos, list_bytes(ys) + seq![BYTE_E]),
    ensures
        list_bytes(xs) == list_bytes(ys),
    decreases xs,
{
    if xs.len() > 0 && ys.len() > 0 {
        let (a, b) = (xs[0], ys[0]);
        let ra = list_bytes(xs.drop_first()) + seq![BYTE_E];
        let rb = list_bytes(ys.drop_first()) + seq![BYTE_E];
        assert(list_bytes(xs) + seq![BYTE_E] =~= value_bytes(a) + ra);
        assert(list_bytes(ys) + seq![BYTE_E] =~= value_bytes(b) + rb);
        lemma_occurs_split(s, pos, value_bytes(a), ra);
        lemma_occurs_split(s, pos, value_bytes(b), rb);
        lemma_prefix_free(s, pos, a, b);
        assert(all_well_formed(xs.drop_first())) by {
            assert forall|j: int| 0 <= j < xs.len() - 1 implies well_formed(
                #[trigger] xs.drop_first()[j],
            ) by {
                assert(xs.drop_first()[j] == xs[j + 1]);
            }
        }
        assert(all_well_formed(ys.drop_first())) by {
            assert forall|j: int| 0 <= j < ys.len() - 1 implies well_formed(
                #[trigger] ys.drop_first()[j],
            ) by {
                assert(ys.drop_first()[j] == ys[j + 1]);
            }
        }
        lemma_list_prefix_free(s, pos + value_bytes(a).len(), xs.drop_first(), ys.drop_first());
    } else if xs.len() > 0 {
        lemma_value_first_byte(xs[0]);
        assert(list_bytes(xs) + seq![BYTE_E] =~= value_bytes(xs[0]) + (list_bytes(xs.drop_first())
            + seq![BYTE_E]));
        lemma_occurs_index(s, pos, list_bytes(xs) + seq![BYTE_E], 0);
        lemma_occurs_index(s, pos, list_bytes(ys) + seq![BYTE_E], 0);
    } else if ys.len() > 0 {
        lemma_value_first_byte(ys[0]);
        assert(list_bytes(ys) + seq![BYTE_E] =~= value_bytes(ys[0]) + (list_bytes(ys.drop_first())
            + seq![BYTE_E]));
        lemma_occurs_index(s, pos, list_bytes(xs) + seq![BYTE_E], 0);
        lemma_occurs_index(s, pos, list_bytes(ys) + seq![BYTE_E], 0);
    }
}

proof fn lemma_dict_prefix_free(
    s: Seq<u8>,
    pos: int,
    xs: Seq<(Vec<u8>, Value)>,
    ys: Seq<(Vec<u8>, Value)>,
)
    requires
        all_well_formed_pairs(xs),
        all_well_formed_pairs(ys),
        occurs_at(s, pos, dict_bytes(xs) + seq![BYTE_E]),
        occurs_at(s, pos, dict_bytes(ys) + seq![BYTE_E]),
    ensures
        dict_bytes(xs) == dict_bytes(ys),
    decreases xs,
{
    if xs.len() > 0 && ys.len() > 0 {
        let (a, b) = (xs[0], ys[0]);
        let ra = dict_bytes(xs.drop_first()) + seq![BYTE_E];
        let rb = dict_bytes(ys.drop_first()) + seq![BYTE_E];
        assert(dict_bytes(xs) + seq![BYTE_E] =~= str_bytes(a.0@) + (value_bytes(a.1) + ra));
        assert(dict_bytes(ys) + seq![BYTE_E] =~= str_bytes(b.0@) + (value_bytes(b.1) + rb));
        lemma_occurs_split(s, pos, str_bytes(a.0@), value_bytes(a.1) + ra);
        lemma_occurs_split(s, pos, str_bytes(b.0@), value_bytes(b.1) + rb);
        lemma_str_unique(s, pos, a.0@, b.0@);
        let p1 = pos + str_bytes(a.0@).len();
        lemma_occurs_split(s, p1, value_bytes(a.1), ra);
        lemma_occurs_split(s, p1, value_bytes(b.1), rb);
        lemma_prefix_free(s, p1, a.1, b.1);
        assert(all_well_formed_pairs(xs.drop_first())) by {
            assert forall|j: int| 0 <= j < xs.len() - 1 implies well_formed(
                #[trigger] xs.drop_first()[j].1,
            ) by {
                assert(xs.drop_first()[j] == xs[j + 1]);
            }
        }
        assert(all_well_formed_pairs(ys.drop_first())) by {
            assert forall|j: int| 0 <= j < ys.len() - 1 implies well_formed(
                #[trigger] ys.drop_first()[j].1,
            ) by {
                assert(ys.drop_first()[j] == ys[j + 1]);
            }
        }
        lemma_dict_prefix_free(s, p1 + value_bytes(a.1).len(), xs.drop_first(), ys.drop_first());
    } else if xs.len() > 0 {
        lemma_str_bytes_head_digit(xs[0].0@);
        assert(dict_bytes(xs) + seq![BYTE_E] =~= str_bytes(xs[0].0@) + (value_bytes(xs[0].1)
            + dict_bytes(xs.drop_first()) + seq![BYTE_E]));
        lemma_occurs_index(s, pos, dict_bytes(xs) + seq![BYTE_E], 0);
        lemma_occurs_index(s, pos, dict_bytes(ys) + seq![BYTE_E], 0);
    } else if ys.len() > 0 {
        lemma_str_bytes_head_digit(ys[0].0@);
        assert(dict_bytes(ys) + seq![BYTE_E] =~= str_bytes(ys[0].0@) + (value_bytes(ys[0].1)
            + dict_bytes(ys.drop_first()) + seq![BYTE_E]));
        lemma_occurs_index(s, pos, dict_bytes(xs) + seq![BYTE_E], 0);
        lemma_occurs_index(s, pos, dict_bytes(ys) + seq![BYTE_E], 0);
    }
}

/// A byte string begins with a digit.
pub proof fn lemma_str_bytes_head_digit(b: Seq<u8>)
    ensures
        str_bytes(b).len() > 0,
        is_digit(str_bytes(b)[0]),
{
    lemma_nat_text(b.len());
    assert(str_bytes(b)[0] == nat_text(b.len())[0]);
}

proof fn lemma_str_at(s: Seq<u8>, pos: int, b: Seq<u8>)
    requires
        occurs_at(s, pos, str_bytes(b)),
    ensures
        digits_ok(nat_text(b.len())),
        digits_num(nat_text(b.len())) == b.len(),
        pos + nat_text(b.len()).len() + 1 + b.len() <= s.len(),
        forall|j: int| 0 <= j < nat_text(b.len()).len() ==> s[pos + j] == #[trigger] nat_text(b.len())[j],
        s[pos + nat_text(b.len()).len()] == BYTE_COLON,
{
    let x = nat_text(b.len());
    lemma_nat_text(b.len());
    assert forall|j: int| 0 <= j < x.len() implies s[pos + j] == #[trigger] x[j] by {
        lemma_occurs_index(s, pos, str_bytes(b), j);
    }
    lemma_occurs_index(s, pos, str_bytes(b), x.len() as int);
}

/// Where a run of digits from `pos` ends at `k`, a byte string at `pos` has
/// its length written in exactly that run.
proof fn lemma_str_at_run(s: Seq<u8>, pos: int, b: Seq<u8>, k: int)
    requires
        occurs_at(s, pos, str_bytes(b)),
        pos <= k <= s.len(),
        forall|j: int| pos <= j < k ==> is_digit(#[trigger] s[j]),
    ensures
        nat_text(b.len()).len() >= k - pos,
        k == s.len() || !is_digit(s[k]) ==> nat_text(b.len()) == s.subrange(pos, k),
{
    lemma_str_at(s, pos, b);
    let x = nat_text(b.len());
    if x.len() < k - pos {
        assert(is_digit(s[pos + x.len()]));
    }
    if k == s.len() || !is_digit(s[k]) {
        if x.len() > k - pos {
            assert(s[pos + (k - pos)] == x[k - pos]);
            assert(is_digit(x[k - pos]));
        }
        assert(x =~= s.subrange(pos, k));
    }
}

proof fn lemma_list_blocked(s: Seq<u8>, k: int, zs: Seq<Value>)
    requires
        all_well_formed(zs),
        occurs_at(s, k, list_bytes(zs) + seq![BYTE_E]),
        s[k] != BYTE_E,
    ensures
        zs.len() > 0,
        value_at(s, k, zs[0]),
        all_well_formed(zs.drop_first()),
        occurs_at(s, k + value_bytes(zs[0]).len(), list_bytes(zs.drop_first()) + seq![BYTE_E]),
{
    if zs.len() == 0 {
        assert(list_bytes(zs) + seq![BYTE_E] =~= seq![BYTE_E]);
        lemma_occurs_index(s, k, list_bytes(zs) + seq![BYTE_E], 0);
    } else {
        assert(list_bytes(zs) + seq![BYTE_E] =~= value_bytes(zs[0]) + (list_bytes(zs.drop_first())
            + seq![BYTE_E]));
        lemma_occurs_split(s, k, value_bytes(zs[0]), list_bytes(zs.drop_first()) + seq![BYTE_E]);
        assert forall|j: int| 0 <= j < zs.len() - 1 implies well_formed(
            #[trigger] zs.drop_first()[j],
        ) by {
            assert(zs.drop_first()[j] == zs[j + 1]);
        }
    }
}

proof fn lemma_dict_blocked(s: Seq<u8>, k: int, zs: Seq<(Vec<u8>, Value)>)
    requires
        all_well_formed_pairs(zs),
        occurs_at(s, k, dict_bytes(zs) + seq![BYTE_E]),
        s[k] != BYTE_E,
    ensures
        zs.len() > 0,
        occurs_at(s, k, str_bytes(zs[0].0@)),
        value_at(s, k + str_bytes(zs[0].0@).len(), zs[0].1),
        all_well_formed_pairs(zs.drop_first()),
        occurs_at(
            s,
            k + str_bytes(zs[0].0@).len() + value_bytes(zs[0].1).len(),
            dict_bytes(zs.drop_first()) + seq![BYTE_E],
        ),
{
    if zs.len() == 0 {
        assert(dict_bytes(zs) + seq![BYTE_E] =~= seq![BYTE_E]);
        lemma_occurs_index(s, k, dict_bytes(zs) + seq![BYTE_E], 0);
    } else {
        let kb = str_bytes(zs[0].0@);
        let rest = dict_bytes(zs.drop_first()) + seq![BYTE_E];
        assert(dict_bytes(zs) + seq![BYTE_E] =~= kb + (value_bytes(zs[0].1) + rest));
        lemma_occurs_split(s, k, kb, value_bytes(zs[0].1) + rest);
        lemma_occurs_split(s, k + kb.len(), value_bytes(zs[0].1), rest);
        assert forall|j: int| 0 <= j < zs.len() - 1 implies well_formed(
            #[trigger] zs.drop_first()[j].1,
        ) by {
            assert(zs.drop_first()[j] == zs[j + 1]);
        }
    }
}

/// A value read between `pos` and `end` stands at `pos` and ends at `end`.
pub proof fn lemma_value_at_of_holds(s: Seq<u8>, pos: int, end: int, v: Value)
    requires
        0 <= pos <= end <= s.len(),
        holds_value(s.subrange(pos, end), v),
    ensures
        value_at(s, pos, v),
        end == pos + value_bytes(v).len(),
{
}

/// A value that the whole of `s` holds stands at its start.
pub proof fn lemma_holds_value_at(s: Seq<u8>, v: Value)
    requires
        holds_value(s, v),
    ensures
        value_at(s, 0, v),
{
    assert(s.subrange(0, s.len() as int) =~= s);
}

/// Item by item, the two lists have the same bytes.
pub open spec fn same_items(xs: Seq<Value>, ys: Seq<Value>) -> bool {
    &&& xs.len() == ys.len()
    &&& all_well_formed(xs)
    &&& all_well_formed(ys)
    &&& forall|j: int| 0 <= j < xs.len() ==> value_bytes(#[trigger] xs[j]) == value_bytes(ys[j])
}

/// Pair by pair, the two dictionaries have the same keys and the same value bytes.
pub open spec fn same_pairs(xs: Seq<(Vec<u8>, Value)>, ys: Seq<(Vec<u8>, Value)>) -> bool {
    &&& xs.len() == ys.len()
    &&& all_well_formed_pairs(xs)
    &&& all_well_formed_pairs(ys)
    &&& forall|j: int|
        0 <= j < xs.len() ==> (#[trigger] xs[j]).0@ == ys[j].0@ && value_bytes(xs[j].1)
            == value_bytes(ys[j].1)
}

/// Two well-formed values with the same bytes have the same shape.
pub open spec fn same_shape(a: Value, b: Value) -> bool {
    match (a, b) {
        (Value::Int(x), Value::Int(y)) => x@ == y@,
        (Value::Bytes(x), Value::Bytes(y)) => x@ == y@,
        (Value::List(x), Value::List(y)) => same_items(x@, y@),
        (Value::Dict(x), Value::Dict(y)) => same_pairs(x@, y@),
        _ => false,
    }
}

proof fn lemma_list_same(xs: Seq<Value>, ys: Seq<Value>)
    requires
        all_well_formed(xs),
        all_well_formed(ys),
        list_bytes(xs) == list_bytes(ys),
    ensures
        same_items(xs, ys),
    decreases xs.len(),
{
    if xs.len() > 0 && ys.len() > 0 {
        let s = list_bytes(xs);
        let ra = list_bytes(xs.drop_first());
        let rb = list_bytes(ys.drop_first());
        assert(s =~= value_bytes(xs[0]) + ra);
        assert(list_bytes(ys) =~= value_bytes(ys[0]) + rb);
        assert(s.subrange(0, s.len() as int) =~= s);
        lemma_occurs_split(s, 0, value_bytes(xs[0]), ra);
        lemma_occurs_split(s, 0, value_bytes(ys[0]), rb);
        lemma_prefix_free(s, 0, xs[0], ys[0]);
        assert(ra =~= s.subrange(value_bytes(xs[0]).len() as int, s.len() as int));
        assert(rb =~= s.subrange(value_bytes(ys[0]).len() as int, s.len() as int));
        assert(all_well_formed(xs.drop_first())) by {
            assert forall|j: int| 0 <= j < xs.len() - 1 implies well_formed(
                #[trigger] xs.drop_first()[j],
            ) by {
                assert(xs.drop_first()[j] == xs[j + 1]);
            }
        }
        assert(all_well_formed(ys.drop_first())) by {
            assert forall|j: int| 0 <= j < ys.len() - 1 implies well_formed(
                #[trigger] ys.drop_first()[j],
            ) by {
                assert(ys.drop_first()[j] == ys[j + 1]);
            }
        }
        lemma_list_same(xs.drop_first(), ys.drop_first());
        assert forall|j: int| 0 <= j < xs.len() implies value_bytes(#[trigger] xs[j])
            == value_bytes(ys[j]) by {
            if j > 0 {
                assert(xs[j] == xs.drop_first()[j - 1]);
                assert(ys[j] == ys.drop_first()[j - 1]);
            }
        }
    } else if xs.len() > 0 {
        lemma_value_first_byte(xs[0]);
        assert(list_bytes(xs) =~= value_bytes(xs[0]) + list_bytes(xs.drop_first()));
    } else if ys.len() > 0 {
        lemma_value_first_byte(ys[0]);
        assert(list_bytes(ys) =~= value_bytes(ys[0]) + list_bytes(ys.drop_first()));
    }
}

proof fn lemma_dict_same(xs: Seq<(Vec<u8>, Value)>, ys: Seq<(Vec<u8>, Value)>)
    requires
        all_well_formed_pairs(xs),
        all_well_formed_pairs(ys),
        dict_bytes(xs) == dict_bytes(ys),
    ensures
        same_pairs(xs, ys),
    decreases xs.len(),
{
    if xs.len() > 0 && ys.len() > 0 {
        let s = dict_bytes(xs);
        let (a, b) = (xs[0], ys[0]);
        let ra = dict_bytes(xs.drop_first());
        let rb = dict_bytes(ys.drop_first());
        assert(s =~= str_bytes(a.0@) + (value_bytes(a.1) + ra));
        assert(dict_bytes(ys) =~= str_bytes(b.0@) + (value_bytes(b.1) + rb));
        assert(s.subrange(0, s.len() as int) =~= s);
        lemma_occurs_split(s, 0, str_bytes(a.0@), value_bytes(a.1) + ra);
        lemma_occurs_split(s, 0, str_bytes(b.0@), value_bytes(b.1) + rb);
        lemma_str_unique(s, 0, a.0@, b.0@);
        let p1 = str_bytes(a.0@).len() as int;
        lemma_occurs_split(s, p1, value_bytes(a.1), ra);
        lemma_occurs_split(s, p1, value_bytes(b.1), rb);
        lemma_prefix_free(s, p1, a.1, b.1);
        assert(ra =~= s.subrange(p1 + value_bytes(a.1).len(), s.len() as int));
        assert(rb =~= s.subrange(p1 + value_bytes(b.1).len(), s.len() as int));
        assert(all_well_formed_pairs(xs.drop_first())) by {
            assert forall|j: int| 0 <= j < xs.len() - 1 implies well_formed(
                #[trigger] xs.drop_first()[j].1,
            ) by {
                assert(xs.drop_first()[j] == xs[j + 1]);
            }
        }
        assert(all_well_formed_pairs(ys.drop_first())) by {
            assert forall|j: int| 0 <= j < ys.len() - 1 implies well_formed(
                #[trigger] ys.drop_first()[j].1,
            ) by {
                assert(ys.drop_first()[j] == ys[j + 1]);
            }
        }
        lemma_dict_same(xs.drop_first(), ys.drop_first());
        assert forall|j: int| 0 <= j < xs.len() implies (#[trigger] xs[j]).0@ == ys[j].0@
            && value_bytes(xs[j].1) == value_bytes(ys[j].1) by {
            if j > 0 {
                assert(xs[j] == xs.drop_first()[j - 1]);
                assert(ys[j] == ys.drop_first()[j - 1]);
            }
        }
    } else if xs.len() > 0 {
        lemma_str_bytes_head_digit(xs[0].0@);
        assert(dict_bytes(xs) =~= str_bytes(xs[0].0@) + (value_bytes(xs[0].1) + dict_bytes(
            xs.drop_first(),
        )));
    } else if ys.len() > 0 {
        lemma_str_bytes_head_digit(ys[0].0@);
        assert(dict_bytes(ys) =~= str_bytes(ys[0].0@) + (value_bytes(ys[0].1) + dict_bytes(
            ys.drop_first(),
        )));
    }
}

/// Well-formed values with the same bytes have the same shape: the same
/// integer text or string, or items (pairs) with the same bytes one by one.
pub proof fn lemma_same_bytes_same_shape(a: Value, b: Value)
    requires
        well_formed(a),
        well_formed(b),
        value_bytes(a) == value_bytes(b),
    ensures
        same_shape(a, b),
{
    lemma_value_first_byte(a);
    lemma_value_first_byte(b);
    match (a, b) {
        (Value::Int(x), Value::Int(y)) => {
            assert(x@ =~= value_bytes(a).subrange(1, value_bytes(a).len() - 1));
            assert(y@ =~= value_bytes(b).subrange(1, value_bytes(b).len() - 1));
        },
        (Value::Bytes(x), Value::Bytes(y)) => {
            lemma_str_bytes_prefix(x@, y@, Seq::empty(), Seq::empty());
            assert(str_bytes(x@) + Seq::<u8>::empty() =~= str_bytes(x@));
            assert(str_bytes(y@) + Seq::<u8>::empty() =~= str_bytes(y@));
        },
        (Value::List(x), Value::List(y)) => {
            assert(list_bytes(x@) =~= value_bytes(a).subrange(1, value_bytes(a).len() - 1));
            assert(list_bytes(y@) =~= value_bytes(b).subrange(1, value_bytes(b).len() - 1));
            lemma_list_same(x@, y@);
        },
        (Value::Dict(x), Value::Dict(y)) => {
            assert(dict_bytes(x@) =~= value_bytes(a).subrange(1, value_bytes(a).len() - 1));
            assert(dict_bytes(y@) =~= value_bytes(b).subrange(1, value_bytes(b).len() - 1));
            lemma_dict_same(x@, y@);
        },
        _ => {},
    }
}

pub(crate) fn is_ascii_digit(b: u8) -> (r: bool)
    ensures
        r == is_digit(b),
{
    0x30 <= b && b <= 0x39
}

pub(crate) fn check_digits(t: &Vec<u8>, start: usize) -> (r: bool)
    requires
        start <= t@.len(),
    ensures
        r == digits_ok(t@.subrange(start as int, t@.len() as int)),
{
    let n = t.len();
    if start >= n {
        return false;
    }
    if t[start] == BYTE_ZERO && n - start != 1 {
        return false;
    }
    let mut k: usize = start;
    while k < n
        invariant
            start <= k <= n,
            n == t@.len(),
            forall|i: int| start <= i < k ==> is_digit(#[trigger] t@[i]),
        decreases n - k,
    {
        if !is_ascii_digit(t[k]) {
            assert(!is_digit(t@.subrange(start as int, n as int)[k - start]));
            return false;
        }
        k = k + 1;
    }
    let ghost u = t@.subrange(start as int, n as int);
    assert forall|i: int| 0 <= i < u.len() implies is_digit(#[trigger] u[i]) by {
        assert(u[i] == t@[i + start]);
    }
    true
}

fn check_int_text(t: &Vec<u8>) -> (r: bool)
    ensures
        r == int_text_ok(t@),
{
    assert(t@.subrange(0, t@.len() as int) =~= t@);
    if check_digits(t, 0) {
        return true;
    }
    if t.len() > 1 && t[0] == BYTE_MINUS && t[1] != BYTE_ZERO {
        assert(t@.subrange(1, t@.len() as int) =~= t@.drop_first());
        check_digits(t, 1)
    } else {
        false
    }
}

/// Reads `i<text>e` at `pos`, where `s[pos]` is `i`.
fn parse_int(s: &[u8], pos: usize) -> (r: Option<(Value, usize)>)
    requires
        pos < s@.len(),
        s@[pos as int] == BYTE_I,
    ensures
        r matches Some((v, end)) ==> pos < end <= s@.len() && holds_value(
            s@.subrange(pos as int, end as int),
            v,
        ),
        r is None ==> forall|v: Value| !value_at(s@, pos as int, v),
{
    let n = s.len();
    let mut t: Vec<u8> = Vec::new();
    let mut k: usize = pos + 1;
    while k < s.len() && s[k] != BYTE_E
        invariant
            pos < k <= s@.len(),
            n == s@.len(),
            t@ == s@.subrange(pos + 1, k as int),
            forall|j: int| pos < j < k ==> s@[j] != BYTE_E,
        decreases s@.len() - k,
    {
        t.push(s[k]);
        k = k + 1;
        assert(t@ =~= s@.subrange(pos + 1, k as int));
    }
    if k >= s.len() || !check_int_text(&t) {
        proof {
            assert forall|v: Value| !value_at(s@, pos as int, v) by {
                if value_at(s@, pos as int, v) {
                    lemma_value_first_byte(v);
                    lemma_occurs_index(s@, pos as int, value_bytes(v), 0);
                    if let Value::Int(tv) = v {
                        lemma_int_text_no_e(tv@);
                        let l = tv@.len() as int;
                        lemma_occurs_index(s@, pos as int, value_bytes(v), l + 1);
                        if pos + l + 1 > k {
                            lemma_occurs_index(s@, pos as int, value_bytes(v), k - pos);
                            assert(value_bytes(v)[k - pos] == tv@[k - pos - 1]);
                        }
                        assert forall|j: int| 0 <= j < l implies tv@[j] == t@[j] by {
                            lemma_occurs_index(s@, pos as int, value_bytes(v), j + 1);
                            assert(value_bytes(v)[j + 1] == tv@[j]);
                        }
                        assert(tv@ =~= t@);
                    }
                }
            }
        }
        return None;
    }
    let v = Value::Int(t);
    assert(s@.subrange(pos as int, k + 1) =~= value_bytes(v));
    Some((v, k + 1))
}

/// Reads `<length>:<bytes>` at `pos`.
fn parse_bytes(s: &[u8], pos: usize) -> (r: Option<(Vec<u8>, usize)>)
    requires
        pos <= s@.len(),
    ensures
        r matches Some((b, end)) ==> pos < end <= s@.len() && s@.subrange(pos as int, end as int)
            == str_bytes(b@),
        r is None ==> forall|b: Seq<u8>| !occurs_at(s@, pos as int, #[trigger] str_bytes(b)),
{
    let n = s.len();
    if pos >= n || !is_ascii_digit(s[pos]) {
        proof {
            assert forall|b: Seq<u8>| !occurs_at(s@, pos as int, #[trigger] str_bytes(b)) by {
                if occurs_at(s@, pos as int, str_bytes(b)) {
                    lemma_str_at(s@, pos as int, b);
                    assert(s@[pos + 0] == nat_text(b.len())[0]);
                }
            }
        }
        return None;
    }
    if s[pos] == BYTE_ZERO && (pos + 1 >= n || s[pos + 1] != BYTE_COLON) {
        proof {
            assert forall|b: Seq<u8>| !occurs_at(s@, pos as int, #[trigger] str_bytes(b)) by {
                if occurs_at(s@, pos as int, str_bytes(b)) {
                    lemma_str_at(s@, pos as int, b);
                    assert(s@[pos + 0] == nat_text(b.len())[0]);
                }
            }
        }
        return None;
    }
    let mut len: usize = 0;
    let mut k: usize = pos;
    while k < n && is_ascii_digit(s[k])
        invariant
            pos <= k <= n,
            n == s@.len(),
            len <= n,
            len == digits_num(s@.subrange(pos as int, k as int)),
            forall|i: int| pos <= i < k ==> is_digit(#[trigger] s@[i]),
        decreases n - k,
    {
        let wide: u128 = (len as u128) * 10 + ((s[k] - BYTE_ZERO) as u128);
        proof {
            lemma_digits_num_push(s@.subrange(pos as int, k as int), s@[k as int]);
            assert(s@.subrange(pos as int, k as int).push(s@[k as int]) =~= s@.subrange(
                pos as int,
                k + 1,
            ));
        }
        if wide > n as u128 {
            proof {
                assert forall|b: Seq<u8>| !occurs_at(s@, pos as int, #[trigger] str_bytes(b)) by {
                    if occurs_at(s@, pos as int, str_bytes(b)) {
                        lemma_str_at(s@, pos as int, b);
                        lemma_str_at_run(s@, pos as int, b, k + 1);
                        let x = nat_text(b.len());
                        assert(x.subrange(0, k + 1 - pos) =~= s@.subrange(pos as int, k + 1));
                        lemma_digits_num_prefix(x, k + 1 - pos);
                    }
                }
            }
            return None;
        }
        len = wide as usize;
        k = k + 1;
    }
    if k >= n || s[k] != BYTE_COLON || len > n - k - 1 {
        proof {
            assert forall|b: Seq<u8>| !occurs_at(s@, pos as int, #[trigger] str_bytes(b)) by {
                if occurs_at(s@, pos as int, str_bytes(b)) {
                    lemma_str_at(s@, pos as int, b);
                    lemma_str_at_run(s@, pos as int, b, k as int);
                }
            }
        }
        return None;
    }
    let start = k + 1;
    let end = start + len;
    let mut b: Vec<u8> = Vec::new();
    let mut j: usize = start;
    while j < end
        invariant
            start <= j <= end,
            end <= n,
            n == s@.len(),
            b@ == s@.subrange(start as int, j as int),
        decreases end - j,
    {
        b.push(s[j]);
        j = j + 1;
        assert(b@ =~= s@.subrange(start as int, j as int));
    }
    proof {
        let t = s@.subrange(pos as int, k as int);
        assert forall|i: int| 0 <= i < t.len() implies is_digit(#[trigger] t[i]) by {
            assert(t[i] == s@[i + pos]);
        }
        assert(t[0] == s@[pos as int]);
        if t[0] == BYTE_ZERO && t.len() > 1 {
            assert(t[1] == s@[pos + 1]);
        }
        lemma_nat_text_of_digits(t);
        assert(s@.subrange(pos as int, end as int) =~= str_bytes(b@));
    }
    Some((b, end))
}

/// Reads one value at `pos`: an integer, a byte string, a list or a dictionary,
/// chosen by its first byte. On success, returns the value and the position
/// just past it; the bytes in between are exactly the value's bytes. It fails
/// exactly when no well-formed value stands at `pos`.
pub fn parse_value(s: &[u8], pos: usize) -> (r: Option<(Value, usize)>)
    requires
        pos <= s@.len(),
    ensures
        r matches Some((v, end)) ==> pos < end <= s@.len() && holds_value(
            s@.subrange(pos as int, end as int),
            v,
        ),
        r is None ==> forall|v: Value| !value_at(s@, pos as int, v),
    decreases s@.len() - pos,
{
    let n = s.len();
    if pos >= n {
        proof {
            assert forall|v: Value| !value_at(s@, pos as int, v) by {
                lemma_value_first_byte(v);
            }
        }
        return None;
    }
    let c = s[pos];
    proof {
        assert forall|v: Value| value_at(s@, pos as int, v) implies value_bytes(v)[0] == c by {
            lemma_occurs_index(s@, pos as int, value_bytes(v), 0);
        }
    }
    if c == BYTE_I {
        parse_int(s, pos)
    } else if is_ascii_digit(c) {
        match parse_bytes(s, pos) {
            Some((b, end)) => Some((Value::Bytes(b), end)),
            None => {
                proof {
                    assert forall|v: Value| !value_at(s@, pos as int, v) by {
                        lemma_value_first_byte(v);
                    }
                }
                None
            },
        }
    } else if c == BYTE_L {
        let mut items: Vec<Value> = Vec::new();
        let mut k: usize = pos + 1;
        proof {
            if exists|v: Value| value_at(s@, pos as int, v) {
                let v = choose|v: Value| value_at(s@, pos as int, v);
                lemma_value_first_byte(v);
                if let Value::List(xs) = v {
                    assert(value_bytes(v) =~= seq![BYTE_L] + (list_bytes(xs@) + seq![BYTE_E]));
                    lemma_occurs_split(s@, pos as int, seq![BYTE_L], list_bytes(xs@) + seq![BYTE_E]);
                    assert(all_well_formed(xs@));
                }
            }
        }
        loop
            invariant
                pos < k <= n,
                n == s@.len(),
                s@.subrange(pos + 1, k as int) == list_bytes(items@),
                forall|i: int| 0 <= i < items@.len() ==> well_formed(#[trigger] items@[i]),
                (exists|v: Value| value_at(s@, pos as int, v)) ==> exists|zs: Seq<Value>|
                    all_well_formed(zs) && occurs_at(s@, k as int, list_bytes(zs) + seq![BYTE_E]),
            ensures
                k < n,
                s@[k as int] == BYTE_E,
                s@.subrange(pos + 1, k as int) == list_bytes(items@),
                forall|i: int| 0 <= i < items@.len() ==> well_formed(#[trigger] items@[i]),
            decreases n - k,
        {
            if k >= n {
                proof {
                    if exists|v: Value| value_at(s@, pos as int, v) {
                        let zs = choose|zs: Seq<Value>|
                            all_well_formed(zs) && occurs_at(s@, k as int, list_bytes(zs) + seq![BYTE_E]);
                    }
                }
                return None;
            }
            if s[k] == BYTE_E {
                break ;
            }
            match parse_value(s, k) {
                Some((item, next)) => {
                    proof {
                        lemma_list_bytes_push(items@, item);
                        assert(s@.subrange(pos + 1, next as int) =~= s@.subrange(pos + 1, k as int)
                            + s@.subrange(k as int, next as int));
                        if exists|v: Value| value_at(s@, pos as int, v) {
                            let zs = choose|zs: Seq<Value>|
                                all_well_formed(zs) && occurs_at(s@, k as int, list_bytes(zs) + seq![BYTE_E]);
                            lemma_list_blocked(s@, k as int, zs);
                            lemma_value_at_of_holds(s@, k as int, next as int, item);
                            lemma_prefix_free(s@, k as int, zs[0], item);
                            assert(all_well_formed(zs.drop_first()) && occurs_at(
                                s@,
                                next as int,
                                list_bytes(zs.drop_first()) + seq![BYTE_E],
                            ));
                        }
                    }
                    items.push(item);
                    k = next;
                },
                None => {
                    proof {
                        if exists|v: Value| value_at(s@, pos as int, v) {
                            let zs = choose|zs: Seq<Value>|
                                all_well_formed(zs) && occurs_at(s@, k as int, list_bytes(zs) + seq![BYTE_E]);
                            lemma_list_blocked(s@, k as int, zs);
                        }
                    }
                    return None;
                },
            }
        }
        let v = Value::List(items);
        assert(s@.subrange(pos as int, k + 1) =~= value_bytes(v));
        Some((v, k + 1))
    } else if c == BYTE_D {
        let mut pairs: Vec<(Vec<u8>, Value)> = Vec::new();
        let mut k: usize = pos + 1;
        proof {
            if exists|v: Value| value_at(s@, pos as int, v) {
                let v = choose|v: Value| value_at(s@, pos as int, v);
                lemma_value_first_byte(v);
                if let Value::Dict(xs) = v {
                    assert(value_bytes(v) =~= seq![BYTE_D] + (dict_bytes(xs@) + seq![BYTE_E]));
                    lemma_occurs_split(s@, pos as int, seq![BYTE_D], dict_bytes(xs@) + seq![BYTE_E]);
                    assert(all_well_formed_pairs(xs@));
                }
            }
        }
        loop
            invariant
                pos < k <= n,
                n == s@.len(),
                s@.subrange(pos + 1, k as int) == dict_bytes(pairs@),
                forall|i: int| 0 <= i < pairs@.len() ==> well_formed(#[trigger] pairs@[i].1),
                (exists|v: Value| value_at(s@, pos as int, v)) ==> exists|zs: Seq<(Vec<u8>, Value)>|
                    all_well_formed_pairs(zs) && occurs_at(s@, k as int, dict_bytes(zs) + seq![BYTE_E]),
            ensures
                k < n,
                s@[k as int] == BYTE_E,
                s@.subrange(pos + 1, k as int) == dict_bytes(pairs@),
                forall|i: int| 0 <= i < pairs@.len() ==> well_formed(#[trigger] pairs@[i].1),
            decreases n - k,
        {
            if k >= n {
                proof {
                    if exists|v: Value| value_at(s@, pos as int, v) {
                        let zs = choose|zs: Seq<(Vec<u8>, Value)>|
                            all_well_formed_pairs(zs) && occurs_at(s@, k as int, dict_bytes(zs) + seq![BYTE_E]);
                    }
                }
                return None;
            }
            if s[k] == BYTE_E {
                break ;
            }
            let (key, after_key) = match parse_bytes(s, k) {
                Some(p) => p,
                None => {
                    proof {
                        if exists|v: Value| value_at(s@, pos as int, v) {
                            let zs = choose|zs: Seq<(Vec<u8>, Value)>|
                                all_well_formed_pairs(zs) && occurs_at(s@, k as int, dict_bytes(zs) + seq![BYTE_E]);
                            lemma_dict_blocked(s@, k as int, zs);
                        }
                    }
                    return None;
                },
            };
            proof {
                if exists|v: Value| value_at(s@, pos as int, v) {
                    let zs = choose|zs: Seq<(Vec<u8>, Value)>|
                        all_well_formed_pairs(zs) && occurs_at(s@, k as int, dict_bytes(zs) + seq![BYTE_E]);
                    lemma_dict_blocked(s@, k as int, zs);
                    lemma_str_unique(s@, k as int, zs[0].0@, key@);
                }
            }
            match parse_value(s, after_key) {
                Some((item, next)) => {
                    proof {
                        lemma_dict_bytes_push(pairs@, (key, item));
                        assert(s@.subrange(pos + 1, next as int) =~= s@.subrange(pos + 1, k as int)
                            + s@.subrange(k as int, after_key as int) + s@.subrange(
                            after_key as int,
                            next as int,
                        ));
                        if exists|v: Value| value_at(s@, pos as int, v) {
                            let zs = choose|zs: Seq<(Vec<u8>, Value)>|
                                all_well_formed_pairs(zs) && occurs_at(s@, k as int, dict_bytes(zs) + seq![BYTE_E]);
                            lemma_dict_blocked(s@, k as int, zs);
                            lemma_str_unique(s@, k as int, zs[0].0@, key@);
                            lemma_value_at_of_holds(s@, after_key as int, next as int, item);
                            lemma_prefix_free(s@, after_key as int, zs[0].1, item);
                            assert(all_well_formed_pairs(zs.drop_first()) && occurs_at(
                                s@,
                                next as int,
                                dict_bytes(zs.drop_first()) + seq![BYTE_E],
                            ));
                        }
                    }
                    pairs.push((key, item));
                    k = next;
                },
                None => {
                    return None;
                },
            }
        }
        let v = Value::Dict(pairs);
        assert(s@.subrange(pos as int, k + 1) =~= value_bytes(v));
        Some((v, k + 1))
    } else {
        proof {
            assert forall|v: Value| !value_at(s@, pos as int, v) by {
                lemma_value_first_byte(v);
            }
        }
        None
    }
}

} // verus!
