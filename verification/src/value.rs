//! The intermediate value: the generic, driver-agnostic pivot between wire
//! bytes and the driver's native values, and the conversion into it.
//!
//! The conversion rewrites a wire item recursively: integers that fit a
//! signed 64-bit value stay signed when negative and become unsigned
//! otherwise; integers beyond the unsigned 64-bit range fail. Non-finite
//! floats fail. Raw byte strings become arrays of small unsigned integers.
//! Map keys must be text or integers; integer keys are written in decimal;
//! any other key fails. A semantic tag is discarded and its inner item kept.

use vstd::prelude::*;

use crate::wire::{
    lemma_size_of_list_index, lemma_size_of_pairs_index, size_of, size_of_list, size_of_pairs,
    view_wire_list, view_wire_pairs, DecodeError, SpecWireValue, WireValue,
};

verus! {

/// The pivot value, as executable data. `Int` carries only negative values;
/// every non-negative integer is an `UInt`. `Object` keys are the raw bytes
/// of the key text, held in strictly ascending byte order.
#[derive(Debug, PartialEq, Eq)]
pub enum IntermediateValue {
    Null,
    Bool(bool),
    Int(i64),
    UInt(u64),
    /// Raw bit pattern of a finite double-precision float.
    Float(u64),
    Text(Vec<u8>),
    Array(Vec<IntermediateValue>),
    Object(Vec<(Vec<u8>, IntermediateValue)>),
}

/// The mathematical form of a pivot value.
#[verifier::ext_equal]
pub enum SpecMidValue {
    Null,
    Bool(bool),
    Int(int),
    UInt(nat),
    Float(u64),
    Text(Seq<u8>),
    Array(Seq<SpecMidValue>),
    Object(Seq<(Seq<u8>, SpecMidValue)>),
}

pub open spec fn view_mid_list(s: Seq<IntermediateValue>) -> Seq<SpecMidValue>
    decreases s,
{
    if s.len() == 0 {
        Seq::empty()
    } else {
        seq![s[0]@] + view_mid_list(s.drop_first())
    }
}

pub open spec fn view_mid_pairs(s: Seq<(Vec<u8>, IntermediateValue)>) -> Seq<
    (Seq<u8>, SpecMidValue),
>
    decreases s,
{
    if s.len() == 0 {
        Seq::empty()
    } else {
        seq![(s[0].0@, s[0].1@)] + view_mid_pairs(s.drop_first())
    }
}

impl View for IntermediateValue {
    type V = SpecMidValue;

    open spec fn view(&self) -> SpecMidValue
        decreases self,
    {
        match self {
            IntermediateValue::Null => SpecMidValue::Null,
            IntermediateValue::Bool(b) => SpecMidValue::Bool(*b),
            IntermediateValue::Int(i) => SpecMidValue::Int(*i as int),
            IntermediateValue::UInt(n) => SpecMidValue::UInt(*n as nat),
            IntermediateValue::Float(bits) => SpecMidValue::Float(*bits),
            IntermediateValue::Text(t) => SpecMidValue::Text(t@),
            IntermediateValue::Array(vs) => SpecMidValue::Array(view_mid_list(vs@)),
            IntermediateValue::Object(ps) => SpecMidValue::Object(view_mid_pairs(ps@)),
        }
    }
}

/// Three-way byte-lexicographic comparison: negative for less, zero for
/// equal, positive for greater.
pub open spec fn lex_cmp_spec(a: Seq<u8>, b: Seq<u8>) -> int
    decreases a.len(),
{
    if a.len() == 0 && b.len() == 0 {
        0
    } else if a.len() == 0 {
        -1
    } else if b.len() == 0 {
        1
    } else if a[0] < b[0] {
        -1
    } else if a[0] > b[0] {
        1
    } else {
        lex_cmp_spec(a.drop_first(), b.drop_first())
    }
}

/// Strict byte-lexicographic order.
pub open spec fn lex_lt(a: Seq<u8>, b: Seq<u8>) -> bool {
    lex_cmp_spec(a, b) == -1
}

pub proof fn lemma_lex_cmp_eq(a: Seq<u8>, b: Seq<u8>)
    ensures
        (lex_cmp_spec(a, b) == 0) <==> (a == b),
    decreases a.len(),
{
    if a.len() == 0 && b.len() == 0 {
        assert(a =~= b);
    } else if a.len() > 0 && b.len() > 0 {
        lemma_lex_cmp_eq(a.drop_first(), b.drop_first());
        if lex_cmp_spec(a, b) == 0 {
            assert(a[0] == b[0]);
            assert(a.drop_first() == b.drop_first());
            assert forall|i: int| 0 <= i < a.len() implies a[i] == b[i] by {
                if i > 0 {
                    assert(a[i] == a.drop_first()[i - 1]);
                    assert(b[i] == b.drop_first()[i - 1]);
                }
            }
            assert(a =~= b);
        } else {
            if a == b {
                assert(a.drop_first() =~= b.drop_first());
            }
        }
    } else {
        if a == b {
            assert(a.len() == b.len());
        }
    }
}

/// Three-way byte comparison of two byte vectors.
pub fn lex_cmp(a: &Vec<u8>, b: &Vec<u8>) -> (r: i8)
    ensures
        r == -1 || r == 0 || r == 1,
        r == lex_cmp_spec(a@, b@),
    decreases a.len(),
{
    let mut i: usize = 0;
    proof {
        assert(a@.skip(0) =~= a@);
        assert(b@.skip(0) =~= b@);
    }
    loop
        invariant
            i <= a.len(),
            i <= b.len(),
            lex_cmp_spec(a@, b@) == lex_cmp_spec(a@.skip(i as int), b@.skip(i as int)),
        decreases a.len() - i,
    {
        if i >= a.len() && i >= b.len() {
            return 0;
        }
        if i >= a.len() {
            return -1;
        }
        if i >= b.len() {
            return 1;
        }
        let x = a[i];
        let y = b[i];
        proof {
            assert(a@.skip(i as int)[0] == a@[i as int]);
            assert(b@.skip(i as int)[0] == b@[i as int]);
            assert(a@.skip(i as int).drop_first() =~= a@.skip(i + 1));
            assert(b@.skip(i as int).drop_first() =~= b@.skip(i + 1));
        }
        if x < y {
            return -1;
        }
        if x > y {
            return 1;
        }
        i += 1;
    }
}

/// Decimal digits of a natural number, most significant first.
pub open spec fn dec_digits(n: nat) -> Seq<u8>
    decreases n,
{
    if n < 10 {
        seq![(0x30 + n) as u8]
    } else {
        dec_digits(n / 10) + seq![(0x30 + n % 10) as u8]
    }
}

/// Decimal text of an integer, with a leading minus sign when negative.
pub open spec fn dec_bytes_of_int(i: int) -> Seq<u8> {
    if i >= 0 {
        dec_digits(i as nat)
    } else {
        seq![0x2du8] + dec_digits((-i) as nat)
    }
}

fn push_dec_digits(n: u128, out: &mut Vec<u8>)
    ensures
        final(out)@ == old(out)@ + dec_digits(n as nat),
    decreases n,
{
    if n < 10 {
        out.push(0x30 + n as u8);
        assert(final(out)@ =~= old(out)@ + dec_digits(n as nat));
    } else {
        push_dec_digits(n / 10, out);
        out.push(0x30 + (n % 10) as u8);
        assert(final(out)@ =~= old(out)@ + dec_digits(n as nat));
    }
}

/// Decimal text of an integer.
pub fn int_to_dec_bytes(i: i128) -> (out: Vec<u8>)
    ensures
        out@ == dec_bytes_of_int(i as int),
{
    let mut out: Vec<u8> = Vec::new();
    if i >= 0 {
        push_dec_digits(i as u128, &mut out);
    } else {
        out.push(0x2d);
        let mag: u128 = ((-(i + 1)) as u128) + 1;
        assert(mag == (-(i as int)) as nat);
        push_dec_digits(mag, &mut out);
        assert(out@ =~= seq![0x2du8] + dec_digits((-(i as int)) as nat));
    }
    out
}

pub broadcast proof fn lemma_view_mid_list_len(s: Seq<IntermediateValue>)
    ensures
        #[trigger] view_mid_list(s).len() == s.len(),
    decreases s,
{
    if s.len() > 0 {
        lemma_view_mid_list_len(s.drop_first());
        assert(view_mid_list(s) == seq![s[0]@] + view_mid_list(s.drop_first()));
    } else {
        assert(view_mid_list(s).len() == 0);
    }
}

pub broadcast proof fn lemma_view_mid_list_index(s: Seq<IntermediateValue>, i: int)
    requires
        0 <= i < s.len(),
    ensures
        #[trigger] view_mid_list(s)[i] == s[i]@,
    decreases s,
{
    lemma_view_mid_list_len(s);
    lemma_view_mid_list_len(s.drop_first());
    assert(view_mid_list(s) == seq![s[0]@] + view_mid_list(s.drop_first()));
    if i > 0 {
        lemma_view_mid_list_index(s.drop_first(), i - 1);
        assert(view_mid_list(s)[i] == view_mid_list(s.drop_first())[i - 1]);
        assert(s.drop_first()[i - 1] == s[i]);
    }
}

pub broadcast proof fn lemma_view_mid_pairs_len(s: Seq<(Vec<u8>, IntermediateValue)>)
    ensures
        #[trigger] view_mid_pairs(s).len() == s.len(),
    decreases s,
{
    if s.len() > 0 {
        lemma_view_mid_pairs_len(s.drop_first());
        assert(view_mid_pairs(s) == seq![(s[0].0@, s[0].1@)] + view_mid_pairs(s.drop_first()));
    }
}

pub broadcast proof fn lemma_view_mid_pairs_index(s: Seq<(Vec<u8>, IntermediateValue)>, i: int)
    requires
        0 <= i < s.len(),
    ensures
        #[trigger] view_mid_pairs(s)[i] == (s[i].0@, s[i].1@),
    decreases s,
{
    lemma_view_mid_pairs_len(s);
    lemma_view_mid_pairs_len(s.drop_first());
    assert(view_mid_pairs(s) == seq![(s[0].0@, s[0].1@)] + view_mid_pairs(s.drop_first()));
    if i > 0 {
        lemma_view_mid_pairs_index(s.drop_first(), i - 1);
        assert(view_mid_pairs(s)[i] == view_mid_pairs(s.drop_first())[i - 1]);
        assert(s.drop_first()[i - 1] == s[i]);
    }
}

/// The key bytes of a wire map key: the text itself, or the decimal form of
/// an integer; any other key is refused.
pub open spec fn key_of(w: SpecWireValue) -> Result<Seq<u8>, DecodeError> {
    match w {
        SpecWireValue::Text(t) => Ok(t),
        SpecWireValue::Integer(i) => Ok(dec_bytes_of_int(i)),
        _ => Err(DecodeError::UnsupportedMapKey),
    }
}

/// Inserts a key/value pair into an association list held in strictly
/// ascending key order; an equal key is overwritten.
pub open spec fn obj_insert(
    s: Seq<(Seq<u8>, SpecMidValue)>,
    k: Seq<u8>,
    v: SpecMidValue,
) -> Seq<(Seq<u8>, SpecMidValue)>
    decreases s.len(),
{
    if s.len() == 0 {
        seq![(k, v)]
    } else if lex_lt(k, s[0].0) {
        seq![(k, v)] + s
    } else if k == s[0].0 {
        seq![(k, v)] + s.drop_first()
    } else {
        seq![s[0]] + obj_insert(s.drop_first(), k, v)
    }
}

/// Rewrites one wire item into the pivot form; `Err` is the first failure in
/// traversal order.
#[verifier::opaque]
pub open spec fn mid_of_wire(w: SpecWireValue) -> Result<SpecMidValue, DecodeError>
    decreases size_of(w), 0int,
{
    match w {
        SpecWireValue::Null => Ok(SpecMidValue::Null),
        SpecWireValue::Bool(b) => Ok(SpecMidValue::Bool(b)),
        SpecWireValue::Integer(i) => if 0 <= i < 0x10000000000000000 {
            Ok(SpecMidValue::UInt(i as nat))
        } else if -0x8000000000000000 <= i < 0 {
            Ok(SpecMidValue::Int(i))
        } else {
            Err(DecodeError::UnsupportedInteger)
        },
        SpecWireValue::Float(bits) => if crate::spec_float_bits_finite(bits) {
            Ok(SpecMidValue::Float(bits))
        } else {
            Err(DecodeError::InvalidFloat)
        },
        SpecWireValue::Bytes(b) => Ok(
            SpecMidValue::Array(b.map_values(|x: u8| SpecMidValue::UInt(x as nat))),
        ),
        SpecWireValue::Text(t) => Ok(SpecMidValue::Text(t)),
        SpecWireValue::Array(vs) => match mid_of_list(vs) {
            Ok(ms) => Ok(SpecMidValue::Array(ms)),
            Err(e) => Err(e),
        },
        SpecWireValue::Dict(ps) => match mid_of_pairs(ps, Seq::empty()) {
            Ok(obj) => Ok(SpecMidValue::Object(obj)),
            Err(e) => Err(e),
        },
        SpecWireValue::Tag(_, inner) => mid_of_wire(*inner),
    }
}

/// Rewrites the items of an array body in order; the first failure aborts.
#[verifier::opaque]
pub open spec fn mid_of_list(s: Seq<SpecWireValue>) -> Result<Seq<SpecMidValue>, DecodeError>
    decreases size_of_list(s), 1int,
    via mid_of_list_decreases
{
    if s.len() == 0 {
        Ok(Seq::empty())
    } else {
        match mid_of_wire(s[0]) {
            Err(e) => Err(e),
            Ok(m) => match mid_of_list(s.drop_first()) {
                Err(e) => Err(e),
                Ok(ms) => Ok(seq![m] + ms),
            },
        }
    }
}

/// Folds the pairs of a map body, left to right, into an ordered object;
/// a later equal key overwrites an earlier one. The key is judged before the
/// value is rewritten, and the first failure aborts.
#[verifier::opaque]
pub open spec fn mid_of_pairs(
    s: Seq<(SpecWireValue, SpecWireValue)>,
    acc: Seq<(Seq<u8>, SpecMidValue)>,
) -> Result<Seq<(Seq<u8>, SpecMidValue)>, DecodeError>
    decreases size_of_pairs(s), 1int,
    via mid_of_pairs_decreases
{
    if s.len() == 0 {
        Ok(acc)
    } else {
        match key_of(s[0].0) {
            Err(e) => Err(e),
            Ok(k) => match mid_of_wire(s[0].1) {
                Err(e) => Err(e),
                Ok(v) => mid_of_pairs(s.drop_first(), obj_insert(acc, k, v)),
            },
        }
    }
}

#[via_fn]
proof fn mid_of_list_decreases(s: Seq<SpecWireValue>) {
    if s.len() > 0 {
        assert(size_of_list(s) == size_of(s[0]) + size_of_list(s.drop_first()));
        assert(size_of(s[0]) >= 1);
    }
}

#[via_fn]
proof fn mid_of_pairs_decreases(
    s: Seq<(SpecWireValue, SpecWireValue)>,
    acc: Seq<(Seq<u8>, SpecMidValue)>,
) {
    if s.len() > 0 {
        assert(size_of_pairs(s) == size_of(s[0].0) + size_of(s[0].1) + size_of_pairs(
            s.drop_first(),
        ));
        assert(size_of(s[0].0) >= 1);
        assert(size_of(s[0].1) >= 1);
    }
}

/// Inserts a key/value pair into an ordered object held as a vector.
pub fn obj_insert_exec(
    obj: Vec<(Vec<u8>, IntermediateValue)>,
    k: Vec<u8>,
    v: IntermediateValue,
) -> (r: Vec<(Vec<u8>, IntermediateValue)>)
    ensures
        view_mid_pairs(r@) == obj_insert(view_mid_pairs(obj@), k@, v@),
    decreases obj.len(),
{
    broadcast use lemma_view_mid_pairs_len, lemma_view_mid_pairs_index;

    let ghost gobj = obj@;
    let ghost s = view_mid_pairs(obj@);
    let ghost gk = k@;
    let ghost gv = v@;
    if obj.len() == 0 {
        let mut r: Vec<(Vec<u8>, IntermediateValue)> = Vec::new();
        r.push((k, v));
        proof {
            assert(view_mid_pairs(r@) == seq![(r@[0].0@, r@[0].1@)] + view_mid_pairs(
                r@.drop_first(),
            ));
            assert(r@.drop_first() =~= Seq::<(Vec<u8>, IntermediateValue)>::empty());
            assert(view_mid_pairs(r@) =~= seq![(gk, gv)]);
            assert(obj_insert(s, gk, gv) == seq![(gk, gv)]);
        }
        r
    } else {
        let c = lex_cmp(&k, &obj[0].0);
        proof {
            assert(s[0] == (gobj[0].0@, gobj[0].1@));
            lemma_lex_cmp_eq(k@, gobj[0].0@);
        }
        if c < 0 {
            let mut r = obj;
            r.insert(0, (k, v));
            proof {
                assert(r@ == gobj.insert(0, ((k, v))));
                assert(r@[0].0@ == gk && r@[0].1@ == gv);
                assert(r@.drop_first() =~= gobj);
                assert(view_mid_pairs(r@) == seq![(r@[0].0@, r@[0].1@)] + view_mid_pairs(
                    r@.drop_first(),
                ));
                assert(view_mid_pairs(r@) =~= seq![(gk, gv)] + s);
                assert(lex_lt(gk, s[0].0));
                assert(obj_insert(s, gk, gv) == seq![(gk, gv)] + s);
            }
            r
        } else if c == 0 {
            let mut r = obj;
            let _old_head = r.remove(0);
            r.insert(0, (k, v));
            proof {
                assert(r@[0].0@ == gk && r@[0].1@ == gv);
                assert(r@.drop_first() =~= gobj.drop_first());
                assert(view_mid_pairs(r@) == seq![(r@[0].0@, r@[0].1@)] + view_mid_pairs(
                    r@.drop_first(),
                ));
                assert(view_mid_pairs(gobj) == seq![(gobj[0].0@, gobj[0].1@)] + view_mid_pairs(
                    gobj.drop_first(),
                ));
                assert(s.drop_first() =~= view_mid_pairs(gobj.drop_first()));
                assert(view_mid_pairs(r@) =~= seq![(gk, gv)] + s.drop_first());
                assert(gk == s[0].0);
                assert(obj_insert(s, gk, gv) == seq![(gk, gv)] + s.drop_first());
            }
            r
        } else {
            let mut o = obj;
            let head = o.remove(0);
            let ghost ghead = (head.0@, head.1@);
            proof {
                assert(o@ =~= gobj.drop_first());
                assert(view_mid_pairs(gobj) == seq![(gobj[0].0@, gobj[0].1@)] + view_mid_pairs(
                    gobj.drop_first(),
                ));
                assert(view_mid_pairs(o@) =~= s.drop_first());
            }
            let rest = obj_insert_exec(o, k, v);
            let ghost grest = rest@;
            let mut r = rest;
            r.insert(0, head);
            proof {
                assert(r@ == grest.insert(0, head));
                assert(r@[0] == head);
                assert(r@.drop_first() =~= grest);
                assert(view_mid_pairs(r@) == seq![(r@[0].0@, r@[0].1@)] + view_mid_pairs(
                    r@.drop_first(),
                ));
                assert(view_mid_pairs(r@) =~= seq![ghead] + obj_insert(s.drop_first(), gk, gv));
                assert(!lex_lt(gk, s[0].0));
                assert(gk != s[0].0);
                assert(obj_insert(s, gk, gv) == seq![s[0]] + obj_insert(s.drop_first(), gk, gv));
                assert(ghead == s[0]);
            }
            r
        }
    }
}

pub proof fn lemma_view_mid_list_snoc(s: Seq<IntermediateValue>, x: IntermediateValue)
    ensures
        view_mid_list(s + seq![x]) == view_mid_list(s) + seq![x@],
    decreases s,
{
    let t = s + seq![x];
    if s.len() == 0 {
        assert(t[0] == x);
        assert(t.drop_first() =~= Seq::<IntermediateValue>::empty());
        assert(view_mid_list(t) == seq![t[0]@] + view_mid_list(t.drop_first()));
        assert(view_mid_list(t.drop_first()) =~= Seq::<SpecMidValue>::empty());
        assert(view_mid_list(s) =~= Seq::<SpecMidValue>::empty());
        assert(view_mid_list(t) =~= view_mid_list(s) + seq![x@]);
    } else {
        assert(t[0] == s[0]);
        assert(t.drop_first() =~= s.drop_first() + seq![x]);
        lemma_view_mid_list_snoc(s.drop_first(), x);
        assert(view_mid_list(t) == seq![t[0]@] + view_mid_list(t.drop_first()));
        assert(view_mid_list(s) == seq![s[0]@] + view_mid_list(s.drop_first()));
        assert(view_mid_list(t) =~= view_mid_list(s) + seq![x@]);
    }
}

/// Converts a wire map key to its key bytes.
fn key_bytes(k: &WireValue) -> (r: Result<Vec<u8>, DecodeError>)
    ensures
        match r {
            Ok(b) => key_of(k@) == Ok::<Seq<u8>, DecodeError>(b@),
            Err(e) => key_of(k@) == Err::<Seq<u8>, DecodeError>(e),
        },
{
    match k {
        WireValue::Text(t) => {
            let out = crate::wire::copy_range(t, 0, t.len());
            proof {
                assert(out@ =~= t@);
            }
            Ok(out)
        },
        WireValue::Integer(i) => Ok(int_to_dec_bytes(*i)),
        _ => Err(DecodeError::UnsupportedMapKey),
    }
}

/// Rewrites a wire item into the pivot value, per the conversion rules of
/// this module.
pub fn wire_to_mid(w: &WireValue) -> (r: Result<IntermediateValue, DecodeError>)
    ensures
        match r {
            Ok(m) => mid_of_wire(w@) == Ok::<SpecMidValue, DecodeError>(m@),
            Err(e) => mid_of_wire(w@) == Err::<SpecMidValue, DecodeError>(e),
        },
    decreases size_of(w@),
{
    broadcast use
        crate::wire::lemma_view_wire_list_len,
        crate::wire::lemma_view_wire_list_index,
        crate::wire::lemma_view_wire_pairs_len,
        crate::wire::lemma_view_wire_pairs_index,
        lemma_view_mid_list_len,
        lemma_view_mid_list_index,
        lemma_view_mid_pairs_len,
        lemma_view_mid_pairs_index;

    reveal_with_fuel(mid_of_wire, 1);
    reveal_with_fuel(mid_of_list, 1);
    reveal_with_fuel(mid_of_pairs, 1);
    match w {
        WireValue::Null => Ok(IntermediateValue::Null),
        WireValue::Bool(b) => Ok(IntermediateValue::Bool(*b)),
        WireValue::Integer(i) => {
            if *i >= 0 && *i < 0x10000000000000000i128 {
                Ok(IntermediateValue::UInt(*i as u64))
            } else if *i >= -0x8000000000000000i128 && *i < 0 {
                Ok(IntermediateValue::Int(*i as i64))
            } else {
                Err(DecodeError::UnsupportedInteger)
            }
        },
        WireValue::Float(bits) => {
            if crate::float_bits_finite(*bits) {
                Ok(IntermediateValue::Float(*bits))
            } else {
                Err(DecodeError::InvalidFloat)
            }
        },
        WireValue::Bytes(b) => {
            let mut out: Vec<IntermediateValue> = Vec::new();
            let mut j: usize = 0;
            while j < b.len()
                invariant
                    j <= b.len(),
                    out@.len() == j,
                    forall|i: int| 0 <= i < j ==> out@[i]@ == SpecMidValue::UInt(b@[i] as nat),
                decreases b.len() - j,
            {
                out.push(IntermediateValue::UInt(b[j] as u64));
                j += 1;
            }
            let res = IntermediateValue::Array(out);
            proof {
                assert(view_mid_list(res->Array_0@) =~= b@.map_values(
                    |x: u8| SpecMidValue::UInt(x as nat),
                ));
                assert(mid_of_wire(w@) == Ok::<SpecMidValue, DecodeError>(res@));
            }
            Ok(res)
        },
        WireValue::Text(t) => {
            let out = crate::wire::copy_range(t, 0, t.len());
            proof {
                assert(out@ =~= t@);
            }
            Ok(IntermediateValue::Text(out))
        },
        WireValue::Array(vs) => {
            let ghost full = view_wire_list(vs@);
            let mut out: Vec<IntermediateValue> = Vec::new();
            proof {
                assert(full.skip(0) =~= full);
                assert(view_mid_list(out@) =~= Seq::<SpecMidValue>::empty());
            }
            let mut j: usize = 0;
            while j < vs.len()
                invariant
                    j <= vs.len(),
                    w@ == SpecWireValue::Array(full),
                    full == view_wire_list(vs@),
                    full.len() == vs@.len(),
                    forall|i: int| 0 <= i < vs@.len() ==> #[trigger] full[i] == vs@[i]@,
                    mid_of_list(full) == (match mid_of_list(full.skip(j as int)) {
                        Ok(ms) => Ok::<Seq<SpecMidValue>, DecodeError>(view_mid_list(out@) + ms),
                        Err(e) => Err(e),
                    }),
                decreases vs.len() - j,
            {
                reveal_with_fuel(mid_of_wire, 1);
                reveal_with_fuel(mid_of_list, 1);
                reveal_with_fuel(mid_of_pairs, 1);
                proof {
                    lemma_size_of_list_index(full, j as int);
                    assert(size_of(w@) == 1 + size_of_list(full));
                    assert(full.skip(j as int)[0] == full[j as int]);
                    assert(full.skip(j as int).drop_first() =~= full.skip(j + 1));
                }
                match wire_to_mid(&vs[j]) {
                    Err(e) => {
                        proof {
                            assert(mid_of_list(full.skip(j as int)) == Err::<
                                Seq<SpecMidValue>,
                                DecodeError,
                            >(e));
                            assert(mid_of_list(full) == Err::<Seq<SpecMidValue>, DecodeError>(e));
                            assert(mid_of_wire(w@) == Err::<SpecMidValue, DecodeError>(e));
                        }
                        return Err(e);
                    },
                    Ok(m) => {
                        let ghost gm = m@;
                        let ghost old_out = out@;
                        out.push(m);
                        proof {
                            assert(out@ =~= old_out + seq![m]);
                            lemma_view_mid_list_snoc(old_out, m);
                            let rr = mid_of_list(full.skip(j + 1));
                            if rr is Ok {
                                let ms = rr->Ok_0;
                                assert(mid_of_list(full.skip(j as int)) == Ok::<
                                    Seq<SpecMidValue>,
                                    DecodeError,
                                >(seq![gm] + ms));
                                assert((view_mid_list(old_out) + seq![gm]) + ms =~= view_mid_list(
                                    old_out,
                                ) + (seq![gm] + ms));
                            }
                        }
                    },
                }
                j += 1;
            }
            proof {
                assert(full.skip(vs@.len() as int) =~= Seq::<SpecWireValue>::empty());
                assert(mid_of_list(full.skip(vs@.len() as int)) == Ok::<
                    Seq<SpecMidValue>,
                    DecodeError,
                >(Seq::empty()));
                assert(view_mid_list(out@) + Seq::<SpecMidValue>::empty() =~= view_mid_list(out@));
                assert(mid_of_list(full) == Ok::<Seq<SpecMidValue>, DecodeError>(
                    view_mid_list(out@),
                ));
            }
            let res = IntermediateValue::Array(out);
            proof {
                assert(mid_of_wire(w@) == Ok::<SpecMidValue, DecodeError>(res@));
            }
            Ok(res)
        },
        WireValue::Dict(ps) => {
            let ghost fullp = view_wire_pairs(ps@);
            let mut obj: Vec<(Vec<u8>, IntermediateValue)> = Vec::new();
            proof {
                assert(fullp.skip(0) =~= fullp);
                assert(view_mid_pairs(obj@) =~= Seq::<(Seq<u8>, SpecMidValue)>::empty());
            }
            let mut j: usize = 0;
            while j < ps.len()
                invariant
                    j <= ps.len(),
                    w@ == SpecWireValue::Dict(fullp),
                    fullp == view_wire_pairs(ps@),
                    fullp.len() == ps@.len(),
                    forall|i: int|
                        0 <= i < ps@.len() ==> #[trigger] fullp[i] == (ps@[i].0@, ps@[i].1@),
                    mid_of_pairs(fullp, Seq::empty()) == mid_of_pairs(
                        fullp.skip(j as int),
                        view_mid_pairs(obj@),
                    ),
                decreases ps.len() - j,
            {
                reveal_with_fuel(mid_of_wire, 1);
                reveal_with_fuel(mid_of_list, 1);
                reveal_with_fuel(mid_of_pairs, 1);
                proof {
                    lemma_size_of_pairs_index(fullp, j as int);
                    assert(size_of(w@) == 1 + size_of_pairs(fullp));
                    assert(fullp.skip(j as int)[0] == fullp[j as int]);
                    assert(fullp.skip(j as int).drop_first() =~= fullp.skip(j + 1));
                }
                let kb = match key_bytes(&ps[j].0) {
                    Ok(t) => t,
                    Err(e) => {
                        proof {
                            assert(mid_of_pairs(fullp.skip(j as int), view_mid_pairs(obj@))
                                == Err::<Seq<(Seq<u8>, SpecMidValue)>, DecodeError>(e));
                            assert(mid_of_wire(w@) == Err::<SpecMidValue, DecodeError>(e));
                        }
                        return Err(e);
                    },
                };
                let mv = match wire_to_mid(&ps[j].1) {
                    Ok(t) => t,
                    Err(e) => {
                        proof {
                            assert(mid_of_pairs(fullp.skip(j as int), view_mid_pairs(obj@))
                                == Err::<Seq<(Seq<u8>, SpecMidValue)>, DecodeError>(e));
                            assert(mid_of_wire(w@) == Err::<SpecMidValue, DecodeError>(e));
                        }
                        return Err(e);
                    },
                };
                let ghost gk = kb@;
                let ghost gv = mv@;
                let ghost old_obj_view = view_mid_pairs(obj@);
                obj = obj_insert_exec(obj, kb, mv);
                proof {
                    assert(view_mid_pairs(obj@) == obj_insert(old_obj_view, gk, gv));
                    assert(mid_of_pairs(fullp.skip(j as int), old_obj_view) == mid_of_pairs(
                        fullp.skip(j + 1),
                        obj_insert(old_obj_view, gk, gv),
                    ));
                }
                j += 1;
            }
            proof {
                assert(fullp.skip(ps@.len() as int) =~= Seq::<
                    (SpecWireValue, SpecWireValue),
                >::empty());
                assert(mid_of_pairs(fullp.skip(ps@.len() as int), view_mid_pairs(obj@)) == Ok::<
                    Seq<(Seq<u8>, SpecMidValue)>,
                    DecodeError,
                >(view_mid_pairs(obj@)));
            }
            let res = IntermediateValue::Object(obj);
            proof {
                assert(mid_of_wire(w@) == Ok::<SpecMidValue, DecodeError>(res@));
            }
            Ok(res)
        },
        WireValue::Tag(_, inner) => {
            proof {
                assert(size_of(w@) == 1 + size_of((**inner)@));
            }
            let r = wire_to_mid(&**inner);
            proof {
                assert(mid_of_wire(w@) == mid_of_wire((**inner)@));
            }
            r
        },
    }
}

/// Rewrites one wire item into the pivot form.
pub fn cbor_to_json(value: WireValue) -> (r: Result<IntermediateValue, DecodeError>)
    ensures
        match r {
            Ok(m) => mid_of_wire(value@) == Ok::<SpecMidValue, DecodeError>(m@),
            Err(e) => mid_of_wire(value@) == Err::<SpecMidValue, DecodeError>(e),
        },
{
    wire_to_mid(&value)
}

/// Decodes one binary payload into the pivot form: parses the bytes as one
/// complete wire item, then rewrites it.
pub fn cbor_slice_to_json(bytes: &Vec<u8>) -> (r: Result<IntermediateValue, DecodeError>)
    ensures
        match r {
            Ok(m) => {
                &&& crate::wire::spec_decode(bytes@) is Some
                &&& mid_of_wire(crate::wire::spec_decode(bytes@)->Some_0) == Ok::<
                    SpecMidValue,
                    DecodeError,
                >(m@)
            },
            Err(e) => crate::wire::spec_decode(bytes@) is None || mid_of_wire(
                crate::wire::spec_decode(bytes@)->Some_0,
            ) == Err::<SpecMidValue, DecodeError>(e),
        },
{
    match crate::wire::decode_value(bytes) {
        Ok(v) => wire_to_mid(&v),
        Err(e) => Err(e),
    }
}

/// Serializes a native-result model straight to the wire format. The one
/// unrepresentable case is an integer outside the wire range.
pub fn surreal_to_cbor_bytes(value: &WireValue) -> (r: Result<Vec<u8>, DecodeError>)
    ensures
        match r {
            Ok(b) => crate::wire::wire_wf(value@) && b@ == crate::wire::wire_bytes(value@),
            Err(e) => !crate::wire::wire_wf(value@) && e == DecodeError::UnsupportedInteger,
        },
{
    if crate::wire::check_wire_wf(value) {
        Ok(crate::wire::encode_value(value))
    } else {
        Err(DecodeError::UnsupportedInteger)
    }
}

/// Keys strictly ascend in byte-lexicographic order.
pub open spec fn strictly_sorted(s: Seq<(Seq<u8>, SpecMidValue)>) -> bool {
    forall|i: int| 0 <= i < s.len() - 1 ==> lex_lt(#[trigger] s[i].0, s[i + 1].0)
}

/// The value under a key, by first match.
pub open spec fn assoc_get(s: Seq<(Seq<u8>, SpecMidValue)>, k: Seq<u8>) -> Option<SpecMidValue>
    decreases s.len(),
{
    if s.len() == 0 {
        None
    } else if s[0].0 == k {
        Some(s[0].1)
    } else {
        assoc_get(s.drop_first(), k)
    }
}

/// The value of the last pair carrying a key, if any.
pub open spec fn last_of(s: Seq<(Seq<u8>, SpecMidValue)>, k: Seq<u8>) -> Option<SpecMidValue>
    decreases s.len(),
{
    if s.len() == 0 {
        None
    } else {
        match last_of(s.drop_first(), k) {
            Some(v) => Some(v),
            None => if s[0].0 == k {
                Some(s[0].1)
            } else {
                None
            },
        }
    }
}

pub proof fn lemma_lex_cmp_range(a: Seq<u8>, b: Seq<u8>)
    ensures
        lex_cmp_spec(a, b) == -1 || lex_cmp_spec(a, b) == 0 || lex_cmp_spec(a, b) == 1,
    decreases a.len(),
{
    if a.len() > 0 && b.len() > 0 && a[0] == b[0] {
        lemma_lex_cmp_range(a.drop_first(), b.drop_first());
    }
}

pub proof fn lemma_lex_cmp_antisym(a: Seq<u8>, b: Seq<u8>)
    ensures
        lex_cmp_spec(a, b) == -lex_cmp_spec(b, a),
    decreases a.len(),
{
    if a.len() > 0 && b.len() > 0 && a[0] == b[0] {
        lemma_lex_cmp_antisym(a.drop_first(), b.drop_first());
    }
}

proof fn lemma_obj_insert_first(s: Seq<(Seq<u8>, SpecMidValue)>, k: Seq<u8>, v: SpecMidValue)
    ensures
        obj_insert(s, k, v).len() >= 1,
        obj_insert(s, k, v)[0].0 == k || (s.len() > 0 && obj_insert(s, k, v)[0].0 == s[0].0),
{
    let r = obj_insert(s, k, v);
    if s.len() == 0 {
        assert(r == seq![(k, v)]);
    } else if lex_lt(k, s[0].0) {
        assert(r[0] == (k, v));
    } else if k == s[0].0 {
        assert(r[0] == (k, v));
    } else {
        assert(r == seq![s[0]] + obj_insert(s.drop_first(), k, v));
        assert(r[0] == s[0]);
    }
}

/// Insertion keeps the keys strictly sorted.
pub proof fn lemma_obj_insert_sorted(s: Seq<(Seq<u8>, SpecMidValue)>, k: Seq<u8>, v: SpecMidValue)
    requires
        strictly_sorted(s),
    ensures
        strictly_sorted(obj_insert(s, k, v)),
    decreases s.len(),
{
    let r = obj_insert(s, k, v);
    if s.len() == 0 {
        assert(r == seq![(k, v)]);
        assert(strictly_sorted(r));
    } else if lex_lt(k, s[0].0) {
        assert(r == seq![(k, v)] + s);
        assert forall|i: int| 0 <= i < r.len() - 1 implies lex_lt(#[trigger] r[i].0, r[i + 1].0) by {
            if i == 0 {
                assert(r[0].0 == k && r[1].0 == s[0].0);
            } else {
                assert(r[i] == s[i - 1] && r[i + 1] == s[i]);
                assert(lex_lt(s[i - 1].0, s[i].0));
            }
        }
    } else if k == s[0].0 {
        assert(r == seq![(k, v)] + s.drop_first());
        assert forall|i: int| 0 <= i < r.len() - 1 implies lex_lt(#[trigger] r[i].0, r[i + 1].0) by {
            if i == 0 {
                assert(r[1] == s.drop_first()[0]);
                assert(s.drop_first()[0] == s[1]);
                assert(lex_lt(s[0].0, s[1].0));
            } else {
                assert(r[i] == s.drop_first()[i - 1] && r[i + 1] == s.drop_first()[i]);
                assert(s.drop_first()[i - 1] == s[i] && s.drop_first()[i] == s[i + 1]);
                assert(lex_lt(s[i].0, s[i + 1].0));
            }
        }
    } else {
        assert(r == seq![s[0]] + obj_insert(s.drop_first(), k, v));
        assert forall|i: int|
            0 <= i < s.drop_first().len() - 1 implies lex_lt(
            #[trigger] s.drop_first()[i].0,
            s.drop_first()[i + 1].0,
        ) by {
            assert(s.drop_first()[i] == s[i + 1] && s.drop_first()[i + 1] == s[i + 2]);
            assert(lex_lt(s[i + 1].0, s[i + 2].0));
        }
        lemma_obj_insert_sorted(s.drop_first(), k, v);
        let t = obj_insert(s.drop_first(), k, v);
        lemma_obj_insert_first(s.drop_first(), k, v);
        lemma_lex_cmp_range(k, s[0].0);
        lemma_lex_cmp_eq(k, s[0].0);
        lemma_lex_cmp_antisym(k, s[0].0);
        assert(lex_lt(s[0].0, k));
        assert(lex_lt(s[0].0, t[0].0));
        assert forall|i: int| 0 <= i < r.len() - 1 implies lex_lt(#[trigger] r[i].0, r[i + 1].0) by {
            if i == 0 {
                assert(r[0] == s[0] && r[1] == t[0]);
            } else {
                assert(r[i] == t[i - 1] && r[i + 1] == t[i]);
                assert(lex_lt(t[i - 1].0, t[i].0));
            }
        }
    }
}

/// Insertion stores the value under its key.
pub proof fn lemma_obj_insert_get_same(s: Seq<(Seq<u8>, SpecMidValue)>, k: Seq<u8>, v: SpecMidValue)
    ensures
        assoc_get(obj_insert(s, k, v), k) == Some(v),
    decreases s.len(),
{
    let r = obj_insert(s, k, v);
    if s.len() == 0 {
        assert(r == seq![(k, v)]);
        assert(r[0].0 == k);
    } else if lex_lt(k, s[0].0) {
        assert(r == seq![(k, v)] + s);
        assert(r[0].0 == k);
    } else if k == s[0].0 {
        assert(r == seq![(k, v)] + s.drop_first());
        assert(r[0].0 == k);
    } else {
        assert(r == seq![s[0]] + obj_insert(s.drop_first(), k, v));
        lemma_lex_cmp_range(k, s[0].0);
        lemma_lex_cmp_eq(k, s[0].0);
        assert(r[0].0 == s[0].0 && s[0].0 != k);
        assert(r.drop_first() =~= obj_insert(s.drop_first(), k, v));
        lemma_obj_insert_get_same(s.drop_first(), k, v);
    }
}

/// Insertion leaves every other key's value unchanged.
pub proof fn lemma_obj_insert_get_other(
    s: Seq<(Seq<u8>, SpecMidValue)>,
    k: Seq<u8>,
    v: SpecMidValue,
    k2: Seq<u8>,
)
    requires
        k2 != k,
    ensures
        assoc_get(obj_insert(s, k, v), k2) == assoc_get(s, k2),
    decreases s.len(),
{
    let r = obj_insert(s, k, v);
    if s.len() == 0 {
        assert(r == seq![(k, v)]);
        assert(r[0].0 == k && k != k2);
        assert(r.drop_first() =~= Seq::<(Seq<u8>, SpecMidValue)>::empty());
        assert(assoc_get(r, k2) == assoc_get(r.drop_first(), k2));
        assert(assoc_get(r.drop_first(), k2) is None);
        assert(assoc_get(s, k2) is None);
    } else if lex_lt(k, s[0].0) {
        assert(r == seq![(k, v)] + s);
        assert(r[0].0 == k && k != k2);
        assert(r.drop_first() =~= s);
        assert(assoc_get(r, k2) == assoc_get(r.drop_first(), k2));
    } else if k == s[0].0 {
        assert(r == seq![(k, v)] + s.drop_first());
        assert(r[0].0 == k && k != k2);
        assert(r.drop_first() =~= s.drop_first());
        assert(s[0].0 != k2);
        assert(assoc_get(r, k2) == assoc_get(r.drop_first(), k2));
        assert(assoc_get(s, k2) == assoc_get(s.drop_first(), k2));
    } else {
        assert(r == seq![s[0]] + obj_insert(s.drop_first(), k, v));
        assert(r[0] == s[0]);
        assert(r.drop_first() =~= obj_insert(s.drop_first(), k, v));
        if s[0].0 != k2 {
            lemma_obj_insert_get_other(s.drop_first(), k, v, k2);
            assert(assoc_get(r, k2) == assoc_get(r.drop_first(), k2));
            assert(assoc_get(s, k2) == assoc_get(s.drop_first(), k2));
        } else {
            assert(assoc_get(r, k2) == Some(r[0].1));
            assert(assoc_get(s, k2) == Some(s[0].1));
        }
    }
}

} // verus!
