//! Binary wire codec: the compact self-describing serialization format that
//! carries every payload across the call boundary.
//!
//! A `WireValue` models one data item of the format. `wire_bytes` is the
//! canonical (minimal-length) encoding; `spec_parse` is the mathematical
//! parser. The executable encoder and parser are proved against those two
//! spec functions, and the parser accepts any argument width, canonical or
//! not.

use vstd::prelude::*;

verus! {

/// One data item of the wire format, as executable data.
///
/// Text keeps the raw bytes of the string; a tag wraps an inner item.
#[derive(Debug, PartialEq, Eq)]
pub enum WireValue {
    Null,
    Bool(bool),
    Integer(i128),
    /// Raw bit pattern of a double-precision float.
    Float(u64),
    Bytes(Vec<u8>),
    Text(Vec<u8>),
    Array(Vec<WireValue>),
    Dict(Vec<(WireValue, WireValue)>),
    Tag(u64, Box<WireValue>),
}

/// The mathematical form of a wire data item, used by all contracts.
#[verifier::ext_equal]
pub enum SpecWireValue {
    Null,
    Bool(bool),
    Integer(int),
    Float(u64),
    Bytes(Seq<u8>),
    Text(Seq<u8>),
    Array(Seq<SpecWireValue>),
    Dict(Seq<(SpecWireValue, SpecWireValue)>),
    Tag(u64, Box<SpecWireValue>),
}

pub open spec fn view_wire_list(s: Seq<WireValue>) -> Seq<SpecWireValue>
    decreases s,
{
    if s.len() == 0 {
        Seq::empty()
    } else {
        seq![s[0]@] + view_wire_list(s.drop_first())
    }
}

pub open spec fn view_wire_pairs(s: Seq<(WireValue, WireValue)>) -> Seq<
    (SpecWireValue, SpecWireValue),
>
    decreases s,
{
    if s.len() == 0 {
        Seq::empty()
    } else {
        seq![(s[0].0@, s[0].1@)] + view_wire_pairs(s.drop_first())
    }
}

impl View for WireValue {
    type V = SpecWireValue;

    open spec fn view(&self) -> SpecWireValue
        decreases self,
    {
        match self {
            WireValue::Null => SpecWireValue::Null,
            WireValue::Bool(b) => SpecWireValue::Bool(*b),
            WireValue::Integer(i) => SpecWireValue::Integer(*i as int),
            WireValue::Float(bits) => SpecWireValue::Float(*bits),
            WireValue::Bytes(b) => SpecWireValue::Bytes(b@),
            WireValue::Text(t) => SpecWireValue::Text(t@),
            WireValue::Array(vs) => SpecWireValue::Array(view_wire_list(vs@)),
            WireValue::Dict(ps) => SpecWireValue::Dict(view_wire_pairs(ps@)),
            WireValue::Tag(t, v) => SpecWireValue::Tag(*t, Box::new((**v)@)),
        }
    }
}

pub broadcast proof fn lemma_view_wire_list_len(s: Seq<WireValue>)
    ensures
        #[trigger] view_wire_list(s).len() == s.len(),
    decreases s,
{
    if s.len() > 0 {
        lemma_view_wire_list_len(s.drop_first());
        assert(view_wire_list(s) == seq![s[0]@] + view_wire_list(s.drop_first()));
        assert(view_wire_list(s).len() == 1 + view_wire_list(s.drop_first()).len());
    } else {
        assert(view_wire_list(s).len() == 0);
    }
}

pub broadcast proof fn lemma_view_wire_list_index(s: Seq<WireValue>, i: int)
    requires
        0 <= i < s.len(),
    ensures
        #[trigger] view_wire_list(s)[i] == s[i]@,
    decreases s,
{
    lemma_view_wire_list_len(s);
    lemma_view_wire_list_len(s.drop_first());
    assert(view_wire_list(s) == seq![s[0]@] + view_wire_list(s.drop_first()));
    if i > 0 {
        lemma_view_wire_list_index(s.drop_first(), i - 1);
        assert(view_wire_list(s)[i] == view_wire_list(s.drop_first())[i - 1]);
        assert(s.drop_first()[i - 1] == s[i]);
    }
}

pub broadcast proof fn lemma_view_wire_pairs_len(s: Seq<(WireValue, WireValue)>)
    ensures
        #[trigger] view_wire_pairs(s).len() == s.len(),
    decreases s,
{
    if s.len() > 0 {
        lemma_view_wire_pairs_len(s.drop_first());
        assert(view_wire_pairs(s) == seq![(s[0].0@, s[0].1@)] + view_wire_pairs(s.drop_first()));
    }
}

pub broadcast proof fn lemma_view_wire_pairs_index(s: Seq<(WireValue, WireValue)>, i: int)
    requires
        0 <= i < s.len(),
    ensures
        #[trigger] view_wire_pairs(s)[i] == (s[i].0@, s[i].1@),
    decreases s,
{
    lemma_view_wire_pairs_len(s);
    lemma_view_wire_pairs_len(s.drop_first());
    assert(view_wire_pairs(s) == seq![(s[0].0@, s[0].1@)] + view_wire_pairs(s.drop_first()));
    if i > 0 {
        lemma_view_wire_pairs_index(s.drop_first(), i - 1);
        assert(view_wire_pairs(s)[i] == view_wire_pairs(s.drop_first())[i - 1]);
        assert(s.drop_first()[i - 1] == s[i]);
    }
}

/// Structural size of a wire data item, the termination measure for the
/// executable codec.
pub open spec fn size_of(v: SpecWireValue) -> nat
    decreases v,
{
    match v {
        SpecWireValue::Array(vs) => 1 + size_of_list(vs),
        SpecWireValue::Dict(ps) => 1 + size_of_pairs(ps),
        SpecWireValue::Tag(_, b) => 1 + size_of(*b),
        _ => 1,
    }
}

pub open spec fn size_of_list(s: Seq<SpecWireValue>) -> nat
    decreases s,
{
    if s.len() == 0 {
        0
    } else {
        size_of(s[0]) + size_of_list(s.drop_first())
    }
}

pub open spec fn size_of_pairs(s: Seq<(SpecWireValue, SpecWireValue)>) -> nat
    decreases s,
{
    if s.len() == 0 {
        0
    } else {
        size_of(s[0].0) + size_of(s[0].1) + size_of_pairs(s.drop_first())
    }
}

pub broadcast proof fn lemma_size_of_list_index(s: Seq<SpecWireValue>, i: int)
    requires
        0 <= i < s.len(),
    ensures
        #[trigger] size_of(s[i]) <= size_of_list(s),
    decreases s,
{
    if i > 0 {
        lemma_size_of_list_index(s.drop_first(), i - 1);
        assert(s.drop_first()[i - 1] == s[i]);
    }
}

pub broadcast proof fn lemma_size_of_pairs_index(s: Seq<(SpecWireValue, SpecWireValue)>, i: int)
    requires
        0 <= i < s.len(),
    ensures
        #[trigger] size_of(s[i].0) <= size_of_pairs(s),
        #[trigger] size_of(s[i].1) <= size_of_pairs(s),
    decreases s,
{
    if i > 0 {
        lemma_size_of_pairs_index(s.drop_first(), i - 1);
        assert(s.drop_first()[i - 1] == s[i]);
    }
}

/// Smallest integer the wire format can carry: `-(2^64)`.
pub open spec fn wire_int_min() -> int {
    -0x10000000000000000
}

/// One past the largest integer the wire format can carry: `2^64`.
pub open spec fn wire_int_end() -> int {
    0x10000000000000000
}

/// Well-formedness: every integer of the item lies in the wire format's
/// integer range. All other constraints hold by construction.
pub open spec fn wire_wf(v: SpecWireValue) -> bool
    decreases v,
{
    match v {
        SpecWireValue::Integer(i) => wire_int_min() <= i < wire_int_end(),
        SpecWireValue::Array(vs) => wire_wf_list(vs),
        SpecWireValue::Dict(ps) => wire_wf_pairs(ps),
        SpecWireValue::Tag(_, v) => wire_wf(*v),
        _ => true,
    }
}

pub open spec fn wire_wf_list(s: Seq<SpecWireValue>) -> bool
    decreases s,
{
    s.len() == 0 || (wire_wf(s[0]) && wire_wf_list(s.drop_first()))
}

pub open spec fn wire_wf_pairs(s: Seq<(SpecWireValue, SpecWireValue)>) -> bool
    decreases s,
{
    s.len() == 0 || (wire_wf(s[0].0) && wire_wf(s[0].1) && wire_wf_pairs(s.drop_first()))
}

pub proof fn lemma_wf_list_index(s: Seq<SpecWireValue>, i: int)
    requires
        wire_wf_list(s),
        0 <= i < s.len(),
    ensures
        wire_wf(s[i]),
    decreases s,
{
    assert(wire_wf_list(s) == (s.len() == 0 || (wire_wf(s[0]) && wire_wf_list(s.drop_first()))));
    if i > 0 {
        lemma_wf_list_index(s.drop_first(), i - 1);
        assert(s.drop_first()[i - 1] == s[i]);
    }
}

pub proof fn lemma_wf_list_snoc(s: Seq<SpecWireValue>, x: SpecWireValue)
    ensures
        wire_wf_list(s + seq![x]) == (wire_wf_list(s) && wire_wf(x)),
    decreases s,
{
    let t = s + seq![x];
    if s.len() == 0 {
        assert(t[0] == x);
        assert(t.drop_first() =~= Seq::<SpecWireValue>::empty());
        assert(wire_wf_list(t) == (wire_wf(t[0]) && wire_wf_list(t.drop_first())));
        assert(wire_wf_list(t.drop_first()));
        assert(wire_wf_list(s));
    } else {
        assert(t[0] == s[0]);
        assert(t.drop_first() =~= s.drop_first() + seq![x]);
        lemma_wf_list_snoc(s.drop_first(), x);
        assert(wire_wf_list(t) == (wire_wf(t[0]) && wire_wf_list(t.drop_first())));
        assert(wire_wf_list(s) == (wire_wf(s[0]) && wire_wf_list(s.drop_first())));
    }
}

pub proof fn lemma_wf_pairs_index(s: Seq<(SpecWireValue, SpecWireValue)>, i: int)
    requires
        wire_wf_pairs(s),
        0 <= i < s.len(),
    ensures
        wire_wf(s[i].0),
        wire_wf(s[i].1),
    decreases s,
{
    assert(wire_wf_pairs(s) == (s.len() == 0 || (wire_wf(s[0].0) && wire_wf(s[0].1)
        && wire_wf_pairs(s.drop_first()))));
    if i > 0 {
        lemma_wf_pairs_index(s.drop_first(), i - 1);
        assert(s.drop_first()[i - 1] == s[i]);
    }
}

pub proof fn lemma_wf_pairs_snoc(s: Seq<(SpecWireValue, SpecWireValue)>, x: (SpecWireValue, SpecWireValue))
    ensures
        wire_wf_pairs(s + seq![x]) == (wire_wf_pairs(s) && wire_wf(x.0) && wire_wf(x.1)),
    decreases s,
{
    let t = s + seq![x];
    if s.len() == 0 {
        assert(t[0] == x);
        assert(t.drop_first() =~= Seq::<(SpecWireValue, SpecWireValue)>::empty());
        assert(wire_wf_pairs(t) == (wire_wf(t[0].0) && wire_wf(t[0].1) && wire_wf_pairs(
            t.drop_first(),
        )));
        assert(wire_wf_pairs(t.drop_first()));
        assert(wire_wf_pairs(s));
    } else {
        assert(t[0] == s[0]);
        assert(t.drop_first() =~= s.drop_first() + seq![x]);
        lemma_wf_pairs_snoc(s.drop_first(), x);
        assert(wire_wf_pairs(t) == (wire_wf(t[0].0) && wire_wf(t[0].1) && wire_wf_pairs(
            t.drop_first(),
        )));
        assert(wire_wf_pairs(s) == (wire_wf(s[0].0) && wire_wf(s[0].1) && wire_wf_pairs(
            s.drop_first(),
        )));
    }
}

/// Size-boundedness: every length and count of the item fits the wire
/// format's argument space. Every value built from in-memory vectors
/// satisfies it; it matters only for the mathematical round-trip statement.
pub open spec fn wire_sized(v: SpecWireValue) -> bool
    decreases v,
{
    match v {
        SpecWireValue::Bytes(b) => b.len() < 0x10000000000000000,
        SpecWireValue::Text(t) => t.len() < 0x10000000000000000,
        SpecWireValue::Array(vs) => vs.len() < 0x10000000000000000 && wire_sized_list(vs),
        SpecWireValue::Dict(ps) => ps.len() < 0x10000000000000000 && wire_sized_pairs(ps),
        SpecWireValue::Tag(_, inner) => wire_sized(*inner),
        _ => true,
    }
}

pub open spec fn wire_sized_list(s: Seq<SpecWireValue>) -> bool
    decreases s,
{
    s.len() == 0 || (wire_sized(s[0]) && wire_sized_list(s.drop_first()))
}

pub open spec fn wire_sized_pairs(s: Seq<(SpecWireValue, SpecWireValue)>) -> bool
    decreases s,
{
    s.len() == 0 || (wire_sized(s[0].0) && wire_sized(s[0].1) && wire_sized_pairs(s.drop_first()))
}

/// Big-endian bytes of a two-byte argument.
pub open spec fn be2(n: nat) -> Seq<u8> {
    seq![(n / 0x100) as u8, (n % 0x100) as u8]
}

/// Big-endian bytes of a four-byte argument.
pub open spec fn be4(n: nat) -> Seq<u8> {
    be2(n / 0x10000) + be2(n % 0x10000)
}

/// Big-endian bytes of an eight-byte argument.
pub open spec fn be8(n: nat) -> Seq<u8> {
    be4(n / 0x100000000) + be4(n % 0x100000000)
}

/// Canonical header for a major type and its argument: the shortest of the
/// five argument widths that holds `n`.
pub open spec fn spec_header(major: u8, n: nat) -> Seq<u8> {
    if n < 24 {
        seq![(32 * major + n) as u8]
    } else if n < 0x100 {
        seq![(32 * major + 24) as u8, n as u8]
    } else if n < 0x10000 {
        seq![(32 * major + 25) as u8] + be2(n)
    } else if n < 0x100000000 {
        seq![(32 * major + 26) as u8] + be4(n)
    } else {
        seq![(32 * major + 27) as u8] + be8(n % 0x10000000000000000)
    }
}

/// Canonical encoding of a wire data item.
pub open spec fn wire_bytes(v: SpecWireValue) -> Seq<u8>
    decreases v,
{
    match v {
        SpecWireValue::Null => seq![0xf6u8],
        SpecWireValue::Bool(b) => if b {
            seq![0xf5u8]
        } else {
            seq![0xf4u8]
        },
        SpecWireValue::Integer(i) => if i >= 0 {
            spec_header(0, i as nat)
        } else {
            spec_header(1, (-1 - i) as nat)
        },
        SpecWireValue::Float(bits) => seq![0xfbu8] + be8(bits as nat),
        SpecWireValue::Bytes(b) => spec_header(2, b.len()) + b,
        SpecWireValue::Text(t) => spec_header(3, t.len()) + t,
        SpecWireValue::Array(vs) => spec_header(4, vs.len()) + wire_bytes_list(vs),
        SpecWireValue::Dict(ps) => spec_header(5, ps.len()) + wire_bytes_pairs(ps),
        SpecWireValue::Tag(t, v) => spec_header(6, t as nat) + wire_bytes(*v),
    }
}

/// Concatenated encodings of the items of an array body.
pub open spec fn wire_bytes_list(s: Seq<SpecWireValue>) -> Seq<u8>
    decreases s,
{
    if s.len() == 0 {
        Seq::empty()
    } else {
        wire_bytes(s[0]) + wire_bytes_list(s.drop_first())
    }
}

/// Concatenated key/value encodings of a map body.
pub open spec fn wire_bytes_pairs(s: Seq<(SpecWireValue, SpecWireValue)>) -> Seq<u8>
    decreases s,
{
    if s.len() == 0 {
        Seq::empty()
    } else {
        wire_bytes(s[0].0) + wire_bytes(s[0].1) + wire_bytes_pairs(s.drop_first())
    }
}

pub proof fn lemma_wire_bytes_list_snoc(s: Seq<SpecWireValue>, x: SpecWireValue)
    ensures
        wire_bytes_list(s + seq![x]) == wire_bytes_list(s) + wire_bytes(x),
    decreases s,
{
    let t = s + seq![x];
    if s.len() == 0 {
        assert(t[0] == x);
        assert(t.drop_first() =~= Seq::<SpecWireValue>::empty());
        assert(wire_bytes_list(t) == wire_bytes(t[0]) + wire_bytes_list(t.drop_first()));
        assert(wire_bytes_list(t.drop_first()) =~= Seq::<u8>::empty());
        assert(wire_bytes_list(t) =~= wire_bytes(x));
        assert(wire_bytes_list(s) =~= Seq::<u8>::empty());
        assert(wire_bytes_list(s) + wire_bytes(x) =~= wire_bytes(x));
    } else {
        assert((s + seq![x]).drop_first() =~= s.drop_first() + seq![x]);
        lemma_wire_bytes_list_snoc(s.drop_first(), x);
        assert(wire_bytes_list(s + seq![x]) =~= wire_bytes(s[0]) + wire_bytes_list(
            s.drop_first() + seq![x],
        ));
        assert(wire_bytes_list(s) + wire_bytes(x) =~= wire_bytes(s[0]) + (wire_bytes_list(
            s.drop_first(),
        ) + wire_bytes(x)));
    }
}

pub proof fn lemma_wire_bytes_pairs_snoc(
    s: Seq<(SpecWireValue, SpecWireValue)>,
    x: (SpecWireValue, SpecWireValue),
)
    ensures
        wire_bytes_pairs(s + seq![x]) == wire_bytes_pairs(s) + wire_bytes(x.0) + wire_bytes(x.1),
    decreases s,
{
    let t = s + seq![x];
    if s.len() == 0 {
        assert(t[0] == x);
        assert(t.drop_first() =~= Seq::<(SpecWireValue, SpecWireValue)>::empty());
        assert(wire_bytes_pairs(t) == wire_bytes(t[0].0) + wire_bytes(t[0].1) + wire_bytes_pairs(
            t.drop_first(),
        ));
        assert(wire_bytes_pairs(t.drop_first()) =~= Seq::<u8>::empty());
        assert(wire_bytes_pairs(t) =~= wire_bytes(x.0) + wire_bytes(x.1));
        assert(wire_bytes_pairs(s) =~= Seq::<u8>::empty());
        assert(wire_bytes_pairs(s) + wire_bytes(x.0) + wire_bytes(x.1) =~= wire_bytes(x.0)
            + wire_bytes(x.1));
    } else {
        assert((s + seq![x]).drop_first() =~= s.drop_first() + seq![x]);
        lemma_wire_bytes_pairs_snoc(s.drop_first(), x);
        assert(wire_bytes_pairs(s + seq![x]) =~= wire_bytes(s[0].0) + wire_bytes(s[0].1)
            + wire_bytes_pairs(s.drop_first() + seq![x]));
        assert(wire_bytes_pairs(s) + wire_bytes(x.0) + wire_bytes(x.1) =~= wire_bytes(s[0].0)
            + wire_bytes(s[0].1) + (wire_bytes_pairs(s.drop_first()) + wire_bytes(x.0)
            + wire_bytes(x.1)));
    }
}

fn push_be2(out: &mut Vec<u8>, n: u16)
    ensures
        final(out)@ == old(out)@ + be2(n as nat),
{
    out.push((n / 0x100) as u8);
    out.push((n % 0x100) as u8);
    assert(final(out)@ =~= old(out)@ + be2(n as nat));
}

fn push_be4(out: &mut Vec<u8>, n: u32)
    ensures
        final(out)@ == old(out)@ + be4(n as nat),
{
    push_be2(out, (n / 0x10000) as u16);
    push_be2(out, (n % 0x10000) as u16);
    assert(final(out)@ =~= old(out)@ + be4(n as nat));
}

fn push_be8(out: &mut Vec<u8>, n: u64)
    ensures
        final(out)@ == old(out)@ + be8(n as nat),
{
    push_be4(out, (n / 0x100000000) as u32);
    push_be4(out, (n % 0x100000000) as u32);
    assert(final(out)@ =~= old(out)@ + be8(n as nat));
}

/// Writes the canonical header for `major` with argument `n`.
fn push_header(out: &mut Vec<u8>, major: u8, n: u64)
    requires
        major < 8,
    ensures
        final(out)@ == old(out)@ + spec_header(major, n as nat),
{
    if n < 24 {
        out.push(32 * major + n as u8);
        assert(final(out)@ =~= old(out)@ + spec_header(major, n as nat));
    } else if n < 0x100 {
        out.push(32 * major + 24);
        out.push(n as u8);
        assert(final(out)@ =~= old(out)@ + spec_header(major, n as nat));
    } else if n < 0x10000 {
        out.push(32 * major + 25);
        push_be2(out, n as u16);
        assert(final(out)@ =~= old(out)@ + spec_header(major, n as nat));
    } else if n < 0x100000000 {
        out.push(32 * major + 26);
        push_be4(out, n as u32);
        assert(final(out)@ =~= old(out)@ + spec_header(major, n as nat));
    } else {
        out.push(32 * major + 27);
        push_be8(out, n);
        assert(final(out)@ =~= old(out)@ + spec_header(major, n as nat));
    }
}

/// Appends the canonical encoding of `v` to `out`.
pub fn encode_into(v: &WireValue, out: &mut Vec<u8>)
    requires
        wire_wf(v@),
    ensures
        final(out)@ == old(out)@ + wire_bytes(v@),
    decreases size_of(v@),
{
    broadcast use lemma_view_wire_list_len, lemma_view_wire_list_index, lemma_view_wire_pairs_len, lemma_view_wire_pairs_index;

    match v {
        WireValue::Null => {
            out.push(0xf6);
            assert(final(out)@ =~= old(out)@ + wire_bytes(v@));
        },
        WireValue::Bool(b) => {
            if *b {
                out.push(0xf5);
            } else {
                out.push(0xf4);
            }
            assert(final(out)@ =~= old(out)@ + wire_bytes(v@));
        },
        WireValue::Integer(i) => {
            if *i >= 0 {
                push_header(out, 0, *i as u64);
            } else {
                push_header(out, 1, (-1 - *i) as u64);
            }
        },
        WireValue::Float(bits) => {
            out.push(0xfb);
            push_be8(out, *bits);
            assert(final(out)@ =~= old(out)@ + wire_bytes(v@));
        },
        WireValue::Bytes(b) => {
            push_header(out, 2, b.len() as u64);
            let mut j: usize = 0;
            while j < b.len()
                invariant
                    j <= b.len(),
                    out@ == old(out)@ + spec_header(2, b@.len()) + b@.take(j as int),
                decreases b.len() - j,
            {
                out.push(b[j]);
                assert(b@.take(j + 1) =~= b@.take(j as int) + seq![b@[j as int]]);
                assert(out@ =~= old(out)@ + spec_header(2, b@.len()) + b@.take(j + 1));
                j += 1;
            }
            assert(b@.take(b@.len() as int) =~= b@);
        },
        WireValue::Text(t) => {
            push_header(out, 3, t.len() as u64);
            let mut j: usize = 0;
            while j < t.len()
                invariant
                    j <= t.len(),
                    out@ == old(out)@ + spec_header(3, t@.len()) + t@.take(j as int),
                decreases t.len() - j,
            {
                out.push(t[j]);
                assert(t@.take(j + 1) =~= t@.take(j as int) + seq![t@[j as int]]);
                assert(out@ =~= old(out)@ + spec_header(3, t@.len()) + t@.take(j + 1));
                j += 1;
            }
            assert(t@.take(t@.len() as int) =~= t@);
        },
        WireValue::Array(vs) => {
            push_header(out, 4, vs.len() as u64);
            let ghost body = view_wire_list(vs@);
            proof {
                assert(wire_wf_list(body));
            }
            let mut j: usize = 0;
            while j < vs.len()
                invariant
                    j <= vs.len(),
                    v@ == SpecWireValue::Array(body),
                    body == view_wire_list(vs@),
                    body.len() == vs@.len(),
                    forall|i: int| 0 <= i < vs@.len() ==> #[trigger] body[i] == vs@[i]@,
                    wire_wf_list(body),
                    out@ == old(out)@ + spec_header(4, body.len()) + wire_bytes_list(
                        body.take(j as int),
                    ),
                decreases vs.len() - j,
            {
                proof {
                    lemma_size_of_list_index(body, j as int);
                    assert(size_of(v@) == 1 + size_of_list(body));
                    lemma_wf_list_index(body, j as int);
                }
                encode_into(&vs[j], out);
                proof {
                    lemma_wire_bytes_list_snoc(body.take(j as int), body[j as int]);
                    assert(body.take(j + 1) =~= body.take(j as int) + seq![body[j as int]]);
                }
                assert(out@ =~= old(out)@ + spec_header(4, body.len()) + wire_bytes_list(
                    body.take(j + 1),
                ));
                j += 1;
            }
            assert(body.take(body.len() as int) =~= body);
        },
        WireValue::Dict(ps) => {
            push_header(out, 5, ps.len() as u64);
            let ghost body = view_wire_pairs(ps@);
            proof {
                assert(wire_wf_pairs(body));
            }
            let mut j: usize = 0;
            while j < ps.len()
                invariant
                    j <= ps.len(),
                    v@ == SpecWireValue::Dict(body),
                    body == view_wire_pairs(ps@),
                    body.len() == ps@.len(),
                    forall|i: int|
                        0 <= i < ps@.len() ==> #[trigger] body[i] == (ps@[i].0@, ps@[i].1@),
                    wire_wf_pairs(body),
                    out@ == old(out)@ + spec_header(5, body.len()) + wire_bytes_pairs(
                        body.take(j as int),
                    ),
                decreases ps.len() - j,
            {
                proof {
                    lemma_size_of_pairs_index(body, j as int);
                    assert(size_of(v@) == 1 + size_of_pairs(body));
                    lemma_wf_pairs_index(body, j as int);
                }
                encode_into(&ps[j].0, out);
                encode_into(&ps[j].1, out);
                proof {
                    lemma_wire_bytes_pairs_snoc(body.take(j as int), body[j as int]);
                    assert(body.take(j + 1) =~= body.take(j as int) + seq![body[j as int]]);
                }
                assert(out@ =~= old(out)@ + spec_header(5, body.len()) + wire_bytes_pairs(
                    body.take(j + 1),
                ));
                j += 1;
            }
            assert(body.take(body.len() as int) =~= body);
        },
        WireValue::Tag(t, inner) => {
            push_header(out, 6, *t);
            proof {
                assert(size_of(v@) == 1 + size_of((**inner)@));
            }
            encode_into(&**inner, out);
        },
    }
}

/// Canonical encoding of a well-formed wire data item.
pub fn encode_value(v: &WireValue) -> (out: Vec<u8>)
    requires
        wire_wf(v@),
    ensures
        out@ == wire_bytes(v@),
{
    let mut out: Vec<u8> = Vec::new();
    encode_into(v, &mut out);
    out
}

/// Decides well-formedness of a wire data item.
pub fn check_wire_wf(v: &WireValue) -> (r: bool)
    ensures
        r == wire_wf(v@),
    decreases size_of(v@),
{
    broadcast use lemma_view_wire_list_len, lemma_view_wire_list_index, lemma_view_wire_pairs_len, lemma_view_wire_pairs_index;

    match v {
        WireValue::Integer(i) => *i >= -0x10000000000000000i128 && *i < 0x10000000000000000i128,
        WireValue::Array(vs) => {
            let ghost body = view_wire_list(vs@);
            let mut j: usize = 0;
            while j < vs.len()
                invariant
                    j <= vs.len(),
                    v@ == SpecWireValue::Array(body),
                    body == view_wire_list(vs@),
                    body.len() == vs@.len(),
                    forall|i: int| 0 <= i < vs@.len() ==> #[trigger] body[i] == vs@[i]@,
                    wire_wf_list(body.take(j as int)),
                decreases vs.len() - j,
            {
                proof {
                    lemma_size_of_list_index(body, j as int);
                    assert(size_of(v@) == 1 + size_of_list(body));
                }
                if !check_wire_wf(&vs[j]) {
                    proof {
                        if wire_wf_list(body) {
                            lemma_wf_list_index(body, j as int);
                        }
                        assert(!wire_wf_list(body));
                        assert(!wire_wf(v@));
                    }
                    return false;
                }
                proof {
                    lemma_wf_list_snoc(body.take(j as int), body[j as int]);
                    assert(body.take(j + 1) =~= body.take(j as int) + seq![body[j as int]]);
                }
                j += 1;
            }
            proof {
                assert(body.take(body.len() as int) =~= body);
                assert(wire_wf_list(body));
                assert(wire_wf(v@));
            }
            true
        },
        WireValue::Dict(ps) => {
            let ghost body = view_wire_pairs(ps@);
            let mut j: usize = 0;
            while j < ps.len()
                invariant
                    j <= ps.len(),
                    v@ == SpecWireValue::Dict(body),
                    body == view_wire_pairs(ps@),
                    body.len() == ps@.len(),
                    forall|i: int|
                        0 <= i < ps@.len() ==> #[trigger] body[i] == (ps@[i].0@, ps@[i].1@),
                    wire_wf_pairs(body.take(j as int)),
                decreases ps.len() - j,
            {
                proof {
                    lemma_size_of_pairs_index(body, j as int);
                    assert(size_of(v@) == 1 + size_of_pairs(body));
                }
                if !check_wire_wf(&ps[j].0) {
                    proof {
                        if wire_wf_pairs(body) {
                            lemma_wf_pairs_index(body, j as int);
                        }
                        assert(!wire_wf_pairs(body));
                        assert(!wire_wf(v@));
                    }
                    return false;
                }
                if !check_wire_wf(&ps[j].1) {
                    proof {
                        if wire_wf_pairs(body) {
                            lemma_wf_pairs_index(body, j as int);
                        }
                        assert(!wire_wf_pairs(body));
                        assert(!wire_wf(v@));
                    }
                    return false;
                }
                proof {
                    lemma_wf_pairs_snoc(body.take(j as int), body[j as int]);
                    assert(body.take(j + 1) =~= body.take(j as int) + seq![body[j as int]]);
                }
                j += 1;
            }
            proof {
                assert(body.take(body.len() as int) =~= body);
                assert(wire_wf_pairs(body));
                assert(wire_wf(v@));
            }
            true
        },
        WireValue::Tag(_, inner) => {
            proof {
                assert(size_of(v@) == 1 + size_of((**inner)@));
            }
            check_wire_wf(&**inner)
        },
        _ => true,
    }
}

/// Mantissa of a subnormal float, doubled until it reaches the implicit-one
/// position `bound`.
pub open spec fn normed(m: nat, bound: nat) -> nat
    decreases bound - m,
    when 1 <= m < bound
{
    if 2 * m >= bound {
        2 * m
    } else {
        normed(2 * m, bound)
    }
}

/// How many doublings `normed` performs.
pub open spec fn shifts(m: nat, bound: nat) -> nat
    decreases bound - m,
    when 1 <= m < bound
{
    if 2 * m >= bound {
        1
    } else {
        1 + shifts(2 * m, bound)
    }
}

/// Bit pattern of the double-precision value equal to the half-precision
/// value with bit pattern `h`.
pub open spec fn f16_to_f64_bits(h: nat) -> u64 {
    let sign = h / 0x8000 % 2;
    let e = h / 0x400 % 0x20;
    let m = h % 0x400;
    if e == 0x1f {
        (sign * 0x8000000000000000 + 0x7ff0000000000000 + m * 0x40000000000) as u64
    } else if e == 0 && m == 0 {
        (sign * 0x8000000000000000) as u64
    } else if e == 0 {
        let nm = normed(m, 0x400);
        let c = shifts(m, 0x400);
        (sign * 0x8000000000000000 + (1009 - c) * 0x10000000000000 + (nm - 0x400)
            * 0x40000000000) as u64
    } else {
        (sign * 0x8000000000000000 + (e + 1008) * 0x10000000000000 + m * 0x40000000000) as u64
    }
}

/// Bit pattern of the double-precision value equal to the single-precision
/// value with bit pattern `w`.
pub open spec fn f32_to_f64_bits(w: nat) -> u64 {
    let sign = w / 0x80000000 % 2;
    let e = w / 0x800000 % 0x100;
    let m = w % 0x800000;
    if e == 0xff {
        (sign * 0x8000000000000000 + 0x7ff0000000000000 + m * 0x20000000) as u64
    } else if e == 0 && m == 0 {
        (sign * 0x8000000000000000) as u64
    } else if e == 0 {
        let nm = normed(m, 0x800000);
        let c = shifts(m, 0x800000);
        (sign * 0x8000000000000000 + (897 - c) * 0x10000000000000 + (nm - 0x800000)
            * 0x20000000) as u64
    } else {
        (sign * 0x8000000000000000 + (e + 896) * 0x10000000000000 + m * 0x20000000) as u64
    }
}

/// Value of two big-endian bytes at `pos`.
pub open spec fn val2(s: Seq<u8>, pos: int) -> nat {
    s[pos] as nat * 0x100 + s[pos + 1] as nat
}

/// Value of four big-endian bytes at `pos`.
pub open spec fn val4(s: Seq<u8>, pos: int) -> nat {
    val2(s, pos) * 0x10000 + val2(s, pos + 2)
}

/// Value of eight big-endian bytes at `pos`.
pub open spec fn val8(s: Seq<u8>, pos: int) -> nat {
    val4(s, pos) * 0x100000000 + val4(s, pos + 4)
}

/// Parses one header at `pos`: major type, additional-information value,
/// argument, and the position just past the header. Reserved
/// additional-information values and indefinite lengths are not accepted.
pub open spec fn spec_parse_header(s: Seq<u8>, pos: int) -> Option<(u8, u8, nat, int)> {
    if 0 <= pos < s.len() {
        let major = s[pos] / 32;
        let ai = s[pos] % 32;
        if ai < 24 {
            Some((major, ai, ai as nat, pos + 1))
        } else if ai == 24 && pos + 2 <= s.len() {
            Some((major, ai, s[pos + 1] as nat, pos + 2))
        } else if ai == 25 && pos + 3 <= s.len() {
            Some((major, ai, val2(s, pos + 1), pos + 3))
        } else if ai == 26 && pos + 5 <= s.len() {
            Some((major, ai, val4(s, pos + 1), pos + 5))
        } else if ai == 27 && pos + 9 <= s.len() {
            Some((major, ai, val8(s, pos + 1), pos + 9))
        } else {
            None
        }
    } else {
        None
    }
}

/// Parses one data item at `pos`; `None` is any failure.
#[verifier::opaque]
pub open spec fn spec_parse(s: Seq<u8>, pos: int) -> Option<(SpecWireValue, int)>
    decreases s.len() - pos, 0int,
{
    match spec_parse_header(s, pos) {
        None => None,
        Some((major, ai, arg, p)) => {
            if major == 0 {
                Some((SpecWireValue::Integer(arg as int), p))
            } else if major == 1 {
                Some((SpecWireValue::Integer(-1 - arg), p))
            } else if major == 2 {
                if p + arg <= s.len() {
                    Some((SpecWireValue::Bytes(s.subrange(p, p + arg)), p + arg))
                } else {
                    None
                }
            } else if major == 3 {
                if p + arg <= s.len() {
                    Some((SpecWireValue::Text(s.subrange(p, p + arg)), p + arg))
                } else {
                    None
                }
            } else if major == 4 {
                match spec_parse_list(s, p, arg) {
                    None => None,
                    Some((items, end)) => Some((SpecWireValue::Array(items), end)),
                }
            } else if major == 5 {
                match spec_parse_pairs(s, p, arg) {
                    None => None,
                    Some((pairs, end)) => Some((SpecWireValue::Dict(pairs), end)),
                }
            } else if major == 6 {
                match spec_parse(s, p) {
                    None => None,
                    Some((v, end)) => Some((SpecWireValue::Tag(arg as u64, Box::new(v)), end)),
                }
            } else {
                if ai == 20 {
                    Some((SpecWireValue::Bool(false), p))
                } else if ai == 21 {
                    Some((SpecWireValue::Bool(true), p))
                } else if ai == 22 {
                    Some((SpecWireValue::Null, p))
                } else if ai == 25 {
                    Some((SpecWireValue::Float(f16_to_f64_bits(arg)), p))
                } else if ai == 26 {
                    Some((SpecWireValue::Float(f32_to_f64_bits(arg)), p))
                } else if ai == 27 {
                    Some((SpecWireValue::Float(arg as u64), p))
                } else {
                    None
                }
            }
        },
    }
}

/// Parses `count` consecutive data items starting at `pos`.
#[verifier::opaque]
pub open spec fn spec_parse_list(s: Seq<u8>, pos: int, count: nat) -> Option<
    (Seq<SpecWireValue>, int),
>
    decreases s.len() - pos, count + 1,
{
    if count == 0 {
        Some((Seq::empty(), pos))
    } else {
        match spec_parse(s, pos) {
            None => None,
            Some((v, end)) => {
                if pos < end <= s.len() {
                    match spec_parse_list(s, end, (count - 1) as nat) {
                        None => None,
                        Some((rest, fin)) => Some((seq![v] + rest, fin)),
                    }
                } else {
                    None
                }
            },
        }
    }
}

/// Parses `count` consecutive key/value pairs starting at `pos`.
#[verifier::opaque]
pub open spec fn spec_parse_pairs(s: Seq<u8>, pos: int, count: nat) -> Option<
    (Seq<(SpecWireValue, SpecWireValue)>, int),
>
    decreases s.len() - pos, count + 1,
{
    if count == 0 {
        Some((Seq::empty(), pos))
    } else {
        match spec_parse(s, pos) {
            None => None,
            Some((k, e1)) => {
                if pos < e1 <= s.len() {
                    match spec_parse(s, e1) {
                        None => None,
                        Some((v, e2)) => {
                            if e1 < e2 <= s.len() {
                                match spec_parse_pairs(s, e2, (count - 1) as nat) {
                                    None => None,
                                    Some((rest, fin)) => Some((seq![(k, v)] + rest, fin)),
                                }
                            } else {
                                None
                            }
                        },
                    }
                } else {
                    None
                }
            },
        }
    }
}

/// Parses a complete item: the whole input must be consumed.
pub open spec fn spec_decode(s: Seq<u8>) -> Option<SpecWireValue> {
    match spec_parse(s, 0) {
        Some((v, end)) => if end == s.len() {
            Some(v)
        } else {
            None
        },
        None => None,
    }
}

/// Why a payload failed to decode.
#[derive(Debug, Clone, Copy, PartialEq, Eq, Structural)]
pub enum DecodeError {
    /// The bytes are not one complete, supported wire item.
    Malformed,
    /// An integer lies outside every numeric form the pivot value offers.
    UnsupportedInteger,
    /// A float is not finite.
    InvalidFloat,
    /// A map key is neither text nor an integer.
    UnsupportedMapKey,
    /// A wire construct the pivot form does not cover.
    UnsupportedValue,
}

fn normalize_mantissa(m: u64, bound: u64) -> (r: (u64, u64))
    requires
        1 <= m < bound,
        bound <= 0x800000,
    ensures
        r.0 == normed(m as nat, bound as nat),
        r.1 == shifts(m as nat, bound as nat),
        bound <= r.0 < 2 * bound,
        r.0 == vstd::arithmetic::power2::pow2(r.1 as nat) * m,
        1 <= r.1 <= 24,
    decreases bound - m,
{
    let m2 = 2 * m;
    if m2 >= bound {
        proof {
            vstd::arithmetic::power2::lemma2_to64();
        }
        (m2, 1)
    } else {
        let (nm, c) = normalize_mantissa(m2, bound);
        proof {
            vstd::arithmetic::power2::lemma_pow2_adds(c as nat, 1);
            vstd::arithmetic::power2::lemma2_to64();
            assert(vstd::arithmetic::power2::pow2((c + 1) as nat) == vstd::arithmetic::power2::pow2(
                c as nat,
            ) * 2);
            assert(nm == vstd::arithmetic::power2::pow2((c + 1) as nat) * m) by (nonlinear_arith)
                requires
                    nm == vstd::arithmetic::power2::pow2(c as nat) * (2 * m),
                    vstd::arithmetic::power2::pow2((c + 1) as nat) == vstd::arithmetic::power2::pow2(
                        c as nat,
                    ) * 2,
            ;
            if c + 1 > 24 {
                vstd::arithmetic::power2::lemma_pow2_strictly_increases(24, (c + 1) as nat);
                assert(vstd::arithmetic::power2::pow2((c + 1) as nat) > 0x1000000);
                assert(nm >= vstd::arithmetic::power2::pow2((c + 1) as nat)) by (nonlinear_arith)
                    requires
                        nm == vstd::arithmetic::power2::pow2((c + 1) as nat) * m,
                        m >= 1,
                ;
                assert(false);
            }
        }
        (nm, c + 1)
    }
}

/// Widens a half-precision bit pattern to double precision.
fn widen_f16(h: u16) -> (r: u64)
    ensures
        r == f16_to_f64_bits(h as nat),
{
    let sign = (h as u64) / 0x8000 % 2;
    let e = (h as u64) / 0x400 % 0x20;
    let m = (h as u64) % 0x400;
    if e == 0x1f {
        sign * 0x8000000000000000 + 0x7ff0000000000000 + m * 0x40000000000
    } else if e == 0 && m == 0 {
        sign * 0x8000000000000000
    } else if e == 0 {
        let (nm, c) = normalize_mantissa(m, 0x400);
        sign * 0x8000000000000000 + (1009 - c) * 0x10000000000000 + (nm - 0x400) * 0x40000000000
    } else {
        sign * 0x8000000000000000 + (e + 1008) * 0x10000000000000 + m * 0x40000000000
    }
}

/// Widens a single-precision bit pattern to double precision.
fn widen_f32(w: u32) -> (r: u64)
    ensures
        r == f32_to_f64_bits(w as nat),
{
    let sign = (w as u64) / 0x80000000 % 2;
    let e = (w as u64) / 0x800000 % 0x100;
    let m = (w as u64) % 0x800000;
    if e == 0xff {
        sign * 0x8000000000000000 + 0x7ff0000000000000 + m * 0x20000000
    } else if e == 0 && m == 0 {
        sign * 0x8000000000000000
    } else if e == 0 {
        let (nm, c) = normalize_mantissa(m, 0x800000);
        sign * 0x8000000000000000 + (897 - c) * 0x10000000000000 + (nm - 0x800000) * 0x20000000
    } else {
        sign * 0x8000000000000000 + (e + 896) * 0x10000000000000 + m * 0x20000000
    }
}

fn parse_header(s: &Vec<u8>, pos: usize) -> (r: Result<(u8, u8, u64, usize), DecodeError>)
    requires
        pos <= s.len(),
    ensures
        match r {
            Ok(t) => spec_parse_header(s@, pos as int) == Some((t.0, t.1, t.2 as nat, t.3 as int))
                && pos < t.3 <= s.len() && t.0 < 8 && (t.1 == 25 ==> t.2 < 0x10000) && (t.1 == 26
                ==> t.2 < 0x100000000),
            Err(_) => spec_parse_header(s@, pos as int) is None,
        },
{
    if pos >= s.len() {
        return Err(DecodeError::Malformed);
    }
    let b = s[pos];
    let major = b / 32;
    let ai = b % 32;
    if ai < 24 {
        Ok((major, ai, ai as u64, pos + 1))
    } else if ai == 24 {
        if s.len() - pos < 2 {
            return Err(DecodeError::Malformed);
        }
        Ok((major, ai, s[pos + 1] as u64, pos + 2))
    } else if ai == 25 {
        if s.len() - pos < 3 {
            return Err(DecodeError::Malformed);
        }
        let v = (s[pos + 1] as u64) * 0x100 + (s[pos + 2] as u64);
        Ok((major, ai, v, pos + 3))
    } else if ai == 26 {
        if s.len() - pos < 5 {
            return Err(DecodeError::Malformed);
        }
        let v = (s[pos + 1] as u64) * 0x1000000 + (s[pos + 2] as u64) * 0x10000 + (s[pos
            + 3] as u64) * 0x100 + (s[pos + 4] as u64);
        Ok((major, ai, v, pos + 5))
    } else if ai == 27 {
        if s.len() - pos < 9 {
            return Err(DecodeError::Malformed);
        }
        let hi = (s[pos + 1] as u64) * 0x1000000 + (s[pos + 2] as u64) * 0x10000 + (s[pos
            + 3] as u64) * 0x100 + (s[pos + 4] as u64);
        let lo = (s[pos + 5] as u64) * 0x1000000 + (s[pos + 6] as u64) * 0x10000 + (s[pos
            + 7] as u64) * 0x100 + (s[pos + 8] as u64);
        let v = hi * 0x100000000 + lo;
        Ok((major, ai, v, pos + 9))
    } else {
        Err(DecodeError::UnsupportedValue)
    }
}

pub(crate) fn copy_range(s: &Vec<u8>, from: usize, n: usize) -> (out: Vec<u8>)
    requires
        from + n <= s.len(),
    ensures
        out@ == s@.subrange(from as int, from + n),
{
    let mut out: Vec<u8> = Vec::new();
    let mut i: usize = 0;
    while i < n
        invariant
            i <= n,
            from + n <= s.len(),
            out@ == s@.subrange(from as int, from + i),
        decreases n - i,
    {
        out.push(s[from + i]);
        assert(out@ =~= s@.subrange(from as int, from + i + 1));
        i += 1;
    }
    out
}

/// Parses the data item starting at `pos`.
pub fn parse_at(s: &Vec<u8>, pos: usize) -> (r: Result<(WireValue, usize), DecodeError>)
    requires
        pos <= s.len(),
    ensures
        match r {
            Ok(t) => spec_parse(s@, pos as int) == Some((t.0@, t.1 as int)) && pos < t.1 <= s.len()
                && wire_wf(t.0@),
            Err(_) => spec_parse(s@, pos as int) is None,
        },
    decreases s.len() - pos, 0int,
{
    reveal_with_fuel(spec_parse, 1);
    reveal_with_fuel(spec_parse_list, 1);
    reveal_with_fuel(spec_parse_pairs, 1);
    let (major, ai, arg, p) = match parse_header(s, pos) {
        Ok(t) => t,
        Err(e) => {
            return Err(e);
        },
    };
    if major == 0 {
        let out = WireValue::Integer(arg as i128);
        proof {
            assert(out@ == SpecWireValue::Integer(arg as int));
            assert(spec_parse(s@, pos as int) == Some((SpecWireValue::Integer(arg as int), p as int)));
        }
        Ok((out, p))
    } else if major == 1 {
        let out = WireValue::Integer(-1 - arg as i128);
        proof {
            assert(out@ == SpecWireValue::Integer(-1 - arg as int));
            assert(spec_parse(s@, pos as int) == Some((SpecWireValue::Integer(-1 - arg as int), p as int)));
        }
        Ok((out, p))
    } else if major == 2 {
        if arg > (s.len() - p) as u64 {
            return Err(DecodeError::Malformed);
        }
        let n = arg as usize;
        let out = copy_range(s, p, n);
        let res = WireValue::Bytes(out);
        proof {
            assert(res@ == SpecWireValue::Bytes(s@.subrange(p as int, p + arg)));
            assert(spec_parse(s@, pos as int) == Some((SpecWireValue::Bytes(s@.subrange(p as int, p + arg)), p + arg)));
        }
        Ok((res, p + n))
    } else if major == 3 {
        if arg > (s.len() - p) as u64 {
            return Err(DecodeError::Malformed);
        }
        let n = arg as usize;
        let out = copy_range(s, p, n);
        let res = WireValue::Text(out);
        proof {
            assert(res@ == SpecWireValue::Text(s@.subrange(p as int, p + arg)));
            assert(spec_parse(s@, pos as int) == Some((SpecWireValue::Text(s@.subrange(p as int, p + arg)), p + arg)));
        }
        Ok((res, p + n))
    } else if major == 4 {
        match parse_list_at(s, p, arg) {
            Ok((items, end)) => {
                let res = WireValue::Array(items);
                proof {
                    assert(res@ == SpecWireValue::Array(view_wire_list(items@)));
                    assert(spec_parse(s@, pos as int) == Some((res@, end as int)));
                }
                Ok((res, end))
            },
            Err(e) => {
                proof {
                    assert(spec_parse(s@, pos as int) is None);
                }
                Err(e)
            },
        }
    } else if major == 5 {
        match parse_pairs_at(s, p, arg) {
            Ok((pairs, end)) => {
                let res = WireValue::Dict(pairs);
                proof {
                    assert(res@ == SpecWireValue::Dict(view_wire_pairs(pairs@)));
                    assert(spec_parse(s@, pos as int) == Some((res@, end as int)));
                }
                Ok((res, end))
            },
            Err(e) => {
                proof {
                    assert(spec_parse(s@, pos as int) is None);
                }
                Err(e)
            },
        }
    } else if major == 6 {
        match parse_at(s, p) {
            Ok((inner, end)) => {
                let ghost gi = inner@;
                let res = WireValue::Tag(arg, Box::new(inner));
                proof {
                    assert(res@ == SpecWireValue::Tag(arg, Box::new(gi)));
                    assert(spec_parse(s@, pos as int) == Some((res@, end as int)));
                }
                Ok((res, end))
            },
            Err(e) => {
                proof {
                    assert(spec_parse(s@, pos as int) is None);
                }
                Err(e)
            },
        }
    } else {
        if ai == 20 {
            let res = WireValue::Bool(false);
            proof {
                assert(res@ == SpecWireValue::Bool(false));
                assert(spec_parse(s@, pos as int) == Some((res@, p as int)));
            }
            Ok((res, p))
        } else if ai == 21 {
            let res = WireValue::Bool(true);
            proof {
                assert(res@ == SpecWireValue::Bool(true));
                assert(spec_parse(s@, pos as int) == Some((res@, p as int)));
            }
            Ok((res, p))
        } else if ai == 22 {
            let res = WireValue::Null;
            proof {
                assert(res@ == SpecWireValue::Null);
                assert(spec_parse(s@, pos as int) == Some((res@, p as int)));
            }
            Ok((res, p))
        } else if ai == 25 {
            let res = WireValue::Float(widen_f16(arg as u16));
            proof {
                assert(res@ == SpecWireValue::Float(f16_to_f64_bits(arg as nat)));
                assert(spec_parse(s@, pos as int) == Some((res@, p as int)));
            }
            Ok((res, p))
        } else if ai == 26 {
            let res = WireValue::Float(widen_f32(arg as u32));
            proof {
                assert(res@ == SpecWireValue::Float(f32_to_f64_bits(arg as nat)));
                assert(spec_parse(s@, pos as int) == Some((res@, p as int)));
            }
            Ok((res, p))
        } else if ai == 27 {
            let res = WireValue::Float(arg);
            proof {
                assert(res@ == SpecWireValue::Float(arg));
                assert(spec_parse(s@, pos as int) == Some((res@, p as int)));
            }
            Ok((res, p))
        } else {
            proof {
                assert(spec_parse(s@, pos as int) is None);
            }
            Err(DecodeError::UnsupportedValue)
        }
    }
}

proof fn lemma_parse_list_step(
    s: Seq<u8>,
    pos: int,
    count: nat,
    v: SpecWireValue,
    e1: int,
    rest: Seq<SpecWireValue>,
    fin: int,
)
    requires
        count > 0,
        spec_parse(s, pos) == Some((v, e1)),
        pos < e1 <= s.len(),
        spec_parse_list(s, e1, (count - 1) as nat) == Some((rest, fin)),
        wire_wf(v),
        wire_wf(SpecWireValue::Array(rest)),
    ensures
        spec_parse_list(s, pos, count) == Some((seq![v] + rest, fin)),
        wire_wf(SpecWireValue::Array(seq![v] + rest)),
{
    reveal_with_fuel(spec_parse, 1);
    reveal_with_fuel(spec_parse_list, 1);
    reveal_with_fuel(spec_parse_pairs, 1);
    let t = seq![v] + rest;
    assert(t[0] == v);
    assert(t.drop_first() =~= rest);
    assert(wire_wf_list(t) == (wire_wf(t[0]) && wire_wf_list(t.drop_first())));
}

proof fn lemma_parse_pairs_step(
    s: Seq<u8>,
    pos: int,
    count: nat,
    k: SpecWireValue,
    v: SpecWireValue,
    e1: int,
    e2: int,
    rest: Seq<(SpecWireValue, SpecWireValue)>,
    fin: int,
)
    requires
        count > 0,
        spec_parse(s, pos) == Some((k, e1)),
        pos < e1 <= s.len(),
        spec_parse(s, e1) == Some((v, e2)),
        e1 < e2 <= s.len(),
        spec_parse_pairs(s, e2, (count - 1) as nat) == Some((rest, fin)),
        wire_wf(k),
        wire_wf(v),
        wire_wf(SpecWireValue::Dict(rest)),
    ensures
        spec_parse_pairs(s, pos, count) == Some((seq![(k, v)] + rest, fin)),
        wire_wf(SpecWireValue::Dict(seq![(k, v)] + rest)),
{
    reveal_with_fuel(spec_parse, 1);
    reveal_with_fuel(spec_parse_list, 1);
    reveal_with_fuel(spec_parse_pairs, 1);
    let t = seq![(k, v)] + rest;
    assert(t[0] == (k, v));
    assert(t.drop_first() =~= rest);
    assert(wire_wf_pairs(t) == (wire_wf(t[0].0) && wire_wf(t[0].1) && wire_wf_pairs(
        t.drop_first(),
    )));
}

#[verifier::rlimit(100)]
fn parse_list_at(s: &Vec<u8>, pos: usize, count: u64) -> (r: Result<
    (Vec<WireValue>, usize),
    DecodeError,
>)
    requires
        pos <= s.len(),
    ensures
        match r {
            Ok(t) => spec_parse_list(s@, pos as int, count as nat) == Some(
                (view_wire_list(t.0@), t.1 as int),
            ) && pos <= t.1 <= s.len() && wire_wf(SpecWireValue::Array(view_wire_list(t.0@))),
            Err(_) => spec_parse_list(s@, pos as int, count as nat) is None,
        },
    decreases s.len() - pos, count + 1,
{
    broadcast use lemma_view_wire_list_len, lemma_view_wire_list_index;

    reveal_with_fuel(spec_parse, 1);
    reveal_with_fuel(spec_parse_list, 1);
    reveal_with_fuel(spec_parse, 1);
    reveal_with_fuel(spec_parse_list, 1);
    reveal_with_fuel(spec_parse_pairs, 1);
    if count == 0 {
        let out: Vec<WireValue> = Vec::new();
        proof {
            assert(view_wire_list(out@) =~= Seq::<SpecWireValue>::empty());
            assert(wire_wf_list(view_wire_list(out@)));
            assert(wire_wf(SpecWireValue::Array(view_wire_list(out@))));
        }
        return Ok((out, pos));
    }
    let (v, end) = match parse_at(s, pos) {
        Ok(t) => t,
        Err(e) => {
            proof {
                assert(spec_parse_list(s@, pos as int, count as nat) is None);
            }
            return Err(e);
        },
    };
    let (mut rest, fin) = match parse_list_at(s, end, count - 1) {
        Ok(t) => t,
        Err(e) => {
            proof {
                assert(spec_parse_list(s@, end as int, (count - 1) as nat) is None);
                assert(spec_parse_list(s@, pos as int, count as nat) is None);
            }
            return Err(e);
        },
    };
    let ghost old_rest = rest@;
    rest.insert(0, v);
    proof {
        assert(rest@ =~= seq![v] + old_rest);
        assert(rest@[0] == v);
        assert(rest@.drop_first() =~= old_rest);
        assert(view_wire_list(rest@) == seq![rest@[0]@] + view_wire_list(rest@.drop_first()));
        assert(view_wire_list(rest@) =~= seq![v@] + view_wire_list(old_rest));
        lemma_parse_list_step(
            s@,
            pos as int,
            count as nat,
            v@,
            end as int,
            view_wire_list(old_rest),
            fin as int,
        );
    }
    Ok((rest, fin))
}

#[verifier::rlimit(100)]
fn parse_pairs_at(s: &Vec<u8>, pos: usize, count: u64) -> (r: Result<
    (Vec<(WireValue, WireValue)>, usize),
    DecodeError,
>)
    requires
        pos <= s.len(),
    ensures
        match r {
            Ok(t) => spec_parse_pairs(s@, pos as int, count as nat) == Some(
                (view_wire_pairs(t.0@), t.1 as int),
            ) && pos <= t.1 <= s.len() && wire_wf(SpecWireValue::Dict(view_wire_pairs(t.0@))),
            Err(_) => spec_parse_pairs(s@, pos as int, count as nat) is None,
        },
    decreases s.len() - pos, count + 1,
{
    broadcast use lemma_view_wire_pairs_len, lemma_view_wire_pairs_index;

    reveal_with_fuel(spec_parse, 1);
    reveal_with_fuel(spec_parse_list, 1);
    reveal_with_fuel(spec_parse_pairs, 1);
    if count == 0 {
        let out: Vec<(WireValue, WireValue)> = Vec::new();
        proof {
            assert(view_wire_pairs(out@) =~= Seq::<(SpecWireValue, SpecWireValue)>::empty());
            assert(wire_wf_pairs(view_wire_pairs(out@)));
            assert(wire_wf(SpecWireValue::Dict(view_wire_pairs(out@))));
        }
        return Ok((out, pos));
    }
    let (k, e1) = match parse_at(s, pos) {
        Ok(t) => t,
        Err(e) => {
            proof {
                assert(spec_parse_pairs(s@, pos as int, count as nat) is None);
            }
            return Err(e);
        },
    };
    let (v, e2) = match parse_at(s, e1) {
        Ok(t) => t,
        Err(e) => {
            proof {
                assert(spec_parse_pairs(s@, pos as int, count as nat) is None);
            }
            return Err(e);
        },
    };
    let (mut rest, fin) = match parse_pairs_at(s, e2, count - 1) {
        Ok(t) => t,
        Err(e) => {
            proof {
                assert(spec_parse_pairs(s@, e2 as int, (count - 1) as nat) is None);
                assert(spec_parse_pairs(s@, pos as int, count as nat) is None);
            }
            return Err(e);
        },
    };
    let ghost old_rest = rest@;
    rest.insert(0, (k, v));
    proof {
        assert(rest@ =~= seq![(k, v)] + old_rest);
        assert(rest@[0] == (k, v));
        assert(rest@.drop_first() =~= old_rest);
        assert(view_wire_pairs(rest@) == seq![(rest@[0].0@, rest@[0].1@)] + view_wire_pairs(
            rest@.drop_first(),
        ));
        assert(view_wire_pairs(rest@) =~= seq![(k@, v@)] + view_wire_pairs(old_rest));
        lemma_parse_pairs_step(
            s@,
            pos as int,
            count as nat,
            k@,
            v@,
            e1 as int,
            e2 as int,
            view_wire_pairs(old_rest),
            fin as int,
        );
    }
    Ok((rest, fin))
}

/// Parses exactly one complete wire item out of `bytes`; trailing bytes are
/// an error.
pub fn decode_value(bytes: &Vec<u8>) -> (r: Result<WireValue, DecodeError>)
    ensures
        match r {
            Ok(v) => spec_decode(bytes@) == Some(v@) && wire_wf(v@),
            Err(_) => spec_decode(bytes@) is None,
        },
{
    match parse_at(bytes, 0) {
        Ok((v, end)) => {
            if end == bytes.len() {
                Ok(v)
            } else {
                Err(DecodeError::Malformed)
            }
        },
        Err(e) => Err(e),
    }
}

/// A scalar wire item: null, boolean, integer, or float.
pub open spec fn wire_scalar(v: SpecWireValue) -> bool {
    v is Null || v is Bool || v is Integer || v is Float
}

proof fn lemma_val2_be2(s: Seq<u8>, p: int, n: nat)
    requires
        n < 0x10000,
        0 <= p,
        p + 2 <= s.len(),
        s.subrange(p, p + 2) == be2(n),
    ensures
        val2(s, p) == n,
{
    assert(s[p] == be2(n)[0]);
    assert(s[p + 1] == be2(n)[1]);
}

proof fn lemma_val4_be4(s: Seq<u8>, p: int, n: nat)
    requires
        n < 0x100000000,
        0 <= p,
        p + 4 <= s.len(),
        s.subrange(p, p + 4) == be4(n),
    ensures
        val4(s, p) == n,
{
    assert(s.subrange(p, p + 2) =~= be4(n).subrange(0, 2));
    assert(s.subrange(p + 2, p + 4) =~= be4(n).subrange(2, 4));
    assert(be4(n).subrange(0, 2) =~= be2(n / 0x10000));
    assert(be4(n).subrange(2, 4) =~= be2(n % 0x10000));
    lemma_val2_be2(s, p, n / 0x10000);
    lemma_val2_be2(s, p + 2, n % 0x10000);
}

proof fn lemma_val8_be8(s: Seq<u8>, p: int, n: nat)
    requires
        n < 0x10000000000000000,
        0 <= p,
        p + 8 <= s.len(),
        s.subrange(p, p + 8) == be8(n),
    ensures
        val8(s, p) == n,
{
    assert(s.subrange(p, p + 4) =~= be8(n).subrange(0, 4));
    assert(s.subrange(p + 4, p + 8) =~= be8(n).subrange(4, 8));
    assert(be8(n).subrange(0, 4) =~= be4(n / 0x100000000));
    assert(be8(n).subrange(4, 8) =~= be4(n % 0x100000000));
    lemma_val4_be4(s, p, n / 0x100000000);
    lemma_val4_be4(s, p + 4, n % 0x100000000);
}

proof fn lemma_parse_header_at(s: Seq<u8>, pos: int, major: u8, n: nat)
    requires
        major < 8,
        n < 0x10000000000000000,
        0 <= pos,
        pos + spec_header(major, n).len() <= s.len(),
        s.subrange(pos, pos + spec_header(major, n).len() as int) == spec_header(major, n),
    ensures
        ({
            let r = spec_parse_header(s, pos);
            &&& r is Some
            &&& r->Some_0.0 == major
            &&& r->Some_0.2 == n
            &&& r->Some_0.3 == pos + spec_header(major, n).len()
        }),
{
    let h = spec_header(major, n);
    assert(s[pos] == h[0]);
    if n < 24 {
        assert(s[pos] == (32 * major + n) as u8);
        assert(s[pos] / 32 == major && s[pos] % 32 == n);
    } else if n < 0x100 {
        assert(s[pos] == (32 * major + 24) as u8);
        assert(s[pos] / 32 == major && s[pos] % 32 == 24);
        assert(s[pos + 1] == h[1]);
        assert(s[pos + 1] == n as u8);
    } else if n < 0x10000 {
        assert(s[pos] / 32 == major && s[pos] % 32 == 25);
        assert(s.subrange(pos + 1, pos + 3) =~= h.subrange(1, 3));
        assert(h.subrange(1, 3) =~= be2(n));
        lemma_val2_be2(s, pos + 1, n);
    } else if n < 0x100000000 {
        assert(s[pos] / 32 == major && s[pos] % 32 == 26);
        assert(s.subrange(pos + 1, pos + 5) =~= h.subrange(1, 5));
        assert(h.subrange(1, 5) =~= be4(n));
        lemma_val4_be4(s, pos + 1, n);
    } else {
        assert(s[pos] / 32 == major && s[pos] % 32 == 27);
        assert(s.subrange(pos + 1, pos + 9) =~= h.subrange(1, 9));
        assert(h.subrange(1, 9) =~= be8(n % 0x10000000000000000));
        lemma_val8_be8(s, pos + 1, n);
    }
}

/// Every encoding starts with at least its header byte.
proof fn lemma_wire_bytes_len_pos(v: SpecWireValue)
    ensures
        wire_bytes(v).len() >= 1,
{
    match v {
        SpecWireValue::Integer(i) => {
            if i >= 0 {
                assert(spec_header(0, i as nat).len() >= 1);
            } else {
                assert(spec_header(1, (-1 - i) as nat).len() >= 1);
            }
        },
        _ => {},
    }
}

proof fn lemma_split_subrange(s: Seq<u8>, pos: int, a: Seq<u8>, b: Seq<u8>)
    requires
        0 <= pos,
        pos + a.len() + b.len() <= s.len(),
        s.subrange(pos, pos + a.len() + b.len()) == a + b,
    ensures
        s.subrange(pos, pos + a.len() as int) == a,
        s.subrange(pos + a.len(), pos + a.len() + b.len()) == b,
        forall|k: int| 0 <= k < a.len() ==> s[pos + k] == #[trigger] a[k],
{
    let t = s.subrange(pos, pos + a.len() + b.len());
    assert forall|k: int| 0 <= k < a.len() implies s[pos + k] == #[trigger] a[k] by {
        assert(t[k] == s[pos + k]);
        assert((a + b)[k] == a[k]);
    }
    assert(s.subrange(pos, pos + a.len() as int) =~= a);
    assert forall|k: int|
        0 <= k < b.len() implies s.subrange(pos + a.len(), pos + a.len() + b.len())[k] == #[trigger] b[k] by {
        assert(s.subrange(pos + a.len(), pos + a.len() + b.len())[k] == s[pos + a.len() + k]);
        assert(t[a.len() + k] == s[pos + a.len() + k]);
        assert((a + b)[a.len() + k] == b[k]);
    }
    assert(s.subrange(pos + a.len(), pos + a.len() + b.len()) =~= b);
}

/// Parsing at a position whose bytes hold the canonical encoding of a
/// well-formed item yields that item and stops exactly at the encoding's
/// end, whatever follows.
#[verifier::rlimit(100)]
#[verifier::spinoff_prover]
pub proof fn lemma_parse_of_encoding(v: SpecWireValue, s: Seq<u8>, pos: int)
    requires
        wire_wf(v),
        wire_sized(v),
        0 <= pos,
        pos + wire_bytes(v).len() <= s.len(),
        s.subrange(pos, pos + wire_bytes(v).len() as int) == wire_bytes(v),
    ensures
        spec_parse(s, pos) == Some((v, pos + wire_bytes(v).len())),
    decreases size_of(v), 0int,
{
    reveal_with_fuel(spec_parse, 1);
    reveal_with_fuel(spec_parse_list, 1);
    reveal_with_fuel(spec_parse_pairs, 1);
    let b = wire_bytes(v);
    assert forall|k: int| 0 <= k < b.len() implies s[pos + k] == #[trigger] b[k] by {
        assert(s.subrange(pos, pos + b.len() as int)[k] == s[pos + k]);
    }
    match v {
        SpecWireValue::Null => {
            assert(b =~= seq![0xf6u8]);
            assert(s[pos + 0] == b[0]);
            assert(s[pos] == 0xf6);
            assert(s[pos] / 32 == 7 && s[pos] % 32 == 22);
        },
        SpecWireValue::Bool(x) => {
            if x {
                assert(b =~= seq![0xf5u8]);
                assert(s[pos + 0] == b[0]);
                assert(s[pos] == 0xf5);
                assert(s[pos] / 32 == 7 && s[pos] % 32 == 21);
            } else {
                assert(b =~= seq![0xf4u8]);
                assert(s[pos + 0] == b[0]);
                assert(s[pos] == 0xf4);
                assert(s[pos] / 32 == 7 && s[pos] % 32 == 20);
            }
        },
        SpecWireValue::Integer(i) => {
            if i >= 0 {
                assert(b =~= spec_header(0, i as nat));
                lemma_parse_header_at(s, pos, 0, i as nat);
            } else {
                assert(b =~= spec_header(1, (-1 - i) as nat));
                lemma_parse_header_at(s, pos, 1, (-1 - i) as nat);
            }
        },
        SpecWireValue::Float(bits) => {
            assert(b == seq![0xfbu8] + be8(bits as nat));
            lemma_split_subrange(s, pos, seq![0xfbu8], be8(bits as nat));
            assert(seq![0xfbu8][0] == 0xfbu8);
            assert(s[pos + 0] == 0xfb);
            assert(s[pos] / 32 == 7 && s[pos] % 32 == 27);
            lemma_val8_be8(s, pos + 1, bits as nat);
        },
        SpecWireValue::Bytes(x) => {
            let h = spec_header(2, x.len());
            assert(b == h + x);
            lemma_split_subrange(s, pos, h, x);
            lemma_parse_header_at(s, pos, 2, x.len());
            let p = pos + h.len();
            assert(s.subrange(p, p + x.len() as int) == x);
        },
        SpecWireValue::Text(x) => {
            let h = spec_header(3, x.len());
            assert(b == h + x);
            lemma_split_subrange(s, pos, h, x);
            lemma_parse_header_at(s, pos, 3, x.len());
            let p = pos + h.len();
            assert(s.subrange(p, p + x.len() as int) == x);
        },
        SpecWireValue::Array(vs) => {
            let h = spec_header(4, vs.len());
            let body = wire_bytes_list(vs);
            assert(b == h + body);
            lemma_split_subrange(s, pos, h, body);
            lemma_parse_header_at(s, pos, 4, vs.len());
            let p = pos + h.len();
            assert(wire_wf_list(vs));
            assert(wire_sized_list(vs));
            assert(size_of(v) == 1 + size_of_list(vs));
            lemma_parse_list_of_encoding(vs, s, p);
        },
        SpecWireValue::Dict(ps) => {
            let h = spec_header(5, ps.len());
            let body = wire_bytes_pairs(ps);
            assert(b == h + body);
            lemma_split_subrange(s, pos, h, body);
            lemma_parse_header_at(s, pos, 5, ps.len());
            let p = pos + h.len();
            assert(wire_wf_pairs(ps));
            assert(wire_sized_pairs(ps));
            assert(size_of(v) == 1 + size_of_pairs(ps));
            lemma_parse_pairs_of_encoding(ps, s, p);
        },
        SpecWireValue::Tag(t, inner) => {
            let h = spec_header(6, t as nat);
            let body = wire_bytes(*inner);
            assert(b == h + body);
            lemma_split_subrange(s, pos, h, body);
            lemma_parse_header_at(s, pos, 6, t as nat);
            let p = pos + h.len();
            assert(size_of(v) == 1 + size_of(*inner));
            lemma_parse_of_encoding(*inner, s, p);
        },
    }
}

#[verifier::rlimit(100)]
#[verifier::spinoff_prover]
proof fn lemma_parse_list_of_encoding(vs: Seq<SpecWireValue>, s: Seq<u8>, pos: int)
    requires
        wire_wf_list(vs),
        wire_sized_list(vs),
        vs.len() < 0x10000000000000000,
        0 <= pos,
        pos + wire_bytes_list(vs).len() <= s.len(),
        s.subrange(pos, pos + wire_bytes_list(vs).len() as int) == wire_bytes_list(vs),
    ensures
        spec_parse_list(s, pos, vs.len()) == Some((vs, pos + wire_bytes_list(vs).len())),
    decreases size_of_list(vs), 1int,
{
    reveal_with_fuel(spec_parse, 1);
    reveal_with_fuel(spec_parse_list, 1);
    reveal_with_fuel(spec_parse_pairs, 1);
    if vs.len() == 0 {
    } else {
        let head = wire_bytes(vs[0]);
        let tail = wire_bytes_list(vs.drop_first());
        assert(wire_bytes_list(vs) == head + tail);
        lemma_split_subrange(s, pos, head, tail);
        assert(wire_wf(vs[0]) && wire_wf_list(vs.drop_first()));
        assert(wire_sized(vs[0]) && wire_sized_list(vs.drop_first()));
        assert(size_of_list(vs) == size_of(vs[0]) + size_of_list(vs.drop_first()));
        assert(size_of(vs[0]) >= 1);
        lemma_parse_of_encoding(vs[0], s, pos);
        lemma_wire_bytes_len_pos(vs[0]);
        let e1 = pos + head.len();
        lemma_parse_list_of_encoding(vs.drop_first(), s, e1);
        assert(seq![vs[0]] + vs.drop_first() =~= vs);
    }
}

#[verifier::rlimit(100)]
#[verifier::spinoff_prover]
proof fn lemma_parse_pairs_of_encoding(
    ps: Seq<(SpecWireValue, SpecWireValue)>,
    s: Seq<u8>,
    pos: int,
)
    requires
        wire_wf_pairs(ps),
        wire_sized_pairs(ps),
        ps.len() < 0x10000000000000000,
        0 <= pos,
        pos + wire_bytes_pairs(ps).len() <= s.len(),
        s.subrange(pos, pos + wire_bytes_pairs(ps).len() as int) == wire_bytes_pairs(ps),
    ensures
        spec_parse_pairs(s, pos, ps.len()) == Some((ps, pos + wire_bytes_pairs(ps).len())),
    decreases size_of_pairs(ps), 1int,
{
    reveal_with_fuel(spec_parse, 1);
    reveal_with_fuel(spec_parse_list, 1);
    reveal_with_fuel(spec_parse_pairs, 1);
    if ps.len() == 0 {
    } else {
        let kb = wire_bytes(ps[0].0);
        let vb = wire_bytes(ps[0].1);
        let tail = wire_bytes_pairs(ps.drop_first());
        assert(wire_bytes_pairs(ps) == kb + vb + tail);
        assert(kb + vb + tail =~= kb + (vb + tail));
        lemma_split_subrange(s, pos, kb, vb + tail);
        assert(wire_wf(ps[0].0) && wire_wf(ps[0].1) && wire_wf_pairs(ps.drop_first()));
        assert(wire_sized(ps[0].0) && wire_sized(ps[0].1) && wire_sized_pairs(ps.drop_first()));
        assert(size_of_pairs(ps) == size_of(ps[0].0) + size_of(ps[0].1) + size_of_pairs(
            ps.drop_first(),
        ));
        assert(size_of(ps[0].0) >= 1 && size_of(ps[0].1) >= 1);
        lemma_parse_of_encoding(ps[0].0, s, pos);
        lemma_wire_bytes_len_pos(ps[0].0);
        let e1 = pos + kb.len();
        lemma_split_subrange(s, e1, vb, tail);
        lemma_parse_of_encoding(ps[0].1, s, e1);
        lemma_wire_bytes_len_pos(ps[0].1);
        let e2 = e1 + vb.len();
        lemma_parse_pairs_of_encoding(ps.drop_first(), s, e2);
        assert(seq![ps[0]] + ps.drop_first() =~= ps);
    }
}

/// The codec round-trips: parsing the canonical encoding of any well-formed
/// item yields an equal item and consumes the whole input.
pub proof fn lemma_codec_round_trip(v: SpecWireValue)
    requires
        wire_wf(v),
        wire_sized(v),
    ensures
        spec_decode(wire_bytes(v)) == Some(v),
        spec_parse(wire_bytes(v), 0) == Some((v, wire_bytes(v).len() as int)),
{
    let b = wire_bytes(v);
    assert(b.subrange(0, b.len() as int) =~= b);
    lemma_parse_of_encoding(v, b, 0);
}

} // verus!
