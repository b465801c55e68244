//! Parameter pipeline: decodes the named, binary-encoded parameters of one
//! call and imposes a deterministic bind order.
//!
//! Every parameter is decoded before anything runs; the first failure aborts
//! the whole call and names the offending key. Decoded parameters are then
//! collected into a name-ordered mapping: bind order is lexicographic by the
//! key's bytes, not call order, and when one name is bound twice the later
//! occurrence wins.

use vstd::prelude::*;
use vstd::string::StrSliceExecFns;
use vstd::utf8::encode_utf8;

use crate::value::{
    assoc_get, last_of, lemma_obj_insert_get_other, lemma_obj_insert_get_same,
    lemma_obj_insert_sorted, obj_insert, obj_insert_exec, strictly_sorted, view_mid_pairs,
    IntermediateValue, SpecMidValue,
};
use crate::wire::DecodeError;

verus! {

/// Whether one parameter payload decodes: the bytes parse as one complete
/// wire item and that item rewrites into the pivot form.
pub open spec fn param_ok(bytes: Seq<u8>) -> bool {
    &&& crate::wire::spec_decode(bytes) is Some
    &&& crate::value::mid_of_wire(crate::wire::spec_decode(bytes)->Some_0) is Ok
}

/// The pivot value of one parameter payload that decodes.
pub open spec fn param_mid(bytes: Seq<u8>) -> SpecMidValue {
    crate::value::mid_of_wire(crate::wire::spec_decode(bytes)->Some_0)->Ok_0
}

/// Decodes every bound parameter, keeping call order; the first failure
/// aborts the whole call with the offending key.
pub fn decode_params(params: Vec<(String, Vec<u8>)>) -> (r: Result<
    Vec<(String, IntermediateValue)>,
    (String, DecodeError),
>)
    ensures
        match r {
            Ok(out) => {
                &&& out@.len() == params@.len()
                &&& forall|i: int|
                    0 <= i < params@.len() ==> param_ok(#[trigger] params@[i].1@)
                &&& forall|i: int|
                    0 <= i < params@.len() ==> (#[trigger] out@[i].0)@ == params@[i].0@
                &&& forall|i: int|
                    0 <= i < params@.len() ==> (#[trigger] out@[i].1)@ == param_mid(
                        params@[i].1@,
                    )
            },
            Err((key, _)) => exists|i: int|
                {
                    &&& 0 <= i < params@.len()
                    &&& !param_ok((#[trigger] params@[i]).1@)
                    &&& key@ == params@[i].0@
                    &&& forall|j: int| 0 <= j < i ==> param_ok(#[trigger] params@[j].1@)
                },
        },
{
    let ghost orig = params@;
    let mut rest = params;
    let mut out: Vec<(String, IntermediateValue)> = Vec::new();
    let ghost n = orig.len();
    while rest.len() > 0
        invariant
            orig == params@,
            out@.len() + rest@.len() == n,
            orig.len() == n,
            forall|i: int|
                0 <= i < rest@.len() ==> #[trigger] rest@[i] == orig[out@.len() + i],
            forall|i: int| 0 <= i < out@.len() ==> param_ok(#[trigger] orig[i].1@),
            forall|i: int| 0 <= i < out@.len() ==> (#[trigger] out@[i].0)@ == orig[i].0@,
            forall|i: int|
                0 <= i < out@.len() ==> (#[trigger] out@[i].1)@ == param_mid(orig[i].1@),
        decreases rest@.len(),
    {
        let ghost old_rest = rest@;
        let ghost done = out@.len();
        let (key, bytes) = rest.remove(0);
        proof {
            assert(old_rest[0] == (key, bytes));
            assert(rest@ =~= old_rest.drop_first());
            assert(orig[done as int] == (key, bytes));
        }
        match crate::value::cbor_slice_to_json(&bytes) {
            Ok(v) => {
                let ghost gv = v@;
                let ghost old_out = out@;
                out.push((key, v));
                proof {
                    assert(out@ =~= old_out + seq![(key, v)]);
                    assert(param_ok(orig[done as int].1@));
                    assert(gv == param_mid(orig[done as int].1@));
                    assert forall|i: int|
                        0 <= i < rest@.len() implies #[trigger] rest@[i] == orig[out@.len()
                        + i] by {
                        assert(rest@[i] == old_rest[i + 1]);
                        assert(old_rest[i + 1] == orig[done + 1 + i]);
                    }
                }
            },
            Err(e) => {
                proof {
                    assert(!param_ok(orig[done as int].1@));
                    assert(orig == params@);
                    assert(0 <= done < params@.len());
                    assert(params@[done as int] == orig[done as int]);
                    assert(!param_ok(params@[done as int].1@));
                    assert(key@ == params@[done as int].0@);
                    assert(forall|j: int| 0 <= j < done ==> param_ok(#[trigger] orig[j].1@));
                    assert forall|j: int| 0 <= j < done implies param_ok(
                        #[trigger] params@[j].1@,
                    ) by {
                        assert(params@[j] == orig[j]);
                        assert(param_ok(orig[j].1@));
                    }
                }
                return Err((key, e));
            },
        }
    }
    Ok(out)
}

/// The key-bytes/value views of decoded parameters, in call order.
pub open spec fn param_views(s: Seq<(String, IntermediateValue)>) -> Seq<
    (Seq<u8>, SpecMidValue),
> {
    Seq::new(s.len(), |i: int| (encode_utf8(s[i].0@), s[i].1@))
}

/// Folds pairs, left to right, into an ordered mapping; a later equal key
/// overwrites an earlier one.
pub open spec fn ordered_insert_all(
    s: Seq<(Seq<u8>, SpecMidValue)>,
    acc: Seq<(Seq<u8>, SpecMidValue)>,
) -> Seq<(Seq<u8>, SpecMidValue)>
    decreases s.len(),
{
    if s.len() == 0 {
        acc
    } else {
        ordered_insert_all(s.drop_first(), obj_insert(acc, s[0].0, s[0].1))
    }
}

/// Collects decoded parameters into the name-ordered mapping the driver is
/// handed: keys ascend byte-lexicographically and a name bound twice keeps
/// only its later value.
pub fn ordered_params(params: Vec<(String, IntermediateValue)>) -> (out: Vec<
    (Vec<u8>, IntermediateValue),
>)
    ensures
        view_mid_pairs(out@) == ordered_insert_all(param_views(params@), Seq::empty()),
        strictly_sorted(view_mid_pairs(out@)),
{
    let ghost orig = param_views(params@);
    let mut rest = params;
    let mut out: Vec<(Vec<u8>, IntermediateValue)> = Vec::new();
    proof {
        assert(view_mid_pairs(out@) =~= Seq::<(Seq<u8>, SpecMidValue)>::empty());
        assert(strictly_sorted(view_mid_pairs(out@)));
        assert(orig.skip(0) =~= orig);
    }
    let ghost n = orig.len();
    while rest.len() > 0
        invariant
            rest@.len() <= n,
            orig.len() == n,
            forall|i: int|
                0 <= i < rest@.len() ==> orig[n - rest@.len() + i] == (
                    encode_utf8((#[trigger] rest@[i]).0@),
                    rest@[i].1@,
                ),
            ordered_insert_all(orig, Seq::empty()) == ordered_insert_all(
                orig.skip(n - rest@.len()),
                view_mid_pairs(out@),
            ),
            strictly_sorted(view_mid_pairs(out@)),
        decreases rest@.len(),
    {
        let ghost old_rest = rest@;
        let ghost done = n - rest@.len();
        let (key, v) = rest.remove(0);
        let ghost gv = v@;
        let kb = key.as_str().as_bytes_vec();
        proof {
            assert(old_rest[0] == (key, v));
            assert(rest@ =~= old_rest.drop_first());
            assert(kb@ == encode_utf8(key@));
            assert(orig[done] == (encode_utf8(old_rest[0].0@), old_rest[0].1@));
            assert(orig[done] == (kb@, gv));
            assert(orig.skip(done)[0] == orig[done]);
            assert(orig.skip(done).drop_first() =~= orig.skip(done + 1));
            assert forall|i: int|
                0 <= i < rest@.len() implies orig[n - rest@.len() + i] == (
                encode_utf8((#[trigger] rest@[i]).0@),
                rest@[i].1@,
            ) by {
                assert(rest@[i] == old_rest[i + 1]);
                assert(orig[n - old_rest.len() + (i + 1)] == (
                    encode_utf8((old_rest[i + 1]).0@),
                    old_rest[i + 1].1@,
                ));
                assert(n - rest@.len() + i == n - old_rest.len() + (i + 1));
            }
        }
        let ghost old_view = view_mid_pairs(out@);
        out = obj_insert_exec(out, kb, v);
        proof {
            assert(view_mid_pairs(out@) == obj_insert(old_view, kb@, gv));
            lemma_obj_insert_sorted(old_view, kb@, gv);
            assert(ordered_insert_all(orig.skip(done), old_view) == ordered_insert_all(
                orig.skip(done + 1),
                view_mid_pairs(out@),
            ));
        }
    }
    proof {
        assert(orig.skip(n as int) =~= Seq::<(Seq<u8>, SpecMidValue)>::empty());
        assert(ordered_insert_all(orig.skip(n as int), view_mid_pairs(out@)) == view_mid_pairs(
            out@,
        ));
    }
    out
}

proof fn lemma_ordered_insert_all_get(
    s: Seq<(Seq<u8>, SpecMidValue)>,
    acc: Seq<(Seq<u8>, SpecMidValue)>,
    k: Seq<u8>,
)
    ensures
        assoc_get(ordered_insert_all(s, acc), k) == (match last_of(s, k) {
            Some(v) => Some(v),
            None => assoc_get(acc, k),
        }),
    decreases s.len(),
{
    if s.len() > 0 {
        let acc2 = obj_insert(acc, s[0].0, s[0].1);
        lemma_ordered_insert_all_get(s.drop_first(), acc2, k);
        if last_of(s.drop_first(), k) is None {
            if s[0].0 == k {
                lemma_obj_insert_get_same(acc, s[0].0, s[0].1);
            } else {
                lemma_obj_insert_get_other(acc, s[0].0, s[0].1, k);
            }
        }
    }
}

/// Law: when one name is bound more than once, the ordered mapping keeps
/// only the value of its last occurrence in call order; a name bound once
/// keeps its value, and an unbound name is absent.
pub proof fn lemma_last_write_wins(s: Seq<(Seq<u8>, SpecMidValue)>, k: Seq<u8>)
    ensures
        assoc_get(ordered_insert_all(s, Seq::empty()), k) == last_of(s, k),
{
    lemma_ordered_insert_all_get(s, Seq::empty(), k);
    if last_of(s, k) is None {
        assert(assoc_get(Seq::<(Seq<u8>, SpecMidValue)>::empty(), k) is None);
    }
}

} // verus!
