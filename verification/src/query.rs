//! Building one query call: the statement text, the values bound to names,
//! and the compute half of executing it.
//!
//! A builder serializes each bound value to wire bytes as it is bound; the
//! first value that cannot be serialized poisons the builder, later binds
//! are ignored, and the error surfaces when the call is taken apart for the
//! boundary. The host-side half decodes and orders the parameters before
//! anything runs: the first undecodable parameter aborts the whole call
//! with its key, and no statement runs with partially-bound parameters.

use vstd::prelude::*;
use vstd::utf8::encode_utf8;

use crate::errors::{QueryError, SubscribeError};
use crate::params::{param_mid, param_ok, ordered_insert_all, param_views};
use crate::value::{strictly_sorted, view_mid_pairs, IntermediateValue, SpecMidValue};
use crate::wire::{wire_bytes, wire_wf, DecodeError, WireValue};

verus! {

/// A query being built by the guest.
pub struct Query {
    query_str: String,
    params: Vec<(String, Vec<u8>)>,
    bind_error: Option<DecodeError>,
}

/// Starts building a query call.
pub fn query(query_str: &str) -> (q: Query)
    ensures
        q.spec_query_str() == query_str@,
        q.spec_params() == Seq::<(Seq<char>, Seq<u8>)>::empty(),
        q.spec_bind_error() is None,
{
    let q = Query { query_str: String::from_str(query_str), params: Vec::new(), bind_error: None };
    proof {
        assert(q.spec_params() =~= Seq::<(Seq<char>, Seq<u8>)>::empty());
    }
    q
}

impl Query {
    /// The statement text.
    pub closed spec fn spec_query_str(&self) -> Seq<char> {
        self.query_str@
    }

    /// The bound names and their serialized values, in bind order.
    pub closed spec fn spec_params(&self) -> Seq<(Seq<char>, Seq<u8>)> {
        Seq::new(self.params@.len(), |i: int| (self.params@[i].0@, self.params@[i].1@))
    }

    /// The first serialization failure, if any bind failed.
    pub closed spec fn spec_bind_error(&self) -> Option<DecodeError> {
        self.bind_error
    }

    /// Binds a value under a name, serializing it to wire bytes. After a
    /// failed bind the builder is poisoned: later binds change nothing.
    pub fn bind(self, key: String, value: &WireValue) -> (r: Self)
        ensures
            r.spec_query_str() == self.spec_query_str(),
            match self.spec_bind_error() {
                Some(e) => r.spec_bind_error() == Some(e) && r.spec_params()
                    == self.spec_params(),
                None => if wire_wf(value@) {
                    &&& r.spec_bind_error() is None
                    &&& r.spec_params() == self.spec_params() + seq![
                        (key@, wire_bytes(value@)),
                    ]
                } else {
                    r.spec_bind_error() is Some && r.spec_params() == self.spec_params()
                },
            },
    {
        if self.bind_error.is_some() {
            return self;
        }
        let ghost pre = self.spec_params();
        match crate::value::surreal_to_cbor_bytes(value) {
            Ok(bytes) => {
                let mut r = self;
                r.params.push((key, bytes));
                proof {
                    assert(r.spec_params() =~= pre + seq![(key@, wire_bytes(value@))]);
                }
                r
            },
            Err(e) => {
                let mut r = self;
                r.bind_error = Some(e);
                proof {
                    assert(r.spec_params() =~= pre);
                }
                r
            },
        }
    }

    /// Takes the built call apart for the boundary: the statement text and
    /// the serialized parameters — unless a bind failed, in which case that
    /// first failure aborts the call instead.
    pub fn into_parts(self) -> (r: Result<(String, Vec<(String, Vec<u8>)>), DecodeError>)
        ensures
            match r {
                Ok((q, ps)) => {
                    &&& self.spec_bind_error() is None
                    &&& q@ == self.spec_query_str()
                    &&& Seq::new(ps@.len(), |i: int| (ps@[i].0@, ps@[i].1@))
                        == self.spec_params()
                },
                Err(e) => self.spec_bind_error() == Some(e),
            },
    {
        match self.bind_error {
            Some(e) => Err(e),
            None => {
                let Query { query_str, params, bind_error: _ } = self;
                proof {
                    assert(Seq::new(params@.len(), |i: int| (params@[i].0@, params@[i].1@))
                        =~= Seq::new(params@.len(), |i: int| (params@[i].0@, params@[i].1@)));
                }
                Ok((query_str, params))
            },
        }
    }
}

/// A live query being built by the guest; it behaves as `Query` does, but
/// its call opens a subscription instead of returning outcomes.
pub struct LiveQuery {
    query_str: String,
    params: Vec<(String, Vec<u8>)>,
    bind_error: Option<DecodeError>,
}

/// Starts building a live query subscription.
pub fn subscribe(query_str: &str) -> (q: LiveQuery)
    ensures
        q.spec_query_str() == query_str@,
        q.spec_params() == Seq::<(Seq<char>, Seq<u8>)>::empty(),
        q.spec_bind_error() is None,
{
    let q = LiveQuery {
        query_str: String::from_str(query_str),
        params: Vec::new(),
        bind_error: None,
    };
    proof {
        assert(q.spec_params() =~= Seq::<(Seq<char>, Seq<u8>)>::empty());
    }
    q
}

impl LiveQuery {
    /// The statement text.
    pub closed spec fn spec_query_str(&self) -> Seq<char> {
        self.query_str@
    }

    /// The bound names and their serialized values, in bind order.
    pub closed spec fn spec_params(&self) -> Seq<(Seq<char>, Seq<u8>)> {
        Seq::new(self.params@.len(), |i: int| (self.params@[i].0@, self.params@[i].1@))
    }

    /// The first serialization failure, if any bind failed.
    pub closed spec fn spec_bind_error(&self) -> Option<DecodeError> {
        self.bind_error
    }

    /// Binds a value under a name, serializing it to wire bytes. After a
    /// failed bind the builder is poisoned: later binds change nothing.
    pub fn bind(self, key: String, value: &WireValue) -> (r: Self)
        ensures
            r.spec_query_str() == self.spec_query_str(),
            match self.spec_bind_error() {
                Some(e) => r.spec_bind_error() == Some(e) && r.spec_params()
                    == self.spec_params(),
                None => if wire_wf(value@) {
                    &&& r.spec_bind_error() is None
                    &&& r.spec_params() == self.spec_params() + seq![
                        (key@, wire_bytes(value@)),
                    ]
                } else {
                    r.spec_bind_error() is Some && r.spec_params() == self.spec_params()
                },
            },
    {
        if self.bind_error.is_some() {
            return self;
        }
        let ghost pre = self.spec_params();
        match crate::value::surreal_to_cbor_bytes(value) {
            Ok(bytes) => {
                let mut r = self;
                r.params.push((key, bytes));
                proof {
                    assert(r.spec_params() =~= pre + seq![(key@, wire_bytes(value@))]);
                }
                r
            },
            Err(e) => {
                let mut r = self;
                r.bind_error = Some(e);
                proof {
                    assert(r.spec_params() =~= pre);
                }
                r
            },
        }
    }

    /// Takes the built subscription call apart for the boundary.
    pub fn into_parts(self) -> (r: Result<(String, Vec<(String, Vec<u8>)>), DecodeError>)
        ensures
            match r {
                Ok((q, ps)) => {
                    &&& self.spec_bind_error() is None
                    &&& q@ == self.spec_query_str()
                    &&& Seq::new(ps@.len(), |i: int| (ps@[i].0@, ps@[i].1@))
                        == self.spec_params()
                },
                Err(e) => self.spec_bind_error() == Some(e),
            },
    {
        match self.bind_error {
            Some(e) => Err(e),
            None => {
                let LiveQuery { query_str, params, bind_error: _ } = self;
                Ok((query_str, params))
            },
        }
    }
}

/// The decoded key/value views of a parameter list, in call order.
pub open spec fn decoded_views(params: Seq<(String, Vec<u8>)>) -> Seq<(Seq<u8>, SpecMidValue)> {
    Seq::new(params.len(), |i: int| (encode_utf8(params[i].0@), param_mid(params[i].1@)))
}

/// The compute half of a query call, before the driver runs anything:
/// decodes every bound parameter and collects them into the deterministic,
/// name-ordered mapping the driver is handed. The first undecodable
/// parameter aborts the whole call with its key; on success every parameter
/// decoded and the mapping is exactly their ordered, last-write-wins fold.
pub fn prepare_query_params(params: Vec<(String, Vec<u8>)>) -> (r: Result<
    Vec<(Vec<u8>, IntermediateValue)>,
    QueryError,
>)
    ensures
        match r {
            Ok(out) => {
                &&& forall|i: int| 0 <= i < params@.len() ==> param_ok(#[trigger] params@[i].1@)
                &&& view_mid_pairs(out@) == ordered_insert_all(
                    decoded_views(params@),
                    Seq::empty(),
                )
                &&& strictly_sorted(view_mid_pairs(out@))
            },
            Err(e) => e is ParamDecode && exists|i: int|
                {
                    &&& 0 <= i < params@.len()
                    &&& !param_ok((#[trigger] params@[i]).1@)
                    &&& (e->ParamDecode_key)@ == params@[i].0@
                    &&& forall|j: int| 0 <= j < i ==> param_ok(#[trigger] params@[j].1@)
                },
        },
{
    let ghost gparams = params@;
    match crate::params::decode_params(params) {
        Ok(decoded) => {
            proof {
                assert(param_views(decoded@) =~= decoded_views(gparams));
            }
            let out = crate::params::ordered_params(decoded);
            Ok(out)
        },
        Err((key, source)) => Err(QueryError::ParamDecode { key, source }),
    }
}

/// The compute half of a subscribe call: identical to the query half, with
/// the failure reported as a subscription error.
pub fn prepare_subscribe_params(params: Vec<(String, Vec<u8>)>) -> (r: Result<
    Vec<(Vec<u8>, IntermediateValue)>,
    SubscribeError,
>)
    ensures
        match r {
            Ok(out) => {
                &&& forall|i: int| 0 <= i < params@.len() ==> param_ok(#[trigger] params@[i].1@)
                &&& view_mid_pairs(out@) == ordered_insert_all(
                    decoded_views(params@),
                    Seq::empty(),
                )
                &&& strictly_sorted(view_mid_pairs(out@))
            },
            Err(e) => e is ParamDecode && exists|i: int|
                {
                    &&& 0 <= i < params@.len()
                    &&& !param_ok((#[trigger] params@[i]).1@)
                    &&& (e->ParamDecode_key)@ == params@[i].0@
                    &&& forall|j: int| 0 <= j < i ==> param_ok(#[trigger] params@[j].1@)
                },
        },
{
    let ghost gparams = params@;
    match crate::params::decode_params(params) {
        Ok(decoded) => {
            proof {
                assert(param_views(decoded@) =~= decoded_views(gparams));
            }
            let out = crate::params::ordered_params(decoded);
            Ok(out)
        },
        Err((key, source)) => Err(SubscribeError::ParamDecode { key, source }),
    }
}

} // verus!
