//! Per-statement outcomes of one query call, and the holder the guest reads
//! them from.
//!
//! One outcome exists per statement, in statement order: the encoded native
//! result on success, or the driver's message for that statement. A
//! convenience accessor collapses every per-statement error into one
//! combined message, dropping the driver's note that a statement did not run
//! because an earlier statement of the same transaction failed: that note is
//! noise once the root cause is reported.

use vstd::prelude::*;
use vstd::string::StrSliceExecFns;
use vstd::string::StringExecFns;
use vstd::utf8::encode_utf8;

use crate::wire::{wire_bytes, wire_wf, DecodeError, WireValue};

verus! {

/// Turns per-statement native results into boundary outcomes: a success is
/// serialized to wire bytes; a serialization failure becomes that one
/// statement's error string; a statement error is carried through unchanged.
/// Exactly one outcome per statement, order preserved.
pub fn assemble_outcomes(results: Vec<Result<WireValue, String>>) -> (out: Vec<
    Result<Vec<u8>, String>,
>)
    ensures
        out@.len() == results@.len(),
        forall|i: int|
            0 <= i < results@.len() ==> match #[trigger] results@[i] {
                Ok(v) => if wire_wf(v@) {
                    out@[i] is Ok && (out@[i]->Ok_0)@ == wire_bytes(v@)
                } else {
                    out@[i] is Err
                },
                Err(m) => out@[i] is Err && (out@[i]->Err_0)@ == m@,
            },
{
    let ghost orig = results@;
    let mut rest = results;
    let mut out: Vec<Result<Vec<u8>, String>> = Vec::new();
    let ghost n = orig.len();
    while rest.len() > 0
        invariant
            orig == results@,
            out@.len() + rest@.len() == n,
            orig.len() == n,
            forall|i: int| 0 <= i < rest@.len() ==> #[trigger] rest@[i] == orig[out@.len() + i],
            forall|i: int|
                0 <= i < out@.len() ==> match #[trigger] orig[i] {
                    Ok(v) => if wire_wf(v@) {
                        out@[i] is Ok && (out@[i]->Ok_0)@ == wire_bytes(v@)
                    } else {
                        out@[i] is Err
                    },
                    Err(m) => out@[i] is Err && (out@[i]->Err_0)@ == m@,
                },
        decreases rest@.len(),
    {
        let ghost old_rest = rest@;
        let ghost done = out@.len();
        let item = rest.remove(0);
        proof {
            assert(old_rest[0] == item);
            assert(rest@ =~= old_rest.drop_first());
            assert(orig[done as int] == item);
        }
        match item {
            Ok(v) => {
                match crate::value::surreal_to_cbor_bytes(&v) {
                    Ok(bytes) => {
                        out.push(Ok(bytes));
                    },
                    Err(_) => {
                        out.push(Err(String::from_str("failed to serialize result value")));
                    },
                }
            },
            Err(m) => {
                out.push(Err(m));
            },
        }
        proof {
            assert forall|i: int|
                0 <= i < rest@.len() implies #[trigger] rest@[i] == orig[out@.len() + i] by {
                assert(rest@[i] == old_rest[i + 1]);
            }
        }
    }
    out
}

/// Whether the needle occurs as a contiguous run inside the haystack.
pub open spec fn spec_contains(h: Seq<u8>, n: Seq<u8>) -> bool {
    exists|k: int| 0 <= k && k + n.len() <= h.len() && #[trigger] h.subrange(k, k + n.len()) == n
}

fn match_at(h: &Vec<u8>, n: &Vec<u8>, k: usize) -> (r: bool)
    requires
        k + n.len() <= h.len(),
    ensures
        r == (h@.subrange(k as int, k + n@.len()) == n@),
{
    let mut j: usize = 0;
    while j < n.len()
        invariant
            j <= n.len(),
            k + n.len() <= h.len(),
            forall|l: int| 0 <= l < j ==> h@[k + l] == n@[l],
        decreases n.len() - j,
    {
        if h[k + j] != n[j] {
            proof {
                assert(h@.subrange(k as int, k + n@.len())[j as int] == h@[k + j]);
            }
            return false;
        }
        j += 1;
    }
    proof {
        assert(h@.subrange(k as int, k + n@.len()) =~= n@);
    }
    true
}

/// Substring search by bytes.
fn contains_bytes(h: &Vec<u8>, n: &Vec<u8>) -> (r: bool)
    ensures
        r == spec_contains(h@, n@),
{
    if n.len() > h.len() {
        proof {
            assert(!spec_contains(h@, n@));
        }
        return false;
    }
    if n.len() == 0 {
        proof {
            let k0: int = 0;
            assert(h@.subrange(k0, k0 + n@.len()) =~= n@);
            assert(spec_contains(h@, n@));
        }
        return true;
    }
    let mut k: usize = 0;
    let last = h.len() - n.len();
    while k <= last
        invariant
            1 <= n.len() <= h.len(),
            last == h.len() - n.len(),
            k <= last + 1,
            forall|k2: int|
                0 <= k2 < k ==> #[trigger] h@.subrange(k2, k2 + n@.len()) != n@,
        decreases last + 1 - k,
    {
        if match_at(h, n, k) {
            proof {
                assert(spec_contains(h@, n@));
            }
            return true;
        }
        k += 1;
    }
    proof {
        assert forall|k2: int|
            0 <= k2 && k2 + n@.len() <= h@.len() implies #[trigger] h@.subrange(k2, k2 + n@.len())
            != n@ by {
            assert(k2 < k);
        }
    }
    false
}

/// The driver's note that a statement was skipped because an earlier
/// statement of the same transaction failed.
pub open spec fn skip_note() -> Seq<char> {
    ("The query was not executed due to a failed transaction")@
}

/// Whether an error message only reports such a skipped statement.
pub open spec fn is_noise(m: Seq<char>) -> bool {
    spec_contains(encode_utf8(m), encode_utf8(skip_note()))
}

/// The non-noise error messages of a run of outcomes, in order.
pub open spec fn user_error_msgs(s: Seq<Result<Vec<u8>, String>>) -> Seq<Seq<char>>
    decreases s.len(),
{
    if s.len() == 0 {
        Seq::empty()
    } else {
        let rest = user_error_msgs(s.drop_first());
        match s[0] {
            Ok(_) => rest,
            Err(m) => if is_noise(m@) {
                rest
            } else {
                seq![m@] + rest
            },
        }
    }
}

/// The messages joined with a semicolon separator.
pub open spec fn joined_msgs(msgs: Seq<Seq<char>>) -> Seq<char>
    decreases msgs.len(),
{
    if msgs.len() == 0 {
        Seq::empty()
    } else if msgs.len() == 1 {
        msgs[0]
    } else {
        msgs[0] + ("; ")@ + joined_msgs(msgs.drop_first())
    }
}

proof fn lemma_user_error_msgs_snoc(s: Seq<Result<Vec<u8>, String>>, x: Result<Vec<u8>, String>)
    ensures
        user_error_msgs(s + seq![x]) == user_error_msgs(s) + (match x {
            Ok(_) => Seq::<Seq<char>>::empty(),
            Err(m) => if is_noise(m@) {
                Seq::<Seq<char>>::empty()
            } else {
                seq![m@]
            },
        }),
    decreases s.len(),
{
    let t = s + seq![x];
    let tail = match x {
        Ok(_) => Seq::<Seq<char>>::empty(),
        Err(m) => if is_noise(m@) {
            Seq::<Seq<char>>::empty()
        } else {
            seq![m@]
        },
    };
    if s.len() == 0 {
        assert(t[0] == x);
        assert(t.drop_first() =~= Seq::<Result<Vec<u8>, String>>::empty());
        assert(user_error_msgs(t.drop_first()) =~= Seq::<Seq<char>>::empty());
        assert(user_error_msgs(s) =~= Seq::<Seq<char>>::empty());
        assert(user_error_msgs(t) =~= user_error_msgs(s) + tail);
    } else {
        assert(t[0] == s[0]);
        assert(t.drop_first() =~= s.drop_first() + seq![x]);
        lemma_user_error_msgs_snoc(s.drop_first(), x);
        assert(user_error_msgs(t) =~= user_error_msgs(s) + tail);
    }
}

proof fn lemma_joined_msgs_snoc(msgs: Seq<Seq<char>>, x: Seq<char>)
    requires
        msgs.len() > 0,
    ensures
        joined_msgs(msgs + seq![x]) == joined_msgs(msgs) + ("; ")@ + x,
    decreases msgs.len(),
{
    let t = msgs + seq![x];
    if msgs.len() == 1 {
        assert(t[0] == msgs[0]);
        assert(t.drop_first() =~= seq![x]);
        assert(joined_msgs(t.drop_first()) == x);
        assert(joined_msgs(t) =~= joined_msgs(msgs) + ("; ")@ + x);
    } else {
        assert(t[0] == msgs[0]);
        assert(t.drop_first() =~= msgs.drop_first() + seq![x]);
        lemma_joined_msgs_snoc(msgs.drop_first(), x);
        assert(joined_msgs(t) =~= joined_msgs(msgs) + ("; ")@ + x);
    }
}

/// Why an extraction from the holder failed.
#[derive(Debug, Clone)]
pub enum ExtractError {
    /// The index names no statement.
    IndexOutOfBounds,
    /// That statement itself failed; its message is carried.
    Statement(String),
    /// The stored bytes did not read back as the requested shape.
    Decode(DecodeError),
}

/// A shape that can be read out of one statement's encoded result.
pub trait SingleQueryResultExtractor: Sized {
    /// What a read of these bytes may return.
    spec fn from_bytes_post(bytes: Seq<u8>, r: Result<Self, DecodeError>) -> bool;

    /// Reads a value of this shape out of encoded result bytes.
    fn from_bytes(bytes: &Vec<u8>) -> (r: Result<Self, DecodeError>)
        ensures
            Self::from_bytes_post(bytes@, r),
    ;
}

impl SingleQueryResultExtractor for WireValue {
    open spec fn from_bytes_post(bytes: Seq<u8>, r: Result<Self, DecodeError>) -> bool {
        match r {
            Ok(v) => crate::wire::spec_decode(bytes) == Some(v@) && crate::wire::wire_wf(v@),
            Err(_) => crate::wire::spec_decode(bytes) is None,
        }
    }

    fn from_bytes(bytes: &Vec<u8>) -> (r: Result<Self, DecodeError>) {
        crate::wire::decode_value(bytes)
    }
}

impl SingleQueryResultExtractor for crate::value::IntermediateValue {
    open spec fn from_bytes_post(bytes: Seq<u8>, r: Result<Self, DecodeError>) -> bool {
        match r {
            Ok(m) => crate::params::param_ok(bytes) && m@ == crate::params::param_mid(bytes),
            Err(_) => !crate::params::param_ok(bytes),
        }
    }

    fn from_bytes(bytes: &Vec<u8>) -> (r: Result<Self, DecodeError>) {
        match crate::value::cbor_slice_to_json(bytes) {
            Ok(m) => Ok(m),
            Err(e) => Err(e),
        }
    }
}

impl SingleQueryResultExtractor for Vec<crate::value::IntermediateValue> {
    open spec fn from_bytes_post(bytes: Seq<u8>, r: Result<Self, DecodeError>) -> bool {
        match r {
            Ok(rows) => {
                &&& crate::params::param_ok(bytes)
                &&& crate::params::param_mid(bytes) is Array
                &&& crate::value::view_mid_list(rows@) == crate::params::param_mid(bytes)->Array_0
            },
            Err(_) => !crate::params::param_ok(bytes) || !(crate::params::param_mid(
                bytes,
            ) is Array),
        }
    }

    /// A statement's result is a run of rows: the bytes must decode to an
    /// array, whose items are the rows.
    fn from_bytes(bytes: &Vec<u8>) -> (r: Result<Self, DecodeError>) {
        match crate::value::cbor_slice_to_json(bytes) {
            Ok(m) => match m {
                crate::value::IntermediateValue::Array(rows) => Ok(rows),
                _ => Err(DecodeError::UnsupportedValue),
            },
            Err(e) => Err(e),
        }
    }
}

impl SingleQueryResultExtractor for Option<crate::value::IntermediateValue> {
    open spec fn from_bytes_post(bytes: Seq<u8>, r: Result<Self, DecodeError>) -> bool {
        match r {
            Ok(row) => {
                &&& crate::params::param_ok(bytes)
                &&& crate::params::param_mid(bytes) is Array
                &&& match row {
                    Some(m) => crate::params::param_mid(bytes)->Array_0.len() > 0 && m@
                        == crate::params::param_mid(bytes)->Array_0[0],
                    None => crate::params::param_mid(bytes)->Array_0.len() == 0,
                }
            },
            Err(_) => !crate::params::param_ok(bytes) || !(crate::params::param_mid(
                bytes,
            ) is Array),
        }
    }

    /// The first row of a statement's result, if the result holds any.
    fn from_bytes(bytes: &Vec<u8>) -> (r: Result<Self, DecodeError>) {
        broadcast use crate::value::lemma_view_mid_list_len, crate::value::lemma_view_mid_list_index;

        match crate::value::cbor_slice_to_json(bytes) {
            Ok(m) => {
                let ghost gm = m@;
                match m {
                    crate::value::IntermediateValue::Array(mut rows) => {
                        let ghost grows = rows@;
                        proof {
                            assert(gm == crate::value::SpecMidValue::Array(
                                crate::value::view_mid_list(grows),
                            ));
                            assert(crate::value::view_mid_list(grows).len() == grows.len());
                        }
                        if rows.len() == 0 {
                            Ok(None)
                        } else {
                            let first = rows.remove(0);
                            proof {
                                assert(first == grows[0]);
                                assert(crate::value::view_mid_list(grows)[0] == grows[0]@);
                            }
                            Ok(Some(first))
                        }
                    },
                    _ => Err(DecodeError::UnsupportedValue),
                }
            },
            Err(e) => Err(e),
        }
    }
}

/// The per-statement outcomes of one query call, in statement order.
#[derive(Debug, Clone)]
pub struct QueryResultHolder {
    results: Vec<Result<Vec<u8>, String>>,
}

impl QueryResultHolder {
    /// The outcomes held, as a sequence.
    pub closed spec fn spec_results(&self) -> Seq<Result<Vec<u8>, String>> {
        self.results@
    }

    /// Wraps a run of per-statement outcomes.
    pub fn new(results: Vec<Result<Vec<u8>, String>>) -> (s: Self)
        ensures
            s.spec_results() == results@,
    {
        Self { results }
    }

    /// How many statements produced an outcome.
    pub fn len(&self) -> (r: usize)
        ensures
            r == self.spec_results().len(),
    {
        self.results.len()
    }

    /// Whether no statement produced an outcome.
    pub fn is_empty(&self) -> (r: bool)
        ensures
            r == (self.spec_results().len() == 0),
    {
        self.results.is_empty()
    }

    /// Reads the outcome at `index` as a value of shape `T`: fails on an
    /// index out of bounds, on a failed statement (carrying its message), and
    /// on bytes that do not read back as `T`.
    pub fn take<T: SingleQueryResultExtractor>(&self, index: usize) -> (r: Result<T, ExtractError>)
        ensures
            index >= self.spec_results().len() ==> r is Err && r->Err_0 is IndexOutOfBounds,
            index < self.spec_results().len() ==> match self.spec_results()[index as int] {
                Err(m) => r is Err && r->Err_0 is Statement && (r->Err_0->Statement_0)@ == m@,
                Ok(bytes) => match r {
                    Ok(t) => T::from_bytes_post(bytes@, Ok(t)),
                    Err(e) => e is Decode && T::from_bytes_post(bytes@, Err(e->Decode_0)),
                },
            },
    {
        if index >= self.results.len() {
            return Err(ExtractError::IndexOutOfBounds);
        }
        match &self.results[index] {
            Err(m) => Err(ExtractError::Statement(m.clone())),
            Ok(bytes) => match T::from_bytes(bytes) {
                Ok(t) => Ok(t),
                Err(e) => Err(ExtractError::Decode(e)),
            },
        }
    }

    /// Reads the outcome at `index`, keeping a failed statement as data: only
    /// an out-of-bounds index or unreadable bytes fail the read itself.
    pub fn take_result<T: SingleQueryResultExtractor>(&self, index: usize) -> (r: Result<
        Result<T, String>,
        ExtractError,
    >)
        ensures
            index >= self.spec_results().len() ==> r is Err && r->Err_0 is IndexOutOfBounds,
            index < self.spec_results().len() ==> match self.spec_results()[index as int] {
                Err(m) => r is Ok && r->Ok_0 is Err && (r->Ok_0->Err_0)@ == m@,
                Ok(bytes) => match r {
                    Ok(inner) => inner is Ok && T::from_bytes_post(bytes@, Ok(inner->Ok_0)),
                    Err(e) => e is Decode && T::from_bytes_post(bytes@, Err(e->Decode_0)),
                },
            },
    {
        if index >= self.results.len() {
            return Err(ExtractError::IndexOutOfBounds);
        }
        match &self.results[index] {
            Err(m) => Ok(Err(m.clone())),
            Ok(bytes) => match T::from_bytes(bytes) {
                Ok(t) => Ok(Ok(t)),
                Err(e) => Err(ExtractError::Decode(e)),
            },
        }
    }

    /// Collapses all per-statement errors into one combined message, joined
    /// by semicolons, dropping the skipped-statement noise; `None` when no
    /// real error is held.
    pub fn find_user_error(&self) -> (r: Option<String>)
        ensures
            match r {
                None => user_error_msgs(self.spec_results()).len() == 0,
                Some(m) => user_error_msgs(self.spec_results()).len() > 0 && m@ == joined_msgs(
                    user_error_msgs(self.spec_results()),
                ),
            },
    {
        let needle = ("The query was not executed due to a failed transaction").as_bytes_vec();
        proof {
            assert(needle@ == encode_utf8(skip_note()));
        }
        let ghost all = self.results@;
        let mut msgs: Vec<String> = Vec::new();
        let mut i: usize = 0;
        proof {
            assert(all.take(0) =~= Seq::<Result<Vec<u8>, String>>::empty());
            assert(Seq::new(msgs@.len(), |l: int| msgs@[l]@) =~= user_error_msgs(all.take(0)));
        }
        while i < self.results.len()
            invariant
                i <= self.results@.len(),
                all == self.results@,
                needle@ == encode_utf8(skip_note()),
                Seq::new(msgs@.len(), |l: int| msgs@[l]@) == user_error_msgs(all.take(i as int)),
            decreases self.results@.len() - i,
        {
            let ghost old_msgs = msgs@;
            match &self.results[i] {
                Ok(_) => {
                },
                Err(m) => {
                    let mb = m.as_str().as_bytes_vec();
                    proof {
                        assert(mb@ == encode_utf8(m@));
                    }
                    if !contains_bytes(&mb, &needle) {
                        msgs.push(m.clone());
                    }
                },
            }
            proof {
                lemma_user_error_msgs_snoc(all.take(i as int), all[i as int]);
                assert(all.take(i + 1) =~= all.take(i as int) + seq![all[i as int]]);
                assert(Seq::new(msgs@.len(), |l: int| msgs@[l]@) =~= user_error_msgs(
                    all.take(i + 1),
                ));
            }
            i += 1;
        }
        proof {
            assert(all.take(all.len() as int) =~= all);
        }
        if msgs.len() == 0 {
            proof {
                assert(user_error_msgs(all).len() == 0);
            }
            return None;
        }
        let ghost views = Seq::new(msgs@.len(), |l: int| msgs@[l]@);
        let mut acc = msgs[0].clone();
        proof {
            assert(views.take(1) =~= seq![views[0]]);
            assert(joined_msgs(views.take(1)) == views[0]);
        }
        let mut j: usize = 1;
        while j < msgs.len()
            invariant
                1 <= j <= msgs@.len(),
                views == Seq::new(msgs@.len(), |l: int| msgs@[l]@),
                views.len() == msgs@.len(),
                acc@ == joined_msgs(views.take(j as int)),
            decreases msgs@.len() - j,
        {
            acc.append("; ");
            acc.append(msgs[j].as_str());
            proof {
                lemma_joined_msgs_snoc(views.take(j as int), views[j as int]);
                assert(views.take(j + 1) =~= views.take(j as int) + seq![views[j as int]]);
            }
            j += 1;
        }
        proof {
            assert(views.take(views.len() as int) =~= views);
            assert(views =~= user_error_msgs(all));
        }
        Some(acc)
    }
}

} // verus!
