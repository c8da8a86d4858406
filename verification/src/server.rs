//! The request boundary: admission checks, session registration and
//! lookup, and the dispatch of admitted queries into the engine.  Every
//! malformed input is rejected here, before any arithmetic runs.

use vstd::prelude::*;
use vstd::arithmetic::power2::pow2;
use crate::arith::recentered;
use crate::engine::{deserialize_public, deserialize_query, pp_of_blob, process_query,
    query_ct_spec, response_cts_spec, switched_at};
use crate::params::Params;
use crate::session::{canon_uuid, canonical_session_id, lemma_params_for_wf, new_session_id,
    SessionStore};

verus! {

/// Why a request was rejected before the engine ran.
#[derive(Clone, Copy, Debug, PartialEq, Eq, Structural)]
pub enum ServerError {
    /// The payload length differs from the derived serialized length.
    WrongLength,
    /// The leading bytes do not parse as a textual session identifier.
    InvalidSessionId,
    /// The session identifier is well-formed but not registered.
    UnknownSession,
}

/// Length of a textual session identifier, in bytes.
pub const SESSION_ID_BYTES: usize = 36;

/// The response document a setup call returns: the fresh identifier
/// wrapped as `{"id":"..."}`.
pub open spec fn setup_response_of(id: Seq<u8>) -> Seq<u8> {
    seq![123u8, 34u8, 105u8, 100u8, 34u8, 58u8, 34u8] + id + seq![34u8, 125u8]
}

/// Wraps a session identifier in its response document.
fn wrap_session_id(id: &Vec<u8>) -> (r: Vec<u8>)
    ensures
        r@ == setup_response_of(id@),
{
    let mut r: Vec<u8> = Vec::new();
    r.push(123);
    r.push(34);
    r.push(105);
    r.push(100);
    r.push(34);
    r.push(58);
    r.push(34);
    let ghost head = r@;
    let len = id.len();
    let mut i: usize = 0;
    while i < len
        invariant
            i <= len,
            len == id@.len(),
            r@ == head + id@.subrange(0, i as int),
            head == seq![123u8, 34u8, 105u8, 100u8, 34u8, 58u8, 34u8],
        decreases len - i,
    {
        let ghost prev = r@;
        r.push(id[i]);
        proof {
            assert(prev.push(id@[i as int]) =~= head + id@.subrange(0, i + 1));
        }
        i = i + 1;
    }
    r.push(34);
    r.push(125);
    proof {
        assert(id@.subrange(0, id@.len() as int) =~= id@);
        assert(r@ =~= setup_response_of(id@));
    }
    r
}

/// Copies `count` bytes starting at `from` into a fresh buffer.
fn copy_slice(src: &Vec<u8>, from: usize, count: usize) -> (r: Vec<u8>)
    requires
        from + count <= src@.len(),
    ensures
        r@ == src@.subrange(from as int, from + count),
{
    let mut r: Vec<u8> = Vec::new();
    let mut i: usize = 0;
    let src_len = src.len();
    proof {
        assert(src@.subrange(from as int, from as int) =~= Seq::<u8>::empty());
    }
    while i < count
        invariant
            i <= count,
            from + count <= src@.len(),
            src@.len() == src_len,
            r@ == src@.subrange(from as int, from + i),
        decreases count - i,
    {
        let ghost prev = r@;
        r.push(src[from + i]);
        proof {
            assert(prev.push(src@[from + i]) =~= src@.subrange(from as int, from + i + 1));
        }
        i = i + 1;
    }
    r
}

/// Registers a session: the key blob is structurally validated and, when
/// sound, stored under a freshly generated identifier; the identifier is
/// returned wrapped in its response document.  A blob of the wrong
/// length is rejected and the store is left untouched.
pub fn handle_setup(params: &Params, store: &mut SessionStore, body: &Vec<u8>) -> (r: Result<
    Vec<u8>,
    ServerError,
>)
    requires
        params.wf(),
        old(store).wf(),
    ensures
        final(store).wf(),
        r is Ok <==> body@.len() == params.setup_bytes_spec(),
        r is Err ==> r == Err::<Vec<u8>, ServerError>(ServerError::WrongLength)
            && *final(store) == *old(store),
        old(store).values_wf(*params) ==> final(store).values_wf(*params),
        r is Ok ==> exists|id: Seq<u8>|
            {
                &&& id.len() == SESSION_ID_BYTES
                &&& canon_uuid(id) == Some(id)
                &&& #[trigger] final(store).contains_id(id)
                &&& final(store).params_for(id).wf(*params)
                &&& pp_of_blob(*params, final(store).params_for(id), body@)
                &&& r.unwrap()@ == setup_response_of(id)
                &&& forall|other: Seq<u8>| other != id ==> (final(store).contains_id(other)
                    <==> old(store).contains_id(other))
                &&& forall|other: Seq<u8>| other != id && old(store).contains_id(other)
                    ==> final(store).params_for(other) == old(store).params_for(other)
            },
{
    match deserialize_public(params, body) {
        None => Err(ServerError::WrongLength),
        Some(pp) => {
            let id = new_session_id();
            let ghost id_view = id@;
            let response = wrap_session_id(&id);
            store.insert(id, pp);
            proof {
                assert(final(store).contains_id(id_view));
                assert(final(store).params_for(id_view) == pp);
            }
            Ok(response)
        },
    }
}

/// Serves one query.  The payload must be exactly a session identifier
/// followed by the derived query length; the identifier must parse and
/// must be registered.  Only then is the query deserialized, expanded,
/// evaluated and encoded; every rejection happens before any arithmetic.
pub fn handle_query(
    params: &Params,
    store: &SessionStore,
    db: &Vec<u64>,
    body: &Vec<u8>,
) -> (r: Result<Vec<u8>, ServerError>)
    requires
        params.wf(),
        store.wf(),
        store.values_wf(*params),
        db@.len() == params.db_words_spec(),
    ensures
        body@.len() != SESSION_ID_BYTES + params.query_bytes_spec() ==> r == Err::<
            Vec<u8>,
            ServerError,
        >(ServerError::WrongLength),
        body@.len() == SESSION_ID_BYTES + params.query_bytes_spec() && canon_uuid(
            body@.subrange(0, SESSION_ID_BYTES as int),
        ) is None ==> r == Err::<Vec<u8>, ServerError>(ServerError::InvalidSessionId),
        body@.len() == SESSION_ID_BYTES + params.query_bytes_spec() && canon_uuid(
            body@.subrange(0, SESSION_ID_BYTES as int),
        ) is Some && !store.contains_id(canon_uuid(body@.subrange(0, SESSION_ID_BYTES as int)).unwrap())
            ==> r == Err::<Vec<u8>, ServerError>(ServerError::UnknownSession),
        r is Ok <==> body@.len() == SESSION_ID_BYTES + params.query_bytes_spec() && canon_uuid(
            body@.subrange(0, SESSION_ID_BYTES as int),
        ) is Some && store.contains_id(canon_uuid(body@.subrange(0, SESSION_ID_BYTES as int)).unwrap()),
        r is Ok ==> r.unwrap()@.len() == params.response_bytes_spec(),
        r is Ok ==> ({
            let cid = canon_uuid(body@.subrange(0, SESSION_ID_BYTES as int)).unwrap();
            let query = query_ct_spec(
                *params,
                body@.subrange(
                    SESSION_ID_BYTES as int,
                    SESSION_ID_BYTES + params.query_bytes_spec(),
                ),
            );
            forall|p: int| 0 <= p < params.instances * params.ct_words_spec()
                ==> #[trigger] switched_at(r.unwrap()@, params.q2_bytes_spec(), p) == recentered(
                    response_cts_spec(*params, store.params_for(cid), query, db@)[p
                        / params.ct_words_spec()][p % params.ct_words_spec()],
                    params.modulus,
                    pow2(params.q2_bits as nat) as u64,
                )
        }),
{
    let expected = SESSION_ID_BYTES + params.query_bytes();
    if body.len() != expected {
        return Err(ServerError::WrongLength);
    }
    let id_bytes = copy_slice(body, 0, SESSION_ID_BYTES);
    let data = copy_slice(body, SESSION_ID_BYTES, expected - SESSION_ID_BYTES);
    match canonical_session_id(&id_bytes) {
        None => Err(ServerError::InvalidSessionId),
        Some(cid) => {
            match store.get(&cid) {
                None => Err(ServerError::UnknownSession),
                Some(pp) => {
                    proof {
                        lemma_params_for_wf(*store, cid@, *params);
                    }
                    let ct = deserialize_query(params, &data);
                    Ok(process_query(params, pp, &ct, db))
                },
            }
        },
    }
}

} // verus!
