use spiral_rs::params::Params;
use spiral_rs::server::{handle_query, handle_setup, ServerError};
use spiral_rs::session::SessionStore;

fn tiny_params() -> Params {
    Params::new(2, vec![5, 7], 4, 3, 2, 2, 2, 2, 1, 1, 1, 1).expect("valid configuration")
}

fn setup_blob(p: &Params, fill: u8) -> Vec<u8> {
    vec![fill; p.setup_bytes()]
}

fn db_for(p: &Params) -> Vec<u64> {
    (0..p.db_words() as u64).collect()
}

fn register(p: &Params, store: &mut SessionStore) -> Vec<u8> {
    let resp = handle_setup(p, store, &setup_blob(p, 1)).expect("setup accepted");
    // {"id":"<36 bytes>"}
    assert_eq!(resp.len(), 45);
    assert_eq!(&resp[..7], b"{\"id\":\"");
    assert_eq!(&resp[43..], b"\"}");
    resp[7..43].to_vec()
}

fn query_body(id: &[u8], p: &Params) -> Vec<u8> {
    let mut body = id.to_vec();
    body.extend(std::iter::repeat(3u8).take(p.query_bytes()));
    body
}

#[test]
fn setup_rejects_wrong_blob_length() {
    let p = tiny_params();
    let mut store = SessionStore::new();
    let short = vec![0u8; p.setup_bytes() - 1];
    assert_eq!(handle_setup(&p, &mut store, &short), Err(ServerError::WrongLength));
    let long = vec![0u8; p.setup_bytes() + 1];
    assert_eq!(handle_setup(&p, &mut store, &long), Err(ServerError::WrongLength));
}

#[test]
fn two_setup_calls_yield_distinct_identifiers() {
    let p = tiny_params();
    let mut store = SessionStore::new();
    let id1 = register(&p, &mut store);
    let id2 = register(&p, &mut store);
    assert_ne!(id1, id2);
}

#[test]
fn registered_session_serves_a_query() {
    let p = tiny_params();
    let mut store = SessionStore::new();
    let id = register(&p, &mut store);
    let db = db_for(&p);
    let body = query_body(&id, &p);
    let resp = handle_query(&p, &store, &db, &body).expect("query served");
    assert_eq!(resp.len(), p.response_bytes());
}

#[test]
fn identical_queries_give_identical_responses() {
    let p = tiny_params();
    let mut store = SessionStore::new();
    let id = register(&p, &mut store);
    let db = db_for(&p);
    let body = query_body(&id, &p);
    let r1 = handle_query(&p, &store, &db, &body).expect("query served");
    let r2 = handle_query(&p, &store, &db, &body).expect("query served");
    assert_eq!(r1, r2);
}

#[test]
fn session_identifier_is_canonicalized_before_lookup() {
    // the stored identifier is lower-case; an upper-case rendering of the
    // same identifier must reach the same session
    let p = tiny_params();
    let mut store = SessionStore::new();
    let id = register(&p, &mut store);
    let upper: Vec<u8> = id.iter().map(|b| b.to_ascii_uppercase()).collect();
    assert_ne!(id, upper);
    let db = db_for(&p);
    let body = query_body(&upper, &p);
    let resp = handle_query(&p, &store, &db, &body).expect("query served");
    assert_eq!(resp.len(), p.response_bytes());
}

#[test]
fn responses_depend_on_the_registered_key_material() {
    // two sessions registered with different key blobs must not serve the
    // same query identically: the stored material is the client's blob,
    // not anything fixed
    let p = tiny_params();
    let mut store = SessionStore::new();
    let id_a = {
        let resp = handle_setup(&p, &mut store, &setup_blob(&p, 1)).expect("setup accepted");
        resp[7..43].to_vec()
    };
    let id_b = {
        let resp = handle_setup(&p, &mut store, &setup_blob(&p, 5)).expect("setup accepted");
        resp[7..43].to_vec()
    };
    let db = db_for(&p);
    let r_a = handle_query(&p, &store, &db, &query_body(&id_a, &p)).expect("query served");
    let r_b = handle_query(&p, &store, &db, &query_body(&id_b, &p)).expect("query served");
    assert_ne!(r_a, r_b);
}

#[test]
fn unknown_session_is_rejected_as_not_found() {
    let p = tiny_params();
    let mut store = SessionStore::new();
    let _ = register(&p, &mut store);
    let db = db_for(&p);
    let other = b"00000000-0000-4000-8000-000000000000";
    let body = query_body(other, &p);
    assert_eq!(handle_query(&p, &store, &db, &body), Err(ServerError::UnknownSession));
}

#[test]
fn unparseable_session_identifier_is_rejected() {
    let p = tiny_params();
    let mut store = SessionStore::new();
    let _ = register(&p, &mut store);
    let db = db_for(&p);
    let body = query_body(&[b'z'; 36], &p);
    assert_eq!(handle_query(&p, &store, &db, &body), Err(ServerError::InvalidSessionId));
}

#[test]
fn query_payload_of_wrong_length_is_rejected() {
    let p = tiny_params();
    let mut store = SessionStore::new();
    let id = register(&p, &mut store);
    let db = db_for(&p);
    let good = query_body(&id, &p);

    let mut short = good.clone();
    short.pop();
    assert_eq!(handle_query(&p, &store, &db, &short), Err(ServerError::WrongLength));

    let mut long = good.clone();
    long.push(0);
    assert_eq!(handle_query(&p, &store, &db, &long), Err(ServerError::WrongLength));

    let empty: Vec<u8> = Vec::new();
    assert_eq!(handle_query(&p, &store, &db, &empty), Err(ServerError::WrongLength));
}
