use spiral_rs::engine::{
    automorph, deserialize_public, deserialize_query, evaluate, expand_query, poly_add, poly_sub,
    process_query, push_le_bytes, read_word_le, switch_and_encode,
};
use spiral_rs::params::Params;

fn tiny_params() -> Params {
    Params::new(2, vec![5, 7], 4, 3, 2, 2, 2, 2, 1, 1, 1, 1).expect("valid configuration")
}

fn tiny_ct() -> Vec<u64> {
    // 2 * poly_len = 8 coefficients, all reduced modulo 35
    vec![0, 1, 2, 16, 17, 20, 30, 34]
}

#[test]
fn word_codec_round_trips() {
    let mut buf: Vec<u8> = Vec::new();
    push_le_bytes(&mut buf, 0x0123_4567_89ab_cdef, 8);
    push_le_bytes(&mut buf, u64::MAX, 8);
    push_le_bytes(&mut buf, 0, 8);
    assert_eq!(buf.len(), 24);
    assert_eq!(read_word_le(&buf, 0), 0x0123_4567_89ab_cdef);
    assert_eq!(read_word_le(&buf, 8), u64::MAX);
    assert_eq!(read_word_le(&buf, 16), 0);
    assert_eq!(buf[0], 0xef); // little-endian: low byte first
}

#[test]
fn polynomial_sum_and_difference_are_pointwise() {
    let p = tiny_params();
    let a = tiny_ct();
    let b = vec![34, 34, 5, 7, 0, 1, 2, 3];
    let sum = poly_add(&p, &a, &b);
    let diff = poly_sub(&p, &a, &b);
    for j in 0..8 {
        assert_eq!(sum[j], (a[j] + b[j]) % 35);
        assert_eq!(diff[j], (a[j] + 35 - b[j]) % 35);
    }
}

#[test]
fn automorphism_permutes_slots_within_each_half() {
    let p = tiny_params();
    let ct = tiny_ct();
    let rot = automorph(&p, &ct, 3);
    // slot j reads slot (j * 3) mod 4 of its own half
    for half in [0usize, 4] {
        for i in 0..4 {
            assert_eq!(rot[half + i], ct[half + (i * 3) % 4]);
        }
    }
}

#[test]
fn query_deserialization_reduces_every_word() {
    let p = tiny_params();
    let mut data: Vec<u8> = Vec::new();
    let words: [u64; 8] = [0, 34, 35, 36, 70, u64::MAX, 1, 100];
    for w in words {
        data.extend_from_slice(&w.to_le_bytes());
    }
    let ct = deserialize_query(&p, &data);
    assert_eq!(ct.len(), 8);
    for j in 0..8 {
        assert_eq!(ct[j], words[j] % 35);
    }
}

#[test]
fn response_encoding_recenters_each_coefficient() {
    let p = tiny_params();
    let ct = tiny_ct();
    let out = switch_and_encode(&p, &vec![ct.clone()]);
    assert_eq!(out.len(), p.response_bytes());
    for j in 0..8 {
        // balanced representative modulo 35, re-reduced modulo 2^3
        let centered: i64 = if ct[j] >= 35 / 2 { ct[j] as i64 - 35 } else { ct[j] as i64 };
        let expected = centered.rem_euclid(8) as u8;
        assert_eq!(out[j], expected);
    }
}

#[test]
fn expansion_produces_the_derived_counts() {
    let p = tiny_params();
    let blob = vec![9u8; p.setup_bytes()];
    let pp = deserialize_public(&p, &blob).expect("blob of the derived length");
    assert!(deserialize_public(&p, &blob[1..].to_vec()).is_none());
    let query = deserialize_query(&p, &vec![1u8; p.query_bytes()]);
    let (first, gsw) = expand_query(&p, &pp, &query);
    assert_eq!(first.len(), p.num_first_dim());
    assert_eq!(gsw.len(), p.num_gsw());
    for ct in first.iter().chain(gsw.iter()) {
        assert_eq!(ct.len(), 8);
        assert!(ct.iter().all(|&c| c < 35));
    }
}

#[test]
fn evaluation_yields_one_ciphertext_per_instance() {
    let p = tiny_params();
    let blob = vec![2u8; p.setup_bytes()];
    let pp = deserialize_public(&p, &blob).expect("blob of the derived length");
    let query = deserialize_query(&p, &vec![7u8; p.query_bytes()]);
    let (first, gsw) = expand_query(&p, &pp, &query);
    let db: Vec<u64> = (0..p.db_words() as u64).collect();
    let result = evaluate(&p, &first, &gsw, &db);
    assert_eq!(result.len(), p.instances);
    for ct in &result {
        assert_eq!(ct.len(), 8);
        assert!(ct.iter().all(|&c| c < 35));
    }
    let response = process_query(&p, &pp, &query, &db);
    assert_eq!(response.len(), p.response_bytes());
}
