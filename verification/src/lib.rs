//! Core of a single-server private-information-retrieval service built on
//! ring-LWE homomorphic encryption.  The library holds the verified engine:
//! the modular-arithmetic kernel, the parameter model of the cryptographic
//! instance, homomorphic query expansion, database evaluation, response
//! modulus switching and encoding, and the session/boundary logic that
//! admits or rejects requests.  Network transport and file loading live
//! outside the library.

pub mod arith;
pub mod engine;
pub mod params;
pub mod server;
pub mod session;
