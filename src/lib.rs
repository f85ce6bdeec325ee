//! GHASH, the universal hash of Galois/Counter Mode, and the bcrypt password
//! hash, with their arithmetic and state machines verified.
pub mod bcrypt;
pub mod cryptoutil;
pub mod gf128;
pub mod ghash;
pub mod util;
