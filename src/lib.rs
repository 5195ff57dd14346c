//! KZG polynomial commitments over BLS12-381, with a verified polynomial engine.
pub mod field;
pub mod group;
pub mod kzg;
pub mod poly;
