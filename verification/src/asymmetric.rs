//! Public-key cryptography: the RSA key generation and cipher engine.

pub mod fermat;
pub mod number_theory;
pub mod primality;
pub mod rsa;
