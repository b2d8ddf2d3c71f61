pub mod error;
pub mod natural;
pub mod mgf;
pub mod oaep;
pub mod rsa;
