pub mod arithmetic;
pub mod calculus;
pub mod question;
pub mod random;
pub mod utils;
