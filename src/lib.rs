pub mod arith;
pub mod factor;
pub mod fermat;
pub mod modular;
pub mod primality;
pub mod search;
