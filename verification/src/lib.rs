pub mod word;
pub mod md5;
pub mod md5_attack;
pub mod utils;
pub mod consts;
pub mod search;
