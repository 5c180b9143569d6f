pub mod cipher;
pub mod dictionary;
pub mod matrix;
pub mod textee;
pub mod phrase;
pub mod session;
