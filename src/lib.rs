//! Arithmetic expressions over digits and `+ - * / **`, and the bit-string
//! encoding that an evolutionary search uses to produce them.

pub mod expr;
pub mod genetic;
