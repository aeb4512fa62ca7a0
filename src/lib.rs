//! Default and named arguments for functions, by generated call dispatch.
//!
//! A function is declared with some parameters carrying a default
//! expression. The library checks that declaration and enumerates every call
//! shape that a caller may use: the required arguments and a prefix of the
//! optional ones by position, and any later optional ones by name, in any
//! order. For each shape it gives the exact argument list that is forwarded to
//! the renamed function, with every omitted slot taking its default.

pub mod dispatch;
pub mod signature;
pub mod call;
