//! The expression engine of a terminal calculator: it splits the typed text into
//! tokens, reorders them into postfix form by operator precedence, and evaluates
//! the postfix form into a term.

pub mod operation;
pub mod partition;
pub mod token;
pub mod postfix;
pub mod expression;
pub mod pipeline;
