//! Small verified algorithms. The centrepiece is a multi-pattern matcher that
//! sums the weights of every pattern occurrence in a text, restricted to a
//! window of pattern indices.

pub mod algorithm;
pub mod template;
