//! Verified core of an AKAZE feature extractor and matcher: the integer
//! logic of binary descriptors, brute-force Hamming matching, the layout of
//! the nonlinear scale space, and the small decisions around them.
pub mod config;
pub mod contrast;
pub mod descriptor;
pub mod evolution;
pub mod matching;
pub mod ransac;
