//! A feed-forward multilayer perceptron over fixed-point arithmetic: layer
//! parameter storage, input mounting, the forward pass (affine transforms,
//! tanh, softmax), mean-squared-error cost against a one-hot target, and the
//! output layer's bias gradient. Values are reals scaled by `fixed::SCALE`
//! and stored in `i64`; every function states exactly what it computes.
pub mod fixed;
pub mod network;
pub mod rng;
pub mod vecops;
