//! A sparse multivariate polynomial arithmetic engine over exchangeable
//! coefficient rings, with the numeric tower of its coefficient domains.
pub mod domains;
pub mod poly;
pub mod representations;
pub mod rings;
