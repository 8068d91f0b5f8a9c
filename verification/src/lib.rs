pub mod isqrt;
pub mod node;
pub mod route;
pub mod tour;
