//! A streaming whitespace-token reader and three dynamic-programming solvers
//! that consume its tokens: a min-cost grid path, an optimal pin clustering,
//! and a max-cost grid path with route reconstruction.

pub mod errors;
pub mod max_route;
pub mod min_path;
pub mod parse;
pub mod pins;
pub mod tokens;
