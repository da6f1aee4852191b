pub mod text;
pub mod tokens;
pub mod deep;
pub mod functions;
pub mod fences;
pub mod paths;
pub mod gitdiff;
pub mod rewrite;
pub mod review;
pub mod ci;
pub mod revisions;
