//! An embeddable HTTP request router with composable middleware.
//!
//! Patterns such as `/users/:id/posts` are stored in a routing tree of
//! path segments; dispatching a request path walks the tree, preferring
//! literal segments over wildcards, binds named parameters, and runs the
//! matched handler inside a chain of registered middleware.

pub mod context;
pub mod http;
pub mod laws;
pub mod paths;
pub mod route;
pub mod router;
pub mod tree;

pub use context::Context;
pub use http::is_not_found;
pub use http::spec_message;
pub use http::Failure;
pub use http::Request;
pub use http::Response;
pub use paths::trim_path;
pub use route::ParamError;
pub use route::Route;
pub use router::handle;
pub use router::Chain;
pub use router::Handler;
pub use router::Router;
pub use router::Tween;
