//! Ranked trigram code search.

pub mod agreement;
pub mod cli;
pub mod client;
pub mod codec;
pub mod context;
pub mod counts;
pub mod emit;
pub mod fdcache;
pub mod grams;
pub mod hits;
pub mod index;
pub mod invoke;
pub mod lines;
pub mod load;
pub mod matcher;
pub mod order;
pub mod paths;
pub mod patterns;
pub mod prefilter;
pub mod rank;
pub mod render;
pub mod replies;
pub mod serve;
pub mod served;
pub mod shape;
pub mod sidecar;
pub mod soundness;
pub mod text;
pub mod topk;
pub mod walk;
