//! An incremental content-build core: a document store keyed by source
//! location, a set of memoized derivation queries over it, and read-only
//! aggregation queries (recency ranking, grouping by label, feed assembly).

pub mod aggregate;
pub mod assoc;
pub mod doc;
pub mod error;
pub mod feed;
pub mod paths;
pub mod render;
pub mod store;
pub mod text;

pub use aggregate::distinct_filenames;
pub use aggregate::docs_seq;
pub use aggregate::group_of;
pub use aggregate::lemma_docs_seq_distinct_filenames;
pub use aggregate::lemma_groups_sum;
pub use aggregate::lemma_rank_sorted_unique;
pub use aggregate::ranked_ge;
pub use aggregate::sorted_by_rank;
pub use doc::FrontMatter;
pub use doc::Post;
pub use doc::Timestamp;
pub use error::Error;
pub use feed::FeedEntry;
pub use feed::feed_spec;
pub use paths::PublicPath;
pub use paths::SourcePath;
pub use render::Blurb;
pub use render::Css;
pub use render::Markdown;
pub use store::Artifact;
pub use store::Derivation;
pub use store::PostsDatabase;
pub use store::lemma_derive_idempotent;
pub use store::lemma_derive_missing;
pub use store::lemma_set_invalidates;
pub use store::lemma_set_then_get;
