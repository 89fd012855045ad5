//! Search for the queries of an index that are nearest to a query.
//!
//! An index is spread over shards. Each maps ngrams to buckets of records of the
//! queries that hold the ngram. A search looks up the ngrams of a query
//! ([`qpick`]), adds up what the records say of each query ([`matching`]), and
//! measures the nearest of them closer, by the words that differ ([`search`]) and
//! by word vectors ([`cosine`]). [`find`] and [`distances`] hold the calls that a
//! user makes.
//!
//! Some modules hold nothing but laws. [`records`] ties what is found to the
//! bytes of an index, and [`outcomes`] ties what is given to what is found. [`measure`]
//! says what the measures are in every arithmetic, [`bounds`] what bounds them, and
//! [`scale`] what they are in exact arithmetic. [`agreement`], [`calls`], [`unweighted`]
//! and [`monotone`] speak of two searches for the same, of searches without tf-idf, and
//! of what grows with what.

pub mod agreement;
pub mod bounds;
pub mod calls;
pub mod cosine;
pub mod distances;
pub mod find;
pub mod hooks;
pub mod index;
mod iterate;
pub mod matching;
pub mod measure;
pub mod monotone;
pub mod outcomes;
pub mod qpick;
pub mod ranking;
pub mod records;
pub mod results;
pub mod scale;
pub mod score;
pub mod search;
pub mod shard;
pub mod tables;
pub mod unweighted;
pub mod words;

pub use crate::find::FETCH_MIN;
pub use crate::qpick::Qpick;
pub use crate::results::{
    DistResults, Distance, DistanceResult, KeywordMatchResult, SearchResult, SearchResults,
};
pub use crate::score::DIST_THRESH;
pub use crate::shard::{SearchShardResult, Shard};
