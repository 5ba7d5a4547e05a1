//! Genomic neighbour typing from streaming reads with MinHash sketches.
//!
//! The library holds the verified core: the sketch model and the shared-hash
//! kernel, the integrity and compatibility checks, the ranking of references,
//! consensus calling, the per-read sum of shared hashes and the per-feature
//! aggregation with its stability and preference score.
pub mod error;
pub mod genotype;
pub mod ranking;
pub mod sketch;
pub mod sketchy;
pub mod sssh;
pub mod stream;

pub use error::{CliError, SketchyError};
pub use genotype::{check_consensus_top, consensus_call, consensus_value, GenotypeTable, MISSING};
pub use ranking::top_references;
pub use sketch::{common_hashes, params_mismatch, HashedKmer, ParamField, Sketch, SketchFormat, SketchParams, HASH_MAX};
pub use sketchy::{BulkPrediction, PredictConfig, SketchInfo, Sketchy};
pub use sssh::{is_stable, order_by_sum, preference_score, rank_feature_values, PreferenceScore, ValueSum};
pub use stream::{shared_with_read, FeatureCall, ReadReport, StreamState};
