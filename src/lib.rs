//! Build an in-memory index over the objects of a store, look objects up by
//! key, and rank them against a query.

mod error;
mod indexer;
mod lookup;
mod names;
mod scored_lookup;

pub use error::{IdxError, IdxResult, IndexingError, IndexingResult, Message};
pub use indexer::{
    all_succeeded, arrival_keys, arrived, bucket, buckets_holding, fan_out, first_failure_is,
    has_key, index_of, is_first_failure, keyed, lemma_distinct_keys, lemma_failure_aborts,
    lemma_fan_out, lemma_index_complete, lemma_multi_failure_aborts, lemma_shared_key,
    multi_keyed, name_of, owned_texts, spread, string_texts, validate_listing, HashTableIndexer,
};
pub use lookup::{keys_of, names_under, texts, Lookup};
pub use names::{
    is_control_code, is_name_char, is_valid_name, lemma_name_round_trip, ObjectName, ObjectNameBuf,
};
pub use scored_lookup::{
    all_ranked, descending, first_unranked_is, hit_views, hits_of, is_ranking, rank_hits,
    lemma_ranking_deterministic, rank_names, rank_values, RankedHit,
};
