//! Requests and responses of the store's operations, as plain values.
use vstd::prelude::*;
use serde_json::Value;

verus! {

#[derive(Debug)]
pub struct HealthResponse {
    pub status: &'static str,
}

#[derive(Debug)]
pub struct CreateCollectionRequest {
    pub name: String,
    pub dimension: usize,
}

#[derive(Debug)]
pub struct CreateCollectionResponse {
    pub name: String,
    pub dimension: usize,
}

#[derive(Debug)]
pub struct UpsertRequest {
    pub vectors: Vec<VectorData>,
}

/// One vector of an upsert; components are single-precision bit patterns.
#[derive(Debug)]
pub struct VectorData {
    pub id: String,
    pub values: Vec<u32>,
    pub metadata: Option<Value>,
}

#[derive(Debug)]
pub struct UpsertResponse {
    pub upserted: usize,
}

/// A similarity query; components are single-precision bit patterns.
#[derive(Debug)]
pub struct QueryRequest {
    pub vector: Vec<u32>,
    pub top_k: usize,
}

#[derive(Debug)]
pub struct QueryMatch {
    pub id: String,
    /// Similarity as a single-precision bit pattern.
    pub score: u32,
    pub metadata: Option<Value>,
}

#[derive(Debug)]
pub struct QueryResponse {
    pub matches: Vec<QueryMatch>,
}

#[derive(Debug)]
pub struct CollectionSummary {
    pub name: String,
    pub dimension: usize,
    pub vectors: usize,
}

#[derive(Debug)]
pub struct ListCollectionsResponse {
    pub collections: Vec<CollectionSummary>,
}

#[derive(Debug)]
pub struct GetCollectionResponse {
    pub name: String,
    pub dimension: usize,
    pub vectors: usize,
}

#[derive(Debug)]
pub struct CollectionStatsResponse {
    pub name: String,
    pub dimension: usize,
    pub vectors: usize,
    pub index_type: String,
}

#[derive(Debug)]
pub struct DeleteVectorResponse {
    pub deleted: bool,
}

#[derive(Debug)]
pub struct DeleteCollectionResponse {
    pub deleted: bool,
}

} // verus!
