//! A proxy between stream storage and stream processing: it routes Kafka messages, gives
//! every source its own virtual partitions, and filters fetched records before they are sent.

pub mod answer_laws;
pub mod assembly_laws;
pub mod batches;
pub mod codec;
pub mod criteria;
pub mod data;
pub mod downstream;
pub mod event_laws;
pub mod fetch_laws;
pub mod fetching;
pub mod filter;
pub mod filter_laws;
pub mod frames;
pub mod guards;
pub mod hashing;
pub mod identifier;
pub mod json;
pub mod kafka;
pub mod maps;
pub mod message_laws;
pub mod partitions;
pub mod passing;
pub mod pattern;
pub mod query_laws;
pub mod record_laws;
pub mod request_laws;
pub mod response_laws;
pub mod root;
pub mod root_laws;
pub mod routing;
pub mod routing_laws;
pub mod settings;
pub mod success_laws;
pub mod text;
pub mod traffic_laws;
pub mod upstream;
pub mod wire;
