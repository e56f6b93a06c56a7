//! Fraud scoring: request parsing, feature vectors and nearest-neighbour search.
pub mod agreement;
pub mod calendar;
pub mod catalog;
pub mod clock;
pub mod compact;
pub mod connection;
pub mod fraud_scoring;
pub mod http;
pub mod index;
pub mod key_values;
pub mod messages;
pub mod placement;
pub mod reference;
pub mod request;
pub mod scanning;
pub mod settings;
pub mod time;
pub mod tokens;
pub mod vector;
pub mod words;
pub mod written;
