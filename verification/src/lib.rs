//! Canonical object storage: encodings, trees, merges and catalog rules.
pub mod ancestry;
pub mod audit;
pub mod audited;
pub mod barrier;
pub mod bytes;
pub mod cache;
pub mod catalog;
pub mod cbor;
pub mod commit;
pub mod conflict;
pub mod contribution;
pub mod fields;
pub mod graph;
pub mod hash;
pub mod history;
pub mod idmap;
pub mod intro;
pub mod items;
pub mod ledger;
pub mod memory;
pub mod merge;
pub mod metrics;
pub mod moves;
pub mod names;
pub mod ns;
pub mod object;
pub mod objectstore;
pub mod order;
pub mod overlay;
pub mod paths;
pub mod protocol;
pub mod provenance;
pub mod publish;
pub mod refs;
pub mod renames;
pub mod rows;
pub mod scan;
pub mod schema;
pub mod snapshot;
pub mod store;
pub mod tables;
pub mod text;
pub mod textmap;
pub mod tree;
pub mod types;
