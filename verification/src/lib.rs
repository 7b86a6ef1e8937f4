//! The derived-state engine of an adaptive database.

pub mod action;
pub mod answers;
pub mod applying;
pub mod assoc;
pub mod caches;
pub mod column;
pub mod columnar;
pub mod committing;
pub mod compiled;
pub mod constraints;
pub mod database;
pub mod derived;
pub mod direct;
pub mod double;
pub mod error;
pub mod experiment;
pub mod expr;
pub mod exprcodec;
pub mod histories;
pub mod index;
pub mod indexing;
pub mod infer;
pub mod journal;
pub mod layout;
pub mod managing;
pub mod matview;
pub mod names;
pub mod number;
pub mod observe;
pub mod opening;
pub mod optimizations;
pub mod plan;
pub mod planning;
pub mod policy;
pub mod proving;
pub mod queries;
pub mod reads;
pub mod record;
pub mod reopening;
pub mod rows;
pub mod schema;
pub mod shadow;
pub mod sharded;
pub mod sorting;
pub mod strmap;
pub mod structures;
pub mod text;
pub mod transaction;
pub mod trials;
pub mod unique;
pub mod value;
pub mod verify;
pub mod whole;
pub mod wire;
