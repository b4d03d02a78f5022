//! Building blocks of an IVF-PQ index build: partition assignment
//! (`assign`), the two shuffle strategies that regroup rows by partition id
//! (`group` in memory, `shuffle` and `shuffler` staged in buckets), the record
//! format of staged rows (`codec`), the memory budget setting (`config`), the
//! bounded transform stage (`parallel`) and the build itself (`dataset`,
//! `orchestrate`).

pub mod assign;
pub mod codec;
pub mod config;
pub mod dataset;
pub mod group;
pub mod orchestrate;
pub mod parallel;
pub mod row;
pub mod shuffle;
pub mod shuffler;
