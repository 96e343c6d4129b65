//! Log analysis core: line framing and parsing, aggregation of request
//! statistics, and the summary report (percentiles and top entries).
//!
//! Latencies are carried as `f64` bit patterns (`f64::to_bits`); the decoders
//! that need floating point or a JSON deserializer run outside this crate and
//! hand their results to [`parse_log_line`].

pub mod analyzer;
pub mod counts;
pub mod parser;
mod sorting;
pub mod text;

pub use analyzer::{build_report, log_lines, AggregatedStats, AnalysisReport};
pub use counts::CountTable;
pub use parser::{
    json_text, latency_token, parse_common_log_line, parse_log_line, record_from_json,
    JsonLogLine, LogFormat, ParsedLogRecord,
};
