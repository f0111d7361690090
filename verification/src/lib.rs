//! A small engine for daily cumulative-case time series: CSV ingestion into a
//! canonical table of (place name, most-recent-first series) rows, a composable
//! operator algebra over such tables (windowing, filtering, grouping, sorting,
//! thresholding, limiting), and a renderer that produces an aligned textual
//! report with optional day-over-day differencing.

pub mod data;
pub mod ingest;
pub mod laws;
pub mod ops;
pub mod render;
pub mod sort;
pub mod text;
