//! Verified core of an OHLC (open/high/low/close) market-data pipeline:
//! windowing of a time series into consecutive block pairs, batching of
//! windows, normalisation of a window pair around unity, and the
//! block-wise train/test split of the windows.

pub mod dataset;
pub mod draws;
pub mod normalize;
pub mod batch;
pub mod split;
