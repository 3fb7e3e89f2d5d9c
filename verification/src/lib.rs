//! Conversion of time-series records between InfluxDB line protocol and CSV.
//!
//! The library works on bytes held in memory and does no input or output of
//! its own. Line protocol is decoded by the `influxdb_line_protocol` crate,
//! CSV is read and written by the `csv` crate, and timestamps are formatted
//! by `chrono`. What stands between them carries contracts that are proved:
//! the layout of a row, the roles of the columns of a CSV file, the text of
//! integers and timestamps, the order of the files of a directory, and where
//! a run stops when something fails.

pub mod influx;
