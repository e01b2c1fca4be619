[package]
name = "lower_ir"
version = "0.1.0"
edition = "2021"
publish = false

[dependencies]
slotmap = "=1.0.7"
polars-core = "=0.46.0"
polars-error = "=0.46.0"
polars-io = "=0.46.0"
polars-ops = "=0.46.0"
polars-plan = { version = "=0.46.0", features = ["csv", "dtype-date", "dtype-datetime", "dtype-duration", "dynamic_group_by", "ipc", "merge_sorted", "parquet", "temporal"] }
polars-schema = "=0.46.0"
polars-utils = "=0.46.0"
