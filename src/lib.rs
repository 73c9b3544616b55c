//! Ingestion of barcode scans from HID scanners: a stream framer that turns
//! raw text chunks into trimmed records, the selection of matching devices,
//! exclusive ownership of device paths, and the per-device listening state.
pub mod framer;
pub mod device;
pub mod listener;
