//! Core of a Linux filesystem analyzer and defragmenter.
//!
//! The crate holds everything that can be decided without touching the
//! machine: the physical block map and its display form, the reading and
//! rewriting of classic FAT volumes, the scan and planning rules of the
//! filesystem backends, mount discovery, and the job and session state of
//! the service. Programs around it do the I/O and hand plain values in.

pub mod arith;
pub mod backend;
pub mod block_map;
pub mod classic_fat;
pub mod cli;
pub mod cluster_set;
pub mod contributors;
pub mod command_laws;
pub mod controller;
pub mod display_laws;
pub mod domain;
pub mod error;
pub mod ext4_writer;
pub mod extents;
pub mod fat_device;
pub mod fat_laws;
pub mod fat_placement;
pub mod fat_safety;
pub mod fat_table;
pub mod fat_writer;
pub mod file_laws;
pub mod file_report;
pub mod helper;
pub mod jobs;
pub mod kernel_laws;
pub mod labels;
pub mod linux;
pub mod map_laws;
pub mod map_view;
pub mod mounting;
pub mod mounts;
pub mod path;
pub mod path_laws;
pub mod plan;
pub mod plan_laws;
pub mod raw_report;
pub mod remote;
pub mod report_map;
pub mod scan;
pub mod scope_laws;
pub mod service;
pub mod service_laws;
pub mod sort;
pub mod text;
pub mod views;
pub mod volume_laws;
pub mod walk_laws;
pub mod window_laws;
pub mod writer_laws;
