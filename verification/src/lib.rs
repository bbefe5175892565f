//! Subsampling an alignment file by barcode, in parallel.
//!
//! A run keeps, of the records of a block-compressed alignment file, those
//! whose tag holds one of the barcodes of an allow-list. The file is cut into
//! chunks at block starts, one worker filters each chunk, and what the workers
//! keep is joined in the order of the chunks.
//!
//! This crate holds what a run decides and computes, and proves it: where to
//! cut ([`bgzf`]), which barcodes are wanted ([`barcodes`]), what a tag reads
//! and how it is rewritten ([`record`], [`substitute`]), which records a
//! worker keeps ([`slice`]), how the outputs are joined ([`merge`]) and what
//! it all adds up to ([`pipeline`]). It reads and writes no file. Records are
//! those of `rust_htslib`; what is taken on trust about them is said in
//! [`record`].

pub mod barcodes;
pub mod bgzf;
pub mod error;
pub mod merge;
pub mod pipeline;
pub mod record;
pub mod slice;
pub mod substitute;

pub use crate::barcodes::load_barcodes;
pub use crate::barcodes::BarcodeSet;
pub use crate::bgzf::bgzf_noffsets;
pub use crate::bgzf::is_valid_bgzf_block;
pub use crate::error::RunError;
pub use crate::merge::merge_bams;
pub use crate::pipeline::subsample_bam;
pub use crate::record::get_record_tag;
pub use crate::record::substitute_text_in_tag;
pub use crate::slice::read_bam_slice;
pub use crate::slice::SliceArgs;
