mod bounds;
mod chars;
mod laws;
mod measure;
mod sanitize;
mod segment;
mod split;
mod truncate;

pub use bounds::count_cut;
pub use bounds::offset_cut;
pub use bounds::raw_offset_by_count;
pub use bounds::raw_offset_by_offset;
pub use bounds::trim_cut;
pub use bounds::trimmed_prefix;
pub use bounds::truncate_by_count;
pub use bounds::truncate_by_offset;
pub use chars::has_content;
pub use chars::is_ws;
pub use chars::ws_leading;
pub use laws::chunks_cover_clusters;
pub use laws::chunks_in_order;
pub use laws::cut_len_by_count;
pub use laws::cut_len_by_offset;
pub use laws::lemma_cut_gap_whitespace;
pub use laws::lemma_fits_identity;
pub use laws::lemma_no_trailing_whitespace;
pub use laws::lemma_split_all_chunks;
pub use laws::lemma_split_all_cluster_coverage;
pub use laws::lemma_split_all_in_order;
pub use laws::lemma_truncate_count_on_cluster_boundary;
pub use laws::lemma_truncate_idempotent;
pub use laws::lemma_truncate_offset_idempotent;
pub use laws::lemma_truncate_offset_on_cluster_boundary;
pub use laws::ws_ends_marked;
pub use measure::byte_len;
pub use measure::bytes_before;
pub use measure::chars_before;
pub use sanitize::sanitize_string_vec;
pub use sanitize::sanitized;
pub use segment::grapheme_clusters;
pub use segment::graphemes_of;
pub use segment::seg_wf;
pub use segment::suffix_stable;
pub use split::SplitInplaceToBoundary;
pub use split::SplitToBoundary;
pub use split::first_cluster_advance;
pub use split::is_sentinel;
pub use split::list_extend_by_count;
pub use split::list_extend_by_offset;
pub use split::list_split_all_by_count;
pub use split::list_split_by_count;
pub use split::list_split_by_offset;
pub use split::resume_chars;
pub use split::split_all_by_count;
pub use split::split_by_count;
pub use split::split_by_offset;
pub use truncate::TruncateToBoundary;
