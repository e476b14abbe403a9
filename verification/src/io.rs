//! The bytes of segment files, for block headers and for filter headers.

use vstd::prelude::*;

use crate::headers::{BlockHeader, FilterHeader};
use crate::segments::{decodes_to, file_bytes, load_header_segments, save_header_segments};

verus! {

/// Load headers from the contents of a file.
pub fn load_headers_from_file(content: &[u8]) -> (headers: Vec<BlockHeader>)
    ensures
        decodes_to(content@, headers@),
{
    load_header_segments(content)
}

/// Load filter headers from the contents of a file.
pub fn load_filter_headers_from_file(content: &[u8]) -> (headers: Vec<FilterHeader>)
    ensures
        decodes_to(content@, headers@),
{
    load_header_segments(content)
}

/// The file of a segment of headers, which leaves out those that are padding.
pub fn save_segment_to_disk(headers: &Vec<BlockHeader>) -> (bytes: Vec<u8>)
    ensures
        bytes@ == file_bytes(headers@),
{
    save_header_segments(headers)
}

/// The file of a segment of filter headers.
pub fn save_filter_segment_to_disk(filter_headers: &Vec<FilterHeader>) -> (bytes: Vec<u8>)
    ensures
        bytes@ == file_bytes(filter_headers@),
{
    save_header_segments(filter_headers)
}

} // verus!
