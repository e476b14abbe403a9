//! Block headers and filter headers, and the bytes that they are stored as.

use vstd::prelude::*;

use crate::encoding::{
    filled_hash, from_bits, le_u32, push_hash, push_u32, read_hash, read_u32, same_hash, to_bits,
    word_bits,
};
use crate::names::{filter_segment_path_text, header_segment_path_text};

verus! {

/// Hash that identifies a block.
#[derive(Clone, Copy, Debug, PartialEq, Eq, Hash)]
pub struct BlockHash {
    pub bytes: [u8; 32],
}

/// Block header.
#[derive(Clone, Copy, Debug, PartialEq, Eq, Hash)]
pub struct BlockHeader {
    pub version: i32,
    pub prev_blockhash: BlockHash,
    pub merkle_root: [u8; 32],
    pub time: u32,
    pub bits: u32,
    pub nonce: u32,
}

/// Compact filter header.
#[derive(Clone, Copy, Debug, PartialEq, Eq, Hash)]
pub struct FilterHeader {
    pub bytes: [u8; 32],
}

/// The consensus encoding of a block header.
pub open spec fn block_header_bytes(header: BlockHeader) -> Seq<u8> {
    le_u32(word_bits(header.version)) + header.prev_blockhash.bytes@ + header.merkle_root@ + le_u32(
        header.time,
    ) + le_u32(header.bits) + le_u32(header.nonce)
}

/// Whether a block header is padding, by the fields that tell padding from a valid block.
pub open spec fn is_sentinel(header: BlockHeader) -> bool {
    &&& header.version == i32::MAX
    &&& header.time == u32::MAX
    &&& header.nonce == u32::MAX
    &&& header.prev_blockhash.bytes == filled_hash(0xFF)
}

/// The header that pads segments.
pub open spec fn sentinel() -> BlockHeader {
    BlockHeader {
        version: i32::MAX,
        prev_blockhash: BlockHash { bytes: filled_hash(0xFF) },
        merkle_root: filled_hash(0xFF),
        time: u32::MAX,
        bits: 0xFFFF_FFFF,
        nonce: u32::MAX,
    }
}

/// Creates a sentinel header used for padding segments.
///
/// This header has invalid values that cannot be mistaken for valid blocks.
pub fn create_sentinel_header() -> (header: BlockHeader)
    ensures
        header == sentinel(),
        is_sentinel(header),
{
    BlockHeader {
        version: i32::MAX,
        prev_blockhash: BlockHash { bytes: [0xFF; 32] },
        merkle_root: [0xFF; 32],
        time: u32::MAX,
        bits: 0xFFFF_FFFF,
        nonce: u32::MAX,
    }
}

/// A header that is kept in segment files, in an encoding of fixed size.
pub trait Persistable: Sized + Copy {
    /// Number of bytes of an encoded header.
    spec fn width() -> nat;

    /// The bytes of a header.
    spec fn encoded(self) -> Seq<u8>;

    /// Whether a header only fills up a segment and is left out of its file.
    spec fn is_padding(self) -> bool;

    /// Path of a segment's file below the storage directory.
    spec fn disk_path(segment_id: u32) -> Seq<char>;

    /// Every header is encoded in `width` bytes.
    proof fn lemma_width(self)
        ensures
            Self::width() > 0,
            self.encoded().len() == Self::width(),
    ;

    /// Different headers are encoded differently.
    proof fn lemma_injective(self, other: Self)
        requires
            self.encoded() == other.encoded(),
        ensures
            self == other,
    ;

    /// Appends the header's bytes, unless it is padding, and returns how many were appended.
    fn persist(&self, writer: &mut Vec<u8>) -> (written: usize)
        ensures
            self.is_padding() ==> final(writer)@ == old(writer)@ && written == 0,
            !self.is_padding() ==> final(writer)@ == old(writer)@ + self.encoded() && written
                == Self::width(),
    ;

    /// Reads the header at `at`, or `None` where the bytes end before a whole header.
    fn consensus_decode(bytes: &[u8], at: usize) -> (header: Option<Self>)
        requires
            at <= bytes.len(),
        ensures
            match header {
                Some(h) => at + Self::width() <= bytes@.len() && h.encoded() == bytes@.subrange(
                    at as int,
                    at + Self::width(),
                ),
                None => at + Self::width() > bytes@.len(),
            },
    ;

    /// Number of bytes of an encoded header.
    fn encoded_len() -> (len: usize)
        ensures
            len == Self::width(),
    ;

    /// Path of a segment's file below the storage directory.
    fn relative_disk_path(segment_id: u32) -> (path: String)
        ensures
            path@ == Self::disk_path(segment_id),
    ;
}

/// What a header contributes to its segment's file.
pub open spec fn persisted<H: Persistable>(header: H) -> Seq<u8> {
    if header.is_padding() {
        Seq::empty()
    } else {
        header.encoded()
    }
}

impl Persistable for BlockHeader {
    open spec fn width() -> nat {
        80
    }

    open spec fn encoded(self) -> Seq<u8> {
        block_header_bytes(self)
    }

    open spec fn is_padding(self) -> bool {
        is_sentinel(self)
    }

    open spec fn disk_path(segment_id: u32) -> Seq<char> {
        crate::names::header_segment_path(segment_id)
    }

    proof fn lemma_width(self) {
    }

    proof fn lemma_injective(self, other: Self) {
        let a = self.encoded();
        let b = other.encoded();
        assert(le_u32(word_bits(self.version)) =~= a.subrange(0, 4));
        assert(le_u32(word_bits(other.version)) =~= b.subrange(0, 4));
        crate::encoding::lemma_le_u32_injective(word_bits(self.version), word_bits(other.version));
        crate::encoding::lemma_word_bits_injective(self.version, other.version);
        assert(self.prev_blockhash.bytes@ =~= a.subrange(4, 36));
        assert(other.prev_blockhash.bytes@ =~= b.subrange(4, 36));
        assert(self.prev_blockhash.bytes =~= other.prev_blockhash.bytes);
        assert(self.merkle_root@ =~= a.subrange(36, 68));
        assert(other.merkle_root@ =~= b.subrange(36, 68));
        assert(self.merkle_root =~= other.merkle_root);
        assert(le_u32(self.time) =~= a.subrange(68, 72));
        assert(le_u32(other.time) =~= b.subrange(68, 72));
        crate::encoding::lemma_le_u32_injective(self.time, other.time);
        assert(le_u32(self.bits) =~= a.subrange(72, 76));
        assert(le_u32(other.bits) =~= b.subrange(72, 76));
        crate::encoding::lemma_le_u32_injective(self.bits, other.bits);
        assert(le_u32(self.nonce) =~= a.subrange(76, 80));
        assert(le_u32(other.nonce) =~= b.subrange(76, 80));
        crate::encoding::lemma_le_u32_injective(self.nonce, other.nonce);
    }

    fn persist(&self, writer: &mut Vec<u8>) -> (written: usize) {
        let pattern: [u8; 32] = [0xFF; 32];
        if self.version == i32::MAX && self.time == u32::MAX && self.nonce == u32::MAX && same_hash(
            &self.prev_blockhash.bytes,
            &pattern,
        ) {
            return 0;
        }
        push_u32(writer, to_bits(self.version));
        push_hash(writer, &self.prev_blockhash.bytes);
        push_hash(writer, &self.merkle_root);
        push_u32(writer, self.time);
        push_u32(writer, self.bits);
        push_u32(writer, self.nonce);
        assert(writer@ =~= old(writer)@ + self.encoded());
        80
    }

    fn consensus_decode(bytes: &[u8], at: usize) -> (header: Option<Self>) {
        if bytes.len() - at < 80 {
            return None;
        }
        let header = BlockHeader {
            version: from_bits(read_u32(bytes, at)),
            prev_blockhash: BlockHash { bytes: read_hash(bytes, at + 4) },
            merkle_root: read_hash(bytes, at + 36),
            time: read_u32(bytes, at + 68),
            bits: read_u32(bytes, at + 72),
            nonce: read_u32(bytes, at + 76),
        };
        assert(header.encoded() =~= bytes@.subrange(at as int, at + 80));
        Some(header)
    }

    fn encoded_len() -> (len: usize) {
        80
    }

    fn relative_disk_path(segment_id: u32) -> (path: String) {
        header_segment_path_text(segment_id)
    }
}

impl Persistable for FilterHeader {
    open spec fn width() -> nat {
        32
    }

    open spec fn encoded(self) -> Seq<u8> {
        self.bytes@
    }

    open spec fn is_padding(self) -> bool {
        false
    }

    open spec fn disk_path(segment_id: u32) -> Seq<char> {
        crate::names::filter_segment_path(segment_id)
    }

    proof fn lemma_width(self) {
    }

    proof fn lemma_injective(self, other: Self) {
        assert(self.bytes =~= other.bytes);
    }

    fn persist(&self, writer: &mut Vec<u8>) -> (written: usize) {
        push_hash(writer, &self.bytes);
        32
    }

    fn consensus_decode(bytes: &[u8], at: usize) -> (header: Option<Self>) {
        if bytes.len() - at < 32 {
            return None;
        }
        Some(FilterHeader { bytes: read_hash(bytes, at) })
    }

    fn encoded_len() -> (len: usize) {
        32
    }

    fn relative_disk_path(segment_id: u32) -> (path: String) {
        filter_segment_path_text(segment_id)
    }
}

} // verus!
