//! What stands in segment files, byte by byte, and what is read from them.

use vstd::prelude::*;

use crate::encoding::{
    law_bits_of_a_signed_number, law_bytes_make_up_the_number, word_at, word_bits,
};
use crate::headers::{
    create_sentinel_header, sentinel, BlockHeader, FilterHeader, Persistable,
};
use crate::io::{
    load_filter_headers_from_file, load_headers_from_file, save_filter_segment_to_disk,
    save_segment_to_disk,
};
use crate::name_laws::{is_numbered, law_segment_paths};
use crate::segments::{
    decodes_to, file_bytes, kept, lemma_file_of_kept, load_header_segments, save_header_segments,
    SegmentCache, SegmentFile,
};

verus! {

/// Whether the 80 bytes at a place are those of a block header: version, previous block, merkle
/// root, time, difficulty and nonce.
pub open spec fn is_block_header_at(bytes: Seq<u8>, at: int, header: BlockHeader) -> bool {
    &&& 0 <= at && at + 80 <= bytes.len()
    &&& (word_at(bytes, at) - header.version) % 0x1_0000_0000 == 0
    &&& bytes.subrange(at + 4, at + 36) == header.prev_blockhash.bytes@
    &&& bytes.subrange(at + 36, at + 68) == header.merkle_root@
    &&& word_at(bytes, at + 68) == header.time
    &&& word_at(bytes, at + 72) == header.bits
    &&& word_at(bytes, at + 76) == header.nonce
}

/// Whether a block header only fills up a segment: its version, time and nonce are the greatest
/// ones, and all bytes of the previous block's hash are 255.
pub open spec fn fills_up(header: BlockHeader) -> bool {
    &&& header.version == 0x7FFF_FFFF
    &&& header.time == 0xFFFF_FFFF
    &&& header.nonce == 0xFFFF_FFFF
    &&& forall|i: int| 0 <= i < 32 ==> #[trigger] header.prev_blockhash.bytes@[i] == 255
}

/// The block headers that do not fill up.
pub open spec fn valid_headers(headers: Seq<BlockHeader>) -> Seq<BlockHeader> {
    headers.filter(|h: BlockHeader| !fills_up(h))
}

/// Whether bytes are those of filter headers, 32 of them for each.
pub open spec fn are_filter_headers(bytes: Seq<u8>, headers: Seq<FilterHeader>) -> bool {
    &&& bytes.len() == 32 * headers.len()
    &&& forall|i: int, j: int|
        0 <= i < headers.len() && 0 <= j < 32 ==> #[trigger] headers[i].bytes@[j] == bytes[32 * i
            + j]
}

/// Whether bytes are those of block headers, 80 of them for each.
pub open spec fn are_block_headers(bytes: Seq<u8>, headers: Seq<BlockHeader>) -> bool {
    &&& bytes.len() == 80 * headers.len()
    &&& forall|i: int|
        0 <= i < headers.len() ==> is_block_header_at(bytes, 80 * i, #[trigger] headers[i])
}

proof fn lemma_header_bytes(header: BlockHeader)
    ensures
        header.encoded().len() == 80,
        is_block_header_at(header.encoded(), 0, header),
{
    let e = header.encoded();
    let version = word_bits(header.version);
    law_bits_of_a_signed_number(header.version, version);
    law_bytes_make_up_the_number(version, 0);
    law_bytes_make_up_the_number(header.time, 0);
    law_bytes_make_up_the_number(header.bits, 0);
    law_bytes_make_up_the_number(header.nonce, 0);
    assert(e.subrange(4, 36) =~= header.prev_blockhash.bytes@);
    assert(e.subrange(36, 68) =~= header.merkle_root@);
    assert(word_at(e, 0) == version);
}

proof fn lemma_header_in_bytes(bytes: Seq<u8>, at: int, header: BlockHeader)
    requires
        0 <= at && at + 80 <= bytes.len(),
        header.encoded() == bytes.subrange(at, at + 80),
    ensures
        is_block_header_at(bytes, at, header),
{
    lemma_header_bytes(header);
    lemma_header_moved(header.encoded(), bytes, at, header);
}

proof fn lemma_header_moved(encoded: Seq<u8>, bytes: Seq<u8>, at: int, header: BlockHeader)
    requires
        0 <= at && at + 80 <= bytes.len(),
        encoded == bytes.subrange(at, at + 80),
        is_block_header_at(encoded, 0, header),
    ensures
        is_block_header_at(bytes, at, header),
{
    assert(forall|i: int| 0 <= i < 80 ==> #[trigger] encoded[i] == bytes[at + i]);
    assert(encoded.subrange(4, 36) =~= bytes.subrange(at + 4, at + 36));
    assert(encoded.subrange(36, 68) =~= bytes.subrange(at + 36, at + 68));
}

proof fn lemma_fills_up(header: BlockHeader)
    ensures
        fills_up(header) <==> header.is_padding(),
        fills_up(sentinel()),
{
    let pattern = sentinel().prev_blockhash.bytes;
    assert(forall|i: int| 0 <= i < 32 ==> #[trigger] pattern@[i] == 255);
    if fills_up(header) {
        assert(header.prev_blockhash.bytes =~= pattern);
    }
}

proof fn lemma_valid_headers(headers: Seq<BlockHeader>)
    ensures
        kept(headers) == valid_headers(headers),
    decreases headers.len(),
{
    reveal(Seq::filter);
    if headers.len() > 0 {
        lemma_valid_headers(headers.drop_last());
        lemma_fills_up(headers.last());
    }
}

pub proof fn lemma_block_file(headers: Seq<BlockHeader>)
    ensures
        are_block_headers(file_bytes(headers), valid_headers(headers)),
{
    lemma_file_of_kept(headers);
    lemma_valid_headers(headers);
    let bytes = file_bytes(headers);
    let valid = valid_headers(headers);
    assert forall|i: int| 0 <= i < valid.len() implies is_block_header_at(
        bytes,
        80 * i,
        #[trigger] valid[i],
    ) by {
        lemma_header_in_bytes(bytes, 80 * i, valid[i]);
    }
}

pub proof fn lemma_filter_file(headers: Seq<FilterHeader>)
    ensures
        are_filter_headers(file_bytes(headers), headers),
    decreases headers.len(),
{
    if headers.len() > 0 {
        let front = headers.drop_last();
        lemma_filter_file(front);
        let bytes = file_bytes(headers);
        assert forall|i: int, j: int|
            0 <= i < headers.len() && 0 <= j < 32 implies #[trigger] headers[i].bytes@[j]
            == bytes[32 * i + j] by {
            if i < front.len() {
                assert(front[i].bytes@[j] == file_bytes(front)[32 * i + j]);
            }
        }
    }
}

proof fn lemma_filter_headers_read(bytes: Seq<u8>, headers: Seq<FilterHeader>)
    requires
        decodes_to(bytes, headers),
    ensures
        headers.len() == bytes.len() / 32,
        are_filter_headers(bytes.take(32 * headers.len() as int), headers),
{
    let whole = bytes.take(32 * headers.len() as int);
    assert forall|i: int, j: int| 0 <= i < headers.len() && 0 <= j < 32 implies #[trigger]
        headers[i].bytes@[j] == whole[32 * i + j] by {
        assert(headers[i].encoded() == bytes.subrange(i * 32, i * 32 + 32));
        assert(bytes.subrange(i * 32, i * 32 + 32)[j] == bytes[32 * i + j]);
    }
}

proof fn lemma_block_headers_read(bytes: Seq<u8>, headers: Seq<BlockHeader>)
    requires
        decodes_to(bytes, headers),
    ensures
        headers.len() == bytes.len() / 80,
        are_block_headers(bytes.take(80 * headers.len() as int), headers),
{
    let whole = bytes.take(80 * headers.len() as int);
    assert forall|i: int| 0 <= i < headers.len() implies is_block_header_at(
        whole,
        80 * i,
        #[trigger] headers[i],
    ) by {
        assert(headers[i].encoded() == bytes.subrange(i * 80, i * 80 + 80));
        assert(bytes.subrange(i * 80, i * 80 + 80) =~= whole.subrange(80 * i, 80 * i + 80));
        lemma_header_in_bytes(whole, 80 * i, headers[i]);
    }
}

/// A filter header is appended as its 32 bytes, and read from 32 bytes if so many are left.
pub proof fn law_filter_header_encoding(
    header: &FilterHeader,
    writer: &mut Vec<u8>,
    written: usize,
    bytes: &[u8],
    at: usize,
    read: Option<FilterHeader>,
)
    ensures
        call_ensures(<FilterHeader as Persistable>::persist, (header, writer), written) ==> written
            == 32 && final(writer)@ == old(writer)@ + header.bytes@,
        call_ensures(<FilterHeader as Persistable>::consensus_decode, (bytes, at), read) ==> (
        read is Some <==> at + 32 <= bytes@.len()) && (read matches Some(h) ==> h.bytes@
            == bytes@.subrange(at as int, at + 32)),
{
}

/// A block header is appended as its 80 bytes, unless it fills up a segment, and read from 80 bytes
/// if so many are left.
pub proof fn law_block_header_encoding(
    header: &BlockHeader,
    writer: &mut Vec<u8>,
    written: usize,
    bytes: &[u8],
    at: usize,
    read: Option<BlockHeader>,
)
    ensures
        call_ensures(<BlockHeader as Persistable>::persist, (header, writer), written)
            ==> if fills_up(*header) {
            written == 0 && final(writer)@ == old(writer)@
        } else {
            &&& written == 80
            &&& final(writer)@.len() == old(writer)@.len() + 80
            &&& final(writer)@.take(old(writer)@.len() as int) == old(writer)@
            &&& is_block_header_at(final(writer)@, old(writer)@.len() as int, *header)
        },
        call_ensures(<BlockHeader as Persistable>::consensus_decode, (bytes, at), read) ==> (
        read is Some <==> at + 80 <= bytes@.len()) && (read matches Some(h)
            ==> is_block_header_at(bytes@, at as int, h)),
{
    lemma_fills_up(*header);
    if call_ensures(<BlockHeader as Persistable>::persist, (header, writer), written)
        && !fills_up(*header) {
        let n = old(writer)@.len() as int;
        lemma_header_bytes(*header);
        assert(final(writer)@.take(n) =~= old(writer)@);
        assert(final(writer)@.subrange(n, n + 80) =~= header.encoded());
        lemma_header_in_bytes(final(writer)@, n, *header);
    }
    if call_ensures(<BlockHeader as Persistable>::consensus_decode, (bytes, at), read) {
        if let Some(h) = read {
            lemma_header_in_bytes(bytes@, at as int, h);
        }
    }
}

/// Two headers of which the same 80 bytes are the encoding are the same header.
pub proof fn law_block_header_is_its_bytes(bytes: Seq<u8>, at: int, a: BlockHeader, b: BlockHeader)
    requires
        is_block_header_at(bytes, at, a),
        is_block_header_at(bytes, at, b),
    ensures
        a == b,
{
    assert(a.prev_blockhash.bytes =~= b.prev_blockhash.bytes);
    assert(a.merkle_root =~= b.merkle_root);
}

/// The header that pads segments has the greatest value in every field.
pub proof fn law_sentinel(header: BlockHeader, i: int)
    requires
        call_ensures(create_sentinel_header, (), header),
        0 <= i < 32,
    ensures
        fills_up(header),
        header.bits == 0xFFFF_FFFF,
        header.merkle_root@[i] == 255,
{
    lemma_fills_up(header);
}

/// The file of a segment of filter headers holds all of them, in order and without a gap.
pub proof fn law_filter_headers_in_file(
    headers: &Vec<FilterHeader>,
    bytes: Vec<u8>,
    cache: &SegmentCache<FilterHeader>,
    file: SegmentFile,
    evicted: Option<SegmentFile>,
)
    ensures
        call_ensures(save_header_segments::<FilterHeader>, (headers,), bytes)
            ==> are_filter_headers(bytes@, headers@),
        call_ensures(save_filter_segment_to_disk, (headers,), bytes) ==> are_filter_headers(
            bytes@,
            headers@,
        ),
        call_ensures(SegmentCache::<FilterHeader>::save, (cache,), file) ==> are_filter_headers(
            file.bytes@,
            cache.headers@,
        ) && is_numbered(
            file.path@,
            "filters/filter_segment_"@,
            cache.segment_id as int,
            ".dat"@,
        ),
        call_ensures(SegmentCache::<FilterHeader>::evict, (cache,), evicted) ==> (evicted is None
            <==> cache.state is Clean) && (evicted matches Some(f) ==> are_filter_headers(
            f.bytes@,
            cache.headers@,
        ) && is_numbered(f.path@, "filters/filter_segment_"@, cache.segment_id as int, ".dat"@)),
{
    lemma_filter_file(headers@);
    lemma_filter_file(cache.headers@);
    law_segment_paths(cache.segment_id, file.path, file.path, file.path);
}

/// The file of a segment of block headers holds all but those that fill up, in order and without a
/// gap.
pub proof fn law_block_headers_in_file(
    headers: &Vec<BlockHeader>,
    bytes: Vec<u8>,
    cache: &SegmentCache<BlockHeader>,
    file: SegmentFile,
    evicted: Option<SegmentFile>,
)
    ensures
        call_ensures(save_header_segments::<BlockHeader>, (headers,), bytes) ==> are_block_headers(
            bytes@,
            valid_headers(headers@),
        ),
        call_ensures(save_segment_to_disk, (headers,), bytes) ==> are_block_headers(
            bytes@,
            valid_headers(headers@),
        ),
        call_ensures(SegmentCache::<BlockHeader>::save, (cache,), file) ==> are_block_headers(
            file.bytes@,
            valid_headers(cache.headers@),
        ) && is_numbered(file.path@, "headers/segment_"@, cache.segment_id as int, ".dat"@),
        call_ensures(SegmentCache::<BlockHeader>::evict, (cache,), evicted) ==> (evicted is None
            <==> cache.state is Clean) && (evicted matches Some(f) ==> are_block_headers(
            f.bytes@,
            valid_headers(cache.headers@),
        ) && is_numbered(f.path@, "headers/segment_"@, cache.segment_id as int, ".dat"@)),
{
    lemma_block_file(headers@);
    lemma_block_file(cache.headers@);
    law_segment_paths(cache.segment_id, file.path, file.path, file.path);
}

/// All whole filter headers of a file are read, in order. What is left at the end is no header.
pub proof fn law_filter_headers_from_file(bytes: &[u8], headers: Vec<FilterHeader>)
    requires
        call_ensures(load_header_segments::<FilterHeader>, (bytes,), headers) || call_ensures(
            load_filter_headers_from_file,
            (bytes,),
            headers,
        ),
    ensures
        headers@.len() == bytes@.len() / 32,
        are_filter_headers(bytes@.take(32 * headers@.len() as int), headers@),
{
    lemma_filter_headers_read(bytes@, headers@);
}

/// All whole block headers of a file are read, in order. What is left at the end is no header.
pub proof fn law_block_headers_from_file(bytes: &[u8], headers: Vec<BlockHeader>)
    requires
        call_ensures(load_header_segments::<BlockHeader>, (bytes,), headers) || call_ensures(
            load_headers_from_file,
            (bytes,),
            headers,
        ),
    ensures
        headers@.len() == bytes@.len() / 80,
        are_block_headers(bytes@.take(80 * headers@.len() as int), headers@),
{
    lemma_block_headers_read(bytes@, headers@);
}

/// The bytes of a file, or none where there is no file.
pub open spec fn bytes_of(file: Option<&[u8]>) -> Seq<u8> {
    match file {
        Some(bytes) => bytes@,
        None => Seq::empty(),
    }
}

/// A filter header segment is loaded with all filter headers of its file. It is clean, all of them
/// are valid, and both its times are the time of loading.
pub proof fn law_filter_segment_loaded(
    segment_id: u32,
    file: Option<&[u8]>,
    now: u64,
    cache: SegmentCache<FilterHeader>,
)
    requires
        call_ensures(
            SegmentCache::<FilterHeader>::load_filter_header_cache,
            (segment_id, file, now),
            cache,
        ),
    ensures
        cache.headers@.len() == bytes_of(file).len() / 32,
        are_filter_headers(bytes_of(file).take(32 * cache.headers@.len() as int), cache.headers@),
        cache.valid_count == cache.headers@.len(),
        cache.segment_id == segment_id,
        cache.state is Clean,
        cache.last_saved == now,
        cache.last_accessed == now,
{
    if let Some(bytes) = file {
        lemma_filter_headers_read(bytes@, cache.headers@);
    }
}

/// A block header segment is loaded with all block headers of its file, and filled up to 50,000
/// headers. It is clean, the headers of the file are the valid ones, and both its times are the
/// time of loading.
pub proof fn law_block_segment_loaded(
    segment_id: u32,
    file: Option<&[u8]>,
    now: u64,
    cache: SegmentCache<BlockHeader>,
    i: int,
)
    requires
        call_ensures(
            SegmentCache::<BlockHeader>::load_block_header_cache,
            (segment_id, file, now),
            cache,
        ),
    ensures
        cache.valid_count == bytes_of(file).len() / 80,
        cache.headers@.len() == if cache.valid_count < 50_000 {
            50_000
        } else {
            cache.valid_count as int
        },
        0 <= i < cache.valid_count ==> is_block_header_at(
            bytes_of(file),
            80 * i,
            cache.headers@[i],
        ),
        cache.valid_count <= i < cache.headers@.len() ==> fills_up(cache.headers@[i]),
        cache.segment_id == segment_id,
        cache.state is Clean,
        cache.last_saved == now,
        cache.last_accessed == now,
{
    let loaded = cache.headers@.take(cache.valid_count as int);
    lemma_fills_up(sentinel());
    if let Some(bytes) = file {
        lemma_block_headers_read(bytes@, loaded);
        if 0 <= i < cache.valid_count {
            let whole = bytes@.take(80 * loaded.len() as int);
            assert(is_block_header_at(whole, 80 * i, loaded[i]));
            assert(whole.subrange(80 * i + 4, 80 * i + 36) =~= bytes@.subrange(
                80 * i + 4,
                80 * i + 36,
            ));
            assert(whole.subrange(80 * i + 36, 80 * i + 68) =~= bytes@.subrange(
                80 * i + 36,
                80 * i + 68,
            ));
        }
    }
}

/// A new segment is clean and holds what it was given, and a copy holds the same.
pub proof fn law_new_segment_and_copy<H: Persistable>(
    segment_id: u32,
    headers: Vec<H>,
    valid_count: usize,
    now: u64,
    cache: SegmentCache<H>,
    copied: &SegmentCache<H>,
    copy: SegmentCache<H>,
)
    ensures
        call_ensures(SegmentCache::<H>::new, (segment_id, headers, valid_count, now), cache) ==> {
            &&& cache.segment_id == segment_id
            &&& cache.headers@ == headers@
            &&& cache.valid_count == valid_count
            &&& cache.state is Clean
            &&& cache.last_saved == now
            &&& cache.last_accessed == now
        },
        call_ensures(<SegmentCache<H> as Clone>::clone, (copied,), copy) ==> {
            &&& copy.segment_id == copied.segment_id
            &&& copy.headers@ == copied.headers@
            &&& copy.valid_count == copied.valid_count
            &&& copy.state == copied.state
            &&& copy.last_saved == copied.last_saved
            &&& copy.last_accessed == copied.last_accessed
        },
{
}

/// Each kind of header has its own files, named by the number of the segment, and its own size.
pub proof fn law_kinds_of_headers(
    id: u32,
    block_path: String,
    filter_path: String,
    block_len: usize,
    filter_len: usize,
)
    ensures
        call_ensures(<BlockHeader as Persistable>::relative_disk_path, (id,), block_path)
            ==> is_numbered(block_path@, "headers/segment_"@, id as int, ".dat"@),
        call_ensures(<FilterHeader as Persistable>::relative_disk_path, (id,), filter_path)
            ==> is_numbered(filter_path@, "filters/filter_segment_"@, id as int, ".dat"@),
        call_ensures(<BlockHeader as Persistable>::encoded_len, (), block_len) ==> block_len == 80,
        call_ensures(<FilterHeader as Persistable>::encoded_len, (), filter_len) ==> filter_len
            == 32,
{
    law_segment_paths(id, block_path, filter_path, filter_path);
}

} // verus!
