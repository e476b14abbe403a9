//! Segments of headers: their files, and the cache that keeps them in memory.

use vstd::prelude::*;

use crate::headers::{
    create_sentinel_header, persisted, sentinel, BlockHeader, FilterHeader, Persistable,
};
use crate::HEADERS_PER_SEGMENT;

verus! {

/// State of a segment in memory.
#[derive(Clone, Copy, Debug, PartialEq, Eq, Structural)]
pub enum SegmentState {
    /// No changes, up to date on disk.
    Clean,
    /// Has changes, needs saving.
    Dirty,
    /// Currently being saved in background.
    Saving,
}

/// In-memory cache for a segment of headers.
///
/// Times are ticks of a clock that the caller reads.
#[derive(Debug)]
pub struct SegmentCache<H: Persistable> {
    pub segment_id: u32,
    pub headers: Vec<H>,
    /// Number of actual valid headers, without padding.
    pub valid_count: usize,
    pub state: SegmentState,
    pub last_saved: u64,
    pub last_accessed: u64,
}

/// What a [`SegmentCache`] holds.
#[verifier::ext_equal]
pub struct SegmentModel<H> {
    pub segment_id: u32,
    pub headers: Seq<H>,
    pub valid_count: usize,
    pub state: SegmentState,
    pub last_saved: u64,
    pub last_accessed: u64,
}

impl<H: Persistable> View for SegmentCache<H> {
    type V = SegmentModel<H>;

    open spec fn view(&self) -> SegmentModel<H> {
        SegmentModel {
            segment_id: self.segment_id,
            headers: self.headers@,
            valid_count: self.valid_count,
            state: self.state,
            last_saved: self.last_saved,
            last_accessed: self.last_accessed,
        }
    }
}

/// A file below the storage directory and what is to be written to it.
#[derive(Debug)]
pub struct SegmentFile {
    pub path: String,
    pub bytes: Vec<u8>,
}

/// The contents of a segment's file: its headers one after the other, without padding.
pub open spec fn file_bytes<H: Persistable>(headers: Seq<H>) -> Seq<u8>
    decreases headers.len(),
{
    if headers.len() == 0 {
        Seq::empty()
    } else {
        file_bytes(headers.drop_last()) + persisted(headers.last())
    }
}

/// Whether `headers` are the whole headers that a file begins with.
///
/// What is left at the end and is no whole header does not count.
pub open spec fn decodes_to<H: Persistable>(bytes: Seq<u8>, headers: Seq<H>) -> bool {
    &&& headers.len() * H::width() <= bytes.len() < (headers.len() + 1) * H::width()
    &&& forall|i: int|
        0 <= i < headers.len() ==> (#[trigger] headers[i]).encoded() == bytes.subrange(
            i * H::width(),
            i * H::width() + H::width(),
        )
}

/// Whether `headers` are what a segment's file holds, if there is one, and none otherwise.
pub open spec fn on_disk<H: Persistable>(file: Option<Seq<u8>>, headers: Seq<H>) -> bool {
    match file {
        Some(bytes) => decodes_to(bytes, headers),
        None => headers.len() == 0,
    }
}

/// The contents of a file that was read, if there is one.
pub open spec fn contents(file: Option<&[u8]>) -> Option<Seq<u8>> {
    match file {
        Some(bytes) => Some(bytes@),
        None => None,
    }
}

/// Headers filled up to `len` with `filler`.
pub open spec fn padded<H>(headers: Seq<H>, len: nat, filler: H) -> Seq<H> {
    if headers.len() < len {
        headers + Seq::new((len - headers.len()) as nat, |i: int| filler)
    } else {
        headers
    }
}

/// Decodes the headers of a segment's file.
pub fn load_header_segments<H: Persistable>(bytes: &[u8]) -> (headers: Vec<H>)
    ensures
        decodes_to(bytes@, headers@),
{
    let mut headers: Vec<H> = Vec::new();
    let mut at: usize = 0;
    let width: usize = H::encoded_len();
    assert(0 * H::width() == 0) by (nonlinear_arith);
    loop
        invariant
            width == H::width(),
            at <= bytes.len(),
            at == headers@.len() * H::width(),
            forall|i: int|
                0 <= i < headers@.len() ==> (#[trigger] headers@[i]).encoded() == bytes@.subrange(
                    i * H::width(),
                    i * H::width() + H::width(),
                ),
        ensures
            decodes_to(bytes@, headers@),
        decreases bytes.len() - at,
    {
        assert((headers@.len() + 1) * H::width() == at + H::width()) by (nonlinear_arith)
            requires
                at == headers@.len() * H::width(),
        ;
        match H::consensus_decode(bytes, at) {
            Some(header) => {
                proof {
                    header.lemma_width();
                }
                headers.push(header);
                at += width;
            },
            None => {
                break;
            },
        }
    }
    headers
}

/// Encodes the headers of a segment for its file.
pub fn save_header_segments<H: Persistable>(headers: &Vec<H>) -> (bytes: Vec<u8>)
    ensures
        bytes@ == file_bytes(headers@),
{
    let mut bytes: Vec<u8> = Vec::new();
    let mut i: usize = 0;
    while i < headers.len()
        invariant
            i <= headers.len(),
            bytes@ == file_bytes(headers@.take(i as int)),
        decreases headers.len() - i,
    {
        headers[i].persist(&mut bytes);
        i += 1;
        assert(headers@.take(i as int).drop_last() =~= headers@.take(i - 1));
        assert(bytes@ =~= file_bytes(headers@.take(i as int)));
    }
    assert(headers@.take(i as int) =~= headers@);
    bytes
}

impl<H: Persistable> SegmentCache<H> {
    /// A segment that is up to date on disk.
    pub fn new(segment_id: u32, headers: Vec<H>, valid_count: usize, now: u64) -> (cache: Self)
        ensures
            cache@ == (SegmentModel {
                segment_id,
                headers: headers@,
                valid_count,
                state: SegmentState::Clean,
                last_saved: now,
                last_accessed: now,
            }),
    {
        SegmentCache {
            segment_id,
            headers,
            valid_count,
            state: SegmentState::Clean,
            last_saved: now,
            last_accessed: now,
        }
    }

    /// The file that saves the segment.
    pub fn save(&self) -> (file: SegmentFile)
        ensures
            file.path@ == H::disk_path(self.segment_id),
            file.bytes@ == file_bytes(self.headers@),
    {
        SegmentFile {
            path: H::relative_disk_path(self.segment_id),
            bytes: save_header_segments(&self.headers),
        }
    }

    /// The file that has to be written before the segment leaves memory: a segment with changes,
    /// or one whose save may still be under way, is saved first.
    pub fn evict(&self) -> (file: Option<SegmentFile>)
        ensures
            self.state == SegmentState::Clean ==> file is None,
            self.state != SegmentState::Clean ==> {
                &&& file matches Some(f)
                &&& f.path@ == H::disk_path(self.segment_id)
                &&& f.bytes@ == file_bytes(self.headers@)
            },
    {
        if self.state == SegmentState::Clean {
            return None;
        }
        Some(self.save())
    }
}

impl<H: Persistable> Clone for SegmentCache<H> {
    fn clone(&self) -> (copy: Self)
        ensures
            copy@ == self@,
    {
        let mut headers: Vec<H> = Vec::with_capacity(self.headers.len());
        let mut i: usize = 0;
        while i < self.headers.len()
            invariant
                i <= self.headers.len(),
                headers@ == self.headers@.take(i as int),
            decreases self.headers.len() - i,
        {
            headers.push(self.headers[i]);
            i += 1;
            assert(headers@ =~= self.headers@.take(i as int));
        }
        assert(headers@ =~= self.headers@);
        SegmentCache {
            segment_id: self.segment_id,
            headers,
            valid_count: self.valid_count,
            state: self.state,
            last_saved: self.last_saved,
            last_accessed: self.last_accessed,
        }
    }
}

impl SegmentCache<FilterHeader> {
    /// Makes the cache of a filter header segment from its file, or an empty one where there is
    /// no file.
    pub fn load_filter_header_cache(segment_id: u32, file: Option<&[u8]>, now: u64) -> (cache: Self)
        ensures
            on_disk(contents(file), cache.headers@),
            cache.segment_id == segment_id,
            cache.valid_count == cache.headers@.len(),
            cache.state == SegmentState::Clean,
            cache.last_saved == now,
            cache.last_accessed == now,
    {
        let headers: Vec<FilterHeader> = match file {
            Some(bytes) => load_header_segments(bytes),
            None => Vec::new(),
        };
        let valid_count: usize = headers.len();
        Self::new(segment_id, headers, valid_count, now)
    }
}

impl SegmentCache<BlockHeader> {
    /// Makes the cache of a block header segment from its file, or of padding alone where there
    /// is no file.
    ///
    /// The segment has space for all its headers, so that a header stands at its offset.
    pub fn load_block_header_cache(segment_id: u32, file: Option<&[u8]>, now: u64) -> (cache: Self)
        ensures
            cache.valid_count <= cache.headers@.len(),
            on_disk(contents(file), cache.headers@.take(cache.valid_count as int)),
            cache.headers@ == padded(
                cache.headers@.take(cache.valid_count as int),
                HEADERS_PER_SEGMENT as nat,
                sentinel(),
            ),
            cache.segment_id == segment_id,
            cache.state == SegmentState::Clean,
            cache.last_saved == now,
            cache.last_accessed == now,
    {
        let mut headers: Vec<BlockHeader> = match file {
            Some(bytes) => load_header_segments(bytes),
            None => Vec::new(),
        };
        let ghost loaded = headers@;
        let valid_count: usize = headers.len();
        let expected_size: usize = HEADERS_PER_SEGMENT as usize;
        if headers.len() < expected_size {
            let sentinel_header = create_sentinel_header();
            headers.resize(expected_size, sentinel_header);
        }
        assert(headers@ =~= padded(loaded, HEADERS_PER_SEGMENT as nat, sentinel()));
        assert(headers@.take(valid_count as int) =~= loaded);
        Self::new(segment_id, headers, valid_count, now)
    }
}

/// The headers of a segment that are not padding.
pub open spec fn kept<H: Persistable>(headers: Seq<H>) -> Seq<H> {
    headers.filter(|h: H| !h.is_padding())
}

/// The file of a segment holds the encodings of its headers that are not padding, in order.
pub proof fn lemma_file_of_kept<H: Persistable>(headers: Seq<H>)
    ensures
        file_bytes(headers).len() == kept(headers).len() * H::width(),
        forall|i: int|
            0 <= i < kept(headers).len() ==> (#[trigger] kept(headers)[i]).encoded() == file_bytes(
                headers,
            ).subrange(i * H::width(), i * H::width() + H::width()),
    decreases headers.len(),
{
    reveal(Seq::filter);
    let w = H::width();
    if headers.len() == 0 {
        assert(0 * w == 0) by (nonlinear_arith);
    } else {
        let front = headers.drop_last();
        let last = headers.last();
        lemma_file_of_kept(front);
        last.lemma_width();
        let n = kept(front).len();
        assert((n + 1) * w == n * w + w) by (nonlinear_arith);
        assert forall|i: int| 0 <= i < kept(headers).len() implies (#[trigger] kept(
            headers,
        )[i]).encoded() == file_bytes(headers).subrange(i * w, i * w + w) by {
            if i < n {
                assert(kept(headers)[i] == kept(front)[i]);
                assert(0 <= i * w && i * w + w <= n * w) by (nonlinear_arith)
                    requires
                        0 <= i < n,
                ;
                assert(file_bytes(headers).subrange(i * w, i * w + w) =~= file_bytes(
                    front,
                ).subrange(i * w, i * w + w));
            } else {
                assert(kept(headers)[i] == last);
                assert(last.encoded() =~= file_bytes(headers).subrange(i * w, i * w + w));
            }
        }
    }
}

/// A file determines the headers that are read from it.
pub proof fn law_decoding_unique<H: Persistable>(bytes: Seq<u8>, a: Seq<H>, b: Seq<H>)
    requires
        decodes_to(bytes, a),
        decodes_to(bytes, b),
    ensures
        a == b,
{
    let w = H::width();
    if a.len() < b.len() {
        assert((a.len() + 1) * w <= b.len() * w) by (nonlinear_arith)
            requires
                a.len() + 1 <= b.len(),
        ;
    }
    if b.len() < a.len() {
        assert((b.len() + 1) * w <= a.len() * w) by (nonlinear_arith)
            requires
                b.len() + 1 <= a.len(),
        ;
    }
    assert forall|i: int| 0 <= i < a.len() implies a[i] == b[i] by {
        a[i].lemma_injective(b[i]);
    }
    assert(a =~= b);
}

/// Reading a segment's file gives back the headers that were saved, without padding.
pub proof fn law_load_after_save<H: Persistable>(headers: Seq<H>, loaded: Seq<H>)
    requires
        decodes_to(file_bytes(headers), loaded),
    ensures
        loaded == kept(headers),
{
    lemma_file_of_kept(headers);
    let w = H::width();
    let n = kept(headers).len();
    if loaded.len() == 0 && n == 0 {
        assert(loaded =~= kept(headers));
    } else {
        if loaded.len() > 0 {
            loaded[0].lemma_width();
        } else {
            kept(headers)[0].lemma_width();
        }
        assert((n + 1) * w == n * w + w) by (nonlinear_arith);
        law_decoding_unique(file_bytes(headers), loaded, kept(headers));
    }
}

/// A filter header segment that is saved and loaded again holds the same filter headers.
pub proof fn law_filter_segment_reload(headers: Seq<FilterHeader>, loaded: Seq<FilterHeader>)
    requires
        decodes_to(file_bytes(headers), loaded),
    ensures
        loaded == headers,
{
    law_load_after_save(headers, loaded);
    lemma_kept_all(headers);
}

pub proof fn lemma_kept_all<H: Persistable>(headers: Seq<H>)
    requires
        forall|i: int| 0 <= i < headers.len() ==> !(#[trigger] headers[i]).is_padding(),
    ensures
        kept(headers) == headers,
    decreases headers.len(),
{
    reveal(Seq::filter);
    if headers.len() > 0 {
        lemma_kept_all(headers.drop_last());
        assert(kept(headers) =~= headers);
    } else {
        assert(kept(headers) =~= headers);
    }
}

pub proof fn lemma_kept_prefix<H: Persistable>(headers: Seq<H>, n: nat)
    requires
        n <= headers.len(),
        forall|i: int| 0 <= i < n ==> !(#[trigger] headers[i]).is_padding(),
        forall|i: int| n <= i < headers.len() ==> (#[trigger] headers[i]).is_padding(),
    ensures
        kept(headers) == headers.take(n as int),
    decreases headers.len() - n,
{
    reveal(Seq::filter);
    if headers.len() == n {
        lemma_kept_all(headers);
        assert(headers.take(n as int) =~= headers);
    } else {
        lemma_kept_prefix(headers.drop_last(), n);
        assert(headers.drop_last().take(n as int) =~= headers.take(n as int));
    }
}

/// A block header segment that is saved and loaded again has the same valid headers, the same
/// count of them and the same padding.
pub proof fn law_block_segment_reload(valid: Seq<BlockHeader>, loaded: Seq<BlockHeader>)
    requires
        forall|i: int| 0 <= i < valid.len() ==> !(#[trigger] valid[i]).is_padding(),
        decodes_to(
            file_bytes(padded(valid, HEADERS_PER_SEGMENT as nat, sentinel())),
            loaded,
        ),
    ensures
        loaded == valid,
{
    let headers = padded(valid, HEADERS_PER_SEGMENT as nat, sentinel());
    law_load_after_save(headers, loaded);
    lemma_kept_prefix(headers, valid.len());
    assert(headers.take(valid.len() as int) =~= valid);
}

/// The file of a segment is read as its headers that are not padding.
proof fn lemma_file_decodes<H: Persistable>(headers: Seq<H>)
    requires
        H::width() > 0,
    ensures
        decodes_to(file_bytes(headers), kept(headers)),
{
    lemma_file_of_kept(headers);
    let n = kept(headers).len();
    assert((n + 1) * H::width() == n * H::width() + H::width()) by (nonlinear_arith);
}

/// A filter header segment that was saved is on disk as it is.
pub proof fn law_saved_filter_segment_is_on_disk(headers: Seq<FilterHeader>)
    ensures
        on_disk(Some(file_bytes(headers)), headers),
{
    lemma_file_decodes(headers);
    lemma_kept_all(headers);
}

/// The valid headers of a block header segment that was saved are on disk.
pub proof fn law_saved_block_segment_is_on_disk(valid: Seq<BlockHeader>)
    requires
        forall|i: int| 0 <= i < valid.len() ==> !(#[trigger] valid[i]).is_padding(),
    ensures
        on_disk(Some(file_bytes(padded(valid, HEADERS_PER_SEGMENT as nat, sentinel()))), valid),
{
    let headers = padded(valid, HEADERS_PER_SEGMENT as nat, sentinel());
    lemma_file_decodes(headers);
    lemma_kept_prefix(headers, valid.len());
    assert(headers.take(valid.len() as int) =~= valid);
}

/// The file of a segment after the segment has left memory.
pub open spec fn file_after_eviction<H: Persistable>(
    file: Option<Seq<u8>>,
    segment: SegmentModel<H>,
) -> Option<Seq<u8>> {
    if segment.state == SegmentState::Clean {
        file
    } else {
        Some(file_bytes(segment.headers))
    }
}

/// A filter header segment that leaves memory and is loaded again holds the same filter headers,
/// if a clean segment is up to date on disk.
pub proof fn law_filter_segment_survives_eviction(
    segment: SegmentModel<FilterHeader>,
    file: Option<Seq<u8>>,
    loaded: Seq<FilterHeader>,
)
    requires
        segment.state == SegmentState::Clean ==> on_disk(file, segment.headers),
        on_disk(file_after_eviction(file, segment), loaded),
    ensures
        loaded == segment.headers,
{
    if segment.state == SegmentState::Clean {
        match file {
            Some(bytes) => law_decoding_unique(bytes, loaded, segment.headers),
            None => assert(loaded =~= segment.headers),
        }
    } else {
        law_filter_segment_reload(segment.headers, loaded);
    }
}

/// A block header segment that leaves memory and is loaded again holds the same valid headers,
/// if it is padded at its end alone and a clean segment is up to date on disk.
pub proof fn law_block_segment_survives_eviction(
    segment: SegmentModel<BlockHeader>,
    valid: Seq<BlockHeader>,
    file: Option<Seq<u8>>,
    loaded: Seq<BlockHeader>,
)
    requires
        forall|i: int| 0 <= i < valid.len() ==> !(#[trigger] valid[i]).is_padding(),
        segment.headers == padded(valid, HEADERS_PER_SEGMENT as nat, sentinel()),
        segment.state == SegmentState::Clean ==> on_disk(file, valid),
        on_disk(file_after_eviction(file, segment), loaded),
    ensures
        loaded == valid,
{
    if segment.state == SegmentState::Clean {
        match file {
            Some(bytes) => law_decoding_unique(bytes, loaded, valid),
            None => assert(loaded =~= valid),
        }
    } else {
        law_block_segment_reload(valid, loaded);
    }
}

} // verus!
