//! What the index finds, and what stands in its file byte by byte.

use vstd::prelude::*;
use vstd::string::*;

use crate::encoding::{
    double_word_at, law_bytes_make_up_the_number, le_u32, le_u64, word_at,
};
use crate::error::{StorageError, StorageResult};
use crate::headers::BlockHash;
use crate::index::{
    is_last_of, lacks, law_last_pair_counts, law_other_hashes_unchanged, run_pairs, with_pairs,
    HeaderHashIndex,
};
use crate::index_file::{
    block_hashes_only, entries_bytes, entry_bytes, holds_no_index, index_file_bytes,
    is_index_file, law_index_file_unique, load_index_from_file, save_index_to_disk,
};

verus! {

/// An index finds a block at the height that was put in last, and an empty index finds none.
pub proof fn law_index_finds_what_was_put_in(
    index: &mut HeaderHashIndex,
    hash: BlockHash,
    height: u32,
    other: BlockHash,
    found: Option<u32>,
    other_before: Option<u32>,
    other_after: Option<u32>,
    fresh: HeaderHashIndex,
    nothing: Option<u32>,
)
    requires
        call_ensures(HeaderHashIndex::insert, (index, hash, height), ()),
        call_ensures(HeaderHashIndex::get, (&*final(index), &hash), found),
        call_ensures(HeaderHashIndex::get, (&*old(index), &other), other_before),
        call_ensures(HeaderHashIndex::get, (&*final(index), &other), other_after),
        call_ensures(HeaderHashIndex::new, (), fresh),
        call_ensures(HeaderHashIndex::get, (&fresh, &other), nothing),
    ensures
        found == Some(height),
        other.bytes@ != hash.bytes@ ==> other_after == other_before,
        nothing is None,
{
}

/// The length of an index grows by one with a new hash, and stays with one that is there.
pub proof fn law_index_length(
    index: &mut HeaderHashIndex,
    hash: BlockHash,
    height: u32,
    found: Option<u32>,
    before: usize,
    after: usize,
    fresh: HeaderHashIndex,
    none: usize,
)
    requires
        old(index)@.dom().finite(),
        call_ensures(HeaderHashIndex::insert, (index, hash, height), ()),
        call_ensures(HeaderHashIndex::get, (&*old(index), &hash), found),
        call_ensures(HeaderHashIndex::len, (&*old(index),), before),
        call_ensures(HeaderHashIndex::len, (&*final(index),), after),
        call_ensures(HeaderHashIndex::new, (), fresh),
        call_ensures(HeaderHashIndex::len, (&fresh,), none),
    ensures
        after == if found is Some {
            before as int
        } else {
            before + 1
        },
        none == 0,
{
    let dom = old(index)@.dom();
    assert(final(index)@.dom() =~= dom.insert(hash.bytes@));
    if found is Some {
        assert(dom.insert(hash.bytes@) =~= dom);
    }
    assert(fresh@.dom() =~= Set::<Seq<u8>>::empty());
}

/// A copy of an index finds the same.
pub proof fn law_copied_index(
    index: &HeaderHashIndex,
    copy: HeaderHashIndex,
    hash: BlockHash,
    a: Option<u32>,
    b: Option<u32>,
)
    requires
        call_ensures(<HeaderHashIndex as Clone>::clone, (index,), copy),
        call_ensures(HeaderHashIndex::get, (index, &hash), a),
        call_ensures(HeaderHashIndex::get, (&copy, &hash), b),
    ensures
        a == b,
        copy.entries@.len() == index.entries@.len(),
{
    assert(copy.pairs().len() == index.pairs().len());
}

/// Whether a hash is in a list.
pub open spec fn occurs(hashes: Seq<BlockHash>, hash: BlockHash) -> bool {
    exists|i: int| 0 <= i < hashes.len() && (#[trigger] hashes[i]).bytes@ == hash.bytes@
}

/// The blocks of a segment are found at the base height plus 50,000 for each segment before plus
/// their place in the segment, the last one of several with a hash. Other blocks are found where
/// they were.
pub proof fn law_segment_is_indexed(
    index: &mut HeaderHashIndex,
    segment_id: u32,
    hashes: &Vec<BlockHash>,
    sync_base_height: u32,
    place: int,
    found: Option<u32>,
    other: BlockHash,
    before: Option<u32>,
    after: Option<u32>,
)
    requires
        call_ensures(
            HeaderHashIndex::index_segment,
            (index, segment_id, hashes, sync_base_height),
            (),
        ),
        sync_base_height + segment_id * 50_000 + hashes@.len() <= u32::MAX,
        0 <= place < hashes@.len() ==> call_ensures(
            HeaderHashIndex::get,
            (&*final(index), &hashes@[place]),
            found,
        ),
        call_ensures(HeaderHashIndex::get, (&*old(index), &other), before),
        call_ensures(HeaderHashIndex::get, (&*final(index), &other), after),
    ensures
        0 <= place < hashes@.len() && !occurs(hashes@.skip(place + 1), hashes@[place]) ==> found
            == Some((sync_base_height + segment_id * 50_000 + place) as u32),
        !occurs(hashes@, other) ==> after == before,
{
    let first = sync_base_height + segment_id * 50_000;
    let pairs = run_pairs(hashes@, first);
    if 0 <= place < hashes@.len() && !occurs(hashes@.skip(place + 1), hashes@[place]) {
        let hash = hashes@[place].bytes@;
        assert forall|j: int| place < j < pairs.len() implies (#[trigger] pairs[j]).0 != hash by {
            let rest = hashes@.skip(place + 1);
            assert(rest[j - place - 1] == hashes@[j]);
        }
        assert(is_last_of(pairs, hash, place));
        law_last_pair_counts(old(index)@, pairs, hash, place);
    }
    if !occurs(hashes@, other) {
        assert forall|j: int| 0 <= j < pairs.len() implies (#[trigger] pairs[j]).0
            != other.bytes@ by {
            assert(hashes@[j].bytes@ != other.bytes@);
        }
        law_other_hashes_unchanged(old(index)@, pairs, other.bytes@);
    }
}

/// Whether the 44 bytes of an entry of the index file are at a place: the length of the hash, the
/// hash and the height.
pub open spec fn is_entry_at(content: Seq<u8>, at: int, hash: Seq<u8>, height: u32) -> bool {
    &&& 0 <= at && at + 44 <= content.len()
    &&& double_word_at(content, at) == 32
    &&& content.subrange(at + 8, at + 40) == hash
    &&& word_at(content, at + 40) == height
}

/// Whether a file begins with an index: the number of its entries, and the entries.
pub open spec fn has_index_layout(content: Seq<u8>) -> bool {
    &&& content.len() >= 8
    &&& 8 + 44 * double_word_at(content, 0) <= content.len()
    &&& forall|i: int|
        0 <= i < double_word_at(content, 0) ==> #[trigger] double_word_at(content, 8 + 44 * i)
            == 32
}

/// The entries of an index file.
pub open spec fn entries_of(content: Seq<u8>) -> Seq<(Seq<u8>, u32)> {
    Seq::new(
        double_word_at(content, 0) as nat,
        |i: int|
            (
                content.subrange(16 + 44 * i, 48 + 44 * i),
                word_at(content, 48 + 44 * i) as u32,
            ),
    )
}

pub proof fn lemma_word_range(bytes: Seq<u8>, at: int)
    ensures
        0 <= word_at(bytes, at) <= u32::MAX,
        le_u32(word_at(bytes, at) as u32) == seq![
            bytes[at],
            bytes[at + 1],
            bytes[at + 2],
            bytes[at + 3],
        ],
{
    let b0 = bytes[at];
    let b1 = bytes[at + 1];
    let b2 = bytes[at + 2];
    let b3 = bytes[at + 3];
    let x = word_at(bytes, at) as u32;
    assert(x / 0x100_0000 == b3);
    assert(x / 0x1_0000 == b2 + 0x100 * b3);
    assert(x / 0x100 == b1 + 0x100 * b2 + 0x1_0000 * b3);
    assert(le_u32(x) =~= seq![b0, b1, b2, b3]);
}

pub proof fn lemma_double_word_range(bytes: Seq<u8>, at: int)
    requires
        0 <= at && at + 8 <= bytes.len(),
    ensures
        0 <= double_word_at(bytes, at) <= u64::MAX,
        le_u64(double_word_at(bytes, at) as u64) == bytes.subrange(at, at + 8),
{
    lemma_word_range(bytes, at);
    lemma_word_range(bytes, at + 4);
    let low = word_at(bytes, at);
    let high = word_at(bytes, at + 4);
    let x = double_word_at(bytes, at) as u64;
    assert(x % 0x1_0000_0000 == low && x / 0x1_0000_0000 == high);
    assert(le_u64(x) =~= bytes.subrange(at, at + 8));
}

/// Entries of block hashes are 44 bytes each.
proof fn lemma_entries_layout(pairs: Seq<(Seq<u8>, u32)>)
    requires
        block_hashes_only(pairs),
    ensures
        entries_bytes(pairs).len() == 44 * pairs.len(),
        forall|i: int|
            0 <= i < pairs.len() ==> entries_bytes(pairs).subrange(44 * i, 44 * i + 44)
                == entry_bytes((#[trigger] pairs[i]).0, pairs[i].1),
    decreases pairs.len(),
{
    if pairs.len() > 0 {
        let rest = pairs.drop_first();
        let first = entry_bytes(pairs[0].0, pairs[0].1);
        assert(pairs[0].0.len() == 32);
        assert(block_hashes_only(rest)) by {
            assert forall|i: int| 0 <= i < rest.len() implies (#[trigger] rest[i]).0.len()
                == 32 by {
                assert(rest[i] == pairs[i + 1]);
            }
        }
        lemma_entries_layout(rest);
        let all = entries_bytes(pairs);
        assert(first.len() == 44);
        assert forall|i: int| 0 <= i < pairs.len() implies all.subrange(44 * i, 44 * i + 44)
            == entry_bytes((#[trigger] pairs[i]).0, pairs[i].1) by {
            if i == 0 {
                assert(all.subrange(0, 44) =~= first);
            } else {
                assert(rest[i - 1] == pairs[i]);
                assert(all.subrange(44 * i, 44 * i + 44) =~= entries_bytes(rest).subrange(
                    44 * (i - 1),
                    44 * (i - 1) + 44,
                ));
            }
        }
    }
}

proof fn lemma_entry(content: Seq<u8>, at: int, hash: Seq<u8>, height: u32)
    requires
        0 <= at && at + 44 <= content.len(),
        hash.len() == 32,
        content.subrange(at, at + 44) == entry_bytes(hash, height),
    ensures
        is_entry_at(content, at, hash, height),
{
    law_bytes_make_up_the_number(height, 32);
    let e = entry_bytes(hash, height);
    assert(forall|i: int| 0 <= i < 44 ==> #[trigger] e[i] == content[at + i]);
    assert(forall|i: int| 0 <= i < 8 ==> #[trigger] e[i] == le_u64(32)[i]);
    assert(forall|i: int| 0 <= i < 4 ==> e[40 + i] == #[trigger] le_u32(height)[i]);
    assert(content[at] == e[0] && content[at + 1] == e[1] && content[at + 2] == e[2] && content[at
        + 3] == e[3] && content[at + 4] == e[4] && content[at + 5] == e[5] && content[at + 6]
        == e[6] && content[at + 7] == e[7]);
    let number = le_u64(32);
    assert(e[0] == number[0] && e[1] == number[1] && e[2] == number[2] && e[3] == number[3] && e[4]
        == number[4] && e[5] == number[5] && e[6] == number[6] && e[7] == number[7]);
    let part = content.subrange(at + 8, at + 40);
    assert forall|k: int| 0 <= k < 32 implies #[trigger] part[k] == hash[k] by {
        assert(e[8 + k] == content[at + 8 + k]);
    }
    assert(part =~= hash);
    assert(e[40] == content[at + 40] && e[41] == content[at + 41] && e[42] == content[at + 42]
        && e[43] == content[at + 43]);
    assert(e[40] == le_u32(height)[0] && e[41] == le_u32(height)[1] && e[42] == le_u32(height)[2]
        && e[43] == le_u32(height)[3]);
}

/// A file that begins with an index has its layout.
pub proof fn lemma_layout_of_index(content: Seq<u8>, pairs: Seq<(Seq<u8>, u32)>)
    requires
        content.len() <= u64::MAX,
        is_index_file(content, pairs),
    ensures
        has_index_layout(content),
        double_word_at(content, 0) == pairs.len(),
        forall|i: int|
            0 <= i < pairs.len() ==> is_entry_at(
                content,
                8 + 44 * i,
                (#[trigger] pairs[i]).0,
                pairs[i].1,
            ),
{
    lemma_entries_layout(pairs);
    let file = index_file_bytes(pairs);
    let n = pairs.len() as u64;
    assert(file == content.subrange(0, file.len() as int));
    assert(file.len() == 8 + 44 * pairs.len());
    law_bytes_make_up_the_number(0, n);
    assert(forall|i: int| 0 <= i < 8 ==> #[trigger] content[i] == le_u64(n)[i]) by {
        assert forall|i: int| 0 <= i < 8 implies #[trigger] content[i] == le_u64(n)[i] by {
            assert(file[i] == content[i]);
        }
    }
    assert(double_word_at(content, 0) == n);
    assert forall|i: int| 0 <= i < pairs.len() implies is_entry_at(
        content,
        8 + 44 * i,
        (#[trigger] pairs[i]).0,
        pairs[i].1,
    ) by {
        let at = 8 + 44 * i;
        let part = content.subrange(at, at + 44);
        let entry = entries_bytes(pairs).subrange(44 * i, 44 * i + 44);
        assert forall|j: int| 0 <= j < 44 implies #[trigger] part[j] == entry[j] by {
            assert(file[at + j] == content[at + j]);
        }
        assert(part =~= entry);
        lemma_entry(content, at, pairs[i].0, pairs[i].1);
    }
    assert forall|i: int| 0 <= i < double_word_at(content, 0) implies #[trigger] double_word_at(
        content,
        8 + 44 * i,
    ) == 32 by {
        assert(is_entry_at(content, 8 + 44 * i, pairs[i].0, pairs[i].1));
    }
}

/// A file with the layout of an index begins with one.
pub proof fn lemma_index_of_layout(content: Seq<u8>)
    requires
        has_index_layout(content),
    ensures
        is_index_file(content, entries_of(content)),
{
    let pairs = entries_of(content);
    lemma_double_word_range(content, 0);
    assert(block_hashes_only(pairs)) by {
        assert forall|i: int| 0 <= i < pairs.len() implies (#[trigger] pairs[i]).0.len() == 32 by {
        }
    }
    lemma_entries_layout(pairs);
    let file = index_file_bytes(pairs);
    let start = content.subrange(0, file.len() as int);
    assert forall|k: int| 0 <= k < file.len() implies file[k] == content[k] by {
        if k < 8 {
            assert(file[k] == le_u64(pairs.len() as u64)[k]);
            assert(content.subrange(0, 8)[k] == content[k]);
        } else {
            let i = (k - 8) / 44;
            let j = (k - 8) % 44;
            let at = 8 + 44 * i;
            assert(entries_bytes(pairs).subrange(44 * i, 44 * i + 44) == entry_bytes(
                pairs[i].0,
                pairs[i].1,
            ));
            assert(file[k] == entries_bytes(pairs)[44 * i + j]);
            assert(entries_bytes(pairs).subrange(44 * i, 44 * i + 44)[j] == entries_bytes(
                pairs,
            )[44 * i + j]);
            lemma_entry_bytes(content, i);
            assert(content.subrange(at, at + 44)[j] == content[k]);
        }
    }
    assert(file =~= start);
}

proof fn lemma_entry_bytes(content: Seq<u8>, i: int)
    requires
        has_index_layout(content),
        0 <= i < double_word_at(content, 0),
    ensures
        entry_bytes(entries_of(content)[i].0, entries_of(content)[i].1) == content.subrange(
            8 + 44 * i,
            52 + 44 * i,
        ),
{
    let at = 8 + 44 * i;
    assert(double_word_at(content, at) == 32);
    lemma_double_word_range(content, at);
    lemma_word_range(content, at + 40);
    let e = entry_bytes(entries_of(content)[i].0, entries_of(content)[i].1);
    assert(le_u64(32) == content.subrange(at, at + 8));
    assert(e =~= content.subrange(at, at + 44));
}

/// Whether the entry at a place of an index file is the last one of a hash.
pub open spec fn is_last_entry(content: Seq<u8>, hash: Seq<u8>, i: int) -> bool {
    &&& 0 <= i < double_word_at(content, 0)
    &&& content.subrange(16 + 44 * i, 48 + 44 * i) == hash
    &&& forall|j: int|
        i < j < double_word_at(content, 0) ==> #[trigger] content.subrange(
            16 + 44 * j,
            48 + 44 * j,
        ) != hash
}

/// Whether an index file has an entry of a hash.
pub open spec fn has_entry(content: Seq<u8>, hash: Seq<u8>) -> bool {
    exists|j: int|
        0 <= j < double_word_at(content, 0) && #[trigger] content.subrange(
            16 + 44 * j,
            48 + 44 * j,
        ) == hash
}

pub proof fn lemma_entries_found(
    content: Seq<u8>,
    pairs: Seq<(Seq<u8>, u32)>,
    hash: Seq<u8>,
    i: int,
)
    requires
        content.len() <= u64::MAX,
        is_index_file(content, pairs),
    ensures
        ({
            let map = with_pairs(Map::empty(), pairs);
            &&& is_last_entry(content, hash, i) ==> map.contains_key(hash) && map[hash] == word_at(
                content,
                48 + 44 * i,
            )
            &&& map.contains_key(hash) ==> has_entry(content, hash)
        }),
{
    lemma_layout_of_index(content, pairs);
    let n = double_word_at(content, 0);
    assert forall|k: int| 0 <= k < n implies (#[trigger] pairs[k]).0 == content.subrange(
        16 + 44 * k,
        48 + 44 * k,
    ) && pairs[k].1 == word_at(content, 48 + 44 * k) by {
        assert(is_entry_at(content, 8 + 44 * k, pairs[k].0, pairs[k].1));
    }
    if lacks(pairs, hash) {
        law_other_hashes_unchanged(Map::empty(), pairs, hash);
    } else {
        let k = choose|k: int| 0 <= k < pairs.len() && (#[trigger] pairs[k]).0 == hash;
        assert(content.subrange(16 + 44 * k, 48 + 44 * k) == hash);
    }
    if is_last_entry(content, hash, i) {
        assert(pairs[i].0 == hash);
        assert forall|j: int| i < j < pairs.len() implies (#[trigger] pairs[j]).0 != hash by {
            assert(content.subrange(16 + 44 * j, 48 + 44 * j) != hash);
        }
        law_last_pair_counts(Map::empty(), pairs, hash, i);
    }
}

/// What is read of an index file is determined by its pairs.
proof fn lemma_index_read(content: &[u8], result: StorageResult<HeaderHashIndex>) -> (pairs: Seq<
    (Seq<u8>, u32),
>)
    requires
        call_ensures(load_index_from_file, (content,), result),
    ensures
        result matches Ok(index) ==> is_index_file(content@, pairs) && index@ == with_pairs(
            Map::empty(),
            pairs,
        ),
        result is Err ==> result->Err_0 is ReadFailed,
        result is Err ==> holds_no_index(content@),
{
    choose|pairs: Seq<(Seq<u8>, u32)>| #[trigger]
        is_index_file(content@, pairs) && (result matches Ok(index) && index@ == with_pairs(
            Map::empty(),
            pairs,
        ))
}

/// An index is read exactly from the content that has the layout of one.
pub proof fn law_index_needs_its_layout(content: &[u8], result: StorageResult<HeaderHashIndex>)
    requires
        content@.len() <= u64::MAX,
        call_ensures(load_index_from_file, (content,), result),
    ensures
        result is Ok <==> has_index_layout(content@),
        result matches Err(error) ==> (error matches StorageError::ReadFailed(text) && text@.len()
            >= 29 && text@.take(29) == "Failed to deserialize index: "@),
{
    reveal_strlit("Failed to deserialize index: ");
    let pairs = lemma_index_read(content, result);
    if has_index_layout(content@) {
        lemma_index_of_layout(content@);
    }
    if result is Ok {
        lemma_layout_of_index(content@, pairs);
    }
}

/// An index that is read finds a block at the height of the last entry with its hash, and finds no
/// other.
pub proof fn law_index_is_read_from_its_file(
    content: &[u8],
    index: HeaderHashIndex,
    hash: BlockHash,
    found: Option<u32>,
    i: int,
)
    requires
        content@.len() <= u64::MAX,
        call_ensures(load_index_from_file, (content,), Ok(index)),
        call_ensures(HeaderHashIndex::get, (&index, &hash), found),
    ensures
        is_last_entry(content@, hash.bytes@, i) ==> found == Some(
            word_at(content@, 48 + 44 * i) as u32,
        ),
        found is Some ==> has_entry(content@, hash.bytes@),
{
    let pairs = lemma_index_read(content, Ok(index));
    lemma_entries_found(content@, pairs, hash.bytes@, i);
}

/// The file of an index holds all its entries and nothing else.
pub proof fn law_index_in_file(
    index: &HeaderHashIndex,
    result: StorageResult<Vec<u8>>,
    i: int,
)
    requires
        call_ensures(save_index_to_disk, (index,), result),
        8 + 44 * index.entries@.len() <= u64::MAX,
    ensures
        result matches Ok(bytes) && {
            &&& bytes@.len() == 8 + 44 * index.entries@.len()
            &&& double_word_at(bytes@, 0) == index.entries@.len()
            &&& 0 <= i < index.entries@.len() ==> is_entry_at(
                bytes@,
                8 + 44 * i,
                index.entries@[i].hash.bytes@,
                index.entries@[i].height,
            )
        },
{
    lemma_index_bytes(index, i);
}

/// What stands in the file of an index.
pub proof fn lemma_index_bytes(index: &HeaderHashIndex, i: int)
    requires
        8 + 44 * index.entries@.len() <= u64::MAX,
    ensures
        ({
            let bytes = index_file_bytes(index.pairs());
            &&& bytes.len() == 8 + 44 * index.entries@.len()
            &&& double_word_at(bytes, 0) == index.entries@.len()
            &&& 0 <= i < index.entries@.len() ==> is_entry_at(
                bytes,
                8 + 44 * i,
                index.entries@[i].hash.bytes@,
                index.entries@[i].height,
            )
        }),
{
    let pairs = index.pairs();
    assert(block_hashes_only(pairs));
    lemma_entries_layout(pairs);
    let bytes = index_file_bytes(pairs);
    assert(bytes.subrange(0, bytes.len() as int) =~= bytes);
    assert(is_index_file(bytes, pairs));
    lemma_layout_of_index(bytes, pairs);
    if 0 <= i < pairs.len() {
        assert(is_entry_at(bytes, 8 + 44 * i, pairs[i].0, pairs[i].1));
    }
}

/// An index that is saved and loaded again finds the same.
pub proof fn law_saved_index_finds_the_same(
    index: &HeaderHashIndex,
    saved: StorageResult<Vec<u8>>,
    content: &[u8],
    loaded: StorageResult<HeaderHashIndex>,
)
    requires
        content@.len() <= u64::MAX,
        call_ensures(save_index_to_disk, (index,), saved),
        saved matches Ok(bytes) ==> content@ == bytes@,
        call_ensures(load_index_from_file, (content,), loaded),
    ensures
        saved is Ok,
        loaded is Ok,
        forall|hash: BlockHash, before: Option<u32>, after: Option<u32>|
            #![trigger call_ensures(HeaderHashIndex::get, (index, &hash), before), call_ensures(
                HeaderHashIndex::get,
                (&loaded->Ok_0, &hash),
                after,
            )]
            call_ensures(HeaderHashIndex::get, (index, &hash), before) && call_ensures(
                HeaderHashIndex::get,
                (&loaded->Ok_0, &hash),
                after,
            ) ==> after == before,
{
    let pairs = index.pairs();
    let read = lemma_index_read(content, loaded);
    lemma_saved_index(pairs, content@);
    assert(block_hashes_only(pairs));
    if loaded is Ok {
        law_index_file_unique(content@, pairs, read);
    }
}

proof fn lemma_saved_index(pairs: Seq<(Seq<u8>, u32)>, content: Seq<u8>)
    requires
        content == index_file_bytes(pairs),
    ensures
        block_hashes_only(pairs) ==> is_index_file(content, pairs),
{
    assert(content.subrange(0, content.len() as int) =~= content);
}

} // verus!
