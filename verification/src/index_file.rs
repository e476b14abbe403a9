//! The file that keeps the reverse index.

use vstd::prelude::*;
use vstd::string::*;

use crate::encoding::{le_u32, le_u64, lemma_le_u32_injective, lemma_le_u64_injective, read_hash};
use crate::error::{StorageError, StorageResult};
use crate::headers::BlockHash;
use crate::index::{with_pairs, HeaderHashIndex};

verus! {

/// A hash and its height in the index file: the length of the hash, its bytes, and the height.
pub open spec fn entry_bytes(hash: Seq<u8>, height: u32) -> Seq<u8> {
    le_u64(hash.len() as u64) + hash + le_u32(height)
}

/// Entries one after the other.
pub open spec fn entries_bytes(pairs: Seq<(Seq<u8>, u32)>) -> Seq<u8>
    decreases pairs.len(),
{
    if pairs.len() == 0 {
        Seq::empty()
    } else {
        entry_bytes(pairs[0].0, pairs[0].1) + entries_bytes(pairs.drop_first())
    }
}

/// The index file: the number of entries, and the entries.
pub open spec fn index_file_bytes(pairs: Seq<(Seq<u8>, u32)>) -> Seq<u8> {
    le_u64(pairs.len() as u64) + entries_bytes(pairs)
}

/// The values of a list of hashes and heights.
pub open spec fn pair_values(list: Seq<(Vec<u8>, u32)>) -> Seq<(Seq<u8>, u32)> {
    list.map_values(|pair: (Vec<u8>, u32)| (pair.0@, pair.1))
}

/// The error of `bincode`.
#[verifier::external_type_specification]
#[verifier::external_body]
pub struct ExErrorKind(bincode::ErrorKind);

/// Calls `bincode::serialize` on a list of pairs of a byte vector and a number.
///
/// Taken on trust: with the default configuration of that function, which has fixed-size
/// little-endian integers and no size limit, such a list always serialises, to its length, then
/// for each pair the length of the byte vector, its bytes and the number.
#[verifier::external_body]
fn bincode_serialize(list: &Vec<(Vec<u8>, u32)>) -> (result: Result<Vec<u8>, bincode::Error>)
    ensures
        result is Ok,
        result->Ok_0@ == index_file_bytes(pair_values(list@)),
{
    bincode::serialize(list)
}

/// Calls `bincode::deserialize` for a list of pairs of a byte vector and a number.
///
/// Taken on trust: the call succeeds exactly on the input that begins with a serialised list, and
/// returns that list; bytes behind it are left alone.
#[verifier::external_body]
fn bincode_deserialize(bytes: &[u8]) -> (result: Result<Vec<(Vec<u8>, u32)>, bincode::Error>)
    ensures
        match result {
            Ok(list) => index_file_bytes(pair_values(list@)).is_prefix_of(bytes@),
            Err(_) => forall|pairs: Seq<(Seq<u8>, u32)>|
                !(#[trigger] index_file_bytes(pairs)).is_prefix_of(bytes@),
        },
{
    bincode::deserialize(bytes)
}

/// Calls `to_string` on an error of `bincode`. Nothing is claimed of the text.
#[verifier::external_body]
fn bincode_error_text(error: &bincode::ErrorKind) -> (text: String) {
    error.to_string()
}

/// Encodes the index for its file.
pub fn save_index_to_disk(index: &HeaderHashIndex) -> (result: StorageResult<Vec<u8>>)
    ensures
        result matches Ok(bytes) && bytes@ == index_file_bytes(index.pairs()),
{
    let mut list: Vec<(Vec<u8>, u32)> = Vec::with_capacity(index.entries.len());
    let mut i: usize = 0;
    while i < index.entries.len()
        invariant
            i <= index.entries.len(),
            pair_values(list@) == index.pairs().take(i as int),
        decreases index.entries.len() - i,
    {
        let entry = index.entries[i];
        let mut hash: Vec<u8> = Vec::with_capacity(32);
        crate::encoding::push_hash(&mut hash, &entry.hash.bytes);
        assert(hash@ =~= entry.hash.bytes@);
        let ghost before = list@;
        list.push((hash, entry.height));
        assert(pair_values(list@) =~= pair_values(before).push(index.pairs()[i as int]));
        assert(index.pairs().take(i + 1) =~= index.pairs().take(i as int).push(
            index.pairs()[i as int],
        ));
        i += 1;
    }
    assert(index.pairs().take(i as int) =~= index.pairs());
    match bincode_serialize(&list) {
        Ok(bytes) => Ok(bytes),
        Err(error) => {
            let mut text = "Failed to serialize index: ".to_owned();
            text.append(bincode_error_text(&error).as_str());
            Err(StorageError::WriteFailed(text))
        },
    }
}

/// Whether every hash has the length of a block hash.
pub open spec fn block_hashes_only(pairs: Seq<(Seq<u8>, u32)>) -> bool {
    forall|i: int| 0 <= i < pairs.len() ==> (#[trigger] pairs[i]).0.len() == 32
}

/// Whether the index file begins with the given entries and they are entries of block hashes.
pub open spec fn is_index_file(content: Seq<u8>, pairs: Seq<(Seq<u8>, u32)>) -> bool {
    index_file_bytes(pairs).is_prefix_of(content) && block_hashes_only(pairs)
}

/// Whether a file begins with no index.
pub open spec fn holds_no_index(content: Seq<u8>) -> bool {
    forall|pairs: Seq<(Seq<u8>, u32)>| !#[trigger] is_index_file(content, pairs)
}

/// Decodes the index from its file.
pub fn load_index_from_file(content: &[u8]) -> (result: StorageResult<HeaderHashIndex>)
    ensures
        match result {
            Ok(index) => index.wf() && exists|pairs: Seq<(Seq<u8>, u32)>| #[trigger]
                is_index_file(content@, pairs) && index@ == with_pairs(Map::empty(), pairs),
            Err(error) => {
                &&& error matches StorageError::ReadFailed(text)
                &&& "Failed to deserialize index: "@.is_prefix_of(text@)
                &&& holds_no_index(content@)
            },
        },
{
    let list = match bincode_deserialize(content) {
        Ok(list) => list,
        Err(error) => {
            let mut text = "Failed to deserialize index: ".to_owned();
            text.append(bincode_error_text(&error).as_str());
            return Err(StorageError::ReadFailed(text));
        },
    };
    let ghost pairs = pair_values(list@);
    let mut index = HeaderHashIndex::new();
    let mut i: usize = 0;
    assert(content@.len() == content.len());
    assert(pairs.take(0) =~= Seq::empty());
    while i < list.len()
        invariant
            i <= list.len(),
            pairs == pair_values(list@),
            content@.len() <= usize::MAX,
            index_file_bytes(pairs).is_prefix_of(content@),
            forall|j: int| 0 <= j < i ==> (#[trigger] pairs[j]).0.len() == 32,
            index.wf(),
            index@ == with_pairs(Map::empty(), pairs.take(i as int)),
        decreases list.len() - i,
    {
        let hash = &list[i].0;
        assert(hash@ == pairs[i as int].0);
        if hash.len() != 32 {
            proof {
                assert forall|other: Seq<(Seq<u8>, u32)>| !#[trigger] is_index_file(
                    content@,
                    other,
                ) by {
                    if is_index_file(content@, other) {
                        law_index_file_unique(content@, pairs, other);
                        assert(other[i as int].0.len() == 32);
                    }
                }
            }
            let mut text = "Failed to deserialize index: ".to_owned();
            text.append("a block hash has 32 bytes");
            return Err(StorageError::ReadFailed(text));
        }
        let bytes = read_hash(hash.as_slice(), 0);
        assert(bytes@ =~= hash@);
        index.insert(BlockHash { bytes }, list[i].1);
        i += 1;
        assert(pairs.take(i as int).drop_last() =~= pairs.take(i - 1));
    }
    assert(pairs.take(i as int) =~= pairs);
    assert(is_index_file(content@, pairs));
    Ok(index)
}

/// The parts of a prefix stand one after the other.
proof fn lemma_parts(content: Seq<u8>, x: Seq<u8>, y: Seq<u8>, z: Seq<u8>, rest: Seq<u8>)
    requires
        (x + y + z + rest).is_prefix_of(content),
    ensures
        x.len() + y.len() + z.len() + rest.len() <= content.len(),
        x == content.subrange(0, x.len() as int),
        y == content.subrange(x.len() as int, x.len() + y.len() as int),
        z == content.subrange(x.len() + y.len() as int, x.len() + y.len() + z.len() as int),
        rest.is_prefix_of(content.skip(x.len() + y.len() + z.len() as int)),
{
    let all = x + y + z + rest;
    let a = x.len() as int;
    let b = a + y.len();
    let c = b + z.len();
    assert(x =~= all.subrange(0, a));
    assert(y =~= all.subrange(a, b));
    assert(z =~= all.subrange(b, c));
    assert(rest =~= all.skip(c));
    assert(all =~= content.subrange(0, all.len() as int));
    assert(x =~= content.subrange(0, a));
    assert(y =~= content.subrange(a, b));
    assert(z =~= content.subrange(b, c));
    assert(rest =~= content.skip(c).subrange(0, rest.len() as int));
}

proof fn lemma_entries_unique(
    content: Seq<u8>,
    a: Seq<(Seq<u8>, u32)>,
    b: Seq<(Seq<u8>, u32)>,
)
    requires
        content.len() <= u64::MAX,
        a.len() == b.len(),
        entries_bytes(a).is_prefix_of(content),
        entries_bytes(b).is_prefix_of(content),
    ensures
        a == b,
    decreases a.len(),
{
    if a.len() > 0 {
        let a_len = le_u64(a[0].0.len() as u64);
        let b_len = le_u64(b[0].0.len() as u64);
        let a_rest = entries_bytes(a.drop_first());
        let b_rest = entries_bytes(b.drop_first());
        lemma_parts(content, a_len, a[0].0, le_u32(a[0].1), a_rest);
        lemma_parts(content, b_len, b[0].0, le_u32(b[0].1), b_rest);
        assert(a_len.len() == 8 && b_len.len() == 8);
        lemma_le_u64_injective(a[0].0.len() as u64, b[0].0.len() as u64);
        lemma_le_u32_injective(a[0].1, b[0].1);
        lemma_entries_unique(
            content.skip(a_len.len() + a[0].0.len() + le_u32(a[0].1).len() as int),
            a.drop_first(),
            b.drop_first(),
        );
        assert(a =~= seq![a[0]] + a.drop_first());
        assert(b =~= seq![b[0]] + b.drop_first());
    } else {
        assert(a =~= b);
    }
}

proof fn lemma_entries_len(pairs: Seq<(Seq<u8>, u32)>)
    ensures
        entries_bytes(pairs).len() >= pairs.len(),
    decreases pairs.len(),
{
    if pairs.len() > 0 {
        lemma_entries_len(pairs.drop_first());
    }
}

/// An index file determines its entries.
pub proof fn law_index_file_unique(
    content: Seq<u8>,
    a: Seq<(Seq<u8>, u32)>,
    b: Seq<(Seq<u8>, u32)>,
)
    requires
        content.len() <= u64::MAX,
        index_file_bytes(a).is_prefix_of(content),
        index_file_bytes(b).is_prefix_of(content),
    ensures
        a == b,
{
    let a_len = le_u64(a.len() as u64);
    let b_len = le_u64(b.len() as u64);
    let none = Seq::<u8>::empty();
    lemma_entries_len(a);
    lemma_entries_len(b);
    assert(a_len + none + none + entries_bytes(a) =~= index_file_bytes(a));
    assert(b_len + none + none + entries_bytes(b) =~= index_file_bytes(b));
    lemma_parts(content, a_len, none, none, entries_bytes(a));
    lemma_parts(content, b_len, none, none, entries_bytes(b));
    assert(a_len.len() == 8 && b_len.len() == 8);
    lemma_le_u64_injective(a.len() as u64, b.len() as u64);
    lemma_entries_unique(content.skip(8), a, b);
}

/// Loading an index file gives back the index that was saved.
pub proof fn law_load_after_save_index(saved: HeaderHashIndex)
    requires
        index_file_bytes(saved.pairs()).len() <= u64::MAX,
    ensures
        is_index_file(index_file_bytes(saved.pairs()), saved.pairs()),
        forall|pairs: Seq<(Seq<u8>, u32)>| #[trigger]
            is_index_file(index_file_bytes(saved.pairs()), pairs) ==> with_pairs(
                Map::empty(),
                pairs,
            ) == saved@,
{
    let content = index_file_bytes(saved.pairs());
    assert(content.subrange(0, content.len() as int) =~= content);
    assert forall|pairs: Seq<(Seq<u8>, u32)>| #[trigger] is_index_file(
        content,
        pairs,
    ) implies with_pairs(Map::empty(), pairs) == saved@ by {
        law_index_file_unique(content, saved.pairs(), pairs);
    }
}

} // verus!
