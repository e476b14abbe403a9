//! What the names of files look like, and which names hold a segment number.

use vstd::prelude::*;
use vstd::string::*;
use vstd::utf8::*;

use crate::names::{
    decimal, decimal_text, digits_value, filter_data_segment_path,
    filter_data_segment_path_text, filter_segment_path, filter_segment_path_text, four_digit_text,
    four_digits, header_segment_path, header_segment_path_text, is_digit, lemma_fixed_parts,
    only_digits, parsed_u32, read_filter_segment_id, read_header_segment_id, temp_file_name,
    temp_name, without_plus, TempNames,
};

verus! {

/// The number that decimal digits stand for.
pub open spec fn value_of(digits: Seq<char>) -> int
    decreases digits.len(),
{
    if digits.len() == 0 {
        0
    } else {
        10 * value_of(digits.drop_last()) + (digits.last() as int - 48)
    }
}

/// Whether text is a number in decimal with at least `width` digits, and with zeros in front only
/// as far as that takes them.
pub open spec fn is_decimal(text: Seq<char>, number: int, width: int) -> bool {
    &&& text.len() >= width
    &&& forall|i: int| 0 <= i < text.len() ==> '0' <= #[trigger] text[i] <= '9'
    &&& value_of(text) == number
    &&& text.len() > width ==> text[0] != '0'
}

/// Whether text has a number of at least four digits between a beginning and an end.
pub open spec fn is_numbered(
    text: Seq<char>,
    beginning: Seq<char>,
    number: int,
    end: Seq<char>,
) -> bool {
    exists|digits: Seq<char>| #[trigger]
        is_decimal(digits, number, 4) && text == beginning + digits + end
}

proof fn lemma_decimal(n: nat)
    ensures
        is_decimal(decimal(n), n as int, 1),
    decreases n,
{
    if n < 10 {
        assert(decimal(n).drop_last().len() == 0);
        assert(value_of(decimal(n).drop_last()) == 0);
    } else {
        lemma_decimal(n / 10);
        let front = decimal(n / 10);
        assert(decimal(n).drop_last() =~= front);
        assert(decimal(n)[0] == front[0]);
        if front.len() == 1 {
            assert(front.drop_last().len() == 0);
            assert(value_of(front.drop_last()) == 0);
            assert(n / 10 >= 1);
        }
    }
}

proof fn lemma_zeros_in_front(zeros: nat, digits: Seq<char>)
    ensures
        value_of(Seq::new(zeros, |i: int| '0') + digits) == value_of(digits),
    decreases digits.len() + zeros,
{
    let front = Seq::new(zeros, |i: int| '0');
    if digits.len() > 0 {
        lemma_zeros_in_front(zeros, digits.drop_last());
        assert((front + digits).drop_last() =~= front + digits.drop_last());
    } else if zeros > 0 {
        lemma_zeros_in_front((zeros - 1) as nat, digits);
        assert((front + digits).drop_last() =~= Seq::new((zeros - 1) as nat, |i: int| '0')
            + digits);
    }
}

proof fn lemma_four_digits_decimal(n: nat)
    ensures
        is_decimal(four_digits(n), n as int, 4),
{
    lemma_decimal(n);
    let digits = decimal(n);
    if digits.len() < 4 {
        let zeros = (4 - digits.len()) as nat;
        lemma_zeros_in_front(zeros, digits);
        assert(four_digits(n) =~= Seq::new(zeros, |i: int| '0') + digits);
    }
}

/// Numbers are written in decimal, those of segments with at least four digits.
pub proof fn law_numbers_are_decimal(n: u64, text: String, id: u32, padded: String)
    ensures
        call_ensures(decimal_text, (n,), text) ==> is_decimal(text@, n as int, 1),
        call_ensures(four_digit_text, (id,), padded) ==> is_decimal(padded@, id as int, 4),
{
    lemma_decimal(n as nat);
    lemma_four_digits_decimal(id as nat);
}

/// The files of segments are named by the segment's number, each kind in its own way.
pub proof fn law_segment_paths(
    id: u32,
    headers: String,
    filters: String,
    filter_data: String,
)
    ensures
        is_numbered(header_segment_path(id), "headers/segment_"@, id as int, ".dat"@),
        is_numbered(filter_segment_path(id), "filters/filter_segment_"@, id as int, ".dat"@),
        is_numbered(
            filter_data_segment_path(id),
            "filters/filter_data_segment_"@,
            id as int,
            ".seg"@,
        ),
        call_ensures(header_segment_path_text, (id,), headers) ==> is_numbered(
            headers@,
            "headers/segment_"@,
            id as int,
            ".dat"@,
        ),
        call_ensures(filter_segment_path_text, (id,), filters) ==> is_numbered(
            filters@,
            "filters/filter_segment_"@,
            id as int,
            ".dat"@,
        ),
        call_ensures(filter_data_segment_path_text, (id,), filter_data) ==> is_numbered(
            filter_data@,
            "filters/filter_data_segment_"@,
            id as int,
            ".seg"@,
        ),
{
    lemma_four_digits_decimal(id as nat);
    reveal_strlit("headers/");
    reveal_strlit("segment_");
    reveal_strlit("headers/segment_");
    reveal_strlit("filters/");
    reveal_strlit("filter_segment_");
    reveal_strlit("filters/filter_segment_");
    assert(header_segment_path(id) =~= "headers/segment_"@ + four_digits(id as nat) + ".dat"@);
    assert(filter_segment_path(id) =~= "filters/filter_segment_"@ + four_digits(id as nat)
        + ".dat"@);
}

/// A segment number is read from a path that holds it: two numbers do not share a path.
pub proof fn law_numbered_paths_differ(
    text: Seq<char>,
    beginning: Seq<char>,
    end: Seq<char>,
    a: int,
    b: int,
)
    requires
        is_numbered(text, beginning, a, end),
        is_numbered(text, beginning, b, end),
    ensures
        a == b,
{
    let x = choose|x: Seq<char>| #[trigger] is_decimal(x, a, 4) && text == beginning + x + end;
    let y = choose|y: Seq<char>| #[trigger] is_decimal(y, b, 4) && text == beginning + y + end;
    assert(x =~= text.subrange(beginning.len() as int, text.len() - end.len()));
    assert(y =~= text.subrange(beginning.len() as int, text.len() - end.len()));
}

/// Whether text is the name of a temporary file: the name of the file that it is for, the process
/// and a number, between full stops.
pub open spec fn is_temp_name(text: Seq<char>, file_name: Seq<char>, pid: int, id: int) -> bool {
    exists|p: Seq<char>, q: Seq<char>| #[trigger]
        is_decimal(p, pid, 1) && #[trigger] is_decimal(q, id, 1) && text == seq!['.'] + file_name
            + seq!['.'] + p + seq!['.'] + q + seq!['.', 't', 'm', 'p']
}

/// A temporary file is named after the file that it is for. A process that hands out names counts
/// them up, and a file without a name is called `temp`.
pub proof fn law_temp_file_names(
    given: Option<&str>,
    pid: u32,
    id: u64,
    name: String,
    names: &mut TempNames,
    next: String,
    fresh: TempNames,
)
    ensures
        call_ensures(TempNames::new, (), fresh) ==> fresh.next_id == 0,
        ({
            let file_name = match given {
                Some(text) => text@,
                None => seq!['t', 'e', 'm', 'p'],
            };
            &&& call_ensures(temp_file_name, (given, pid, id), name) ==> is_temp_name(
                name@,
                file_name,
                pid as int,
                id as int,
            )
            &&& call_ensures(TempNames::next_name, (names, given, pid), next) ==> {
                &&& is_temp_name(next@, file_name, pid as int, old(names).next_id as int)
                &&& old(names).next_id < u64::MAX ==> final(names).next_id == old(names).next_id
                    + 1
                &&& old(names).next_id == u64::MAX ==> final(names).next_id == 0
            }
        }),
{
    let file_name = match given {
        Some(text) => text@,
        None => "temp"@,
    };
    reveal_strlit("temp");
    assert("temp"@ =~= seq!['t', 'e', 'm', 'p']);
    lemma_temp_name(file_name, pid, id);
    lemma_temp_name(file_name, pid, old(names).next_id);
}

proof fn lemma_temp_name(file_name: Seq<char>, pid: u32, id: u64)
    ensures
        is_temp_name(temp_name(file_name, pid, id), file_name, pid as int, id as int),
{
    lemma_decimal(pid as nat);
    lemma_decimal(id as nat);
    reveal_strlit(".");
    reveal_strlit(".tmp");
    let p = decimal(pid as nat);
    let q = decimal(id as nat);
    assert("."@ =~= seq!['.']);
    assert(".tmp"@ =~= seq!['.', 't', 'm', 'p']);
    assert(is_decimal(p, pid as int, 1) && is_decimal(q, id as int, 1));
}

/// The number that four bytes of a name make up: four digits, or a plus sign and three digits.
pub open spec fn number_at(bytes: Seq<u8>, at: int) -> Option<int> {
    let tens = 100 * (bytes[at + 1] - 48) + 10 * (bytes[at + 2] - 48) + (bytes[at + 3] - 48);
    if !(48 <= bytes[at + 1] <= 57 && 48 <= bytes[at + 2] <= 57 && 48 <= bytes[at + 3] <= 57) {
        None
    } else if 48 <= bytes[at] <= 57 {
        Some(1000 * (bytes[at] - 48) + tens)
    } else if bytes[at] == 43 {
        Some(tens)
    } else {
        None
    }
}

proof fn lemma_parsed(text: Seq<u8>)
    requires
        text.len() == 4,
    ensures
        match number_at(text, 0) {
            Some(n) => parsed_u32(text) == Some(n as u32) && 0 <= n <= 9999,
            None => parsed_u32(text) is None,
        },
{
    let digits = without_plus(text);
    if digits.len() == 4 {
        assert(digits == text);
        assert(digits.drop_last().drop_last().drop_last().drop_last().len() == 0);
    } else {
        assert(digits.len() == 3);
        assert(digits[0] == text[1] && digits[1] == text[2] && digits[2] == text[3]);
        assert(digits.drop_last().drop_last().drop_last().len() == 0);
    }
    reveal_with_fuel(digits_value, 6);
    if number_at(text, 0) is Some {
        assert(only_digits(digits));
    } else {
        assert(!only_digits(digits)) by {
            if only_digits(digits) {
                if digits.len() == 4 {
                    assert(is_digit(digits[0]) && is_digit(digits[1]) && is_digit(digits[2])
                        && is_digit(digits[3]));
                } else {
                    assert(is_digit(digits[0]) && is_digit(digits[1]) && is_digit(digits[2]));
                }
            }
        }
    }
}

/// Whether bytes begin and end with the given ones.
pub open spec fn begins_and_ends(bytes: Seq<u8>, beginning: Seq<u8>, end: Seq<u8>) -> bool {
    &&& bytes.len() >= beginning.len() + end.len()
    &&& bytes.take(beginning.len() as int) == beginning
    &&& bytes.skip(bytes.len() - end.len()) == end
}

/// A name in the header directory holds a segment number exactly if it begins with `segment_` and
/// ends with `.dat` and the four bytes behind the beginning are a number.
pub proof fn law_header_names(name: &str, id: Option<u32>)
    requires
        call_ensures(read_header_segment_id, (name,), id),
    ensures
        ({
            let bytes = encode_utf8(name@);
            let beginning = seq![115u8, 101, 103, 109, 101, 110, 116, 95];
            let fits = begins_and_ends(bytes, beginning, seq![46u8, 100, 97, 116]);
            match id {
                Some(n) => fits && number_at(bytes, 8) == Some(n as int),
                None => fits ==> number_at(bytes, 8) is None,
            }
        }),
{
    lemma_fixed_parts();
    let bytes = encode_utf8(name@);
    let beginning = encode_utf8("segment_"@);
    let end = encode_utf8(".dat"@);
    if beginning.is_prefix_of(bytes) && end.is_suffix_of(bytes) {
        lemma_no_overlap(bytes, beginning, end);
        lemma_parsed(bytes.subrange(8, 12));
        assert(bytes.take(8) =~= beginning);
        assert(bytes.skip(bytes.len() - 4) =~= end);
    } else if begins_and_ends(bytes, beginning, end) {
        assert(beginning =~= bytes.subrange(0, 8));
        assert(end =~= bytes.subrange(bytes.len() - 4, bytes.len() as int));
    }
}

/// A name in the filter directory holds a segment number exactly if it begins with
/// `filter_segment_` and ends with `.dat` and the four bytes behind the beginning are a number.
pub proof fn law_filter_names(name: &str, id: Option<u32>)
    requires
        call_ensures(read_filter_segment_id, (name,), id),
    ensures
        ({
            let bytes = encode_utf8(name@);
            let beginning = seq![102u8, 105, 108, 116, 101, 114, 95] + seq![
                115u8,
                101,
                103,
                109,
                101,
                110,
                116,
                95,
            ];
            let fits = begins_and_ends(bytes, beginning, seq![46u8, 100, 97, 116]);
            match id {
                Some(n) => fits && number_at(bytes, 15) == Some(n as int),
                None => fits ==> number_at(bytes, 15) is None,
            }
        }),
{
    lemma_fixed_parts();
    let bytes = encode_utf8(name@);
    let beginning = encode_utf8("filter_segment_"@);
    let end = encode_utf8(".dat"@);
    assert(beginning =~= seq![102u8, 105, 108, 116, 101, 114, 95] + seq![
        115u8,
        101,
        103,
        109,
        101,
        110,
        116,
        95,
    ]);
    if beginning.is_prefix_of(bytes) && end.is_suffix_of(bytes) {
        lemma_no_overlap(bytes, beginning, end);
        lemma_parsed(bytes.subrange(15, 19));
        assert(bytes.take(15) =~= beginning);
        assert(bytes.skip(bytes.len() - 4) =~= end);
    } else if begins_and_ends(bytes, beginning, end) {
        assert(beginning =~= bytes.subrange(0, 15));
        assert(end =~= bytes.subrange(bytes.len() - 4, bytes.len() as int));
    }
}

proof fn lemma_no_overlap(bytes: Seq<u8>, beginning: Seq<u8>, end: Seq<u8>)
    requires
        beginning.is_prefix_of(bytes),
        end.is_suffix_of(bytes),
        beginning.len() >= 8,
        end.len() == 4,
        beginning.last() != end[0],
        beginning.last() != end[1],
        beginning.last() != end[2],
        beginning.last() != end[3],
    ensures
        bytes.len() >= beginning.len() + 4,
{
    let k = beginning.len() - 1;
    assert(bytes.subrange(0, beginning.len() as int)[k] == bytes[k]);
    if bytes.len() < beginning.len() + 4 {
        let tail = bytes.subrange(bytes.len() - 4, bytes.len() as int);
        let j = k - (bytes.len() - 4);
        assert(tail[j] == bytes[k]);
        assert(0 <= j < 4);
    }
}

} // verus!
