//! File names: how segments and temporary files are named, and how a segment's number is read
//! back from its name.

use vstd::prelude::*;
use vstd::string::*;
use vstd::utf8::*;

verus! {

/// The character of a decimal digit.
pub open spec fn digit_char(digit: nat) -> char {
    (48 + digit) as char
}

/// `n` in decimal, without leading zeros.
pub open spec fn decimal(n: nat) -> Seq<char>
    decreases n,
{
    if n < 10 {
        seq![digit_char(n)]
    } else {
        decimal(n / 10).push(digit_char(n % 10))
    }
}

/// `n` in decimal, with zeros in front up to four digits.
pub open spec fn four_digits(n: nat) -> Seq<char> {
    let digits = decimal(n);
    if digits.len() < 4 {
        Seq::new((4 - digits.len()) as nat, |i: int| '0') + digits
    } else {
        digits
    }
}

/// Name of a block header segment file.
pub open spec fn header_segment_name(segment_id: u32) -> Seq<char> {
    "segment_"@ + four_digits(segment_id as nat) + ".dat"@
}

/// Name of a filter header segment file.
pub open spec fn filter_segment_name(segment_id: u32) -> Seq<char> {
    "filter_segment_"@ + four_digits(segment_id as nat) + ".dat"@
}

/// Path of a block header segment below the storage directory.
pub open spec fn header_segment_path(segment_id: u32) -> Seq<char> {
    "headers/"@ + header_segment_name(segment_id)
}

/// Path of a filter header segment below the storage directory.
pub open spec fn filter_segment_path(segment_id: u32) -> Seq<char> {
    "filters/"@ + filter_segment_name(segment_id)
}

/// Path of a compact filter segment below the storage directory.
pub open spec fn filter_data_segment_path(segment_id: u32) -> Seq<char> {
    "filters/filter_data_segment_"@ + four_digits(segment_id as nat) + ".seg"@
}

/// Name of the temporary file that a write goes through.
pub open spec fn temp_name(file_name: Seq<char>, pid: u32, unique_id: u64) -> Seq<char> {
    "."@ + file_name + "."@ + decimal(pid as nat) + "."@ + decimal(unique_id as nat) + ".tmp"@
}

fn digit_text(digit: u64) -> (text: &'static str)
    requires
        digit < 10,
    ensures
        text@ == seq![digit_char(digit as nat)],
{
    proof {
        reveal_strlit("0");
        reveal_strlit("1");
        reveal_strlit("2");
        reveal_strlit("3");
        reveal_strlit("4");
        reveal_strlit("5");
        reveal_strlit("6");
        reveal_strlit("7");
        reveal_strlit("8");
        reveal_strlit("9");
    }
    let text = match digit {
        0 => "0",
        1 => "1",
        2 => "2",
        3 => "3",
        4 => "4",
        5 => "5",
        6 => "6",
        7 => "7",
        8 => "8",
        _ => "9",
    };
    assert(text@ =~= seq![digit_char(digit as nat)]);
    text
}

/// Writes a number in decimal.
pub fn decimal_text(n: u64) -> (text: String)
    ensures
        text@ == decimal(n as nat),
    decreases n,
{
    if n < 10 {
        digit_text(n).to_owned()
    } else {
        let mut text = decimal_text(n / 10);
        text.append(digit_text(n % 10));
        assert(text@ =~= decimal(n as nat));
        text
    }
}

/// The number of digits of a number below ten thousand.
proof fn lemma_decimal_len(n: nat)
    ensures
        n < 10 ==> decimal(n).len() == 1,
        10 <= n < 100 ==> decimal(n).len() == 2,
        100 <= n < 1000 ==> decimal(n).len() == 3,
        1000 <= n < 10000 ==> decimal(n).len() == 4,
        10000 <= n ==> decimal(n).len() > 4,
    decreases n,
{
    if n >= 10 {
        lemma_decimal_len(n / 10);
    }
}

/// Writes a number in decimal, with zeros in front up to four digits.
pub fn four_digit_text(n: u32) -> (text: String)
    ensures
        text@ == four_digits(n as nat),
{
    proof {
        lemma_decimal_len(n as nat);
        reveal_strlit("0");
    }
    let mut text = String::new();
    if n < 1000 {
        text.append("0");
    }
    if n < 100 {
        text.append("0");
    }
    if n < 10 {
        text.append("0");
    }
    let digits = decimal_text(n as u64);
    text.append(digits.as_str());
    assert(text@ =~= four_digits(n as nat));
    text
}

/// Writes the path of a block header segment below the storage directory.
pub fn header_segment_path_text(segment_id: u32) -> (path: String)
    ensures
        path@ == header_segment_path(segment_id),
{
    let mut path = "headers/".to_owned();
    path.append("segment_");
    let digits = four_digit_text(segment_id);
    path.append(digits.as_str());
    path.append(".dat");
    assert(path@ =~= header_segment_path(segment_id));
    path
}

/// Writes the path of a filter header segment below the storage directory.
pub fn filter_segment_path_text(segment_id: u32) -> (path: String)
    ensures
        path@ == filter_segment_path(segment_id),
{
    let mut path = "filters/".to_owned();
    path.append("filter_segment_");
    let digits = four_digit_text(segment_id);
    path.append(digits.as_str());
    path.append(".dat");
    assert(path@ =~= filter_segment_path(segment_id));
    path
}

/// Writes the path of a compact filter segment below the storage directory.
pub fn filter_data_segment_path_text(segment_id: u32) -> (path: String)
    ensures
        path@ == filter_data_segment_path(segment_id),
{
    let mut path = "filters/filter_data_segment_".to_owned();
    let digits = four_digit_text(segment_id);
    path.append(digits.as_str());
    path.append(".seg");
    path
}

/// Names the temporary file for a write to `file_name`, or to a file without a name.
///
/// The process number and a counter make the name unique, see [`law_temp_names_distinct`].
pub fn temp_file_name(file_name: Option<&str>, pid: u32, unique_id: u64) -> (name: String)
    ensures
        name@ == temp_name(
            match file_name {
                Some(given) => given@,
                None => "temp"@,
            },
            pid,
            unique_id,
        ),
{
    let mut name = ".".to_owned();
    match file_name {
        Some(given) => name.append(given),
        None => name.append("temp"),
    }
    name.append(".");
    let pid_text = decimal_text(pid as u64);
    name.append(pid_text.as_str());
    name.append(".");
    let id_text = decimal_text(unique_id);
    name.append(id_text.as_str());
    name.append(".tmp");
    name
}

/// The names of temporary files that a process hands out.
#[derive(Debug)]
pub struct TempNames {
    /// The number of the next name.
    pub next_id: u64,
}

/// The number that a call draws, the calls being counted from 0.
pub open spec fn drawn_id(first_id: u64, call: nat) -> u64 {
    ((first_id + call) % 0x1_0000_0000_0000_0000) as u64
}

impl TempNames {
    /// Names that are numbered from 0.
    pub fn new() -> (names: Self)
        ensures
            names.next_id == 0,
    {
        TempNames { next_id: 0 }
    }

    /// Names the temporary file for a write to `file_name`, with a number that was not used before.
    ///
    /// After 2^64 names the numbers begin again.
    pub fn next_name(&mut self, file_name: Option<&str>, pid: u32) -> (name: String)
        ensures
            name@ == temp_name(
                match file_name {
                    Some(given) => given@,
                    None => "temp"@,
                },
                pid,
                old(self).next_id,
            ),
            final(self).next_id == drawn_id(old(self).next_id, 1),
    {
        let unique_id: u64 = self.next_id;
        self.next_id = if unique_id == u64::MAX {
            0
        } else {
            unique_id + 1
        };
        temp_file_name(file_name, pid, unique_id)
    }
}

/// The numbers that successive calls draw are those of [`drawn_id`].
pub proof fn law_calls_draw_in_turn(first_id: u64, call: nat)
    ensures
        drawn_id(first_id, 0) == first_id,
        drawn_id(drawn_id(first_id, call), 1) == drawn_id(first_id, call + 1),
{
}

/// No two of fewer than 2^64 calls in a process name the same temporary file, whatever files they
/// are for, and no temporary file has the name of the file that it is for.
pub proof fn law_no_name_is_given_twice(
    first_id: u64,
    pid: u32,
    name_a: Seq<char>,
    call_a: nat,
    name_b: Seq<char>,
    call_b: nat,
)
    requires
        call_a < call_b < 0x1_0000_0000_0000_0000,
    ensures
        temp_name(name_a, pid, drawn_id(first_id, call_a)) != temp_name(
            name_b,
            pid,
            drawn_id(first_id, call_b),
        ),
        temp_name(name_a, pid, drawn_id(first_id, call_a)) != name_a,
{
    let id_a = drawn_id(first_id, call_a);
    let id_b = drawn_id(first_id, call_b);
    if temp_name(name_a, pid, id_a) == temp_name(name_b, pid, id_b) {
        law_temp_names_distinct(name_a, pid, id_a, name_b, pid, id_b);
    }
    reveal_strlit(".");
    assert(temp_name(name_a, pid, id_a).len() > name_a.len());
}

/// Whether every character is a decimal digit.
spec fn all_digits(s: Seq<char>) -> bool {
    forall|i: int| 0 <= i < s.len() ==> '0' <= #[trigger] s[i] <= '9'
}

proof fn lemma_decimal_digits(n: nat)
    ensures
        all_digits(decimal(n)),
        decimal(n).len() > 0,
    decreases n,
{
    if n >= 10 {
        lemma_decimal_digits(n / 10);
    }
}

proof fn lemma_decimal_injective(m: nat, n: nat)
    requires
        decimal(m) == decimal(n),
    ensures
        m == n,
    decreases m,
{
    lemma_decimal_digits(m / 10);
    lemma_decimal_digits(n / 10);
    if m < 10 {
        if n >= 10 {
            assert(decimal(n).len() > 1);
        }
        assert(decimal(m)[0] == digit_char(m) && decimal(n)[0] == digit_char(n));
    } else {
        if n < 10 {
            assert(decimal(m).len() > 1);
        }
        assert(decimal(m).last() == digit_char(m % 10) && decimal(n).last() == digit_char(n % 10));
        assert(decimal(m).drop_last() =~= decimal(m / 10));
        assert(decimal(n).drop_last() =~= decimal(n / 10));
        lemma_decimal_injective(m / 10, n / 10);
    }
}

/// Text after the last full stop tells the text before it apart.
proof fn lemma_split_at_last_stop(a: Seq<char>, x: Seq<char>, b: Seq<char>, y: Seq<char>)
    requires
        all_digits(x),
        all_digits(y),
        a + seq!['.'] + x == b + seq!['.'] + y,
    ensures
        a == b,
        x == y,
{
    let s = a + seq!['.'] + x;
    let t = b + seq!['.'] + y;
    assert(s.len() == a.len() + 1 + x.len());
    assert(t.len() == b.len() + 1 + y.len());
    assert(s[a.len() as int] == '.');
    assert(t[b.len() as int] == '.');
    if a.len() < b.len() {
        assert(s[b.len() as int] == x[b.len() - a.len() - 1]);
    } else if a.len() > b.len() {
        assert(t[a.len() as int] == y[a.len() - b.len() - 1]);
    }
    assert(a.len() == b.len());
    assert(a =~= s.subrange(0, a.len() as int));
    assert(b =~= t.subrange(0, b.len() as int));
    assert(x =~= s.skip(a.len() as int + 1));
    assert(y =~= t.skip(b.len() as int + 1));
}

/// Two writes share a temporary file name only if they have the same target name, process and
/// counter: with a counter that never repeats in a process, each write has a file of its own.
pub proof fn law_temp_names_distinct(
    name_a: Seq<char>,
    pid_a: u32,
    id_a: u64,
    name_b: Seq<char>,
    pid_b: u32,
    id_b: u64,
)
    requires
        temp_name(name_a, pid_a, id_a) == temp_name(name_b, pid_b, id_b),
    ensures
        name_a == name_b,
        pid_a == pid_b,
        id_a == id_b,
{
    reveal_strlit(".");
    reveal_strlit(".tmp");
    lemma_decimal_digits(pid_a as nat);
    lemma_decimal_digits(pid_b as nat);
    lemma_decimal_digits(id_a as nat);
    lemma_decimal_digits(id_b as nat);
    assert("."@ =~= seq!['.']);
    let s = temp_name(name_a, pid_a, id_a);
    let t = temp_name(name_b, pid_b, id_b);
    let head_a = "."@ + name_a + "."@ + decimal(pid_a as nat);
    let head_b = "."@ + name_b + "."@ + decimal(pid_b as nat);
    assert(s.subrange(0, s.len() - 4) =~= head_a + seq!['.'] + decimal(id_a as nat));
    assert(t.subrange(0, t.len() - 4) =~= head_b + seq!['.'] + decimal(id_b as nat));
    lemma_split_at_last_stop(head_a, decimal(id_a as nat), head_b, decimal(id_b as nat));
    lemma_decimal_injective(id_a as nat, id_b as nat);
    lemma_split_at_last_stop(
        "."@ + name_a,
        decimal(pid_a as nat),
        "."@ + name_b,
        decimal(pid_b as nat),
    );
    lemma_decimal_injective(pid_a as nat, pid_b as nat);
    assert(name_a =~= ("."@ + name_a).skip(1));
    assert(name_b =~= ("."@ + name_b).skip(1));
}

/// Whether a byte is an ASCII decimal digit.
pub open spec fn is_digit(b: u8) -> bool {
    48 <= b <= 57
}

/// The number that a run of ASCII digits stands for.
pub open spec fn digits_value(digits: Seq<u8>) -> nat
    decreases digits.len(),
{
    if digits.len() == 0 {
        0
    } else {
        (digits_value(digits.drop_last()) * 10 + (digits.last() - 48)) as nat
    }
}

/// Text without the plus sign that may stand in front.
pub open spec fn without_plus(text: Seq<u8>) -> Seq<u8> {
    if text.len() > 0 && text[0] == 43 {
        text.skip(1)
    } else {
        text
    }
}

/// Whether text is made of ASCII digits.
pub open spec fn only_digits(text: Seq<u8>) -> bool {
    forall|i: int| 0 <= i < text.len() ==> is_digit(#[trigger] text[i])
}

/// A 32-bit number in decimal, with an optional plus sign in front.
pub open spec fn parsed_u32(text: Seq<u8>) -> Option<u32> {
    let digits = without_plus(text);
    if digits.len() > 0 && only_digits(digits) && digits_value(digits) <= u32::MAX {
        Some(digits_value(digits) as u32)
    } else {
        None
    }
}

/// Whether a name has the given beginning and end.
pub open spec fn framed(name: Seq<u8>, prefix: Seq<u8>, suffix: Seq<u8>) -> bool {
    prefix.is_prefix_of(name) && suffix.is_suffix_of(name)
}

/// The number in the four bytes after `prefix`, if the name has the given beginning and end and
/// those bytes are a number.
pub open spec fn number_in_name(name: Seq<u8>, prefix: Seq<u8>, suffix: Seq<u8>) -> Option<u32> {
    if framed(name, prefix, suffix) {
        parsed_u32(name.subrange(prefix.len() as int, prefix.len() as int + 4))
    } else {
        None
    }
}

/// Whether the four bytes after `prefix` end between two characters.
pub open spec fn number_ends_at_char(name: Seq<u8>, prefix: Seq<u8>, suffix: Seq<u8>) -> bool {
    framed(name, prefix, suffix) ==> is_char_boundary(name, prefix.len() as int + 4)
}

/// The segment number that a name in the header directory holds.
pub open spec fn header_segment_id(name: Seq<char>) -> Option<u32> {
    number_in_name(encode_utf8(name), encode_utf8("segment_"@), encode_utf8(".dat"@))
}

/// The segment number that a name in the filter directory holds.
pub open spec fn filter_segment_id(name: Seq<char>) -> Option<u32> {
    number_in_name(encode_utf8(name), encode_utf8("filter_segment_"@), encode_utf8(".dat"@))
}

/// Whether [`read_header_segment_id`] accepts a name.
pub open spec fn header_name_readable(name: Seq<char>) -> bool {
    number_ends_at_char(encode_utf8(name), encode_utf8("segment_"@), encode_utf8(".dat"@))
}

/// Whether [`read_filter_segment_id`] accepts a name.
pub open spec fn filter_name_readable(name: Seq<char>) -> bool {
    number_ends_at_char(encode_utf8(name), encode_utf8("filter_segment_"@), encode_utf8(".dat"@))
}

fn starts_with(name: &[u8], prefix: &[u8]) -> (starts: bool)
    ensures
        starts == prefix@.is_prefix_of(name@),
{
    if name.len() < prefix.len() {
        return false;
    }
    let mut i: usize = 0;
    while i < prefix.len()
        invariant
            i <= prefix.len() <= name.len(),
            forall|j: int| 0 <= j < i ==> prefix@[j] == name@[j],
        decreases prefix.len() - i,
    {
        if name[i] != prefix[i] {
            assert(name@.subrange(0, prefix@.len() as int)[i as int] != prefix@[i as int]);
            return false;
        }
        i += 1;
    }
    assert(prefix@ =~= name@.subrange(0, prefix@.len() as int));
    true
}

fn ends_with(name: &[u8], suffix: &[u8]) -> (ends: bool)
    ensures
        ends == suffix@.is_suffix_of(name@),
{
    if name.len() < suffix.len() {
        return false;
    }
    let start: usize = name.len() - suffix.len();
    let mut i: usize = 0;
    while i < suffix.len()
        invariant
            i <= suffix.len() <= name.len(),
            start == name.len() - suffix.len(),
            forall|j: int| 0 <= j < i ==> suffix@[j] == name@[start + j],
        decreases suffix.len() - i,
    {
        if name[start + i] != suffix[i] {
            assert(name@.subrange(start as int, name@.len() as int)[i as int]
                != suffix@[i as int]);
            return false;
        }
        i += 1;
    }
    assert(suffix@ =~= name@.subrange(start as int, name@.len() as int));
    true
}

/// Reads a four-byte decimal number.
fn parse_four(text: &[u8], at: usize) -> (number: Option<u32>)
    requires
        at + 4 <= text.len(),
    ensures
        number == parsed_u32(text@.subrange(at as int, at + 4)),
{
    let ghost four = text@.subrange(at as int, at + 4);
    let end: usize = at + 4;
    let start: usize = if text[at] == 43 {
        at + 1
    } else {
        at
    };
    let ghost digits = text@.subrange(start as int, end as int);
    proof {
        if start > at {
            assert(digits =~= four.skip(1));
        } else {
            assert(digits =~= four);
        }
    }
    let mut value: u32 = 0;
    let mut i: usize = start;
    let ghost mut bound: nat = 1;
    while i < end
        invariant
            end == at + 4,
            end <= text.len(),
            start <= i <= end <= start + 4,
            digits == text@.subrange(start as int, end as int),
            four == text@.subrange(at as int, at + 4),
            digits == without_plus(four),
            forall|j: int| 0 <= j < i - start ==> is_digit(#[trigger] digits[j]),
            value == digits_value(digits.take(i - start)),
            value < bound,
            i - start == 0 ==> bound == 1,
            i - start == 1 ==> bound == 10,
            i - start == 2 ==> bound == 100,
            i - start == 3 ==> bound == 1000,
            i - start == 4 ==> bound == 10000,
        decreases end - i,
    {
        let b: u8 = text[i];
        assert(b == digits[i - start]);
        if b < 48 || b > 57 {
            assert(!is_digit(digits[i - start]));
            return None;
        }
        assert(digits.take(i - start + 1).drop_last() =~= digits.take(i - start));
        value = value * 10 + (b - 48) as u32;
        i += 1;
        proof {
            bound = bound * 10;
        }
    }
    assert(digits.take(end - start) =~= digits);
    Some(value)
}

fn read_number(name: &str, prefix: &str, suffix: &str) -> (number: Option<u32>)
    requires
        encode_utf8(suffix@).len() == 4,
        encode_utf8(suffix@)[0] == 46,
        forall|i: int|
            0 <= i < encode_utf8(prefix@).len() ==> #[trigger] encode_utf8(prefix@)[i] != 46,
    ensures
        number == number_in_name(encode_utf8(name@), encode_utf8(prefix@), encode_utf8(suffix@)),
{
    let name_bytes = name.as_bytes();
    let prefix_bytes = prefix.as_bytes();
    let suffix_bytes = suffix.as_bytes();
    if !starts_with(name_bytes, prefix_bytes) || !ends_with(name_bytes, suffix_bytes) {
        return None;
    }
    proof {
        let n = name_bytes@;
        let stop = n.len() - 4;
        assert(n.subrange(stop, n.len() as int)[0] == n[stop]);
        if stop < prefix_bytes@.len() {
            assert(n.subrange(0, prefix_bytes@.len() as int)[stop] == n[stop]);
        }
    }
    parse_four(name_bytes, prefix_bytes.len())
}

/// The bytes of the fixed parts of segment file names.
pub proof fn lemma_fixed_parts()
    ensures
        encode_utf8(".dat"@) == seq![46u8, 100, 97, 116],
        encode_utf8("segment_"@) == seq![115u8, 101, 103, 109, 101, 110, 116, 95],
        encode_utf8("filter_segment_"@) == seq![
            102u8,
            105,
            108,
            116,
            101,
            114,
            95,
            115,
            101,
            103,
            109,
            101,
            110,
            116,
            95,
        ],
{
    reveal_strlit(".dat");
    reveal_strlit("segment_");
    reveal_strlit("filter_segment_");
    is_ascii_chars_encode_utf8(".dat"@);
    is_ascii_chars_encode_utf8("segment_"@);
    is_ascii_chars_encode_utf8("filter_segment_"@);
    assert(encode_utf8(".dat"@) =~= seq![46u8, 100, 97, 116]);
    assert(encode_utf8("segment_"@) =~= seq![115u8, 101, 103, 109, 101, 110, 116, 95]);
    assert(encode_utf8("filter_segment_"@) =~= seq![
        102u8,
        105,
        108,
        116,
        101,
        114,
        95,
        115,
        101,
        103,
        109,
        101,
        110,
        116,
        95,
    ]);
}

/// Reads the segment number from a name in the header directory.
pub fn read_header_segment_id(name: &str) -> (segment_id: Option<u32>)
    requires
        header_name_readable(name@),
    ensures
        segment_id == header_segment_id(name@),
{
    proof {
        lemma_fixed_parts();
    }
    read_number(name, "segment_", ".dat")
}

/// Reads the segment number from a name in the filter directory.
pub fn read_filter_segment_id(name: &str) -> (segment_id: Option<u32>)
    requires
        filter_name_readable(name@),
    ensures
        segment_id == filter_segment_id(name@),
{
    proof {
        lemma_fixed_parts();
    }
    read_number(name, "filter_segment_", ".dat")
}

/// The bytes of ASCII text.
spec fn ascii(text: Seq<char>) -> Seq<u8> {
    Seq::new(text.len(), |i: int| text[i] as u8)
}

proof fn lemma_decimal_value(n: nat)
    ensures
        digits_value(ascii(decimal(n))) == n,
    decreases n,
{
    let bytes = ascii(decimal(n));
    if n < 10 {
        assert(bytes.drop_last() =~= Seq::<u8>::empty());
        assert(bytes.last() == 48 + n);
        reveal_with_fuel(digits_value, 2);
    } else {
        lemma_decimal_value(n / 10);
        assert(bytes.drop_last() =~= ascii(decimal(n / 10)));
        assert(bytes.last() == 48 + n % 10);
    }
}

/// Zeros in front do not change a number.
proof fn lemma_leading_zeros(zeros: Seq<u8>, digits: Seq<u8>)
    requires
        forall|i: int| 0 <= i < zeros.len() ==> #[trigger] zeros[i] == 48,
    ensures
        digits_value(zeros + digits) == digits_value(digits),
    decreases zeros.len() + digits.len(),
{
    let all = zeros + digits;
    if digits.len() > 0 {
        assert(all.drop_last() =~= zeros + digits.drop_last());
        lemma_leading_zeros(zeros, digits.drop_last());
    } else if zeros.len() > 0 {
        assert(all.drop_last() =~= zeros.drop_last() + digits);
        lemma_leading_zeros(zeros.drop_last(), digits);
    }
}

proof fn lemma_four_digits(n: nat)
    requires
        n < 10000,
    ensures
        four_digits(n).len() == 4,
        all_digits(four_digits(n)),
        parsed_u32(ascii(four_digits(n))) == Some(n as u32),
{
    lemma_decimal_len(n);
    lemma_decimal_digits(n);
    lemma_decimal_value(n);
    let zeros = Seq::new((4 - decimal(n).len()) as nat, |i: int| '0');
    assert(four_digits(n) =~= zeros + decimal(n));
    let bytes = ascii(four_digits(n));
    assert(bytes =~= ascii(zeros) + ascii(decimal(n)));
    lemma_leading_zeros(ascii(zeros), ascii(decimal(n)));
    assert forall|i: int| 0 <= i < bytes.len() implies is_digit(#[trigger] bytes[i]) by {
        assert('0' <= four_digits(n)[i] <= '9');
    }
}

proof fn lemma_number_in_framed_name(prefix: Seq<char>, n: nat)
    requires
        n < 10000,
        is_ascii_chars(prefix),
    ensures
        number_in_name(
            encode_utf8(prefix + four_digits(n) + ".dat"@),
            encode_utf8(prefix),
            encode_utf8(".dat"@),
        ) == Some(n as u32),
        number_ends_at_char(
            encode_utf8(prefix + four_digits(n) + ".dat"@),
            encode_utf8(prefix),
            encode_utf8(".dat"@),
        ),
{
    reveal_strlit(".dat");
    lemma_four_digits(n);
    let name = prefix + four_digits(n) + ".dat"@;
    assert forall|i: int| 0 <= i < name.len() implies (name[i] as nat) <= 0x7f by {
        if i < prefix.len() {
            assert(name[i] == prefix[i]);
        } else if i < prefix.len() + 4 {
            assert(name[i] == four_digits(n)[i - prefix.len()]);
        } else {
            assert(name[i] == ".dat"@[i - prefix.len() - 4]);
        }
    }
    is_ascii_chars_encode_utf8(name);
    is_ascii_chars_encode_utf8(prefix);
    is_ascii_chars_encode_utf8(".dat"@);
    let bytes = encode_utf8(name);
    assert(bytes =~= ascii(name));
    assert(encode_utf8(prefix) =~= bytes.subrange(0, prefix.len() as int));
    assert(encode_utf8(".dat"@) =~= bytes.skip(prefix.len() as int + 4));
    assert(ascii(four_digits(n)) =~= bytes.subrange(prefix.len() as int, prefix.len() as int + 4));
    encode_utf8_valid_utf8(name);
    is_char_boundary_iff_not_is_continuation_byte(bytes, prefix.len() as int + 4);
    assert(bytes[prefix.len() as int + 4] == 46);
}

/// A segment's number is read back from the name of its file, for every segment whose number has
/// at most four digits.
pub proof fn law_segment_names_read_back(segment_id: u32)
    requires
        segment_id < 10000,
    ensures
        header_segment_id(header_segment_name(segment_id)) == Some(segment_id),
        header_name_readable(header_segment_name(segment_id)),
        filter_segment_id(filter_segment_name(segment_id)) == Some(segment_id),
        filter_name_readable(filter_segment_name(segment_id)),
{
    reveal_strlit("segment_");
    reveal_strlit("filter_segment_");
    lemma_number_in_framed_name("segment_"@, segment_id as nat);
    lemma_number_in_framed_name("filter_segment_"@, segment_id as nat);
}

} // verus!
