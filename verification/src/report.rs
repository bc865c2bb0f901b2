//! Putting what an archive says of itself into words.
use crate::cluster::{Compression, Extent};
use crate::errors::{Error, Result};
use crate::header::header_of;
use crate::uuid::Uuid;
use crate::zim::{cluster_of, Zim};
use num_format::{Locale, ToFormattedString};
use vstd::prelude::*;
use vstd::string::{StrSliceExecFns, StringExecFns};
use vstd::utf8::{decode_utf8, valid_utf8};

verus! {

/// The character for a hexadecimal digit.
pub open spec fn hex_digit(val: int) -> char {
    if val < 10 {
        (0x30 + val) as char
    } else {
        (0x61 + val - 10) as char
    }
}

/// Two hexadecimal digits for each byte, the upper half first.
pub open spec fn hex_text(raw: Seq<u8>) -> Seq<char> {
    Seq::new(
        2 * raw.len(),
        |i: int|
            if i % 2 == 0 {
                hex_digit(raw[i / 2] as int / 16)
            } else {
                hex_digit(raw[i / 2] as int % 16)
            },
    )
}

/// Spells bytes with `hex::encode`.
///
/// Trusted: each byte yields two hexadecimal digits, the upper half first, in lower case.
#[verifier::external_body]
fn encode_hex(raw: &[u8]) -> (text: String)
    ensures
        text@ == hex_text(raw@),
{
    hex::encode(raw)
}

/// The decimal digits of a number.
pub open spec fn decimal(n: nat) -> Seq<char>
    decreases n,
{
    if n < 10 {
        seq![(0x30 + n) as char]
    } else {
        decimal(n / 10).push((0x30 + n % 10) as char)
    }
}

/// A number in decimal, with a comma between groups of three digits.
pub open spec fn grouped(n: nat) -> Seq<char>
    decreases n,
{
    if n < 1000 {
        decimal(n)
    } else {
        grouped(n / 1000) + seq![
            ',',
            (0x30 + (n / 100) % 10) as char,
            (0x30 + (n / 10) % 10) as char,
            (0x30 + n % 10) as char,
        ]
    }
}

/// Spells a number with `num_format::ToFormattedString::to_formatted_string`, as in English.
///
/// Trusted: that is in decimal, with a comma between groups of three digits.
#[verifier::external_body]
fn format_number(n: u64) -> (text: String)
    ensures
        text@ == grouped(n as nat),
{
    n.to_formatted_string(&Locale::en)
}

/// A number, for people to read.
pub fn number_text(n: u64) -> (text: String)
    ensures
        text@ == grouped(n as nat),
{
    format_number(n)
}

/// Metadata as text, where it is text. Illustrations, for one, are not.
pub fn metadata_text(raw: &[u8]) -> (text: Option<String>)
    ensures
        text is Some <==> valid_utf8(raw@),
        text matches Some(text) ==> text@ == decode_utf8(raw@),
{
    let mut bytes: Vec<u8> = Vec::new();
    bytes.extend_from_slice(raw);
    assert(bytes@ =~= raw@);
    match String::from_utf8(bytes) {
        Ok(text) => Some(text),
        Err(_) => None,
    }
}

/// An id the way it is usually written: its digits in five groups.
pub open spec fn uuid_text(raw: Seq<u8>) -> Seq<char> {
    let digits = hex_text(raw);
    digits.subrange(0, 8) + seq!['-'] + digits.subrange(8, 12) + seq!['-'] + digits.subrange(12, 16)
        + seq!['-'] + digits.subrange(16, 20) + seq!['-'] + digits.subrange(20, 32)
}

impl Uuid {
    /// The id as text.
    pub fn text(&self) -> (text: String)
        ensures
            text@ == uuid_text(self@),
    {
        let bytes = self.as_bytes();
        let digits = encode_hex(bytes.as_slice());
        let all = digits.as_str();
        let mut text = String::from_str(all.substring_char(0, 8));
        text.push('-');
        text.append(all.substring_char(8, 12));
        text.push('-');
        text.append(all.substring_char(12, 16));
        text.push('-');
        text.append(all.substring_char(16, 20));
        text.push('-');
        text.append(all.substring_char(20, 32));
        assert(text@ =~= uuid_text(self@));
        text
    }
}

/// Some cluster below `n` has this compression.
pub open spec fn uses(raw: Seq<u8>, mode: Compression, n: int) -> bool {
    exists|i: int|
        0 <= i < n && (#[trigger] cluster_of(raw, i as u32)) is Ok && cluster_of(
            raw,
            i as u32,
        )->Ok_0.compression == mode
}

/// Why some cluster below `n` cannot be opened, if one cannot: the reason of the first such.
pub open spec fn first_cluster_fault(raw: Seq<u8>, n: int) -> Option<Error>
    decreases n,
{
    if n <= 0 {
        None
    } else if first_cluster_fault(raw, n - 1) is Some {
        first_cluster_fault(raw, n - 1)
    } else {
        match cluster_of(raw, (n - 1) as u32) {
            Err(err) => Some(err),
            Ok(_) => None,
        }
    }
}

/// A fault among the first clusters is a fault among all.
proof fn lemma_fault_stays(raw: Seq<u8>, m: int, n: int)
    requires
        0 <= m <= n,
        first_cluster_fault(raw, m) is Some,
    ensures
        first_cluster_fault(raw, n) == first_cluster_fault(raw, m),
    decreases n,
{
    if m < n {
        lemma_fault_stays(raw, m, n - 1);
    }
}

/// Whether a compression is among those listed.
fn is_among(list: &Vec<Compression>, mode: Compression) -> (among: bool)
    ensures
        among == list@.contains(mode),
{
    for i in 0..list.len()
        invariant
            forall|k: int| 0 <= k < i ==> #[trigger] list@[k] != mode,
    {
        if list[i] == mode {
            assert(list@[i as int] == mode);
            return true;
        }
    }
    false
}

impl<'a> Zim<'a> {
    /// The stored checksum, in hexadecimal.
    pub fn checksum_text(&self) -> (text: String)
        requires
            self.wf(),
        ensures
            text@ == hex_text(
                self.store@.subrange(
                    self.header.checksum_pos as int,
                    self.header.checksum_pos + 16,
                ),
            ),
    {
        encode_hex(self.checksum.as_slice())
    }

    /// The compressions that the archive's clusters use, each once.
    pub fn compressions(&self) -> (r: Result<Vec<Compression>>)
        requires
            self.wf(),
        ensures
            ({
                let count = header_of(self.store@).cluster_count as int;
                match first_cluster_fault(self.store@, count) {
                    Some(err) => r == Err::<Vec<Compression>, Error>(err),
                    None => {
                        &&& r matches Ok(list)
                        &&& list@.no_duplicates()
                        &&& forall|mode: Compression| #[trigger]
                            list@.contains(mode) <==> uses(self.store@, mode, count)
                    },
                }
            }),
    {
        let ghost raw = self.store@;
        let count = self.header.cluster_count;
        let mut list: Vec<Compression> = Vec::new();
        for idx in 0..count
            invariant
                self.wf(),
                raw == self.store@,
                count == header_of(raw).cluster_count,
                first_cluster_fault(raw, idx as int) is None,
                list@.no_duplicates(),
                forall|mode: Compression| #[trigger]
                    list@.contains(mode) <==> uses(raw, mode, idx as int),
        {
            let cluster = match self.get_cluster(idx) {
                Ok(cluster) => cluster,
                Err(err) => {
                    proof {
                        lemma_fault_stays(raw, idx + 1, count as int);
                    }
                    return Err(err);
                },
            };
            let mode = cluster.compression();
            let ghost before = list@;
            if !is_among(&list, mode) {
                list.push(mode);
            }
            proof {
                assert forall|m: Compression| #[trigger]
                    list@.contains(m) <==> uses(raw, m, idx + 1) by {
                    assert(cluster_of(raw, idx as u32) is Ok);
                    if list@.contains(m) {
                        let k = choose|k: int| 0 <= k < list@.len() && list@[k] == m;
                        if k < before.len() {
                            assert(before[k] == m);
                            assert(before.contains(m));
                        }
                    }
                    if before.contains(m) {
                        let k = choose|k: int| 0 <= k < before.len() && before[k] == m;
                        assert(list@[k] == m);
                    }
                    if m == mode && !before.contains(m) {
                        assert(list@[before.len() as int] == m);
                    }
                    if uses(raw, m, idx + 1) && m != mode {
                        assert(uses(raw, m, idx as int));
                    }
                }
            }
        }
        Ok(list)
    }
}

/// The value of a hexadecimal digit.
pub open spec fn hex_value(digit: char) -> int {
    if digit <= '9' {
        digit as int - '0' as int
    } else {
        digit as int - 'a' as int + 10
    }
}

/// Bytes are read back from their digits: two for each, the upper half first, in lower case.
pub proof fn hex_digits_are_read_back(raw: Seq<u8>, i: int)
    ensures
        hex_text(raw).len() == 2 * raw.len(),
        0 <= i < raw.len() ==> {
            let upper = hex_text(raw)[2 * i];
            let lower = hex_text(raw)[2 * i + 1];
            &&& raw[i] == 16 * hex_value(upper) + hex_value(lower)
            &&& '0' <= upper <= '9' || 'a' <= upper <= 'f'
            &&& '0' <= lower <= '9' || 'a' <= lower <= 'f'
        },
{
    if 0 <= i < raw.len() {
        let upper = raw[i] as int / 16;
        let lower = raw[i] as int % 16;
        assert(hex_text(raw)[2 * i] == hex_digit(upper));
        assert(hex_text(raw)[2 * i + 1] == hex_digit(lower));
    }
}

/// The number that decimal digits spell; commas count for nothing.
pub open spec fn decimal_value(text: Seq<char>) -> int
    decreases text.len(),
{
    if text.len() == 0 {
        0
    } else if text.last() == ',' {
        decimal_value(text.drop_last())
    } else {
        10 * decimal_value(text.drop_last()) + (text.last() as int - '0' as int)
    }
}

/// A number is read back from its decimal digits. There is no digit too many in front.
pub proof fn decimals_are_read_back(n: nat)
    ensures
        decimal_value(decimal(n)) == n,
        decimal(n).len() > 0,
        forall|i: int| 0 <= i < decimal(n).len() ==> '0' <= #[trigger] decimal(n)[i] <= '9',
        n > 0 ==> decimal(n)[0] != '0',
    decreases n,
{
    if n < 10 {
        let text = decimal(n);
        assert(text.drop_last() =~= Seq::<char>::empty());
        assert(decimal_value(text.drop_last()) == 0);
        assert(text.last() == (0x30 + n) as char);
    } else {
        decimals_are_read_back(n / 10);
        let text = decimal(n);
        assert(text.drop_last() =~= decimal(n / 10));
        assert(text.last() == (0x30 + n % 10) as char);
        assert(decimal_value(text) == 10 * (n / 10) + n % 10);
        assert forall|i: int| 0 <= i < text.len() implies '0' <= #[trigger] text[i] <= '9' by {
            if i < decimal(n / 10).len() {
                assert(text[i] == decimal(n / 10)[i]);
            }
        }
    }
}

/// A number is read back from its digits with commas. The commas stand in front of every third
/// digit from the end, but not in front of the first; there is no digit too many in front.
pub proof fn grouped_numbers_are_read_back(n: nat)
    ensures
        decimal_value(grouped(n)) == n,
        grouped(n).len() > 0,
        forall|i: int|
            0 <= i < grouped(n).len() ==> {
                if (grouped(n).len() - i) % 4 == 0 {
                    #[trigger] grouped(n)[i] == ','
                } else {
                    '0' <= grouped(n)[i] <= '9'
                }
            },
        n > 0 ==> grouped(n)[0] != '0',
        grouped(n)[0] != ',',
    decreases n,
{
    let text = grouped(n);
    if n < 1000 {
        decimals_are_read_back(n);
        lemma_short_decimal(n);
        assert forall|i: int| 0 <= i < text.len() implies {
            if (text.len() - i) % 4 == 0 {
                #[trigger] text[i] == ','
            } else {
                '0' <= text[i] <= '9'
            }
        } by {
            assert('0' <= decimal(n)[i] <= '9');
        }
        assert('0' <= decimal(n)[0] <= '9');
    } else {
        let front = grouped(n / 1000);
        grouped_numbers_are_read_back(n / 1000);
        let a = (0x30 + (n / 100) % 10) as char;
        let b = (0x30 + (n / 10) % 10) as char;
        let c = (0x30 + n % 10) as char;
        assert(text.len() == front.len() + 4);
        let at = front.len() as int;
        assert(text[at] == ',');
        assert(text[at + 1] == a && text[at + 2] == b && text[at + 3] == c);
        let two = text.drop_last();
        let one = two.drop_last();
        let comma = one.drop_last();
        assert(comma.drop_last() =~= front);
        assert(decimal_value(comma) == n / 1000);
        assert(decimal_value(one) == 10 * (n / 1000) + (n / 100) % 10);
        assert(decimal_value(two) == 10 * decimal_value(one) + (n / 10) % 10);
        assert(decimal_value(text) == 10 * decimal_value(two) + n % 10);
        assert forall|i: int| 0 <= i < text.len() implies {
            if (text.len() - i) % 4 == 0 {
                #[trigger] text[i] == ','
            } else {
                '0' <= text[i] <= '9'
            }
        } by {
            if i < front.len() {
                assert(text[i] == front[i]);
            }
        }
        assert(text[0] == front[0]);
    }
}

proof fn lemma_short_decimal(n: nat)
    requires
        n < 1000,
    ensures
        decimal(n).len() <= 3,
{
    reveal_with_fuel(decimal, 3);
}

/// An id is written as its digits, with hyphens behind the eighth, the twelfth, the sixteenth and
/// the twentieth.
pub proof fn ids_are_written_in_groups(raw: Seq<u8>, i: int)
    requires
        raw.len() == 16,
        0 <= i < 36,
    ensures
        uuid_text(raw).len() == 36,
        i == 8 || i == 13 || i == 18 || i == 23 ==> uuid_text(raw)[i] == '-',
        i < 8 ==> uuid_text(raw)[i] == hex_text(raw)[i],
        8 < i < 13 ==> uuid_text(raw)[i] == hex_text(raw)[i - 1],
        13 < i < 18 ==> uuid_text(raw)[i] == hex_text(raw)[i - 2],
        18 < i < 23 ==> uuid_text(raw)[i] == hex_text(raw)[i - 3],
        23 < i ==> uuid_text(raw)[i] == hex_text(raw)[i - 4],
{
}

/// A compression is in use exactly if some cluster has it, and what is reported is why the first
/// cluster that cannot be opened cannot.
pub proof fn compressions_are_those_of_the_clusters(raw: Seq<u8>, n: u32, idx: u32)
    ensures
        cluster_of(raw, idx) matches Ok(extent) ==> idx < n ==> uses(
            raw,
            extent.compression,
            n as int,
        ),
        forall|mode: Compression| #[trigger]
            uses(raw, mode, n as int) ==> exists|i: u32|
                i < n && (#[trigger] cluster_of(raw, i)) is Ok && cluster_of(
                    raw,
                    i,
                )->Ok_0.compression == mode,
        first_cluster_fault(raw, n as int) is None ==> idx < n ==> cluster_of(raw, idx) is Ok,
        first_cluster_fault(raw, n as int) matches Some(err) ==> exists|i: u32|
            i < n && (#[trigger] cluster_of(raw, i)) == Err::<Extent, Error>(err) && forall|k: u32|
                k < i ==> (#[trigger] cluster_of(raw, k)) is Ok,
{
    if idx < n && cluster_of(raw, idx) is Ok {
        assert(cluster_of(raw, (idx as int) as u32) is Ok);
    }
    assert forall|mode: Compression| #[trigger] uses(raw, mode, n as int) implies exists|i: u32|
        i < n && (#[trigger] cluster_of(raw, i)) is Ok && cluster_of(raw, i)->Ok_0.compression
            == mode by {
        let k = choose|k: int|
            0 <= k < n && (#[trigger] cluster_of(raw, k as u32)) is Ok && cluster_of(
                raw,
                k as u32,
            )->Ok_0.compression == mode;
        assert((k as u32) < n && cluster_of(raw, k as u32) is Ok);
    }
    lemma_first_fault(raw, n as int);
}

proof fn lemma_first_fault(raw: Seq<u8>, n: int)
    requires
        0 <= n <= u32::MAX,
    ensures
        first_cluster_fault(raw, n) is None ==> forall|k: u32|
            k < n ==> (#[trigger] cluster_of(raw, k)) is Ok,
        first_cluster_fault(raw, n) matches Some(err) ==> exists|i: u32|
            i < n && (#[trigger] cluster_of(raw, i)) == Err::<Extent, Error>(err) && forall|k: u32|
                k < i ==> (#[trigger] cluster_of(raw, k)) is Ok,
    decreases n,
{
    if n > 0 {
        lemma_first_fault(raw, n - 1);
        let last = (n - 1) as u32;
        if first_cluster_fault(raw, n - 1) is None {
            if cluster_of(raw, last) is Err {
                assert(cluster_of(raw, last) == Err::<Extent, Error>(
                    first_cluster_fault(raw, n)->0,
                ));
            }
        }
    }
}

} // verus!
