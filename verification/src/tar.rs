//! Writing a tar archive: headers of 512 bytes, contents padded to 512 bytes.
use vstd::arithmetic::power::pow;
use vstd::prelude::*;
use vstd::slice::slice_subrange;
use vstd::utf8::encode_utf8;

use crate::numeral::{lemma_numeral_len, numeral, padded_numeral, zero_padded};
use crate::text::push_bytes;

verus! {

/// The largest content that the size field of a header can hold.
pub const MAX_ENTRY_LEN: u64 = 8589934591;

/// Why an entry cannot be written.
#[derive(Debug)]
pub enum TarError {
    /// The path takes more than 100 bytes.
    PathTooLong,
    /// The content is larger than the size field can say.
    EntryTooLarge,
}

/// The low bytes of the given characters.
pub open spec fn ascii(s: Seq<char>) -> Seq<u8> {
    s.map_values(|c: char| c as u8)
}

pub open spec fn zeros(n: nat) -> Seq<u8> {
    Seq::new(n, |i: int| 0u8)
}

pub open spec fn spaces(n: nat) -> Seq<u8> {
    Seq::new(n, |i: int| 32u8)
}

/// How many bytes bring `position` to the next multiple of 512.
pub open spec fn padding(position: int) -> int {
    (512 - position % 512) % 512
}

/// An octal number that fills a field, with zeros before it and a zero byte at the end. The zero
/// byte takes the place of the last digit of a number that is as long as the field.
pub open spec fn octal_field(value: nat, width: nat) -> Seq<u8> {
    ascii(zero_padded(numeral(value, 8), (width - 1) as nat).take(width - 1)).push(0u8)
}

/// The sum of the given bytes.
pub open spec fn byte_sum(s: Seq<u8>) -> nat
    decreases s.len(),
{
    if s.len() == 0 {
        0
    } else {
        byte_sum(s.drop_last()) + s.last() as nat
    }
}

/// Six octal digits, a zero byte and a space. Of a longer number the seventh digit gives way to
/// the zero byte, and an eighth takes the place of the space.
pub open spec fn checksum_field(sum: nat) -> Seq<u8> {
    let digits = zero_padded(numeral(sum, 8), 6);
    ascii(digits.take(6)).push(0u8).push(
        if digits.len() == 8 {
            digits[7] as u8
        } else {
            32u8
        },
    )
}

/// What stands before the checksum: name, mode, owner, group, size and time.
pub open spec fn header_front(path: Seq<u8>, len: nat) -> Seq<u8> {
    path + zeros((100 - path.len()) as nat) + octal_field(420, 8) + octal_field(0, 8)
        + octal_field(0, 8) + octal_field(len, 12) + octal_field(0, 12)
}

/// What stands behind the checksum: the type of a plain file, no link, the format's magic.
pub open spec fn header_back() -> Seq<u8> {
    seq![48u8] + zeros(100) + seq![117u8, 115u8, 116u8, 97u8, 114u8, 0u8, 48u8, 48u8] + zeros(247)
}

/// A header; its checksum is taken with the checksum field full of spaces.
#[verifier::opaque]
pub open spec fn header(path: Seq<u8>, len: nat) -> Seq<u8> {
    let sum = byte_sum(header_front(path, len) + spaces(8) + header_back());
    header_front(path, len) + checksum_field(sum) + header_back()
}

/// One entry: header, content, padding.
pub open spec fn tar_entry(path: Seq<u8>, content: Seq<u8>) -> Seq<u8> {
    header(path, content.len()) + content + zeros(padding(content.len() as int) as nat)
}

pub proof fn lemma_byte_sum_concat(a: Seq<u8>, b: Seq<u8>)
    ensures
        byte_sum(a + b) == byte_sum(a) + byte_sum(b),
    decreases b.len(),
{
    if b.len() == 0 {
        assert(a + b =~= a);
    } else {
        lemma_byte_sum_concat(a, b.drop_last());
        assert((a + b).drop_last() =~= a + b.drop_last());
    }
}

pub proof fn lemma_byte_sum_bound(s: Seq<u8>)
    ensures
        byte_sum(s) <= 255 * s.len(),
    decreases s.len(),
{
    if s.len() > 0 {
        lemma_byte_sum_bound(s.drop_last());
    }
}

/// Twelve-byte fields hold every length up to the limit in eleven digits.
pub proof fn lemma_octal_len(value: nat, k: nat)
    requires
        k == 6 && value < 262144 || k == 7 && value < 2097152 || k == 11 && value
            <= MAX_ENTRY_LEN,
    ensures
        1 <= numeral(value, 8).len() <= k,
{
    assert(pow(8, 6) == 262144 && pow(8, 7) == 2097152 && pow(8, 11) == 8589934592) by {
        reveal_with_fuel(pow, 12);
    }
    lemma_numeral_len(value, 8, k);
}

pub proof fn lemma_header_front_len(path: Seq<u8>, len: nat)
    requires
        path.len() <= 100,
        len <= MAX_ENTRY_LEN,
    ensures
        header_front(path, len).len() == 148,
{
    lemma_octal_len(420, 7);
    lemma_octal_len(0, 7);
    lemma_octal_len(0, 11);
    lemma_octal_len(len, 11);
}

pub proof fn lemma_header_len(path: Seq<u8>, len: nat)
    requires
        path.len() <= 100,
        len <= MAX_ENTRY_LEN,
    ensures
        header(path, len).len() == 512,
        byte_sum(header_front(path, len) + spaces(8) + header_back()) < 262144,
{
    reveal(header);
    lemma_header_front_len(path, len);
    let unsummed = header_front(path, len) + spaces(8) + header_back();
    lemma_byte_sum_bound(unsummed);
    lemma_octal_len(byte_sum(unsummed), 6);
}

/// An entry fills whole blocks.
pub proof fn lemma_entry_len(path: Seq<u8>, content: Seq<u8>)
    requires
        path.len() <= 100,
        content.len() <= MAX_ENTRY_LEN,
    ensures
        tar_entry(path, content).len() == 512 + content.len() + padding(content.len() as int),
        tar_entry(path, content).len() % 512 == 0,
{
    lemma_header_len(path, content.len());
}

/// Appends the low bytes of the given characters.
pub fn push_ascii(out: &mut Vec<u8>, s: &[char])
    ensures
        final(out)@ == old(out)@ + ascii(s@),
{
    let ghost start = out@;
    let mut i: usize = 0;
    while i < s.len()
        invariant
            i <= s@.len(),
            out@ == start + ascii(s@.take(i as int)),
        decreases s@.len() - i,
    {
        out.push(s[i] as u8);
        assert(out@ =~= start + ascii(s@.take(i + 1)));
        i += 1;
    }
    assert(s@.take(i as int) == s@);
}

fn push_zeros(out: &mut Vec<u8>, n: usize)
    ensures
        final(out)@ == old(out)@ + zeros(n as nat),
{
    let ghost start = out@;
    let mut i: usize = 0;
    while i < n
        invariant
            i <= n,
            out@ == start + zeros(i as nat),
        decreases n - i,
    {
        out.push(0);
        assert(out@ =~= start + zeros((i + 1) as nat));
        i += 1;
    }
}

/// Appends an octal number that fills a field of `width` bytes.
pub fn write_tar_octal(out: &mut Vec<u8>, width: usize, value: u64)
    requires
        width > 0,
        numeral(value as nat, 8).len() <= width,
    ensures
        final(out)@ == old(out)@ + octal_field(value as nat, width as nat),
        final(out)@.len() == old(out)@.len() + width,
{
    let digits = padded_numeral(value, 8, width - 1);
    push_ascii(out, slice_subrange(&digits, 0, width - 1));
    out.push(0);
    assert(out@ =~= old(out)@ + octal_field(value as nat, width as nat));
}

/// Appends the checksum field of a header.
pub fn write_tar_checksum(out: &mut Vec<u8>, checksum: u32)
    requires
        numeral(checksum as nat, 8).len() <= 8,
    ensures
        final(out)@ == old(out)@ + checksum_field(checksum as nat),
        final(out)@.len() == old(out)@.len() + 8,
{
    let digits = padded_numeral(checksum as u64, 8, 6);
    push_ascii(out, slice_subrange(&digits, 0, 6));
    out.push(0);
    if digits.len() == 8 {
        out.push(digits[7] as u8);
    } else {
        out.push(32);
    }
    assert(out@ =~= old(out)@ + checksum_field(checksum as nat));
}

fn sum_bytes(s: &[u8]) -> (sum: u32)
    requires
        s@.len() <= 512,
    ensures
        sum == byte_sum(s@),
{
    let mut sum: u32 = 0;
    let mut i: usize = 0;
    while i < s.len()
        invariant
            i <= s@.len() <= 512,
            sum == byte_sum(s@.take(i as int)),
        decreases s@.len() - i,
    {
        proof {
            assert(s@.take(i + 1).drop_last() == s@.take(i as int));
            lemma_byte_sum_bound(s@.take(i as int));
        }
        sum += s[i] as u32;
        i += 1;
    }
    assert(s@.take(i as int) == s@);
    sum
}

fn push_header(tar: &mut Vec<u8>, path: &[u8], len: u64)
    requires
        path@.len() <= 100,
        len <= MAX_ENTRY_LEN,
    ensures
        final(tar)@ == old(tar)@ + header(path@, len as nat),
{
    proof {
        lemma_octal_len(420, 7);
        lemma_octal_len(0, 7);
        lemma_octal_len(0, 11);
        lemma_octal_len(len as nat, 11);
    }
    let mut front: Vec<u8> = Vec::new();
    push_bytes(&mut front, path);
    push_zeros(&mut front, 100 - path.len());
    write_tar_octal(&mut front, 8, 420);
    write_tar_octal(&mut front, 8, 0);
    write_tar_octal(&mut front, 8, 0);
    write_tar_octal(&mut front, 12, len);
    write_tar_octal(&mut front, 12, 0);
    assert(front@ =~= header_front(path@, len as nat));

    let mut back: Vec<u8> = Vec::new();
    back.push(48);
    push_zeros(&mut back, 100);
    back.push(117);
    back.push(115);
    back.push(116);
    back.push(97);
    back.push(114);
    back.push(0);
    back.push(48);
    back.push(48);
    push_zeros(&mut back, 247);
    assert(back@ =~= header_back());

    proof {
        reveal(header);
        lemma_header_front_len(path@, len as nat);
        lemma_header_len(path@, len as nat);
        lemma_byte_sum_concat(front@ + spaces(8), back@);
        lemma_byte_sum_concat(front@, spaces(8));
        lemma_byte_sum_bound(front@);
        lemma_byte_sum_bound(back@);
        assert(byte_sum(spaces(8)) == 256) by {
            reveal_with_fuel(byte_sum, 9);
            assert(spaces(8).drop_last() =~= spaces(7));
            assert(spaces(7).drop_last() =~= spaces(6));
            assert(spaces(6).drop_last() =~= spaces(5));
            assert(spaces(5).drop_last() =~= spaces(4));
            assert(spaces(4).drop_last() =~= spaces(3));
            assert(spaces(3).drop_last() =~= spaces(2));
            assert(spaces(2).drop_last() =~= spaces(1));
            assert(spaces(1).drop_last() =~= spaces(0));
        }
    }
    proof {
        lemma_octal_len(byte_sum(front@ + spaces(8) + back@), 6);
    }
    let sum: u32 = sum_bytes(&front) + 256 + sum_bytes(&back);
    push_bytes(tar, &front);
    write_tar_checksum(tar, sum);
    push_bytes(tar, &back);
    assert(tar@ =~= old(tar)@ + header(path@, len as nat));
}

/// Appends one entry: a plain file with the given path and content.
pub fn append_tar_entry(tar: &mut Vec<u8>, path: &str, bytes: &[u8]) -> (r: Result<(), TarError>)
    ensures
        r is Ok <==> encode_utf8(path@).len() <= 100 && bytes@.len() <= MAX_ENTRY_LEN,
        r is Ok ==> final(tar)@ == old(tar)@ + tar_entry(encode_utf8(path@), bytes@),
        r is Err ==> final(tar)@ == old(tar)@,
        r matches Err(TarError::PathTooLong) <==> encode_utf8(path@).len() > 100,
{
    let path_bytes = path.as_bytes();
    if path_bytes.len() > 100 {
        return Err(TarError::PathTooLong);
    }
    if bytes.len() as u64 > MAX_ENTRY_LEN {
        return Err(TarError::EntryTooLarge);
    }
    push_header(tar, path_bytes, bytes.len() as u64);
    push_bytes(tar, bytes);
    let padding_len = tar_padding_len(bytes.len());
    push_zeros(tar, padding_len);
    assert(tar@ =~= old(tar)@ + tar_entry(encode_utf8(path@), bytes@));
    Ok(())
}

/// Appends the two empty blocks that end an archive.
pub fn finish_tar(tar: &mut Vec<u8>)
    ensures
        final(tar)@ == old(tar)@ + zeros(1024),
{
    push_zeros(tar, 1024);
}

/// The length of the padding behind a content that ends at `position`.
pub fn tar_padding_len(position: usize) -> (n: usize)
    ensures
        n == padding(position as int),
        n < 512,
{
    (512 - position % 512) % 512
}

/// Where the entry behind a content that ends at `data_end` begins.
pub fn next_tar_entry_offset(data_end: usize) -> (offset: Option<usize>)
    ensures
        match offset {
            Some(n) => n == data_end + padding(data_end as int),
            None => data_end + padding(data_end as int) > usize::MAX,
        },
{
    data_end.checked_add(tar_padding_len(data_end))
}

} // verus!
