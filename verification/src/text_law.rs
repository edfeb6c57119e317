//! What numbers, bytes and keys look like as text.

use crate::history_names::{blob_name, joined, BlobIdentity};
use crate::hot_file::hot_path;
use crate::marf_heights::{hash_key, height_key, hex_text};
use crate::text::{digit_char, digits, digits_value, lemma_digits_round_trip, number_text};
use crate::value::MarfTrieId;
use vstd::prelude::*;

verus! {

/// Is this a digit of a base of at most sixteen, in lower case?
pub open spec fn is_digit(c: char) -> bool {
    ('0' <= c && c <= '9') || ('a' <= c && c <= 'f')
}

/// A number as text has digits that spell it, in lower case, and is as wide as was asked for, or as
/// wide as it must be: then it does not begin with a zero, unless it is zero.
pub proof fn law_number_text(n: nat, base: nat, width: nat)
    requires
        2 <= base <= 16,
    ensures
        ({
            let s = number_text(n, base, width);
            &&& s.len() >= 1
            &&& s.len() >= width
            &&& digits_value(s, base) == Some(n)
            &&& forall|i: int| 0 <= i < s.len() ==> is_digit(#[trigger] s[i])
            &&& s.len() > width && s.len() > 1 ==> s[0] != '0'
        }),
{
    lemma_digits(n, base);
    lemma_digits_round_trip(n, base);
    let d = digits(n, base);
    if d.len() < width {
        let zs = Seq::new((width - d.len()) as nat, |i: int| '0');
        crate::text::lemma_zeros_value((width - d.len()) as nat, d, base);
        assert forall|i: int| 0 <= i < (zs + d).len() implies is_digit(#[trigger] (zs + d)[i]) by {
            if i >= zs.len() {
                assert((zs + d)[i] == d[i - zs.len()]);
            }
        }
    }
}

proof fn lemma_digits(n: nat, base: nat)
    requires
        2 <= base <= 16,
    ensures
        digits(n, base).len() >= 1,
        forall|i: int| 0 <= i < digits(n, base).len() ==> is_digit(#[trigger] digits(n, base)[i]),
        digits(n, base).len() > 1 ==> digits(n, base)[0] != '0',
        n > 0 ==> digits(n, base)[0] != '0',
    decreases n,
{
    if n >= base {
        crate::text::lemma_quotient_smaller(n, base);
        assert(n / base > 0) by (nonlinear_arith)
            requires
                n >= base,
                base >= 2,
        ;
        assert(n % base < base) by (nonlinear_arith)
            requires
                base >= 2,
        ;
        lemma_digits(n / base, base);
        let front = digits(n / base, base);
        let s = digits(n, base);
        assert forall|i: int| 0 <= i < s.len() implies is_digit(#[trigger] s[i]) by {
            if i < front.len() {
                assert(s[i] == front[i]);
            }
        }
        assert(s[0] == front[0]);
    }
}

/// Bytes as text have two characters for each, the digit of its higher half and that of its lower
/// half.
pub proof fn law_hex_text(s: Seq<u8>, i: int)
    requires
        0 <= i < s.len(),
    ensures
        hex_text(s).len() == 2 * s.len(),
        hex_text(s)[2 * i] == digit_char((s[i] / 16) as nat),
        hex_text(s)[2 * i + 1] == digit_char((s[i] % 16) as nat),
    decreases s.len(),
{
    let front = s.drop_last();
    lemma_two(s.last());
    if front.len() > 0 {
        law_hex_text(
            front,
            if i < front.len() {
                i
            } else {
                0
            },
        );
    } else {
        assert(hex_text(front).len() == 0);
    }
}

proof fn lemma_two(b: u8)
    ensures
        number_text(b as nat, 16, 2) == seq![
            digit_char((b / 16) as nat),
            digit_char((b % 16) as nat),
        ],
{
    reveal_with_fuel(digits, 3);
    let s = number_text(b as nat, 16, 2);
    if b < 16 {
        assert(digit_char(0) == '0');
        assert(s =~= seq![digit_char(0), digit_char(b as nat)]);
    } else {
        assert((b as nat) / 16 < 16);
        assert(s =~= seq![digit_char((b / 16) as nat), digit_char((b % 16) as nat)]);
    }
}

/// The digits are `0` to `9` and then `a` to `f`.
pub proof fn law_digits(d: nat)
    requires
        d < 16,
    ensures
        is_digit(digit_char(d)),
        d < 10 ==> digit_char(d) as u32 == '0' as u32 + d,
        d >= 10 ==> digit_char(d) as u32 == 'a' as u32 + d - 10,
{
}

/// The key of a height is a fixed prefix and the height in decimal digits; that of a block is
/// another and the block's hash in 64 hexadecimal digits.
pub proof fn law_key_texts<T: MarfTrieId>(height: u32, block: T)
    ensures
        height_key(height) == "__MARF_BLOCK_HEIGHT_TO_HASH"@ + "::"@ + number_text(
            height as nat,
            10,
            0,
        ),
        hash_key(block) == "__MARF_BLOCK_HASH_TO_HEIGHT"@ + "::"@ + hex_text(block.id_bytes()@),
        hex_text(block.id_bytes()@).len() == 64,
{
    law_hex_text(block.id_bytes()@, 0);
}

/// The names of hot files and of history blobs, and the path of a file in a directory.
pub proof fn law_file_names(
    db_path: Seq<char>,
    seq: u32,
    id: BlobIdentity,
    dir: Seq<char>,
    name: Seq<char>,
)
    ensures
        hot_path(db_path, seq) == db_path + ".hot."@ + number_text(seq as nat, 10, 8),
        blob_name(id) == "marf-history-level-"@ + number_text(id.0 as nat, 10, 6) + "-h"@
            + number_text(id.1 as nat, 10, 8) + "-"@ + number_text(id.2 as nat, 10, 8) + "-blob-"@
            + number_text(id.3 as nat, 16, 16) + ".dat"@,
        dir.len() > 0 && dir.last() != '/' ==> joined(dir, name) == dir + seq!['/'] + name,
        dir.len() == 0 || dir.last() == '/' ==> joined(dir, name) == dir + name,
{
    if dir.len() > 0 && dir.last() != '/' {
        assert(joined(dir, name) =~= dir + seq!['/'] + name);
    }
}

} // verus!
