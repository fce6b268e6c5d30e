//! Edit distance between words, stated over their UTF-8 encodings: the
//! approximate matcher measures Levenshtein distance (unit-cost insertions,
//! deletions and substitutions) over encoded bytes.

use vstd::prelude::*;

verus! {

/// The UTF-8 encoding of one character.
pub open spec fn utf8_char(c: char) -> Seq<u8> {
    let v = c as u32;
    if v < 0x80 {
        seq![v as u8]
    } else if v < 0x800 {
        seq![(0xC0u32 | (v >> 6u32)) as u8, (0x80u32 | (v & 0x3Fu32)) as u8]
    } else if v < 0x10000 {
        seq![
            (0xE0u32 | (v >> 12u32)) as u8,
            (0x80u32 | ((v >> 6u32) & 0x3Fu32)) as u8,
            (0x80u32 | (v & 0x3Fu32)) as u8,
        ]
    } else {
        seq![
            (0xF0u32 | (v >> 18u32)) as u8,
            (0x80u32 | ((v >> 12u32) & 0x3Fu32)) as u8,
            (0x80u32 | ((v >> 6u32) & 0x3Fu32)) as u8,
            (0x80u32 | (v & 0x3Fu32)) as u8,
        ]
    }
}

/// The UTF-8 encoding of a character sequence.
pub open spec fn utf8_bytes(s: Seq<char>) -> Seq<u8> {
    s.map_values(|c: char| utf8_char(c)).flatten()
}

/// The least of three costs.
pub open spec fn min3(a: nat, b: nat, c: nat) -> nat {
    if a <= b && a <= c {
        a
    } else if b <= c {
        b
    } else {
        c
    }
}

/// Levenshtein distance between two byte strings: the least number of
/// unit-cost insertions, deletions and substitutions turning one into the
/// other.
pub open spec fn lev_dist(a: Seq<u8>, b: Seq<u8>) -> nat
    decreases a.len() + b.len(),
{
    if a.len() == 0 {
        b.len()
    } else if b.len() == 0 {
        a.len()
    } else {
        let tail = lev_dist(a.drop_first(), b.drop_first());
        min3(
            lev_dist(a.drop_first(), b) + 1,
            lev_dist(a, b.drop_first()) + 1,
            if a[0] == b[0] {
                tail
            } else {
                tail + 1
            },
        )
    }
}

/// Edit distance between two words, over their UTF-8 encodings.
pub open spec fn word_dist(a: Seq<char>, b: Seq<char>) -> nat {
    lev_dist(utf8_bytes(a), utf8_bytes(b))
}

} // verus!
