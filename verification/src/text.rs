//! Character helpers: case folding and positional similarity of fingerprints.

use vstd::prelude::*;

verus! {

/// ASCII case folding of a single character: uppercase letters map to their
/// lowercase counterparts, every other character is unchanged.
pub open spec fn spec_lower(c: char) -> char {
    if 'A' <= c && c <= 'Z' {
        ((c as u8) + 32) as char
    } else {
        c
    }
}

/// The fold is idempotent: a folded character folds to itself, so a text
/// whose characters all came through the fold is already case-normalized.
pub proof fn lemma_lower_idempotent(c: char)
    ensures
        spec_lower(spec_lower(c)) == spec_lower(c),
{
}

/// Lowercases one character, ASCII-wise.
pub fn to_lower(c: char) -> (r: char)
    ensures
        r == spec_lower(c),
{
    match c {
        'A' => 'a',
        'B' => 'b',
        'C' => 'c',
        'D' => 'd',
        'E' => 'e',
        'F' => 'f',
        'G' => 'g',
        'H' => 'h',
        'I' => 'i',
        'J' => 'j',
        'K' => 'k',
        'L' => 'l',
        'M' => 'm',
        'N' => 'n',
        'O' => 'o',
        'P' => 'p',
        'Q' => 'q',
        'R' => 'r',
        'S' => 's',
        'T' => 't',
        'U' => 'u',
        'V' => 'v',
        'W' => 'w',
        'X' => 'x',
        'Y' => 'y',
        'Z' => 'z',
        _ => c,
    }
}

/// The number of positions among the first `n` where the two sequences hold
/// the same character.
pub open spec fn spec_match_upto(a: Seq<char>, b: Seq<char>, n: int) -> nat
    decreases n,
{
    if n <= 0 {
        0
    } else {
        spec_match_upto(a, b, n - 1) + (if a[n - 1] == b[n - 1] {
            1nat
        } else {
            0nat
        })
    }
}

/// The positional similarity of two fingerprints: the number of positions,
/// up to the shorter length, where both hold the same character. Dividing it
/// by the first fingerprint's length gives the similarity ratio; the division
/// changes no comparison between candidates scored against one fingerprint.
pub open spec fn spec_match_count(a: Seq<char>, b: Seq<char>) -> nat {
    if a.len() <= b.len() {
        spec_match_upto(a, b, a.len() as int)
    } else {
        spec_match_upto(a, b, b.len() as int)
    }
}

/// Counts the positions, up to the shorter length, where the two strings
/// hold the same character.
pub fn match_count(a: &str, b: &str) -> (r: usize)
    ensures
        r == spec_match_count(a@, b@),
{
    let alen = a.unicode_len();
    let blen = b.unicode_len();
    let n = if alen <= blen {
        alen
    } else {
        blen
    };
    let mut count: usize = 0;
    let mut i: usize = 0;
    while i < n
        invariant
            alen == a@.len(),
            blen == b@.len(),
            n <= alen,
            n <= blen,
            spec_match_count(a@, b@) == spec_match_upto(a@, b@, n as int),
            i <= n,
            count == spec_match_upto(a@, b@, i as int),
            count <= i,
        decreases n - i,
    {
        let ca = a.get_char(i);
        let cb = b.get_char(i);
        if ca == cb {
            count += 1;
        }
        i += 1;
    }
    count
}

/// The similarity count over a prefix never exceeds the prefix length.
proof fn lemma_match_upto_le(a: Seq<char>, b: Seq<char>, n: int)
    requires
        0 <= n,
    ensures
        spec_match_upto(a, b, n) <= n,
    decreases n,
{
    if n > 0 {
        lemma_match_upto_le(a, b, n - 1);
    }
}

/// A prefix matches in full exactly when the two sequences agree at every
/// position of it.
proof fn lemma_match_upto_full(a: Seq<char>, b: Seq<char>, n: int)
    requires
        0 <= n,
    ensures
        spec_match_upto(a, b, n) == n <==> forall|i: int| 0 <= i < n ==> a[i] == b[i],
    decreases n,
{
    if n > 0 {
        lemma_match_upto_full(a, b, n - 1);
        lemma_match_upto_le(a, b, n - 1);
    }
}

/// A prefix's similarity count is zero exactly when no position of it
/// matches.
proof fn lemma_match_upto_zero(a: Seq<char>, b: Seq<char>, n: int)
    requires
        0 <= n,
    ensures
        spec_match_upto(a, b, n) == 0 <==> forall|i: int| 0 <= i < n ==> a[i] != b[i],
    decreases n,
{
    if n > 0 {
        lemma_match_upto_zero(a, b, n - 1);
    }
}

/// Bounds of the similarity score: the match count never exceeds either
/// length, so the ratio of count to length lies between zero and one.
pub proof fn lemma_match_count_bounds(a: Seq<char>, b: Seq<char>)
    ensures
        spec_match_count(a, b) <= a.len(),
        spec_match_count(a, b) <= b.len(),
{
    if a.len() <= b.len() {
        lemma_match_upto_le(a, b, a.len() as int);
    } else {
        lemma_match_upto_le(a, b, b.len() as int);
    }
}

/// For equal-length fingerprints the score reaches its maximum — a ratio of
/// one — exactly when the two are identical.
pub proof fn lemma_match_count_full(a: Seq<char>, b: Seq<char>)
    requires
        a.len() == b.len(),
    ensures
        spec_match_count(a, b) == a.len() <==> a == b,
{
    lemma_match_upto_full(a, b, a.len() as int);
    if spec_match_count(a, b) == a.len() {
        assert(a =~= b);
    }
}

/// The score is zero — a ratio of zero — exactly when no position up to the
/// shorter length matches.
pub proof fn lemma_match_count_zero(a: Seq<char>, b: Seq<char>)
    ensures
        spec_match_count(a, b) == 0 <==> forall|i: int|
            0 <= i < a.len() && i < b.len() ==> a[i] != b[i],
{
    if a.len() <= b.len() {
        lemma_match_upto_zero(a, b, a.len() as int);
    } else {
        lemma_match_upto_zero(a, b, b.len() as int);
    }
}

/// Relies on `String`'s `FromIterator<char>` implementation: collecting
/// characters concatenates exactly those characters, in order.
#[verifier::external_body]
pub fn string_from_chars(chars: Vec<char>) -> (r: String)
    ensures
        r@ == chars@,
{
    chars.into_iter().collect()
}

} // verus!
