//! Tokenization shared by the build side and the query side.
//!
//! A word is a maximal run of word bytes; ASCII letters are folded to lower
//! case, so scores reproduce exactly between building and querying.

use vstd::prelude::*;

verus! {

/// The byte sequences of a vector of byte vectors.
pub open spec fn bytes_view(v: Seq<Vec<u8>>) -> Seq<Seq<u8>> {
    v.map_values(|x: Vec<u8>| x@)
}

/// ASCII upper-case letters fold to lower case; all other bytes are kept.
pub open spec fn lower_byte(b: u8) -> u8 {
    if 65 <= b <= 90 {
        (b + 32) as u8
    } else {
        b
    }
}

/// Word bytes: ASCII letters and digits, and all non-ASCII bytes (so that
/// multi-byte UTF-8 sequences stay inside one word).
pub open spec fn is_word_byte(b: u8) -> bool {
    (48 <= b <= 57) || (97 <= b <= 122) || (65 <= b <= 90) || b >= 128
}

/// The tokens of `s[from..]`, given whether a token is currently open and the
/// bytes accumulated for it so far.
pub open spec fn tokens_from(s: Seq<u8>, from: int, cur: Seq<u8>, open: bool) -> Seq<Seq<u8>>
    decreases s.len() - from,
{
    if from < 0 || from >= s.len() {
        if open {
            seq![cur]
        } else {
            Seq::empty()
        }
    } else {
        let b = s[from];
        if is_word_byte(b) {
            tokens_from(s, from + 1, cur.push(lower_byte(b)), true)
        } else {
            if open {
                seq![cur] + tokens_from(s, from + 1, Seq::empty(), false)
            } else {
                tokens_from(s, from + 1, Seq::empty(), false)
            }
        }
    }
}

/// The token sequence of a byte string: maximal runs of word bytes, folded to
/// lower case, in order of appearance.
pub open spec fn tokens(s: Seq<u8>) -> Seq<Seq<u8>> {
    tokens_from(s, 0, Seq::empty(), false)
}

pub fn to_lower_byte(b: u8) -> (r: u8)
    ensures
        r == lower_byte(b),
{
    if 65 <= b && b <= 90 {
        b + 32
    } else {
        b
    }
}

pub fn byte_is_word(b: u8) -> (r: bool)
    ensures
        r == is_word_byte(b),
{
    (48 <= b && b <= 57) || (97 <= b && b <= 122) || (65 <= b && b <= 90) || b >= 128
}

/// Splits a byte string into its tokens.
pub fn tokenize(s: &[u8]) -> (r: Vec<Vec<u8>>)
    ensures
        bytes_view(r@) == tokens(s@),
{
    let mut out: Vec<Vec<u8>> = Vec::new();
    let mut cur: Vec<u8> = Vec::new();
    let mut open: bool = false;
    let mut i: usize = 0;
    assert(bytes_view(out@) =~= Seq::<Seq<u8>>::empty());
    while i < s.len()
        invariant
            i <= s.len(),
            !open ==> cur@ == Seq::<u8>::empty(),
            tokens(s@) == bytes_view(out@) + tokens_from(s@, i as int, cur@, open),
        decreases s.len() - i,
    {
        let b = s[i];
        if byte_is_word(b) {
            cur.push(to_lower_byte(b));
            open = true;
        } else {
            if open {
                let ghost prev_out = out@;
                let ghost line = cur@;
                out.push(cur);
                cur = Vec::new();
                open = false;
                assert(bytes_view(out@) =~= bytes_view(prev_out) + seq![line]);
            }
        }
        i = i + 1;
        assert(tokens(s@) =~= bytes_view(out@) + tokens_from(s@, i as int, cur@, open));
    }
    if open {
        let ghost prev_out = out@;
        let ghost line = cur@;
        out.push(cur);
        assert(bytes_view(out@) =~= bytes_view(prev_out) + seq![line]);
    }
    assert(tokens(s@) =~= bytes_view(out@));
    out
}

} // verus!
