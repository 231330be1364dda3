//! The word hash: the first three characters read as a base-32 numeral.
use vstd::prelude::*;

verus! {

/// Number of slots of the bucket table. Every hash value lies below it.
pub const TABLE_SIZE: usize = 35000;

/// Radix of the hash numeral.
pub const RADIX: usize = 32;

/// Number of leading characters that take part in the hash.
pub const HASHED_CHARS: usize = 3;

/// Digit value of one character: `a`..`z` are 1..26, `å`, `ä`, `ö` are
/// 27, 28, 29, anything else is 0.
pub open spec fn digit_of(c: char) -> nat {
    if 'a' <= c && c <= 'z' {
        ((c as u32) - ('a' as u32) + 1) as nat
    } else if c == '\u{e5}' {
        27
    } else if c == '\u{e4}' {
        28
    } else if c == '\u{f6}' {
        29
    } else {
        0
    }
}

/// The hash of a word: its first (at most three) characters accumulated
/// digit by digit in base 32. Shorter words use fewer digits; no padding.
pub open spec fn hash_of(w: Seq<char>) -> nat
    decreases w.len(),
{
    if w.len() > HASHED_CHARS {
        hash_of(w.take(HASHED_CHARS as int))
    } else if w.len() == 0 {
        0
    } else {
        hash_of(w.drop_last()) * RADIX as nat + digit_of(w.last())
    }
}

/// Every digit stays below 30.
pub proof fn lemma_digit_bound(c: char)
    ensures
        digit_of(c) < 30,
{
}

/// A word of at most `n <= 3` characters hashes below `32^n`.
pub proof fn lemma_hash_bound(w: Seq<char>)
    ensures
        w.len() == 0 ==> hash_of(w) == 0,
        w.len() == 1 ==> hash_of(w) < 32,
        w.len() == 2 ==> hash_of(w) < 32 * 32,
        hash_of(w) < 32 * 32 * 32,
        hash_of(w) < TABLE_SIZE,
    decreases w.len(),
{
    if w.len() > HASHED_CHARS {
        lemma_hash_bound(w.take(HASHED_CHARS as int));
    } else if w.len() > 0 {
        lemma_hash_bound(w.drop_last());
        lemma_digit_bound(w.last());
    }
}

/// Digit value of one character, as `digit_of` states it.
pub fn digit_value(c: char) -> (d: usize)
    ensures
        d == digit_of(c),
{
    if 'a' <= c && c <= 'z' {
        ((c as u32) - ('a' as u32) + 1) as usize
    } else if c == '\u{e5}' {
        27
    } else if c == '\u{e4}' {
        28
    } else if c == '\u{f6}' {
        29
    } else {
        0
    }
}

/// Hashes a word: the exact value of `hash_of`, always below `TABLE_SIZE`.
pub fn lazy_hash(word: &str) -> (h: usize)
    ensures
        h == hash_of(word@),
        h < TABLE_SIZE,
{
    let mut hash: usize = 0;
    let mut count: usize = 0;
    let ghost w = word@;
    for c in it: word.chars()
        invariant_except_break
            count < HASHED_CHARS,
        invariant
            it.seq() == w,
            count == it.index(),
            count <= w.len(),
            hash == hash_of(w.take(count as int)),
        ensures
            count == HASHED_CHARS || count == w.len(),
    {
        proof {
            lemma_hash_bound(w.take(count as int));
            assert(w.take(count as int + 1).drop_last() =~= w.take(count as int));
        }
        hash = hash * RADIX + digit_value(c);
        count = count + 1;
        if count == HASHED_CHARS {
            break;
        }
    }
    proof {
        if count == w.len() {
            assert(w.take(count as int) =~= w);
        }
        lemma_hash_bound(w);
    }
    hash
}

/// Hashes a word given as characters: the exact value of `hash_of`.
pub fn hash_chars(word: &Vec<char>) -> (h: usize)
    ensures
        h == hash_of(word@),
        h < TABLE_SIZE,
{
    let ghost w = word@;
    let n: usize = if word.len() < HASHED_CHARS {
        word.len()
    } else {
        HASHED_CHARS
    };
    let mut hash: usize = 0;
    let mut i: usize = 0;
    while i < n
        invariant
            i <= n <= word.len(),
            n <= HASHED_CHARS,
            w == word@,
            hash == hash_of(w.take(i as int)),
        decreases n - i,
    {
        proof {
            lemma_hash_bound(w.take(i as int));
            assert(w.take(i + 1).drop_last() =~= w.take(i as int));
        }
        hash = hash * RADIX + digit_value(word[i]);
        i = i + 1;
    }
    proof {
        if w.len() <= HASHED_CHARS {
            assert(w.take(i as int) =~= w);
        }
        lemma_hash_bound(w);
    }
    hash
}

} // verus!
