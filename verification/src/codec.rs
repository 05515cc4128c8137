use vstd::prelude::*;

use crate::digits::{all_below, digits_of, lemma_digits_value_roundtrip, lemma_value_prefix_le,
    lemma_value_step, value_of};
use crate::text::str_eq;
use crate::StoreError;

verus! {

/// Number of words in the vocabulary: the base of the identifier encoding.
pub const VOCAB_LEN: usize = 24;

/// The fixed, ordered vocabulary. The position of a word is its digit
/// value; the order must never change, or issued identifiers break.
pub open spec fn vocab(i: int) -> Seq<char> {
    if i == 0 { "ant"@ }
    else if i == 1 { "bat"@ }
    else if i == 2 { "cat"@ }
    else if i == 3 { "dog"@ }
    else if i == 4 { "eel"@ }
    else if i == 5 { "fox"@ }
    else if i == 6 { "gnu"@ }
    else if i == 7 { "hen"@ }
    else if i == 8 { "ibis"@ }
    else if i == 9 { "jay"@ }
    else if i == 10 { "kiwi"@ }
    else if i == 11 { "lynx"@ }
    else if i == 12 { "mole"@ }
    else if i == 13 { "newt"@ }
    else if i == 14 { "owl"@ }
    else if i == 15 { "pig"@ }
    else if i == 16 { "quail"@ }
    else if i == 17 { "rat"@ }
    else if i == 18 { "seal"@ }
    else if i == 19 { "toad"@ }
    else if i == 20 { "urchin"@ }
    else if i == 21 { "vole"@ }
    else if i == 22 { "wasp"@ }
    else { "xerus"@ }
}

/// The word at a vocabulary position.
pub fn vocab_word(i: usize) -> (w: &'static str)
    requires
        i < VOCAB_LEN,
    ensures
        w@ == vocab(i as int),
{
    match i {
        0 => "ant",
        1 => "bat",
        2 => "cat",
        3 => "dog",
        4 => "eel",
        5 => "fox",
        6 => "gnu",
        7 => "hen",
        8 => "ibis",
        9 => "jay",
        10 => "kiwi",
        11 => "lynx",
        12 => "mole",
        13 => "newt",
        14 => "owl",
        15 => "pig",
        16 => "quail",
        17 => "rat",
        18 => "seal",
        19 => "toad",
        20 => "urchin",
        21 => "vole",
        22 => "wasp",
        _ => "xerus",
    }
}

/// The vocabulary position of a word, scanning from position `i`;
/// `-1` when the word is absent.
pub open spec fn word_index_from(w: Seq<char>, i: int) -> int
    decreases 24 - i,
{
    if i < 0 || i >= 24 {
        -1
    } else if vocab(i) == w {
        i
    } else {
        word_index_from(w, i + 1)
    }
}

/// The vocabulary position of a word, or `-1` when the word is absent.
pub open spec fn word_index(w: Seq<char>) -> int {
    word_index_from(w, 0)
}

/// No two vocabulary positions hold the same word.
pub proof fn lemma_vocab_distinct()
    ensures
        forall|i: int, j: int| 0 <= i < 24 && 0 <= j < 24 && i != j ==> vocab(i) != vocab(j),
{
    reveal_strlit("ant");
    reveal_strlit("bat");
    reveal_strlit("cat");
    reveal_strlit("dog");
    reveal_strlit("eel");
    reveal_strlit("fox");
    reveal_strlit("gnu");
    reveal_strlit("hen");
    reveal_strlit("ibis");
    reveal_strlit("jay");
    reveal_strlit("kiwi");
    reveal_strlit("lynx");
    reveal_strlit("mole");
    reveal_strlit("newt");
    reveal_strlit("owl");
    reveal_strlit("pig");
    reveal_strlit("quail");
    reveal_strlit("rat");
    reveal_strlit("seal");
    reveal_strlit("toad");
    reveal_strlit("urchin");
    reveal_strlit("vole");
    reveal_strlit("wasp");
    reveal_strlit("xerus");
    assert forall|i: int, j: int| 0 <= i < 24 && 0 <= j < 24 && i != j implies vocab(i) != vocab(
    j) by {
        assert(vocab(i).len() > 0);
        assert(vocab(j).len() > 0);
        assert(vocab(i)[0] != vocab(j)[0]);
    }
}

/// Scanning from `i` finds the word at position `d` when no position
/// between `i` and `d` holds it.
proof fn lemma_word_index_from_finds(w: Seq<char>, i: int, d: int)
    requires
        0 <= i <= d < 24,
        vocab(d) == w,
        forall|k: int| i <= k < d ==> vocab(k) != w,
    ensures
        word_index_from(w, i) == d,
    decreases 24 - i,
{
    if i < d {
        lemma_word_index_from_finds(w, i + 1, d);
    }
}

/// The index of a vocabulary word is its position.
pub proof fn lemma_word_index_of_vocab(d: int)
    requires
        0 <= d < 24,
    ensures
        word_index(vocab(d)) == d,
{
    lemma_vocab_distinct();
    lemma_word_index_from_finds(vocab(d), 0, d);
}

/// A word that no position holds scans to `-1` from anywhere.
proof fn lemma_word_index_from_misses(w: Seq<char>, i: int)
    requires
        forall|k: int| 0 <= k < 24 ==> vocab(k) != w,
    ensures
        word_index_from(w, i) == -1,
    decreases 24 - i,
{
    if 0 <= i < 24 {
        lemma_word_index_from_misses(w, i + 1);
    }
}

/// The word sequence that encodes a numeric identifier: its base-24
/// digits, most significant first, rendered through the vocabulary.
pub open spec fn words_of(n: nat) -> Seq<Seq<char>> {
    digits_of(n, 24).map_values(|d: nat| vocab(d as int))
}

/// The value a word sequence denotes, reading each word as a digit.
pub open spec fn decode_value(ws: Seq<Seq<char>>) -> nat {
    value_of(ws.map_values(|w: Seq<char>| word_index(w) as nat), 24)
}

/// What decoding a word sequence yields: the denoted value when every
/// word is in the vocabulary and the value is representable, else nothing.
pub open spec fn spec_decode(ws: Seq<Seq<char>>) -> Option<u64> {
    if ws.len() == 0 {
        None
    } else if exists|i: int| 0 <= i < ws.len() && word_index(ws[i]) < 0 {
        None
    } else if decode_value(ws) > u64::MAX {
        None
    } else {
        Some(decode_value(ws) as u64)
    }
}

/// The vocabulary position of a word, or `None` when it is absent.
pub fn word_lookup(w: &str) -> (r: Option<usize>)
    ensures
        match r {
            Some(i) => i < VOCAB_LEN && word_index(w@) == i,
            None => word_index(w@) == -1,
        },
{
    let mut i: usize = 0;
    while i < VOCAB_LEN
        invariant
            i <= VOCAB_LEN,
            forall|k: int| 0 <= k < i ==> vocab(k) != w@,
        decreases VOCAB_LEN - i,
    {
        if str_eq(w, vocab_word(i)) {
            proof {
                lemma_word_index_from_finds(w@, 0, i as int);
            }
            return Some(i);
        }
        i = i + 1;
    }
    proof {
        lemma_word_index_from_misses(w@, 0);
    }
    None
}

/// The base-24 digits of `n`, most significant first.
fn encode_digits(n: u64) -> (r: Vec<u64>)
    ensures
        r@.map_values(|d: u64| d as nat) == digits_of(n as nat, 24),
    decreases n,
{
    if n < 24 {
        let mut v: Vec<u64> = Vec::new();
        v.push(n);
        proof {
            assert(v@.map_values(|d: u64| d as nat) =~= digits_of(n as nat, 24));
        }
        v
    } else {
        let mut v = encode_digits(n / 24);
        v.push(n % 24);
        proof {
            assert(v@.map_values(|d: u64| d as nat) =~= digits_of(n as nat, 24));
        }
        v
    }
}

/// Render a numeric identifier as its word sequence. A zero identifier
/// still yields one word, the vocabulary's zero entry.
pub fn encode(id: u64) -> (r: Vec<String>)
    ensures
        r.deep_view() == words_of(id as nat),
        r@.len() >= 1,
{
    let digits = encode_digits(id);
    let ghost ds = digits@.map_values(|d: u64| d as nat);
    proof {
        lemma_digits_value_roundtrip(id as nat, 24);
    }
    let mut r: Vec<String> = Vec::new();
    let mut i: usize = 0;
    while i < digits.len()
        invariant
            i <= digits.len(),
            ds == digits@.map_values(|d: u64| d as nat),
            ds == digits_of(id as nat, 24),
            all_below(ds, 24),
            r@.len() == i,
            forall|k: int| 0 <= k < i ==> r@[k]@ == vocab(digits@[k] as int),
        decreases digits.len() - i,
    {
        assert(ds[i as int] == digits@[i as int] as nat);
        assert(ds[i as int] < 24);
        let w = vocab_word(digits[i] as usize);
        r.push(w.to_owned());
        i = i + 1;
    }
    proof {
        assert(r.deep_view() =~= words_of(id as nat));
    }
    r
}

/// Decode a word sequence back to the numeric identifier it denotes.
/// Fails with `InvalidIdentifier` when a word is outside the vocabulary,
/// when the sequence is empty, or when the value does not fit 64 bits.
pub fn decode(words: &Vec<String>) -> (r: Result<u64, StoreError>)
    ensures
        match r {
            Ok(v) => spec_decode(words.deep_view()) == Some(v),
            Err(e) => e == StoreError::InvalidIdentifier && spec_decode(
                words.deep_view(),
            ) is None,
        },
{
    let ghost ws = words.deep_view();
    let ghost ds = ws.map_values(|w: Seq<char>| word_index(w) as nat);
    if words.len() == 0 {
        return Err(StoreError::InvalidIdentifier);
    }
    let mut acc: u64 = 0;
    let mut i: usize = 0;
    while i < words.len()
        invariant
            i <= words.len(),
            ws == words.deep_view(),
            ds == ws.map_values(|w: Seq<char>| word_index(w) as nat),
            ws.len() == words@.len(),
            forall|k: int| 0 <= k < i ==> word_index(ws[k]) >= 0,
            acc as nat == value_of(ds.take(i as int), 24),
        decreases words.len() - i,
    {
        assert(ws[i as int] == words@[i as int]@);
        let d = match word_lookup(words[i].as_str()) {
            Some(d) => d,
            None => {
                return Err(StoreError::InvalidIdentifier);
            },
        };
        assert(ds[i as int] == d as nat);
        proof {
            lemma_value_step(ds, 24, i as int);
        }
        if acc > (u64::MAX - d as u64) / 24 {
            proof {
                vstd::arithmetic::div_mod::lemma_fundamental_div_mod(
                    (u64::MAX - d as u64) as int,
                    24,
                );
                assert(acc as nat * 24 + d as nat > u64::MAX) by (nonlinear_arith)
                    requires
                        acc as nat > ((u64::MAX - d as u64) as nat) / 24,
                        ((u64::MAX - d as u64) as nat) / 24 * 24 + ((u64::MAX
                            - d as u64) as nat) % 24 == (u64::MAX - d as u64) as nat,
                        ((u64::MAX - d as u64) as nat) % 24 < 24,
                        d < 24,
                ;
                lemma_value_prefix_le(ds, 24, i + 1 as int);
                assert(decode_value(ws) > u64::MAX);
            }
            return Err(StoreError::InvalidIdentifier);
        }
        proof {
            vstd::arithmetic::div_mod::lemma_fundamental_div_mod((u64::MAX - d as u64) as int, 24);
            assert(acc as nat * 24 + d as nat <= u64::MAX) by (nonlinear_arith)
                requires
                    acc as nat <= ((u64::MAX - d as u64) as nat) / 24,
                    ((u64::MAX - d as u64) as nat) / 24 * 24 <= (u64::MAX - d as u64) as nat,
                    d as nat <= u64::MAX,
            ;
        }
        acc = acc * 24 + d as u64;
        i = i + 1;
    }
    proof {
        assert(ds.take(ws.len() as int) =~= ds);
        assert(decode_value(ws) == acc as nat);
    }
    Ok(acc)
}

/// Law: decoding the encoding of any representable 64-bit identifier
/// yields that identifier again.
pub proof fn lemma_encode_decode_roundtrip(id: u64)
    ensures
        spec_decode(words_of(id as nat)) == Some(id),
{
    lemma_digits_value_roundtrip(id as nat, 24);
    let ds = digits_of(id as nat, 24);
    let ws = words_of(id as nat);
    assert forall|i: int| 0 <= i < ws.len() implies word_index(ws[i]) == ds[i] by {
        lemma_word_index_of_vocab(ds[i] as int);
    }
    assert(ws.map_values(|w: Seq<char>| word_index(w) as nat) =~= ds);
    assert(decode_value(ws) == id as nat);
    assert(ws.len() >= 1);
    assert(forall|i: int| 0 <= i < ws.len() ==> word_index(ws[i]) >= 0);
}

} // verus!
