//! Sorted key sequences, the linear scan that defines where a key is or
//! belongs, and the facts that let a binary search stand in for it.
use vstd::prelude::*;
use crate::lex::{lex_lt, lemma_lex_irreflexive, lemma_lex_total, lemma_lex_transitive};

verus! {

/// Every key sorts strictly before every later one.
pub open spec fn sorted_keys(keys: Seq<Seq<u8>>) -> bool {
    forall|a: int, b: int| 0 <= a < b < keys.len() ==> lex_lt(#[trigger] keys[a], #[trigger] keys[b])
}

/// Scans `keys` from position `i` on: `Ok` at the first key equal to `key`,
/// `Err` at the first key above it, `Err(len)` when every key is below it.
pub open spec fn scan_from(keys: Seq<Seq<u8>>, key: Seq<u8>, i: int) -> Result<usize, usize>
    decreases keys.len() - i,
{
    if i < 0 || i >= keys.len() {
        Err(keys.len() as usize)
    } else if keys[i] == key {
        Ok(i as usize)
    } else if lex_lt(key, keys[i]) {
        Err(i as usize)
    } else {
        scan_from(keys, key, i + 1)
    }
}

/// Where `key` stands in `keys` (`Ok`) or where it would have to be put to
/// keep them sorted (`Err`), as a scan from the front finds it.
pub open spec fn linear_search(keys: Seq<Seq<u8>>, key: Seq<u8>) -> Result<usize, usize> {
    scan_from(keys, key, 0)
}

proof fn lemma_scan_at_boundary(keys: Seq<Seq<u8>>, key: Seq<u8>, lo: int, s: int)
    requires
        0 <= s <= lo <= keys.len(),
        keys.len() <= usize::MAX,
        forall|j: int| 0 <= j < lo ==> lex_lt(#[trigger] keys[j], key),
        lo == keys.len() || !lex_lt(keys[lo], key),
    ensures
        scan_from(keys, key, s) == if lo < keys.len() && keys[lo] == key {
            Ok::<usize, usize>(lo as usize)
        } else {
            Err::<usize, usize>(lo as usize)
        },
    decreases lo - s,
{
    if s < lo {
        lemma_lex_irreflexive(key);
        lemma_lex_total(keys[s], key);
        lemma_scan_at_boundary(keys, key, lo, s + 1);
    } else if lo < keys.len() {
        lemma_lex_total(keys[lo], key);
    }
}

/// A position with every key before it below `key` and no key at it below
/// `key` is what the scan finds.
pub proof fn lemma_scan_boundary(keys: Seq<Seq<u8>>, key: Seq<u8>, lo: int)
    requires
        0 <= lo <= keys.len(),
        keys.len() <= usize::MAX,
        forall|j: int| 0 <= j < lo ==> lex_lt(#[trigger] keys[j], key),
        lo == keys.len() || !lex_lt(keys[lo], key),
    ensures
        linear_search(keys, key) == if lo < keys.len() && keys[lo] == key {
            Ok::<usize, usize>(lo as usize)
        } else {
            Err::<usize, usize>(lo as usize)
        },
{
    lemma_scan_at_boundary(keys, key, lo, 0);
}

proof fn lemma_scan_err_from(keys: Seq<Seq<u8>>, key: Seq<u8>, s: int, i: usize)
    requires
        sorted_keys(keys),
        0 <= s <= keys.len(),
        keys.len() <= usize::MAX,
        forall|j: int| 0 <= j < s ==> lex_lt(#[trigger] keys[j], key),
        scan_from(keys, key, s) == Err::<usize, usize>(i),
    ensures
        i <= keys.len(),
        forall|j: int| 0 <= j < i ==> lex_lt(#[trigger] keys[j], key),
        forall|j: int| i <= j < keys.len() ==> lex_lt(key, #[trigger] keys[j]),
    decreases keys.len() - s,
{
    if s < keys.len() {
        if lex_lt(key, keys[s]) {
            assert forall|j: int| i <= j < keys.len() implies lex_lt(key, #[trigger] keys[j]) by {
                if j > s {
                    lemma_lex_transitive(key, keys[s], keys[j]);
                }
            }
        } else {
            lemma_lex_total(keys[s], key);
            lemma_scan_err_from(keys, key, s + 1, i);
        }
    }
}

/// When the scan finds no equal key, every key before the position it gives
/// is below `key` and every key from there on is above it.
pub proof fn lemma_search_err(keys: Seq<Seq<u8>>, key: Seq<u8>, i: usize)
    requires
        sorted_keys(keys),
        keys.len() <= usize::MAX,
        linear_search(keys, key) == Err::<usize, usize>(i),
    ensures
        i <= keys.len(),
        forall|j: int| 0 <= j < i ==> lex_lt(#[trigger] keys[j], key),
        forall|j: int| i <= j < keys.len() ==> lex_lt(key, #[trigger] keys[j]),
{
    lemma_scan_err_from(keys, key, 0, i);
}

/// Putting a key that is missing at the position the search gives for it
/// keeps the keys sorted, and the search then finds it there.
pub proof fn lemma_insert_then_found(keys: Seq<Seq<u8>>, key: Seq<u8>, i: usize)
    requires
        sorted_keys(keys),
        keys.len() < usize::MAX,
        linear_search(keys, key) == Err::<usize, usize>(i),
    ensures
        sorted_keys(keys.insert(i as int, key)),
        linear_search(keys.insert(i as int, key), key) == Ok::<usize, usize>(i),
{
    lemma_search_err(keys, key, i);
    let k2 = keys.insert(i as int, key);
    assert forall|a: int, b: int| 0 <= a < b < k2.len() implies lex_lt(
        #[trigger] k2[a],
        #[trigger] k2[b],
    ) by {
        if b < i {
            assert(k2[a] == keys[a] && k2[b] == keys[b]);
        } else if b == i {
            assert(k2[a] == keys[a]);
        } else if a < i {
            assert(k2[a] == keys[a] && k2[b] == keys[b - 1]);
        } else if a == i {
            assert(k2[b] == keys[b - 1]);
        } else {
            assert(k2[a] == keys[a - 1] && k2[b] == keys[b - 1]);
        }
    }
    assert forall|j: int| 0 <= j < i implies lex_lt(#[trigger] k2[j], key) by {
        assert(k2[j] == keys[j]);
    }
    lemma_lex_irreflexive(key);
    lemma_scan_boundary(k2, key, i as int);
}

proof fn lemma_scan_found_from(keys: Seq<Seq<u8>>, key: Seq<u8>, s: int)
    requires
        0 <= s,
        keys.len() <= usize::MAX,
    ensures
        scan_from(keys, key, s) matches Ok(i) ==> s <= i < keys.len() && keys[i as int] == key,
    decreases keys.len() - s,
{
    if s < keys.len() {
        lemma_scan_found_from(keys, key, s + 1);
    }
}

/// A key that the search finds stands where it says.
pub proof fn lemma_search_found(keys: Seq<Seq<u8>>, key: Seq<u8>)
    requires
        keys.len() <= usize::MAX,
    ensures
        linear_search(keys, key) matches Ok(i) ==> 0 <= i < keys.len() && keys[i as int] == key,
{
    lemma_scan_found_from(keys, key, 0);
}

} // verus!
