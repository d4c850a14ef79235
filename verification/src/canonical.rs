//! The canonical assignment of codewords to symbols, as a Huffman table
//! segment states it: sixteen counts, one for each codeword length from 1 to
//! 16, and the symbols in the order of their codewords.

use crate::huffman::{code_bit, codeword, DecodeError, Trie};
use vstd::arithmetic::div_mod::{
    lemma_div_denominator, lemma_div_is_ordered, lemma_div_multiples_vanish,
    lemma_fundamental_div_mod, lemma_mod_bound,
};
use vstd::arithmetic::power2::{lemma2_to64, lemma_pow2_adds, lemma_pow2_pos, lemma_pow2_unfold, pow2};
use vstd::prelude::*;

verus! {

/// Number of codewords that are shorter than `length`.
pub open spec fn first_index(counts: Seq<u8>, length: nat) -> nat
    decreases length,
{
    if length <= 1 {
        0
    } else {
        first_index(counts, (length - 1) as nat) + counts[length - 2] as nat
    }
}

/// Value of the code counter when it reaches `length`: it starts at 0, goes
/// up by one with each codeword and doubles with each step in length.
pub open spec fn first_code(counts: Seq<u8>, length: nat) -> nat
    decreases length,
{
    if length <= 1 {
        0
    } else {
        2 * (first_code(counts, (length - 1) as nat) + counts[length - 2] as nat)
    }
}

/// Number of codewords of a table.
pub open spec fn total(counts: Seq<u8>) -> nat {
    first_index(counts, 17)
}

/// The least length from `length` on at which codeword `k` is reached.
pub open spec fn length_from(counts: Seq<u8>, k: nat, length: nat) -> nat
    decreases 16 - length,
{
    if length >= 16 || k < first_index(counts, length + 1) {
        length
    } else {
        length_from(counts, k, length + 1)
    }
}

/// Length of codeword `k`, counted from 0 in the order of the table.
pub open spec fn length_of(counts: Seq<u8>, k: nat) -> nat {
    length_from(counts, k, 1)
}

/// Value of the code counter at codeword `k`.
pub open spec fn code_of(counts: Seq<u8>, k: nat) -> nat {
    let length = length_of(counts, k);
    (first_code(counts, length) + k - first_index(counts, length)) as nat
}

/// Codeword `k`: the low bits of its counter value, as many as its length.
pub open spec fn word_of(counts: Seq<u8>, k: nat) -> Seq<bool> {
    codeword(code_of(counts, k), length_of(counts, k))
}

/// The tree after the first `n` codewords were entered in order, each for
/// the symbol at its place in `symbols`.
pub open spec fn built(counts: Seq<u8>, symbols: Seq<u8>, n: nat) -> Trie
    decreases n,
{
    if n == 0 {
        Trie::empty()
    } else {
        built(counts, symbols, (n - 1) as nat).insert(
            word_of(counts, (n - 1) as nat),
            symbols[n - 1],
        )
    }
}

/// The number of codewords below a length grows with the length.
pub proof fn lemma_first_index_monotonic(counts: Seq<u8>, a: nat, b: nat)
    requires
        a <= b,
    ensures
        first_index(counts, a) <= first_index(counts, b),
    decreases b,
{
    if a < b {
        lemma_first_index_monotonic(counts, a, (b - 1) as nat);
    }
}

/// A codeword whose place lies among those of one length has that length.
pub proof fn lemma_length_of(counts: Seq<u8>, k: nat, length: nat)
    requires
        1 <= length <= 16,
        first_index(counts, length) <= k < first_index(counts, length + 1),
    ensures
        length_of(counts, k) == length,
{
    lemma_length_from(counts, k, length, 1);
}

proof fn lemma_length_from(counts: Seq<u8>, k: nat, length: nat, from: nat)
    requires
        1 <= from <= length <= 16,
        first_index(counts, length) <= k < first_index(counts, length + 1),
    ensures
        length_from(counts, k, from) == length,
    decreases length - from,
{
    if from < length {
        lemma_first_index_monotonic(counts, from + 1, length);
        lemma_length_from(counts, k, length, from + 1);
    }
}

/// The code counter stays far below what 32 bits can hold.
pub proof fn lemma_first_code_bound(counts: Seq<u8>, length: nat)
    requires
        1 <= length <= 17,
    ensures
        first_code(counts, length) + 510 <= 510 * pow2((length - 1) as nat),
    decreases length,
{
    lemma2_to64();
    if length > 1 {
        lemma_first_code_bound(counts, (length - 1) as nat);
        lemma_pow2_unfold((length - 1) as nat);
    }
}

/// The table asks for no more codewords of any length than that length has
/// left: the code counter never outgrows the length.
pub open spec fn fits(counts: Seq<u8>) -> bool {
    forall|length: nat|
        1 <= length <= 16 ==> #[trigger] first_code(counts, length) + counts[length - 1] <= pow2(
            length,
        )
}

/// Feeding `word` to `trie` bit by bit gives no symbol before its last bit,
/// and `symbol` at its last bit.
pub open spec fn spells(trie: Trie, word: Seq<bool>, symbol: u8) -> bool
    decreases word.len(),
{
    if word.len() == 0 {
        false
    } else if word.len() == 1 {
        trie.step(word[0]).0 == Ok::<Option<u8>, DecodeError>(Some(symbol))
    } else {
        trie.step(word[0]).0 == Ok::<Option<u8>, DecodeError>(None) && spells(
            trie.step(word[0]).1,
            word.drop_first(),
            symbol,
        )
    }
}

/// The length of a codeword is one of 1 to 16, and the codeword lies among
/// those of its length.
pub proof fn lemma_length_range(counts: Seq<u8>, k: nat)
    requires
        k < total(counts),
    ensures
        1 <= length_of(counts, k) <= 16,
        first_index(counts, length_of(counts, k)) <= k < first_index(
            counts,
            length_of(counts, k) + 1,
        ),
{
    lemma_length_from_range(counts, k, 1);
}

proof fn lemma_length_from_range(counts: Seq<u8>, k: nat, from: nat)
    requires
        1 <= from <= 16,
        first_index(counts, from) <= k < total(counts),
    ensures
        from <= length_from(counts, k, from) <= 16,
        first_index(counts, length_from(counts, k, from)) <= k < first_index(
            counts,
            length_from(counts, k, from) + 1,
        ),
    decreases 16 - from,
{
    if from < 16 && k >= first_index(counts, from + 1) {
        lemma_length_from_range(counts, k, from + 1);
    }
}

/// Later codewords are no shorter than earlier ones.
pub proof fn lemma_lengths_ordered(counts: Seq<u8>, i: nat, j: nat)
    requires
        i <= j < total(counts),
    ensures
        length_of(counts, i) <= length_of(counts, j),
{
    lemma_length_range(counts, i);
    lemma_length_range(counts, j);
    if length_of(counts, i) > length_of(counts, j) {
        lemma_first_index_monotonic(counts, length_of(counts, j) + 1, length_of(counts, i));
    }
}

/// Within a table that fits, the counter value of a codeword has no more
/// bits than the codeword is long.
pub proof fn lemma_code_fits(counts: Seq<u8>, k: nat)
    requires
        fits(counts),
        k < total(counts),
    ensures
        code_of(counts, k) < pow2(length_of(counts, k)),
        code_of(counts, k) < first_code(counts, length_of(counts, k)) + counts[length_of(
            counts,
            k,
        ) - 1],
{
    lemma_length_range(counts, k);
    let length = length_of(counts, k);
    assert(first_code(counts, length) + counts[length - 1] <= pow2(length));
}

/// The counter at a greater length is at least what it was behind the last
/// codeword of a smaller length, doubled for each step in between.
proof fn lemma_first_code_grows(counts: Seq<u8>, a: nat, b: nat)
    requires
        counts.len() == 16,
        1 <= a < b <= 17,
    ensures
        first_code(counts, b) >= (first_code(counts, a) + counts[a - 1]) * pow2((b - a) as nat),
    decreases b,
{
    let x = first_code(counts, a) + counts[a - 1];
    lemma2_to64();
    if b == a + 1 {
        assert(first_code(counts, b) == 2 * x);
        assert(pow2((b - a) as nat) == 2);
        assert(x * 2 == 2 * x) by (nonlinear_arith);
    } else {
        lemma_first_code_grows(counts, a, (b - 1) as nat);
        lemma_pow2_unfold((b - a) as nat);
        let y = pow2((b - 1 - a) as nat);
        assert(first_code(counts, (b - 1) as nat) >= x * y);
        assert(first_code(counts, b) >= 2 * first_code(counts, (b - 1) as nat));
        assert(pow2((b - a) as nat) == 2 * y);
        assert(2 * (x * y) == x * (2 * y)) by (nonlinear_arith);
    }
}

/// Taking bits off the end of a number takes places off the end of its
/// codeword.
pub proof fn lemma_codeword_take(code: nat, length: nat, m: nat)
    requires
        m <= length,
    ensures
        codeword(code, length).take(m as int) == codeword(
            code / pow2((length - m) as nat),
            m,
        ),
{
    let shift = (length - m) as nat;
    lemma_pow2_pos(shift);
    assert forall|j: int| 0 <= j < m implies #[trigger] codeword(code, length).take(m as int)[j]
        == codeword(code / pow2(shift), m)[j] by {
        let low = (m - 1 - j) as nat;
        lemma_pow2_pos(low);
        lemma_pow2_adds(shift, low);
        lemma_div_denominator(code as int, pow2(shift) as int, pow2(low) as int);
        assert(shift + low == length - 1 - j);
    }
    assert(codeword(code, length).take(m as int) =~= codeword(code / pow2(shift), m));
}

/// Numbers that fit a length and have the same codeword of that length are
/// equal.
pub proof fn lemma_codeword_injective(a: nat, b: nat, length: nat)
    requires
        a < pow2(length),
        b < pow2(length),
        codeword(a, length) == codeword(b, length),
    ensures
        a == b,
    decreases length,
{
    lemma2_to64();
    if length > 0 {
        let shorter = (length - 1) as nat;
        lemma_pow2_unfold(length);
        lemma_codeword_take(a, length, shorter);
        lemma_codeword_take(b, length, shorter);
        assert(pow2((length - shorter) as nat) == 2);
        assert(codeword(a / 2, shorter) == codeword(a, length).take(shorter as int));
        assert(codeword(b / 2, shorter) == codeword(b, length).take(shorter as int));
        assert(codeword(a, length)[length - 1] == code_bit(a, 0));
        assert(codeword(b, length)[length - 1] == code_bit(b, 0));
        assert(a / pow2(0) == a && b / pow2(0) == b);
        assert(a % 2 == b % 2);
        lemma_codeword_injective(a / 2, b / 2, shorter);
    }
}

/// Within a table that fits, no codeword is the start of another one.
pub proof fn lemma_prefix_free(counts: Seq<u8>, i: nat, j: nat)
    requires
        counts.len() == 16,
        fits(counts),
        i < total(counts),
        j < total(counts),
        i != j,
    ensures
        !word_of(counts, i).is_prefix_of(word_of(counts, j)),
{
    let li = length_of(counts, i);
    let lj = length_of(counts, j);
    let ci = code_of(counts, i);
    let cj = code_of(counts, j);
    lemma_length_range(counts, i);
    lemma_length_range(counts, j);
    lemma_code_fits(counts, i);
    lemma_code_fits(counts, j);
    if word_of(counts, i).is_prefix_of(word_of(counts, j)) {
        assert(li <= lj);
        let shift = (lj - li) as nat;
        lemma_pow2_pos(shift);
        lemma_pow2_adds(li, shift);
        lemma_codeword_take(cj, lj, li);
        let high = cj / pow2(shift);
        assert(word_of(counts, j).take(li as int) == codeword(high, li));
        assert(word_of(counts, i) == codeword(high, li));
        assert(high < pow2(li)) by {
            let d = pow2(shift) as int;
            assert(pow2(lj) == pow2(li) * pow2(shift));
            lemma_fundamental_div_mod(cj as int, d);
            lemma_mod_bound(cj as int, d);
            assert(cj == d * (cj as int / d) + cj as int % d);
            if high >= pow2(li) {
                assert(d * (cj as int / d) >= d * pow2(li)) by (nonlinear_arith)
                    requires
                        cj as int / d >= pow2(li),
                        d > 0,
                ;
                assert(d * pow2(li) == pow2(li) * pow2(shift)) by (nonlinear_arith)
                    requires
                        d == pow2(shift),
                ;
            }
        }
        lemma_codeword_injective(ci, high, li);
        if i < j {
            if li == lj {
                assert(pow2(0) == 1) by {
                    lemma2_to64();
                }
                assert(shift == 0);
                assert(high == cj);
            } else {
                lemma_first_code_grows(counts, li, lj);
                let x = first_code(counts, li) + counts[li - 1];
                assert(cj >= x * pow2(shift));
                lemma_div_multiples_vanish(x as int, pow2(shift) as int);
                lemma_div_is_ordered((pow2(shift) * x) as int, cj as int, pow2(shift) as int);
                assert(x * pow2(shift) == pow2(shift) * x) by (nonlinear_arith);
            }
        } else {
            lemma_lengths_ordered(counts, j, i);
            assert(pow2(0) == 1) by {
                lemma2_to64();
            }
            assert(shift == 0);
            assert(high == cj);
        }
    }
}

/// Building a tree leaves its cursor on the root.
pub proof fn lemma_built_cursor(counts: Seq<u8>, symbols: Seq<u8>, n: nat)
    ensures
        built(counts, symbols, n).cursor == Seq::<bool>::empty(),
    decreases n,
{
    if n > 0 {
        lemma_built_cursor(counts, symbols, (n - 1) as nat);
    }
}

/// A node of a built tree that carries a symbol is the end of one of the
/// codewords that were entered. Returns the place of such a codeword.
proof fn lemma_symbol_source(counts: Seq<u8>, symbols: Seq<u8>, n: nat, path: Seq<bool>) -> (i:
    nat)
    requires
        built(counts, symbols, n).nodes.dom().contains(path),
        built(counts, symbols, n).nodes[path].is_some(),
    ensures
        i < n,
        word_of(counts, i) == path,
    decreases n,
{
    if n == 0 {
        0
    } else if path == word_of(counts, (n - 1) as nat) {
        (n - 1) as nat
    } else {
        lemma_symbol_source(counts, symbols, (n - 1) as nat, path)
    }
}

/// Within a table that fits, the tree built from at least `k + 1` codewords
/// holds the symbol of codeword `k` at its end, and no symbol at any node on
/// the way to it.
proof fn lemma_built_holds(counts: Seq<u8>, symbols: Seq<u8>, n: nat, k: nat)
    requires
        counts.len() == 16,
        fits(counts),
        k < n <= total(counts),
    ensures
        built(counts, symbols, n).nodes.dom().contains(word_of(counts, k)),
        built(counts, symbols, n).nodes[word_of(counts, k)] == Some(symbols[k as int]),
        forall|m: int|
            0 <= m < word_of(counts, k).len() ==> {
                &&& built(counts, symbols, n).nodes.dom().contains(
                    #[trigger] word_of(counts, k).take(m),
                )
                &&& built(counts, symbols, n).nodes[word_of(counts, k).take(m)].is_none()
            },
    decreases n,
{
    let word = word_of(counts, k);
    let last = word_of(counts, (n - 1) as nat);
    let before = built(counts, symbols, (n - 1) as nat);
    let after = built(counts, symbols, n);
    assert(after == before.insert(last, symbols[n - 1]));
    assert(word.is_prefix_of(word)) by {
        assert(word.subrange(0, word.len() as int) =~= word);
    }
    if k == n - 1 {
        assert forall|m: int| 0 <= m < word.len() implies after.nodes.dom().contains(
            #[trigger] word.take(m),
        ) && after.nodes[word.take(m)].is_none() by {
            let path = word.take(m);
            assert(path.is_prefix_of(word)) by {
                assert(word.subrange(0, path.len() as int) =~= path);
            }
            assert(path != word);
            if before.nodes.dom().contains(path) && before.nodes[path].is_some() {
                let i = lemma_symbol_source(counts, symbols, (n - 1) as nat, path);
                lemma_prefix_free(counts, i, k);
            }
        }
    } else {
        lemma_built_holds(counts, symbols, (n - 1) as nat, k);
        lemma_prefix_free(counts, (n - 1) as nat, k);
        lemma_prefix_free(counts, k, (n - 1) as nat);
        assert(last != word) by {
            if last == word {
                assert(last.subrange(0, last.len() as int) =~= last);
            }
        }
        assert forall|m: int| 0 <= m < word.len() implies after.nodes.dom().contains(
            #[trigger] word.take(m),
        ) && after.nodes[word.take(m)].is_none() by {
            let path = word.take(m);
            if path == last {
                assert(word.subrange(0, last.len() as int) =~= last);
            }
        }
    }
}

/// A tree that holds a symbol at the end of a word, and none on the way to
/// it, spells the word from wherever on the way its cursor stands.
proof fn lemma_spells_from(trie: Trie, word: Seq<bool>, symbol: u8, at: int)
    requires
        0 <= at < word.len(),
        trie.cursor == word.take(at),
        trie.nodes.dom().contains(word),
        trie.nodes[word] == Some(symbol),
        forall|m: int|
            0 <= m < word.len() ==> trie.nodes.dom().contains(#[trigger] word.take(m))
                && trie.nodes[word.take(m)].is_none(),
    ensures
        spells(trie, word.skip(at), symbol),
    decreases word.len() - at,
{
    let rest = word.skip(at);
    let child = trie.cursor.push(rest[0]);
    assert(child =~= word.take(at + 1));
    if at + 1 == word.len() {
        assert(child =~= word);
    } else {
        let next = trie.step(rest[0]).1;
        assert(next.cursor == word.take(at + 1));
        lemma_spells_from(next, word, symbol, at + 1);
        assert(rest.drop_first() =~= word.skip(at + 1));
    }
}

/// Within a table that fits, the tree built from the table spells every
/// codeword of the table: fed bit by bit from the root, the codeword gives
/// no symbol before its last bit, and the symbol at its place in the table
/// at its last bit.
pub proof fn lemma_canonical_round_trip(counts: Seq<u8>, symbols: Seq<u8>, k: nat)
    requires
        counts.len() == 16,
        fits(counts),
        k < total(counts),
    ensures
        spells(built(counts, symbols, total(counts)), word_of(counts, k), symbols[k as int]),
{
    let trie = built(counts, symbols, total(counts));
    let word = word_of(counts, k);
    lemma_length_range(counts, k);
    lemma_built_cursor(counts, symbols, total(counts));
    lemma_built_holds(counts, symbols, total(counts), k);
    assert(trie.cursor =~= word.take(0));
    lemma_spells_from(trie, word, symbols[k as int], 0);
    assert(word.skip(0) =~= word);
}

} // verus!
