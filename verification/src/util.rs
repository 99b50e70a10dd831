//! Byte-string arithmetic shared by the key codec and the population
//! counters: the value of a big-endian digit string in base 256, reading and
//! writing such strings, and a linear search over a sorted array.

use vstd::prelude::*;
use vstd::arithmetic::div_mod::{
    lemma_fundamental_div_mod, lemma_multiply_divide_lt, lemma_div_denominator,
};
use vstd::arithmetic::power::{pow, lemma_pow_positive};
use vstd::arithmetic::mul::lemma_mul_inequality;
use crate::key::Key;

pub mod locksteparray;

verus! {

/// One unfolding of `pow` at base 256, together with positivity.
pub proof fn lemma_pow256_step(e: nat)
    ensures
        pow(256, 0) == 1,
        pow(256, e + 1) == 256 * pow(256, e),
        pow(256, e) >= 1,
{
    reveal(pow);
    lemma_pow_positive(256, e);
}

/// The numeric value of a big-endian digit string in base 256.
pub open spec fn be_val(s: Seq<u8>) -> nat
    decreases s.len(),
{
    if s.len() == 0 {
        0
    } else {
        (be_val(s.drop_last()) * 256 + s.last()) as nat
    }
}

/// The `len` big-endian base-256 digits of `n` (the low `len` digits,
/// most significant first).
pub open spec fn be_bytes(n: nat, len: nat) -> Seq<u8>
    decreases len,
{
    if len == 0 {
        Seq::empty()
    } else {
        be_bytes(n / 256, (len - 1) as nat).push((n % 256) as u8)
    }
}

pub proof fn lemma_be_bytes_len(n: nat, len: nat)
    ensures
        be_bytes(n, len).len() == len,
    decreases len,
{
    if len > 0 {
        lemma_be_bytes_len(n / 256, (len - 1) as nat);
    }
}

/// A digit string of length `len` denotes a value below `256^len`.
pub proof fn lemma_be_val_bound(s: Seq<u8>)
    ensures
        be_val(s) < pow(256, s.len()),
    decreases s.len(),
{
    if s.len() == 0 {
        lemma_pow256_step(0);
    } else {
        let prefix = s.drop_last();
        lemma_be_val_bound(prefix);
        let p = pow(256, prefix.len());
        lemma_pow256_step(prefix.len());
        assert(be_val(prefix) <= p - 1);
        assert(be_val(prefix) * 256 <= (p - 1) * 256) by {
            lemma_mul_inequality(be_val(prefix) as int, p - 1, 256);
        }
        assert(pow(256, s.len()) == 256 * p);
    }
}

/// Writing `n < 256^len` as `len` digits and reading the digits back
/// gives `n` again.
pub proof fn lemma_be_round_trip(n: nat, len: nat)
    requires
        n < pow(256, len),
    ensures
        be_val(be_bytes(n, len)) == n,
    decreases len,
{
    if len == 0 {
        lemma_pow256_step(0);
    } else {
        lemma_pow256_step((len - 1) as nat);
        let prefix = be_bytes(n / 256, (len - 1) as nat);
        assert(be_bytes(n, len) == prefix.push((n % 256) as u8));
        assert(be_bytes(n, len).drop_last() == prefix);
        assert(pow(256, len) == 256 * pow(256, (len - 1) as nat));
        assert(n / 256 < pow(256, (len - 1) as nat)) by {
            lemma_multiply_divide_lt(n as int, 256, pow(256, (len - 1) as nat));
        }
        lemma_be_round_trip(n / 256, (len - 1) as nat);
        lemma_fundamental_div_mod(n as int, 256);
    }
}

/// Dropping the last digit never increases the value.
proof fn lemma_be_val_drop_last_le(s: Seq<u8>)
    requires
        s.len() > 0,
    ensures
        be_val(s.drop_last()) <= be_val(s),
{
    let v = be_val(s.drop_last());
    assert(v * 256 == v + v * 255);
    assert(v * 255 >= 0);
}

/// A prefix of a digit string never denotes more than the whole string.
pub proof fn lemma_be_val_take_le(s: Seq<u8>, i: int)
    requires
        0 <= i <= s.len(),
    ensures
        be_val(s.take(i)) <= be_val(s),
    decreases s.len() - i,
{
    if i == s.len() {
        assert(s.take(i) == s);
    } else {
        lemma_be_val_take_le(s, i + 1);
        assert(s.take(i + 1).drop_last() == s.take(i));
        lemma_be_val_drop_last_le(s.take(i + 1));
    }
}

/// The digit at position `j` of the `len`-digit rendering of `n`.
pub proof fn lemma_be_bytes_index(n: nat, len: nat, j: int)
    requires
        0 <= j < len,
    ensures
        be_bytes(n, len).len() == len,
        be_bytes(n, len)[j] == ((n as int / pow(256, (len - 1 - j) as nat)) % 256) as u8,
    decreases len,
{
    lemma_be_bytes_len(n, len);
    lemma_be_bytes_len(n / 256, (len - 1) as nat);
    if j == len - 1 {
        lemma_pow256_step(0);
        assert(n as int / 1 == n) by (nonlinear_arith);
    } else {
        lemma_be_bytes_index(n / 256, (len - 1) as nat, j);
        let e = (len - 2 - j) as nat;
        lemma_pow256_step(e);
        assert(pow(256, (e + 1) as nat) == 256 * pow(256, e));
        assert(n as int / 256 / pow(256, e) == n as int / (256 * pow(256, e))) by {
            lemma_pow256_step(e);
            lemma_div_denominator(n as int, 256, pow(256, e));
        }
    }
}

/// Reads a big-endian byte string as an unsigned machine word, most
/// significant byte first.
pub fn partial_read(array: &Vec<u8>) -> (r: usize)
    requires
        be_val(array@) <= usize::MAX,
    ensures
        r as nat == be_val(array@),
{
    let ghost s = array@;
    let mut acc: usize = 0;
    let mut i: usize = 0;
    while i < array.len()
        invariant
            0 <= i <= s.len(),
            array@ == s,
            be_val(s) <= usize::MAX,
            acc as nat == be_val(s.take(i as int)),
        decreases s.len() - i,
    {
        proof {
            lemma_be_val_take_le(s, i + 1);
            assert(s.take(i + 1).drop_last() == s.take(i as int));
            assert(s.take(i + 1).last() == s[i as int]);
        }
        acc = acc * 256 + (array[i] as usize);
        i = i + 1;
    }
    proof {
        assert(s.take(s.len() as int) == s);
    }
    acc
}

/// Writes a value into a byte string as big-endian digits, most significant
/// byte first; the value must fit in the string.
pub fn partial_write(array: &mut Vec<u8>, value: usize)
    requires
        (value as nat) < pow(256, old(array)@.len()),
    ensures
        final(array)@ == be_bytes(value as nat, old(array)@.len()),
{
    let ghost len = array@.len();
    let ghost target = be_bytes(value as nat, len);
    proof {
        lemma_be_bytes_len(value as nat, len);
        lemma_pow256_step(0);
        assert(value as int / 1 == value) by (nonlinear_arith);
    }
    let mut i: usize = array.len();
    let mut v: usize = value;
    while i > 0
        invariant
            0 <= i <= len,
            array@.len() == len,
            v as int == value as int / pow(256, (len - i) as nat),
            target == be_bytes(value as nat, len),
            target.len() == len,
            forall|j: int| i <= j < len ==> array@[j] == target[j],
        decreases i,
    {
        let ghost done = (len - i) as nat;
        proof {
            lemma_be_bytes_index(value as nat, len, i - 1);
            lemma_pow256_step(done);
            assert(pow(256, (done + 1) as nat) == 256 * pow(256, done));
            lemma_div_denominator(value as int, pow(256, done), 256);
        }
        i = i - 1;
        let b: u8 = (v % 256) as u8;
        array.set(i, b);
        v = v / 256;
    }
    proof {
        assert(array@ =~= target);
    }
}

/// Scans a sorted array for `key`, stopping at the first element that is not
/// below it: `Ok(i)` when the element at `i` equals `key`, `Err(i)` when `i`
/// is the insertion point (every earlier element is below `key`, and the
/// element at `i`, if any, is above it).
pub fn linear_search<K: Key>(array: &Vec<K>, key: &K) -> (r: Result<usize, usize>)
    ensures
        match r {
            Ok(i) => 0 <= i < array@.len() && array@[i as int] == *key && (forall|j: int|
                0 <= j < i ==> array@[j].rank() < key.rank()),
            Err(i) => 0 <= i <= array@.len() && (forall|j: int|
                0 <= j < i ==> array@[j].rank() < key.rank()) && (i < array@.len()
                ==> array@[i as int].rank() > key.rank()),
        },
{
    let mut i: usize = 0;
    while i < array.len()
        invariant
            0 <= i <= array@.len(),
            forall|j: int| 0 <= j < i ==> array@[j].rank() < key.rank(),
        decreases array@.len() - i,
    {
        let item = array[i];
        if item.key_lt(*key) {
            i = i + 1;
        } else if item.key_eq(*key) {
            proof {
                item.lemma_rank_injective(*key);
            }
            return Ok(i);
        } else {
            proof {
                item.lemma_rank_injective(*key);
            }
            return Err(i);
        }
    }
    Err(i)
}

} // verus!
