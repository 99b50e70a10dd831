//! The key codec: every supported integer key is encoded as a fixed-length
//! big-endian byte string such that unsigned lexicographic order on the bytes
//! equals numeric order on the keys. Signed keys are biased by subtracting
//! the type's minimum before encoding, so that the same byte order holds
//! across zero.

use vstd::prelude::*;
use vstd::arithmetic::div_mod::{lemma_fundamental_div_mod, lemma_div_is_ordered, lemma_multiply_divide_lt};
use vstd::arithmetic::power::{pow, lemma_pow_increases};
use crate::util::{
    be_val, be_bytes, lemma_be_bytes_len, lemma_be_val_bound, lemma_be_round_trip,
    lemma_be_val_take_le, lemma_pow256_step,
};

verus! {

/// Powers of 256 at the byte widths the codec uses.
pub proof fn lemma_pow256_values()
    ensures
        pow(256, 1) == 0x100,
        pow(256, 2) == 0x10000,
        pow(256, 4) == 0x100000000,
        pow(256, 7) == 0x100000000000000,
        pow(256, 8) == 0x10000000000000000,
{
    lemma_pow256_step(0);
    lemma_pow256_step(1);
    lemma_pow256_step(2);
    lemma_pow256_step(3);
    lemma_pow256_step(4);
    lemma_pow256_step(5);
    lemma_pow256_step(6);
    lemma_pow256_step(7);
}

/// Strict lexicographic order on byte strings: the two strings agree on a
/// proper prefix and `a` has the smaller byte right after it.
pub open spec fn lex_lt(a: Seq<u8>, b: Seq<u8>) -> bool {
    exists|i: int|
        0 <= i < a.len() && i < b.len() && a.take(i) == b.take(i) && a[i] < b[i]
}

/// On equal-length digit strings, numeric order implies lexicographic order.
pub proof fn lemma_be_monotone(n1: nat, n2: nat, len: nat)
    requires
        n1 < n2,
        n2 < pow(256, len),
    ensures
        lex_lt(be_bytes(n1, len), be_bytes(n2, len)),
    decreases len,
{
    lemma_pow256_step((len - 1) as nat);
    let a = be_bytes(n1, len);
    let b = be_bytes(n2, len);
    let pa = be_bytes(n1 / 256, (len - 1) as nat);
    let pb = be_bytes(n2 / 256, (len - 1) as nat);
    lemma_be_bytes_len(n1, len);
    lemma_be_bytes_len(n2, len);
    lemma_be_bytes_len(n1 / 256, (len - 1) as nat);
    lemma_be_bytes_len(n2 / 256, (len - 1) as nat);
    lemma_fundamental_div_mod(n1 as int, 256);
    lemma_fundamental_div_mod(n2 as int, 256);
    if n1 / 256 == n2 / 256 {
        // the prefixes are identical and the last digits are ordered
        let i = len - 1;
        assert(a.take(i) =~= pa);
        assert(b.take(i) =~= pb);
        assert(a[i] == (n1 % 256) as u8);
        assert(b[i] == (n2 % 256) as u8);
        assert(n1 % 256 < n2 % 256);
        assert(lex_lt(a, b));
    } else {
        lemma_div_is_ordered(n1 as int, n2 as int, 256);
        assert(n2 / 256 < pow(256, (len - 1) as nat)) by {
            lemma_multiply_divide_lt(n2 as int, 256, pow(256, (len - 1) as nat));
        }
        lemma_be_monotone(n1 / 256, n2 / 256, (len - 1) as nat);
        let i = choose|i: int|
            0 <= i < pa.len() && i < pb.len() && pa.take(i) == pb.take(i) && pa[i] < pb[i];
        assert(a.take(i) =~= pa.take(i));
        assert(b.take(i) =~= pb.take(i));
        assert(a[i] == pa[i] && b[i] == pb[i]);
        assert(lex_lt(a, b));
    }
}

/// Reads a big-endian byte string of at most eight bytes.
pub fn be_decode(bytes: &Vec<u8>) -> (r: u64)
    requires
        bytes@.len() <= 8,
    ensures
        r as nat == be_val(bytes@),
{
    let ghost s = bytes@;
    proof {
        lemma_be_val_bound(s);
        lemma_pow_increases(256, s.len(), 8);
        lemma_pow256_values();
    }
    let mut acc: u64 = 0;
    let mut i: usize = 0;
    while i < bytes.len()
        invariant
            0 <= i <= s.len(),
            bytes@ == s,
            be_val(s) < 0x10000000000000000,
            acc as nat == be_val(s.take(i as int)),
        decreases s.len() - i,
    {
        proof {
            lemma_be_val_take_le(s, i + 1);
            assert(s.take(i + 1).drop_last() == s.take(i as int));
            assert(s.take(i + 1).last() == s[i as int]);
        }
        acc = acc * 256 + (bytes[i] as u64);
        i = i + 1;
    }
    proof {
        assert(s.take(s.len() as int) == s);
    }
    acc
}

/// Writes `x` as a big-endian byte string of `len` bytes; `x` must fit.
pub fn be_encode(x: u64, len: usize) -> (r: Vec<u8>)
    requires
        len <= 8,
        (x as nat) < pow(256, len as nat),
    ensures
        r@ == be_bytes(x as nat, len as nat),
        r@.len() == len,
{
    let ghost l = len as nat;
    let ghost target = be_bytes(x as nat, l);
    proof {
        lemma_be_bytes_len(x as nat, l);
        lemma_pow256_step(0);
        assert(x as int / 1 == x) by (nonlinear_arith);
    }
    let mut out: Vec<u8> = Vec::new();
    let mut j: usize = 0;
    while j < len
        invariant
            out@.len() == j,
            j <= len,
        decreases len - j,
    {
        out.push(0u8);
        j = j + 1;
    }
    let mut i: usize = len;
    let mut v: u64 = x;
    while i > 0
        invariant
            0 <= i <= l,
            out@.len() == l,
            v as int == x as int / pow(256, (l - i) as nat),
            target == be_bytes(x as nat, l),
            target.len() == l,
            forall|k: int| i <= k < l ==> out@[k] == target[k],
        decreases i,
    {
        let ghost done = (l - i) as nat;
        proof {
            crate::util::lemma_be_bytes_index(x as nat, l, i - 1);
            lemma_pow256_step(done);
            vstd::arithmetic::div_mod::lemma_div_denominator(x as int, pow(256, done), 256);
        }
        i = i - 1;
        let b: u8 = (v % 256) as u8;
        out.set(i, b);
        v = v / 256;
    }
    proof {
        assert(out@ =~= target);
    }
    out
}

/// A fixed-width integer key. `spec_encode` gives the key's big-endian byte
/// string (after the sign bias, for signed types), `rank` its position in
/// numeric order, and the proof obligations tie the two together: encoding
/// has the declared length, decoding inverts it, and byte order agrees with
/// numeric order.
pub trait Key: Copy + Sized {
    /// Number of bytes in an encoded key.
    spec fn spec_size() -> nat;

    /// The key's position in numeric order.
    spec fn rank(self) -> int;

    /// The encoded form of the key.
    spec fn spec_encode(self) -> Seq<u8>;

    /// The key denoted by an encoded form.
    spec fn spec_decode(s: Seq<u8>) -> Self;

    /// Encoded keys are one to eight bytes long.
    proof fn lemma_size()
        ensures
            1 <= Self::spec_size() <= 8,
    ;

    /// The encoding has exactly `spec_size` bytes.
    proof fn lemma_encode_len(self)
        ensures
            self.spec_encode().len() == Self::spec_size(),
    ;

    /// Decoding inverts encoding, for every representable key.
    proof fn lemma_round_trip(self)
        ensures
            Self::spec_decode(self.spec_encode()) == self,
    ;

    /// Equal ranks mean equal keys: `rank` is an order embedding.
    proof fn lemma_rank_injective(self, other: Self)
        ensures
            (self.rank() == other.rank()) <==> (self == other),
    ;

    /// Numeric order on keys equals lexicographic order on encodings.
    proof fn lemma_encode_monotone(self, other: Self)
        requires
            self.rank() < other.rank(),
        ensures
            lex_lt(self.spec_encode(), other.spec_encode()),
    ;

    /// The number of bytes in an encoded key.
    fn key_size() -> (r: usize)
        ensures
            r as nat == Self::spec_size(),
    ;

    /// Encodes the key.
    fn into_bytes(self) -> (r: Vec<u8>)
        ensures
            r@ == self.spec_encode(),
    ;

    /// Decodes a key from its encoded form.
    fn from_bytes(bytes: Vec<u8>) -> (r: Self)
        requires
            bytes@.len() == Self::spec_size(),
        ensures
            r == Self::spec_decode(bytes@),
    ;

    /// Equality test.
    fn key_eq(self, other: Self) -> (r: bool)
        ensures
            r == (self == other),
    ;

    /// Numeric order test.
    fn key_lt(self, other: Self) -> (r: bool)
        ensures
            r == (self.rank() < other.rank()),
    ;
}

impl Key for u32 {
    open spec fn spec_size() -> nat {
        4
    }

    open spec fn rank(self) -> int {
        self as int
    }

    open spec fn spec_encode(self) -> Seq<u8> {
        be_bytes(self as nat, 4)
    }

    open spec fn spec_decode(s: Seq<u8>) -> u32 {
        be_val(s) as u32
    }

    proof fn lemma_size() {
    }

    proof fn lemma_encode_len(self) {
        lemma_be_bytes_len(self as nat, 4);
    }

    proof fn lemma_round_trip(self) {
        lemma_pow256_values();
        lemma_be_round_trip(self as nat, 4);
    }

    proof fn lemma_rank_injective(self, other: Self) {
    }

    proof fn lemma_encode_monotone(self, other: Self) {
        lemma_pow256_values();
        lemma_be_monotone(self as nat, other as nat, 4);
    }

    fn key_size() -> (r: usize) {
        4
    }

    fn into_bytes(self) -> (r: Vec<u8>) {
        proof {
            lemma_pow256_values();
        }
        be_encode(self as u64, 4)
    }

    fn from_bytes(bytes: Vec<u8>) -> (r: Self) {
        proof {
            lemma_be_val_bound(bytes@);
            lemma_pow256_values();
        }
        let v = be_decode(&bytes);
        v as u32
    }

    fn key_eq(self, other: Self) -> (r: bool) {
        self == other
    }

    fn key_lt(self, other: Self) -> (r: bool) {
        self < other
    }
}

impl Key for u8 {
    open spec fn spec_size() -> nat {
        1
    }

    open spec fn rank(self) -> int {
        self as int
    }

    open spec fn spec_encode(self) -> Seq<u8> {
        be_bytes(self as nat, 1)
    }

    open spec fn spec_decode(s: Seq<u8>) -> u8 {
        be_val(s) as u8
    }

    proof fn lemma_size() {
    }

    proof fn lemma_encode_len(self) {
        lemma_be_bytes_len(self as nat, 1);
    }

    proof fn lemma_round_trip(self) {
        lemma_pow256_values();
        lemma_be_round_trip(self as nat, 1);
    }

    proof fn lemma_rank_injective(self, other: Self) {
    }

    proof fn lemma_encode_monotone(self, other: Self) {
        lemma_pow256_values();
        lemma_be_monotone(self as nat, other as nat, 1);
    }

    fn key_size() -> (r: usize) {
        1
    }

    fn into_bytes(self) -> (r: Vec<u8>) {
        proof {
            lemma_pow256_values();
        }
        be_encode(self as u64, 1)
    }

    fn from_bytes(bytes: Vec<u8>) -> (r: Self) {
        proof {
            lemma_be_val_bound(bytes@);
            lemma_pow256_values();
        }
        let v = be_decode(&bytes);
        v as u8
    }

    fn key_eq(self, other: Self) -> (r: bool) {
        self == other
    }

    fn key_lt(self, other: Self) -> (r: bool) {
        self < other
    }
}

impl Key for u16 {
    open spec fn spec_size() -> nat {
        2
    }

    open spec fn rank(self) -> int {
        self as int
    }

    open spec fn spec_encode(self) -> Seq<u8> {
        be_bytes(self as nat, 2)
    }

    open spec fn spec_decode(s: Seq<u8>) -> u16 {
        be_val(s) as u16
    }

    proof fn lemma_size() {
    }

    proof fn lemma_encode_len(self) {
        lemma_be_bytes_len(self as nat, 2);
    }

    proof fn lemma_round_trip(self) {
        lemma_pow256_values();
        lemma_be_round_trip(self as nat, 2);
    }

    proof fn lemma_rank_injective(self, other: Self) {
    }

    proof fn lemma_encode_monotone(self, other: Self) {
        lemma_pow256_values();
        lemma_be_monotone(self as nat, other as nat, 2);
    }

    fn key_size() -> (r: usize) {
        2
    }

    fn into_bytes(self) -> (r: Vec<u8>) {
        proof {
            lemma_pow256_values();
        }
        be_encode(self as u64, 2)
    }

    fn from_bytes(bytes: Vec<u8>) -> (r: Self) {
        proof {
            lemma_be_val_bound(bytes@);
            lemma_pow256_values();
        }
        let v = be_decode(&bytes);
        v as u16
    }

    fn key_eq(self, other: Self) -> (r: bool) {
        self == other
    }

    fn key_lt(self, other: Self) -> (r: bool) {
        self < other
    }
}

impl Key for u64 {
    open spec fn spec_size() -> nat {
        8
    }

    open spec fn rank(self) -> int {
        self as int
    }

    open spec fn spec_encode(self) -> Seq<u8> {
        be_bytes(self as nat, 8)
    }

    open spec fn spec_decode(s: Seq<u8>) -> u64 {
        be_val(s) as u64
    }

    proof fn lemma_size() {
    }

    proof fn lemma_encode_len(self) {
        lemma_be_bytes_len(self as nat, 8);
    }

    proof fn lemma_round_trip(self) {
        lemma_pow256_values();
        lemma_be_round_trip(self as nat, 8);
    }

    proof fn lemma_rank_injective(self, other: Self) {
    }

    proof fn lemma_encode_monotone(self, other: Self) {
        lemma_pow256_values();
        lemma_be_monotone(self as nat, other as nat, 8);
    }

    fn key_size() -> (r: usize) {
        8
    }

    fn into_bytes(self) -> (r: Vec<u8>) {
        proof {
            lemma_pow256_values();
        }
        be_encode(self, 8)
    }

    fn from_bytes(bytes: Vec<u8>) -> (r: Self) {
        proof {
            lemma_be_val_bound(bytes@);
            lemma_pow256_values();
        }
        be_decode(&bytes)
    }

    fn key_eq(self, other: Self) -> (r: bool) {
        self == other
    }

    fn key_lt(self, other: Self) -> (r: bool) {
        self < other
    }
}

impl Key for usize {
    open spec fn spec_size() -> nat {
        8
    }

    open spec fn rank(self) -> int {
        self as int
    }

    open spec fn spec_encode(self) -> Seq<u8> {
        be_bytes(self as nat, 8)
    }

    open spec fn spec_decode(s: Seq<u8>) -> usize {
        be_val(s) as usize
    }

    proof fn lemma_size() {
    }

    proof fn lemma_encode_len(self) {
        lemma_be_bytes_len(self as nat, 8);
    }

    proof fn lemma_round_trip(self) {
        lemma_pow256_values();
        lemma_be_round_trip(self as nat, 8);
    }

    proof fn lemma_rank_injective(self, other: Self) {
    }

    proof fn lemma_encode_monotone(self, other: Self) {
        lemma_pow256_values();
        lemma_be_monotone(self as nat, other as nat, 8);
    }

    fn key_size() -> (r: usize) {
        8
    }

    fn into_bytes(self) -> (r: Vec<u8>) {
        proof {
            lemma_pow256_values();
        }
        be_encode(self as u64, 8)
    }

    fn from_bytes(bytes: Vec<u8>) -> (r: Self) {
        proof {
            lemma_be_val_bound(bytes@);
            lemma_pow256_values();
        }
        let v = be_decode(&bytes);
        #[verifier::truncate] (v as usize)
    }

    fn key_eq(self, other: Self) -> (r: bool) {
        self == other
    }

    fn key_lt(self, other: Self) -> (r: bool) {
        self < other
    }
}

impl Key for i8 {
    open spec fn spec_size() -> nat {
        1
    }

    open spec fn rank(self) -> int {
        self as int
    }

    open spec fn spec_encode(self) -> Seq<u8> {
        be_bytes((self as int + 0x80) as nat, 1)
    }

    open spec fn spec_decode(s: Seq<u8>) -> i8 {
        (be_val(s) as int - 0x80) as i8
    }

    proof fn lemma_size() {
    }

    proof fn lemma_encode_len(self) {
        lemma_be_bytes_len((self as int + 0x80) as nat, 1);
    }

    proof fn lemma_round_trip(self) {
        lemma_pow256_values();
        lemma_be_round_trip((self as int + 0x80) as nat, 1);
    }

    proof fn lemma_rank_injective(self, other: Self) {
    }

    proof fn lemma_encode_monotone(self, other: Self) {
        lemma_pow256_values();
        lemma_be_monotone((self as int + 0x80) as nat, (other as int + 0x80) as nat, 1);
    }

    fn key_size() -> (r: usize) {
        1
    }

    fn into_bytes(self) -> (r: Vec<u8>) {
        proof {
            lemma_pow256_values();
        }
        let shifted: u64 = (self as i16 + 0x80) as u64;
        be_encode(shifted, 1)
    }

    fn from_bytes(bytes: Vec<u8>) -> (r: Self) {
        proof {
            lemma_be_val_bound(bytes@);
            lemma_pow256_values();
        }
        let v = be_decode(&bytes);
        (v as i16 - 0x80) as i8
    }

    fn key_eq(self, other: Self) -> (r: bool) {
        self == other
    }

    fn key_lt(self, other: Self) -> (r: bool) {
        self < other
    }
}

impl Key for i16 {
    open spec fn spec_size() -> nat {
        2
    }

    open spec fn rank(self) -> int {
        self as int
    }

    open spec fn spec_encode(self) -> Seq<u8> {
        be_bytes((self as int + 0x8000) as nat, 2)
    }

    open spec fn spec_decode(s: Seq<u8>) -> i16 {
        (be_val(s) as int - 0x8000) as i16
    }

    proof fn lemma_size() {
    }

    proof fn lemma_encode_len(self) {
        lemma_be_bytes_len((self as int + 0x8000) as nat, 2);
    }

    proof fn lemma_round_trip(self) {
        lemma_pow256_values();
        lemma_be_round_trip((self as int + 0x8000) as nat, 2);
    }

    proof fn lemma_rank_injective(self, other: Self) {
    }

    proof fn lemma_encode_monotone(self, other: Self) {
        lemma_pow256_values();
        lemma_be_monotone((self as int + 0x8000) as nat, (other as int + 0x8000) as nat, 2);
    }

    fn key_size() -> (r: usize) {
        2
    }

    fn into_bytes(self) -> (r: Vec<u8>) {
        proof {
            lemma_pow256_values();
        }
        let shifted: u64 = (self as i32 + 0x8000) as u64;
        be_encode(shifted, 2)
    }

    fn from_bytes(bytes: Vec<u8>) -> (r: Self) {
        proof {
            lemma_be_val_bound(bytes@);
            lemma_pow256_values();
        }
        let v = be_decode(&bytes);
        (v as i32 - 0x8000) as i16
    }

    fn key_eq(self, other: Self) -> (r: bool) {
        self == other
    }

    fn key_lt(self, other: Self) -> (r: bool) {
        self < other
    }
}

impl Key for i32 {
    open spec fn spec_size() -> nat {
        4
    }

    open spec fn rank(self) -> int {
        self as int
    }

    open spec fn spec_encode(self) -> Seq<u8> {
        be_bytes((self as int + 0x80000000) as nat, 4)
    }

    open spec fn spec_decode(s: Seq<u8>) -> i32 {
        (be_val(s) as int - 0x80000000) as i32
    }

    proof fn lemma_size() {
    }

    proof fn lemma_encode_len(self) {
        lemma_be_bytes_len((self as int + 0x80000000) as nat, 4);
    }

    proof fn lemma_round_trip(self) {
        lemma_pow256_values();
        lemma_be_round_trip((self as int + 0x80000000) as nat, 4);
    }

    proof fn lemma_rank_injective(self, other: Self) {
    }

    proof fn lemma_encode_monotone(self, other: Self) {
        lemma_pow256_values();
        lemma_be_monotone(
            (self as int + 0x80000000) as nat,
            (other as int + 0x80000000) as nat,
            4,
        );
    }

    fn key_size() -> (r: usize) {
        4
    }

    fn into_bytes(self) -> (r: Vec<u8>) {
        proof {
            lemma_pow256_values();
        }
        let shifted: u64 = (self as i64 + 0x80000000i64) as u64;
        be_encode(shifted, 4)
    }

    fn from_bytes(bytes: Vec<u8>) -> (r: Self) {
        proof {
            lemma_be_val_bound(bytes@);
            lemma_pow256_values();
        }
        let v = be_decode(&bytes);
        (v as i64 - 0x80000000i64) as i32
    }

    fn key_eq(self, other: Self) -> (r: bool) {
        self == other
    }

    fn key_lt(self, other: Self) -> (r: bool) {
        self < other
    }
}

impl Key for i64 {
    open spec fn spec_size() -> nat {
        8
    }

    open spec fn rank(self) -> int {
        self as int
    }

    open spec fn spec_encode(self) -> Seq<u8> {
        be_bytes((self as int + 0x8000000000000000) as nat, 8)
    }

    open spec fn spec_decode(s: Seq<u8>) -> i64 {
        (be_val(s) as int - 0x8000000000000000) as i64
    }

    proof fn lemma_size() {
    }

    proof fn lemma_encode_len(self) {
        lemma_be_bytes_len((self as int + 0x8000000000000000) as nat, 8);
    }

    proof fn lemma_round_trip(self) {
        lemma_pow256_values();
        lemma_be_round_trip((self as int + 0x8000000000000000) as nat, 8);
    }

    proof fn lemma_rank_injective(self, other: Self) {
    }

    proof fn lemma_encode_monotone(self, other: Self) {
        lemma_pow256_values();
        lemma_be_monotone(
            (self as int + 0x8000000000000000) as nat,
            (other as int + 0x8000000000000000) as nat,
            8,
        );
    }

    fn key_size() -> (r: usize) {
        8
    }

    fn into_bytes(self) -> (r: Vec<u8>) {
        proof {
            lemma_pow256_values();
        }
        let shifted: u64 = (self as i128 + 0x8000000000000000i128) as u64;
        be_encode(shifted, 8)
    }

    fn from_bytes(bytes: Vec<u8>) -> (r: Self) {
        proof {
            lemma_be_val_bound(bytes@);
            lemma_pow256_values();
        }
        let v = be_decode(&bytes);
        (v as i128 - 0x8000000000000000i128) as i64
    }

    fn key_eq(self, other: Self) -> (r: bool) {
        self == other
    }

    fn key_lt(self, other: Self) -> (r: bool) {
        self < other
    }
}

impl Key for isize {
    open spec fn spec_size() -> nat {
        8
    }

    open spec fn rank(self) -> int {
        self as int
    }

    open spec fn spec_encode(self) -> Seq<u8> {
        be_bytes((self as int + 0x8000000000000000) as nat, 8)
    }

    open spec fn spec_decode(s: Seq<u8>) -> isize {
        (be_val(s) as int - 0x8000000000000000) as isize
    }

    proof fn lemma_size() {
    }

    proof fn lemma_encode_len(self) {
        lemma_be_bytes_len((self as int + 0x8000000000000000) as nat, 8);
    }

    proof fn lemma_round_trip(self) {
        lemma_pow256_values();
        lemma_be_round_trip((self as int + 0x8000000000000000) as nat, 8);
    }

    proof fn lemma_rank_injective(self, other: Self) {
    }

    proof fn lemma_encode_monotone(self, other: Self) {
        lemma_pow256_values();
        lemma_be_monotone(
            (self as int + 0x8000000000000000) as nat,
            (other as int + 0x8000000000000000) as nat,
            8,
        );
    }

    fn key_size() -> (r: usize) {
        8
    }

    fn into_bytes(self) -> (r: Vec<u8>) {
        proof {
            lemma_pow256_values();
        }
        let shifted: u64 = (self as i64 as i128 + 0x8000000000000000i128) as u64;
        be_encode(shifted, 8)
    }

    fn from_bytes(bytes: Vec<u8>) -> (r: Self) {
        proof {
            lemma_be_val_bound(bytes@);
            lemma_pow256_values();
        }
        let v = be_decode(&bytes);
        let w: i128 = v as i128 - 0x8000000000000000i128;
        #[verifier::truncate] (w as isize)
    }

    fn key_eq(self, other: Self) -> (r: bool) {
        self == other
    }

    fn key_lt(self, other: Self) -> (r: bool) {
        self < other
    }
}

} // verus!
