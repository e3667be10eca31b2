//! Fixed-width byte strings (hashes, addresses, 256-bit words) and the
//! byte-level operations the rest of the library is built on.

use vstd::prelude::*;

verus! {

/// A 32-byte hash.
pub type B256 = [u8; 32];

/// A 20-byte account address.
pub type Address = [u8; 20];

/// A 256-bit unsigned word, stored big-endian, so that byte order is numeric order.
pub type Word = [u8; 32];

/// Lexicographic strict order on byte strings of equal length: at the first
/// position where they differ, the left one holds the smaller byte.
pub open spec fn lex_lt(a: Seq<u8>, b: Seq<u8>) -> bool {
    exists|i: int|
        0 <= i < a.len() && i < b.len() && a[i] < b[i] && (forall|j: int|
            0 <= j < i ==> #[trigger] a[j] == b[j])
}

/// `lex_lt` is irreflexive and asymmetric.
pub proof fn lemma_lex_lt_asymmetric(a: Seq<u8>, b: Seq<u8>)
    ensures
        lex_lt(a, b) ==> !lex_lt(b, a),
        !lex_lt(a, a),
{
    if lex_lt(a, b) && lex_lt(b, a) {
        let i = choose|i: int|
            0 <= i < a.len() && i < b.len() && a[i] < b[i] && (forall|j: int|
                0 <= j < i ==> #[trigger] a[j] == b[j]);
        let k = choose|k: int|
            0 <= k < b.len() && k < a.len() && b[k] < a[k] && (forall|j: int|
                0 <= j < k ==> #[trigger] b[j] == a[j]);
        if i < k {
            assert(b[i] == a[i]);
        } else if k < i {
            assert(a[k] == b[k]);
        }
    }
}

/// `lex_lt` is transitive.
pub proof fn lemma_lex_lt_transitive(a: Seq<u8>, b: Seq<u8>, c: Seq<u8>)
    requires
        lex_lt(a, b),
        lex_lt(b, c),
    ensures
        lex_lt(a, c),
{
    let i = choose|i: int|
        0 <= i < a.len() && i < b.len() && a[i] < b[i] && (forall|j: int|
            0 <= j < i ==> #[trigger] a[j] == b[j]);
    let k = choose|k: int|
        0 <= k < b.len() && k < c.len() && b[k] < c[k] && (forall|j: int|
            0 <= j < k ==> #[trigger] b[j] == c[j]);
    let m = if i < k { i } else { k };
    assert forall|j: int| 0 <= j < m implies #[trigger] a[j] == c[j] by {
        assert(a[j] == b[j]);
        assert(b[j] == c[j]);
    }
    if i < k {
        assert(b[i] == c[i]);
    } else if k < i {
        assert(a[k] == b[k]);
    }
    assert(a[m] < c[m]);
}

/// Two different byte strings of equal length are ordered one way or the other.
pub proof fn lemma_lex_lt_total(a: Seq<u8>, b: Seq<u8>)
    requires
        a.len() == b.len(),
        a != b,
    ensures
        lex_lt(a, b) || lex_lt(b, a),
{
    if forall|i: int| 0 <= i < a.len() ==> a[i] == b[i] {
        assert(a =~= b);
    }
    let d = choose|d: int| 0 <= d < a.len() && a[d] != b[d];
    lemma_first_difference(a, b, d);
}

proof fn lemma_first_difference(a: Seq<u8>, b: Seq<u8>, d: int)
    requires
        a.len() == b.len(),
        0 <= d < a.len(),
        a[d] != b[d],
    ensures
        lex_lt(a, b) || lex_lt(b, a),
    decreases d,
{
    if forall|j: int| 0 <= j < d ==> #[trigger] a[j] == b[j] {
        if a[d] < b[d] {
            assert(lex_lt(a, b));
        } else {
            assert(forall|j: int| 0 <= j < d ==> #[trigger] b[j] == a[j]);
            assert(lex_lt(b, a));
        }
    } else {
        let e = choose|e: int| 0 <= e < d && a[e] != b[e];
        lemma_first_difference(a, b, e);
    }
}

/// Compares two byte strings of equal length in lexicographic order.
pub fn bytes_lt(a: &[u8], b: &[u8]) -> (r: bool)
    requires
        a@.len() == b@.len(),
    ensures
        r == lex_lt(a@, b@),
{
    let mut i: usize = 0;
    while i < a.len()
        invariant
            a@.len() == b@.len(),
            i <= a@.len(),
            forall|j: int| 0 <= j < i ==> #[trigger] a@[j] == b@[j],
        decreases a@.len() - i,
    {
        if a[i] < b[i] {
            assert(lex_lt(a@, b@));
            return true;
        }
        if a[i] > b[i] {
            assert(forall|j: int| 0 <= j < i ==> #[trigger] b@[j] == a@[j]);
            assert(lex_lt(b@, a@));
            proof {
                lemma_lex_lt_asymmetric(b@, a@);
            }
            return false;
        }
        i = i + 1;
    }
    assert(a@ =~= b@);
    proof {
        lemma_lex_lt_asymmetric(a@, a@);
    }
    false
}

/// Returns whether two byte strings are equal.
pub fn bytes_eq(a: &[u8], b: &[u8]) -> (r: bool)
    ensures
        r == (a@ == b@),
{
    if a.len() != b.len() {
        return false;
    }
    let mut i: usize = 0;
    while i < a.len()
        invariant
            a@.len() == b@.len(),
            i <= a@.len(),
            forall|j: int| 0 <= j < i ==> a@[j] == b@[j],
        decreases a@.len() - i,
    {
        if a[i] != b[i] {
            return false;
        }
        i = i + 1;
    }
    assert(a@ =~= b@);
    true
}

/// Copies a byte string into a new vector.
pub fn copy_bytes(b: &[u8]) -> (r: Vec<u8>)
    ensures
        r@ == b@,
{
    let mut r: Vec<u8> = Vec::new();
    let mut i: usize = 0;
    while i < b.len()
        invariant
            i <= b@.len(),
            r@ == b@.subrange(0, i as int),
        decreases b@.len() - i,
    {
        r.push(b[i]);
        i = i + 1;
        assert(r@ =~= b@.subrange(0, i as int));
    }
    assert(b@.subrange(0, b@.len() as int) =~= b@);
    r
}

/// The 32 bytes of a slice as an array.
pub fn b256_from_slice(b: &[u8]) -> (r: B256)
    requires
        b@.len() == 32,
    ensures
        r@ == b@,
{
    let mut r: B256 = [0u8; 32];
    let mut i: usize = 0;
    while i < 32
        invariant
            b@.len() == 32,
            i <= 32,
            forall|j: int| 0 <= j < i ==> r@[j] == b@[j],
        decreases 32 - i,
    {
        r[i] = b[i];
        i = i + 1;
    }
    assert(r@ =~= b@);
    r
}

/// The 20 bytes of a slice as an address.
pub fn address_from_slice(b: &[u8]) -> (r: Address)
    requires
        b@.len() == 20,
    ensures
        r@ == b@,
{
    let mut r: Address = [0u8; 20];
    let mut i: usize = 0;
    while i < 20
        invariant
            b@.len() == 20,
            i <= 20,
            forall|j: int| 0 <= j < i ==> r@[j] == b@[j],
        decreases 20 - i,
    {
        r[i] = b[i];
        i = i + 1;
    }
    assert(r@ =~= b@);
    r
}

/// A copy of the first `n` bytes.
pub fn copy_prefix(b: &[u8], n: usize) -> (r: Vec<u8>)
    requires
        n <= b@.len(),
    ensures
        r@ == b@.take(n as int),
{
    let mut r: Vec<u8> = Vec::new();
    let mut i: usize = 0;
    while i < n
        invariant
            n <= b@.len(),
            i <= n,
            r@ == b@.take(i as int),
        decreases n - i,
    {
        r.push(b[i]);
        i = i + 1;
        assert(r@ =~= b@.take(i as int));
    }
    r
}

/// The Keccak-256 digest of a byte string.
pub uninterp spec fn keccak(data: Seq<u8>) -> Seq<u8>;

/// Calls `alloy_primitives::keccak256`, which hashes its input with Keccak-256.
/// Claimed: the 32 returned bytes are `keccak` of the input, a function of the input alone.
#[verifier::external_body]
pub(crate) fn keccak256(data: &[u8]) -> (h: B256)
    ensures
        h@ == keccak(data@),
{
    alloy_primitives::keccak256(data).0
}


/// The zero word.
pub open spec fn zero_word() -> Word {
    [
        0u8, 0, 0, 0, 0, 0, 0, 0, 0, 0, 0, 0, 0, 0, 0, 0,
        0, 0, 0, 0, 0, 0, 0, 0, 0, 0, 0, 0, 0, 0, 0, 0,
    ]
}

/// Returns the zero word.
pub fn zero() -> (w: Word)
    ensures
        w == zero_word(),
{
    [
        0u8, 0, 0, 0, 0, 0, 0, 0, 0, 0, 0, 0, 0, 0, 0, 0,
        0, 0, 0, 0, 0, 0, 0, 0, 0, 0, 0, 0, 0, 0, 0, 0,
    ]
}

/// The Keccak-256 hash of empty input: the code hash of an account without code.
pub open spec fn empty_code_hash() -> B256 {
    [
        0xc5u8, 0xd2, 0x46, 0x01, 0x86, 0xf7, 0x23, 0x3c, 0x92, 0x7e, 0x7d, 0xb2, 0xdc, 0xc7, 0x03, 0xc0,
        0xe5, 0x00, 0xb6, 0x53, 0xca, 0x82, 0x27, 0x3b, 0x7b, 0xfa, 0xd8, 0x04, 0x5d, 0x85, 0xa4, 0x70,
    ]
}

/// Returns the hash of empty code.
pub fn keccak_empty_hash() -> (h: B256)
    ensures
        h == empty_code_hash(),
{
    [
        0xc5u8, 0xd2, 0x46, 0x01, 0x86, 0xf7, 0x23, 0x3c, 0x92, 0x7e, 0x7d, 0xb2, 0xdc, 0xc7, 0x03, 0xc0,
        0xe5, 0x00, 0xb6, 0x53, 0xca, 0x82, 0x27, 0x3b, 0x7b, 0xfa, 0xd8, 0x04, 0x5d, 0x85, 0xa4, 0x70,
    ]
}

} // verus!
