//! 32-byte hash values: the order of their bytes and the shard that they select.

use vstd::prelude::*;

verus! {

/// A 256-bit hash, most significant byte first.
#[derive(Clone, Copy, Debug)]
pub struct HashValue {
    pub bytes: [u8; 32],
}

/// The text `SPARSE_MERKLE_PLACEHOLDER_HASH` in ASCII, filled up with zero bytes.
pub const SPARSE_MERKLE_PLACEHOLDER_BYTES: [u8; 32] = [
    0x53, 0x50, 0x41, 0x52, 0x53, 0x45, 0x5f, 0x4d, 0x45, 0x52, 0x4b, 0x4c, 0x45, 0x5f, 0x50, 0x4c,
    0x41, 0x43, 0x45, 0x48, 0x4f, 0x4c, 0x44, 0x45, 0x52, 0x5f, 0x48, 0x41, 0x53, 0x48, 0x00, 0x00,
];

/// Byte string `a` comes strictly before `b` in lexicographic order: at the
/// first place where they differ, `a` has the smaller byte.
pub open spec fn lex_before(a: Seq<u8>, b: Seq<u8>) -> bool {
    exists|i: int| #[trigger] first_difference(a, b, i) && a[i] < b[i]
}

/// `i` is the first place where `a` and `b` differ.
pub open spec fn first_difference(a: Seq<u8>, b: Seq<u8>, i: int) -> bool {
    &&& 0 <= i < a.len()
    &&& i < b.len()
    &&& a[i] != b[i]
    &&& forall|j: int| 0 <= j < i ==> a[j] == b[j]
}

/// The number that bytes spell, most significant byte first.
pub open spec fn spelled(bytes: Seq<u8>) -> nat
    decreases bytes.len(),
{
    if bytes.len() == 0 {
        0
    } else {
        spelled(bytes.drop_last()) * 256 + bytes.last() as nat
    }
}

impl HashValue {
    /// The 256-bit number that the hash is.
    pub open spec fn number(self) -> nat {
        spelled(self.bytes@)
    }

    /// The hash of a tree without leaves.
    pub open spec fn empty_tree() -> HashValue {
        HashValue { bytes: SPARSE_MERKLE_PLACEHOLDER_BYTES }
    }

    /// The hash comes strictly before `other` in the order of hashes.
    pub open spec fn before(self, other: HashValue) -> bool {
        lex_before(self.bytes@, other.bytes@)
    }

    /// The leading nibble: the four most significant bits.
    pub open spec fn leading_nibble(self) -> u8 {
        self.bytes[0] / 16
    }

    /// The hash made of zero bits alone.
    pub fn zero() -> (r: HashValue)
        ensures
            forall|i: int| 0 <= i < 32 ==> r.bytes[i] == 0,
            forall|h: HashValue| h != r ==> #[trigger] r.before(h),
    {
        let r = HashValue { bytes: [0u8; 32] };
        proof {
            assert forall|h: HashValue| h != r implies #[trigger] r.before(h) by {
                lemma_total(r, h);
            }
        }
        r
    }

    /// The hash of a tree without leaves.
    pub fn sparse_merkle_placeholder() -> (r: HashValue)
        ensures
            r == HashValue::empty_tree(),
    {
        HashValue { bytes: SPARSE_MERKLE_PLACEHOLDER_BYTES }
    }

    /// The leading nibble of the hash.
    pub fn get_leading_nibble(&self) -> (r: u8)
        ensures
            r == self.leading_nibble(),
            r < 16,
            r * 16 <= self.bytes[0] < r * 16 + 16,
    {
        self.bytes[0] / 16
    }

    /// Whether the hash comes strictly after `other`.
    pub fn is_after(&self, other: &HashValue) -> (r: bool)
        ensures
            r == other.before(*self),
            r == (other.number() < self.number()),
    {
        proof {
            law_order_is_that_of_numbers(*other, *self);
        }
        let mut i: usize = 0;
        while i < 32
            invariant
                i <= 32,
                other.before(*self) == (other.number() < self.number()),
                forall|j: int| 0 <= j < i ==> self.bytes[j] == other.bytes[j],
            decreases 32 - i,
        {
            if self.bytes[i] != other.bytes[i] {
                assert(first_difference(other.bytes@, self.bytes@, i as int));
                return other.bytes[i] < self.bytes[i];
            }
            i += 1;
        }
        false
    }
}

impl PartialEq for HashValue {
    fn eq(&self, other: &HashValue) -> (r: bool) {
        let mut i: usize = 0;
        while i < 32
            invariant
                i <= 32,
                forall|j: int| 0 <= j < i ==> self.bytes[j] == other.bytes[j],
            decreases 32 - i,
        {
            if self.bytes[i] != other.bytes[i] {
                return false;
            }
            i += 1;
        }
        assert(self.bytes =~= other.bytes);
        true
    }
}

impl vstd::std_specs::cmp::PartialEqSpecImpl for HashValue {
    open spec fn obeys_eq_spec() -> bool {
        true
    }

    open spec fn eq_spec(&self, other: &HashValue) -> bool {
        *self == *other
    }
}

impl Eq for HashValue {

}

/// Two distinct hashes differ at some first place.
proof fn lemma_differ(a: HashValue, b: HashValue) -> (i: int)
    requires
        a != b,
    ensures
        first_difference(a.bytes@, b.bytes@, i),
{
    if forall|i: int| 0 <= i < 32 ==> a.bytes[i] == b.bytes[i] {
        assert(a.bytes =~= b.bytes);
    }
    let k = choose|k: int| 0 <= k < 32 && a.bytes[k] != b.bytes[k];
    lemma_first_difference_up_to(a.bytes@, b.bytes@, k)
}

proof fn lemma_first_difference_up_to(a: Seq<u8>, b: Seq<u8>, k: int) -> (i: int)
    requires
        0 <= k < a.len(),
        k < b.len(),
        a[k] != b[k],
    ensures
        first_difference(a, b, i),
    decreases k,
{
    if exists|j: int| 0 <= j < k && a[j] != b[j] {
        let j = choose|j: int| 0 <= j < k && a[j] != b[j];
        lemma_first_difference_up_to(a, b, j)
    } else {
        k
    }
}

/// Of two distinct hashes, one comes before the other.
pub proof fn lemma_total(a: HashValue, b: HashValue)
    requires
        a != b,
    ensures
        a.before(b) || b.before(a),
{
    let i = lemma_differ(a, b);
    assert(first_difference(b.bytes@, a.bytes@, i));
}

/// No two hashes come before each other, and none before itself.
pub proof fn lemma_asymmetric(a: HashValue, b: HashValue)
    requires
        a.before(b),
    ensures
        !b.before(a),
        a != b,
{
    let i = choose|i: int| #[trigger] first_difference(a.bytes@, b.bytes@, i) && a.bytes@[i] < b.bytes@[i];
    if b.before(a) {
        let j = choose|j: int| #[trigger] first_difference(b.bytes@, a.bytes@, j) && b.bytes@[j] < a.bytes@[j];
        assert(i == j);
    }
}

/// The order of hashes is transitive.
pub proof fn lemma_transitive(a: HashValue, b: HashValue, c: HashValue)
    requires
        a.before(b),
        b.before(c),
    ensures
        a.before(c),
{
    let i = choose|i: int| #[trigger] first_difference(a.bytes@, b.bytes@, i) && a.bytes@[i] < b.bytes@[i];
    let j = choose|j: int| #[trigger] first_difference(b.bytes@, c.bytes@, j) && b.bytes@[j] < c.bytes@[j];
    let k = if i < j { i } else { j };
    assert(first_difference(a.bytes@, c.bytes@, k) && a.bytes@[k] < c.bytes@[k]);
}

/// Of byte strings of one length, the one that comes first spells the smaller number.
proof fn lemma_before_is_smaller(a: Seq<u8>, b: Seq<u8>, i: int)
    requires
        a.len() == b.len(),
        first_difference(a, b, i),
        a[i] < b[i],
    ensures
        spelled(a) < spelled(b),
    decreases a.len(),
{
    let (c, d) = (a.drop_last(), b.drop_last());
    if i == a.len() - 1 {
        assert(c =~= d);
    } else {
        assert(first_difference(c, d, i));
        lemma_before_is_smaller(c, d, i);
    }
}

/// The order of hashes is that of the numbers that they are.
pub proof fn law_order_is_that_of_numbers(a: HashValue, b: HashValue)
    ensures
        a.before(b) <==> a.number() < b.number(),
        a == b <==> a.number() == b.number(),
{
    if a != b {
        lemma_total(a, b);
    }
    if a.before(b) {
        let i = choose|i: int| #[trigger]
            first_difference(a.bytes@, b.bytes@, i) && a.bytes@[i] < b.bytes@[i];
        lemma_before_is_smaller(a.bytes@, b.bytes@, i);
    }
    if b.before(a) {
        let i = choose|i: int| #[trigger]
            first_difference(b.bytes@, a.bytes@, i) && b.bytes@[i] < a.bytes@[i];
        lemma_before_is_smaller(b.bytes@, a.bytes@, i);
    }
}

/// The leading nibble is the first of the digits of the hash in base 16: the hashes of
/// one nibble are those whose first byte lies in one range of 16.
pub proof fn law_leading_nibble_is_first_digit(hash: HashValue)
    ensures
        hash.leading_nibble() < 16,
        hash.leading_nibble() * 16 <= hash.bytes[0] < hash.leading_nibble() * 16 + 16,
{
}

/// The hash of the empty tree spells a text, and then zeros.
pub proof fn law_empty_tree_spells_its_name()
    ensures
        "SPARSE_MERKLE_PLACEHOLDER_HASH"@.len() == 30,
        forall|i: int|
            0 <= i < 30 ==> (#[trigger] HashValue::empty_tree().bytes@[i]) as int
                == "SPARSE_MERKLE_PLACEHOLDER_HASH"@[i] as int,
        HashValue::empty_tree().bytes@[30] == 0,
        HashValue::empty_tree().bytes@[31] == 0,
{
    reveal_strlit("SPARSE_MERKLE_PLACEHOLDER_HASH");
}

} // verus!
