//! 32-byte identities and their lexicographic order.

use vstd::prelude::*;

verus! {

/// Byte length of an identity.
pub const KEY_LEN: usize = 32;

/// A 32-byte identity (authority, system, component or account address).
pub type Pubkey = [u8; 32];

/// The bytes of each identity in a list.
pub open spec fn key_views(keys: Seq<Pubkey>) -> Seq<Seq<u8>> {
    keys.map_values(|k: Pubkey| k@)
}

/// `a` orders strictly before `b` in lexicographic byte order.
pub open spec fn key_lt(a: Seq<u8>, b: Seq<u8>) -> bool {
    exists|i: int|
        0 <= i < a.len() && i < b.len() && a[i] < b[i] && (forall|j: int|
            0 <= j < i ==> a[j] == b[j])
}

/// Each identity orders strictly before the next one.
pub open spec fn sorted_keys(s: Seq<Seq<u8>>) -> bool {
    forall|i: int| 0 <= i < s.len() - 1 ==> #[trigger] key_lt(s[i], s[i + 1])
}

/// Lexicographic order on identities is transitive.
pub proof fn lemma_key_lt_transitive(a: Seq<u8>, b: Seq<u8>, c: Seq<u8>)
    requires
        key_lt(a, b),
        key_lt(b, c),
    ensures
        key_lt(a, c),
{
    let i = choose|i: int|
        0 <= i < a.len() && i < b.len() && a[i] < b[i] && (forall|j: int|
            0 <= j < i ==> a[j] == b[j]);
    let k = choose|k: int|
        0 <= k < b.len() && k < c.len() && b[k] < c[k] && (forall|j: int|
            0 <= j < k ==> b[j] == c[j]);
    if i <= k {
        assert(forall|j: int| 0 <= j < i ==> a[j] == c[j]);
        assert(a[i] < c[i]);
    } else {
        assert(forall|j: int| 0 <= j < k ==> a[j] == c[j]);
        assert(a[k] < c[k]);
    }
}

/// In a sorted list every identity orders before every later one.
pub proof fn lemma_sorted_pairwise(s: Seq<Seq<u8>>, i: int, j: int)
    requires
        sorted_keys(s),
        0 <= i < j < s.len(),
    ensures
        key_lt(s[i], s[j]),
    decreases j - i,
{
    if j == i + 1 {
        assert(key_lt(s[i], s[i + 1]));
    } else {
        lemma_sorted_pairwise(s, i, j - 1);
        assert(key_lt(s[j - 1], s[(j - 1) + 1]));
        lemma_key_lt_transitive(s[i], s[j - 1], s[j]);
    }
}

/// No identity orders strictly before itself.
pub proof fn lemma_key_lt_irreflexive(a: Seq<u8>)
    ensures
        !key_lt(a, a),
{
}

/// Three-way comparison of two identities: -1, 0 or 1.
pub fn compare_keys(a: &Pubkey, b: &Pubkey) -> (r: i8)
    ensures
        r == 0 <==> a@ == b@,
        r < 0 <==> key_lt(a@, b@),
        r > 0 <==> key_lt(b@, a@),
        -1 <= r <= 1,
{
    let mut i: usize = 0;
    while i < KEY_LEN
        invariant
            0 <= i <= KEY_LEN,
            a@.len() == KEY_LEN,
            b@.len() == KEY_LEN,
            forall|j: int| 0 <= j < i ==> a@[j] == b@[j],
        decreases KEY_LEN - i,
    {
        if a[i] < b[i] {
            proof {
                assert(a@[i as int] != b@[i as int]);
                assert(!key_lt(b@, a@)) by {
                    if key_lt(b@, a@) {
                        let k = choose|k: int|
                            0 <= k < b@.len() && k < a@.len() && b@[k] < a@[k] && (forall|j: int|
                                0 <= j < k ==> b@[j] == a@[j]);
                        assert(k != i);
                    }
                }
            }
            return -1;
        }
        if a[i] > b[i] {
            proof {
                assert(a@[i as int] != b@[i as int]);
                assert(!key_lt(a@, b@)) by {
                    if key_lt(a@, b@) {
                        let k = choose|k: int|
                            0 <= k < a@.len() && k < b@.len() && a@[k] < b@[k] && (forall|j: int|
                                0 <= j < k ==> a@[j] == b@[j]);
                        assert(k != i);
                    }
                }
            }
            return 1;
        }
        i = i + 1;
    }
    assert(a@ =~= b@);
    0
}

/// Whether two identities hold the same bytes.
pub fn keys_equal(a: &Pubkey, b: &Pubkey) -> (r: bool)
    ensures
        r == (a@ == b@),
{
    compare_keys(a, b) == 0
}

} // verus!
