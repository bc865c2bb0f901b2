//! The order that directory entries are stored in: by namespace byte, then by path.
use crate::namespace::Namespace;
use vstd::prelude::*;
use vstd::utf8::{encode_utf8, encode_utf8_decode_utf8};

verus! {

/// A full path, as the bytes it is ordered by: the namespace byte followed by the path.
pub open spec fn path_key(namespace: Namespace, path: Seq<char>) -> Seq<u8> {
    seq![namespace.byte()] + encode_utf8(path)
}

/// Byte strings in dictionary order: they agree up to some point, and there the first one ends or
/// has the smaller byte.
pub open spec fn precedes(a: Seq<u8>, b: Seq<u8>) -> bool {
    exists|k: int| #[trigger] differs_at(a, b, k) && (k == a.len() || (k < b.len() && a[k] < b[k]))
}

/// `k` is the first index at which the two differ, or at which one of them ends.
pub open spec fn differs_at(a: Seq<u8>, b: Seq<u8>, k: int) -> bool {
    &&& 0 <= k <= a.len()
    &&& k <= b.len()
    &&& forall|i: int| 0 <= i < k ==> #[trigger] a[i] == b[i]
    &&& k < a.len() && k < b.len() ==> a[k] != b[k]
    &&& a.len() != b.len() || k < a.len()
}

/// How one path stands to another.
#[derive(Debug, Clone, Copy, PartialEq, Eq, Structural)]
pub enum Place {
    Before,
    Same,
    After,
}

/// Byte strings first differ in one place only.
proof fn lemma_differs_unique(a: Seq<u8>, b: Seq<u8>, j: int, k: int)
    requires
        differs_at(a, b, j),
        differs_at(a, b, k),
    ensures
        j == k,
{
    if j < k {
        assert(a[j] == b[j]);
    }
    if k < j {
        assert(a[k] == b[k]);
    }
}

/// No byte string precedes itself.
pub proof fn precedes_is_irreflexive(a: Seq<u8>)
    ensures
        !precedes(a, a),
{
    assert forall|k: int| !differs_at(a, a, k) by {}
}

/// Of two byte strings at most one precedes the other.
pub proof fn precedes_is_asymmetric(a: Seq<u8>, b: Seq<u8>)
    requires
        precedes(a, b),
    ensures
        !precedes(b, a),
        a != b,
{
    let k = choose|k: int| #[trigger]
        differs_at(a, b, k) && (k == a.len() || (k < b.len() && a[k] < b[k]));
    if precedes(b, a) {
        let j = choose|j: int| #[trigger]
            differs_at(b, a, j) && (j == b.len() || (j < a.len() && b[j] < a[j]));
        assert(differs_at(a, b, j)) by {
            assert forall|i: int| 0 <= i < j implies #[trigger] a[i] == b[i] by {
                assert(b[i] == a[i]);
            }
        }
        lemma_differs_unique(a, b, j, k);
    }
}

/// The order of byte strings is transitive.
pub proof fn precedes_is_transitive(a: Seq<u8>, b: Seq<u8>, c: Seq<u8>)
    requires
        precedes(a, b),
        precedes(b, c),
    ensures
        precedes(a, c),
{
    let j = choose|k: int| #[trigger]
        differs_at(a, b, k) && (k == a.len() || (k < b.len() && a[k] < b[k]));
    let k = choose|k: int| #[trigger]
        differs_at(b, c, k) && (k == b.len() || (k < c.len() && b[k] < c[k]));
    let m = if j < k {
        j
    } else {
        k
    };
    assert(differs_at(a, c, m)) by {
        assert forall|i: int| 0 <= i < m implies #[trigger] a[i] == c[i] by {
            assert(a[i] == b[i]);
            assert(b[i] == c[i]);
        }
        if m < a.len() && m < c.len() {
            if m < j {
                assert(a[m] == b[m]);
            }
            if m < k {
                assert(b[m] == c[m]);
            }
        }
    }
    if m < j {
        assert(a[m] == b[m]);
    }
    if m < k {
        assert(b[m] == c[m]);
    }
}

/// Two full paths are ordered alike only if they are the same path in the same namespace.
pub proof fn path_key_is_injective(n1: Namespace, p1: Seq<char>, n2: Namespace, p2: Seq<char>)
    requires
        path_key(n1, p1) == path_key(n2, p2),
    ensures
        n1.byte() == n2.byte(),
        p1 == p2,
{
    let k1 = path_key(n1, p1);
    let k2 = path_key(n2, p2);
    assert(k1[0] == n1.byte() && k2[0] == n2.byte());
    assert(k1.skip(1) =~= encode_utf8(p1));
    assert(k2.skip(1) =~= encode_utf8(p2));
    encode_utf8_decode_utf8(p1);
    encode_utf8_decode_utf8(p2);
}

/// Where the first full path stands to the second.
pub fn place_of(n1: Namespace, p1: &str, n2: Namespace, p2: &str) -> (place: Place)
    ensures
        place == Place::Same <==> path_key(n1, p1@) == path_key(n2, p2@),
        place == Place::Before <==> precedes(path_key(n1, p1@), path_key(n2, p2@)),
        place == Place::After <==> precedes(path_key(n2, p2@), path_key(n1, p1@)),
{
    let ghost k1 = path_key(n1, p1@);
    let ghost k2 = path_key(n2, p2@);
    let b1 = n1.as_byte();
    let b2 = n2.as_byte();
    let raw1 = p1.as_bytes();
    let raw2 = p2.as_bytes();
    let len1 = raw1.len();
    let len2 = raw2.len();
    proof {
        assert(k1[0] == b1 && k2[0] == b2);
        assert forall|i: int| 0 <= i < raw1@.len() implies k1[i + 1] == #[trigger] raw1@[i] by {}
        assert forall|i: int| 0 <= i < raw2@.len() implies k2[i + 1] == #[trigger] raw2@[i] by {}
        if precedes(k1, k2) {
            precedes_is_asymmetric(k1, k2);
        }
        if precedes(k2, k1) {
            precedes_is_asymmetric(k2, k1);
        }
    }
    if b1 < b2 {
        assert(differs_at(k1, k2, 0));
        return Place::Before;
    }
    if b2 < b1 {
        assert(differs_at(k2, k1, 0));
        return Place::After;
    }
    let mut i: usize = 0;
    while i < len1 && i < len2
        invariant
            len1 == raw1@.len(),
            len2 == raw2@.len(),
            k1.len() == len1 + 1,
            k2.len() == len2 + 1,
            i <= len1,
            i <= len2,
            k1[0] == k2[0],
            forall|j: int| 0 <= j < raw1@.len() ==> k1[j + 1] == #[trigger] raw1@[j],
            forall|j: int| 0 <= j < raw2@.len() ==> k2[j + 1] == #[trigger] raw2@[j],
            forall|j: int| 0 <= j <= i ==> #[trigger] k1[j] == k2[j],
            k1 == path_key(n1, p1@),
            k2 == path_key(n2, p2@),
            precedes(k1, k2) ==> !precedes(k2, k1) && k1 != k2,
            precedes(k2, k1) ==> !precedes(k1, k2) && k1 != k2,
        decreases len1 - i,
    {
        assert(k1[i + 1] == raw1@[i as int]);
        assert(k2[i + 1] == raw2@[i as int]);
        if raw1[i] < raw2[i] {
            assert(differs_at(k1, k2, i + 1));
            return Place::Before;
        }
        if raw2[i] < raw1[i] {
            assert(differs_at(k2, k1, i + 1)) by {
                assert forall|j: int| 0 <= j < i + 1 implies #[trigger] k2[j] == k1[j] by {
                    assert(k1[j] == k2[j]);
                }
            }
            return Place::After;
        }
        i = i + 1;
    }
    if len1 < len2 {
        assert(differs_at(k1, k2, len1 + 1));
        return Place::Before;
    }
    if len2 < len1 {
        assert(differs_at(k2, k1, len2 + 1)) by {
            assert forall|j: int| 0 <= j < len2 + 1 implies #[trigger] k2[j] == k1[j] by {
                assert(k1[j] == k2[j]);
            }
        }
        return Place::After;
    }
    proof {
        assert(k1 =~= k2);
        precedes_is_irreflexive(k1);
    }
    Place::Same
}

/// A full path is ordered by its namespace's byte first, and then by the bytes of its path.
pub proof fn path_keys_start_with_the_namespace(namespace: Namespace, path: Seq<char>)
    ensures
        path_key(namespace, path).len() == encode_utf8(path).len() + 1,
        path_key(namespace, path)[0] == namespace.byte(),
        path_key(namespace, path).skip(1) == encode_utf8(path),
{
    assert(path_key(namespace, path).skip(1) =~= encode_utf8(path));
}

/// Byte strings are ordered like words: of two that start alike, the one with the smaller next
/// byte comes first, and one that is the start of another comes before it.
pub proof fn precedes_is_dictionary_order(
    common: Seq<u8>,
    x: u8,
    y: u8,
    s: Seq<u8>,
    t: Seq<u8>,
)
    ensures
        x != y ==> (precedes(common + seq![x] + s, common + seq![y] + t) <==> x < y),
        precedes(common, common + seq![y] + t),
        !precedes(common + seq![y] + t, common),
{
    let a = common + seq![x] + s;
    let b = common + seq![y] + t;
    let n = common.len() as int;
    assert(a[n] == x && b[n] == y);
    if x != y {
        assert(differs_at(a, b, n));
        assert(differs_at(b, a, n));
        if x > y {
            assert(precedes(b, a));
            precedes_is_asymmetric(b, a);
        }
    }
    assert(differs_at(common, b, n));
    precedes_is_asymmetric(common, b);
}

/// Of two different byte strings one precedes the other.
pub proof fn precedes_is_total(a: Seq<u8>, b: Seq<u8>)
    requires
        a != b,
    ensures
        precedes(a, b) || precedes(b, a),
{
    let n = lemma_first_difference(a, b, 0);
    assert(differs_at(b, a, n)) by {
        assert forall|i: int| 0 <= i < n implies #[trigger] b[i] == a[i] by {
            assert(a[i] == b[i]);
        }
    }
}

proof fn lemma_first_difference(a: Seq<u8>, b: Seq<u8>, from: int) -> (n: int)
    requires
        a != b,
        0 <= from <= a.len(),
        from <= b.len(),
        forall|i: int| 0 <= i < from ==> #[trigger] a[i] == b[i],
    ensures
        differs_at(a, b, n),
    decreases a.len() - from,
{
    if from == a.len() || from == b.len() || a[from] != b[from] {
        if a.len() == b.len() && from == a.len() {
            assert(a =~= b);
        }
        from
    } else {
        lemma_first_difference(a, b, from + 1)
    }
}

} // verus!
