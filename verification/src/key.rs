//! The order in which keys are kept and written.
//!
//! Keys are ordered lexicographically by the bytes of their UTF-8 encoding,
//! which is the order Rust gives to strings.

use vstd::prelude::*;
use vstd::string::*;
use vstd::utf8::*;

verus! {

/// How one key stands relative to another in the key order.
#[derive(Clone, Copy, Debug, PartialEq, Eq, Structural)]
pub enum KeyOrder {
    /// The first key sorts strictly before the second.
    Before,
    /// The two keys are the same.
    Same,
    /// The first key sorts strictly after the second.
    After,
}

/// Lexicographic "strictly less" on byte sequences that agree below index `i`.
pub open spec fn bytes_before_from(a: Seq<u8>, b: Seq<u8>, i: nat) -> bool
    decreases a.len() - i,
{
    if i >= a.len() {
        i < b.len()
    } else if i >= b.len() {
        false
    } else if a[i as int] != b[i as int] {
        a[i as int] < b[i as int]
    } else {
        bytes_before_from(a, b, i + 1)
    }
}

/// Whether key `a` sorts strictly before key `b`.
pub open spec fn key_before(a: Seq<char>, b: Seq<char>) -> bool {
    bytes_before_from(encode_utf8(a), encode_utf8(b), 0)
}

/// Whether every key in the sequence sorts strictly before those after it.
pub open spec fn keys_ascending(keys: Seq<Seq<char>>) -> bool {
    forall|i: int, j: int| 0 <= i < j < keys.len() ==> key_before(#[trigger] keys[i], #[trigger] keys[j])
}

proof fn lemma_bytes_skip_common(a: Seq<u8>, b: Seq<u8>, n: nat)
    requires
        n <= a.len(),
        n <= b.len(),
        forall|k: int| 0 <= k < n ==> a[k] == b[k],
    ensures
        bytes_before_from(a, b, 0) == bytes_before_from(a, b, n),
    decreases n,
{
    if n > 0 {
        lemma_bytes_skip_common(a, b, (n - 1) as nat);
    }
}

proof fn lemma_bytes_asymmetric(a: Seq<u8>, b: Seq<u8>, i: nat)
    ensures
        !(bytes_before_from(a, b, i) && bytes_before_from(b, a, i)),
    decreases a.len() - i,
{
    if i < a.len() && i < b.len() && a[i as int] == b[i as int] {
        lemma_bytes_asymmetric(a, b, i + 1);
    }
}

proof fn lemma_bytes_transitive(a: Seq<u8>, b: Seq<u8>, c: Seq<u8>, i: nat)
    requires
        bytes_before_from(a, b, i),
        bytes_before_from(b, c, i),
    ensures
        bytes_before_from(a, c, i),
    decreases a.len() - i,
{
    if i < a.len() && i < b.len() && i < c.len() && a[i as int] == b[i as int] && b[i as int]
        == c[i as int] {
        lemma_bytes_transitive(a, b, c, i + 1);
    }
}

proof fn lemma_bytes_total(a: Seq<u8>, b: Seq<u8>, i: nat)
    requires
        i <= a.len(),
        i <= b.len(),
        !bytes_before_from(a, b, i),
        !bytes_before_from(b, a, i),
    ensures
        a.len() == b.len(),
        forall|k: int| i <= k < a.len() ==> a[k] == b[k],
    decreases a.len() - i,
{
    if i < a.len() && i < b.len() {
        lemma_bytes_total(a, b, i + 1);
    }
}

/// Keys with the same UTF-8 encoding are the same key.
pub proof fn lemma_key_bytes_injective(a: Seq<char>, b: Seq<char>)
    requires
        encode_utf8(a) == encode_utf8(b),
    ensures
        a == b,
{
    encode_utf8_decode_utf8(a);
    encode_utf8_decode_utf8(b);
}

/// No key sorts before itself, and no two keys sort before each other.
pub proof fn lemma_key_order_asymmetric(a: Seq<char>, b: Seq<char>)
    ensures
        !(key_before(a, b) && key_before(b, a)),
        !key_before(a, a),
{
    lemma_bytes_asymmetric(encode_utf8(a), encode_utf8(b), 0);
    lemma_bytes_asymmetric(encode_utf8(a), encode_utf8(a), 0);
}

/// The key order is transitive.
pub proof fn lemma_key_order_transitive(a: Seq<char>, b: Seq<char>, c: Seq<char>)
    requires
        key_before(a, b),
        key_before(b, c),
    ensures
        key_before(a, c),
{
    lemma_bytes_transitive(encode_utf8(a), encode_utf8(b), encode_utf8(c), 0);
}

/// Any two distinct keys are ordered one way or the other.
pub proof fn lemma_key_order_total(a: Seq<char>, b: Seq<char>)
    ensures
        key_before(a, b) || a == b || key_before(b, a),
{
    let x = encode_utf8(a);
    let y = encode_utf8(b);
    if !bytes_before_from(x, y, 0) && !bytes_before_from(y, x, 0) {
        lemma_bytes_total(x, y, 0);
        assert(x =~= y);
        lemma_key_bytes_injective(a, b);
    }
}

/// The keys of a set in ascending order: the order in which a table is
/// walked and written.
pub open spec fn ordered_keys(keys: Set<Seq<char>>) -> Seq<Seq<char>> {
    choose|s: Seq<Seq<char>>| keys_ascending(s) && s.to_set() == keys
}


/// A set of keys has at most one ascending sequence.
pub proof fn lemma_ordered_keys_unique(s: Seq<Seq<char>>, t: Seq<Seq<char>>)
    requires
        keys_ascending(s),
        keys_ascending(t),
        s.to_set() == t.to_set(),
    ensures
        s == t,
    decreases s.len(),
{
    if s.len() == 0 {
        if t.len() > 0 {
            assert(t.to_set().contains(t[0]));
            assert(s.to_set().contains(t[0]));
        }
        assert(s =~= t);
    } else if t.len() == 0 {
        assert(s.to_set().contains(s[0]));
        assert(t.to_set().contains(s[0]));
    } else {
        // Both start with the least key of the set.
        assert(s.to_set().contains(s[0]));
        assert(t.to_set().contains(s[0]));
        assert(t.to_set().contains(t[0]));
        assert(s.to_set().contains(t[0]));
        let a = choose|a: int| 0 <= a < t.len() && t[a] == s[0];
        let b = choose|b: int| 0 <= b < s.len() && s[b] == t[0];
        lemma_key_order_asymmetric(s[0], t[0]);
        if a > 0 && b > 0 {
            assert(key_before(t[0], t[a]));
            assert(key_before(s[0], s[b]));
        }
        assert(s[0] == t[0]);
        let s1 = s.drop_first();
        let t1 = t.drop_first();
        assert(keys_ascending(s1)) by {
            assert forall|i: int, j: int| 0 <= i < j < s1.len() implies key_before(
                #[trigger] s1[i],
                #[trigger] s1[j],
            ) by {
                assert(key_before(s[i + 1], s[j + 1]));
            }
        }
        assert(keys_ascending(t1)) by {
            assert forall|i: int, j: int| 0 <= i < j < t1.len() implies key_before(
                #[trigger] t1[i],
                #[trigger] t1[j],
            ) by {
                assert(key_before(t[i + 1], t[j + 1]));
            }
        }
        assert(s1.to_set() =~= t1.to_set()) by {
            assert forall|k: Seq<char>| s1.to_set().contains(k) implies t1.to_set().contains(
                k,
            ) by {
                let i = choose|i: int| 0 <= i < s1.len() && s1[i] == k;
                assert(key_before(s[0], s[i + 1]));
                lemma_key_order_asymmetric(s[0], k);
                assert(s.to_set().contains(s[i + 1]));
                assert(t.to_set().contains(k));
                let j = choose|j: int| 0 <= j < t.len() && t[j] == k;
                assert(j > 0);
                assert(t1[j - 1] == k);
            }
            assert forall|k: Seq<char>| t1.to_set().contains(k) implies s1.to_set().contains(
                k,
            ) by {
                let i = choose|i: int| 0 <= i < t1.len() && t1[i] == k;
                assert(key_before(t[0], t[i + 1]));
                lemma_key_order_asymmetric(t[0], k);
                assert(t.to_set().contains(t[i + 1]));
                assert(s.to_set().contains(k));
                let j = choose|j: int| 0 <= j < s.len() && s[j] == k;
                assert(j > 0);
                assert(s1[j - 1] == k);
            }
        }
        lemma_ordered_keys_unique(s1, t1);
        assert(s =~= seq![s[0]] + s1);
        assert(t =~= seq![t[0]] + t1);
    }
}


/// A sequence of ascending keys with one more key put in its place.
spec fn with_key(s: Seq<Seq<char>>, x: Seq<char>) -> Seq<Seq<char>>
    decreases s.len(),
{
    if s.len() == 0 {
        seq![x]
    } else if key_before(x, s[0]) {
        seq![x] + s
    } else {
        seq![s[0]] + with_key(s.drop_first(), x)
    }
}

proof fn lemma_with_key(s: Seq<Seq<char>>, x: Seq<char>)
    requires
        keys_ascending(s),
        !s.contains(x),
    ensures
        keys_ascending(with_key(s, x)),
        with_key(s, x).len() == s.len() + 1,
        forall|k: Seq<char>| #[trigger] with_key(s, x).contains(k) <==> (k == x || s.contains(k)),
    decreases s.len(),
{
    let r = with_key(s, x);
    if s.len() == 0 {
        assert(r[0] == x);
    } else if key_before(x, s[0]) {
        assert(r[0] == x);
        assert forall|i: int, j: int| 0 <= i < j < r.len() implies key_before(
            #[trigger] r[i],
            #[trigger] r[j],
        ) by {
            if i == 0 {
                if j > 1 {
                    assert(key_before(s[0], s[j - 1]));
                    lemma_key_order_transitive(x, s[0], s[j - 1]);
                }
            } else {
                assert(key_before(s[i - 1], s[j - 1]));
            }
        }
        assert forall|k: Seq<char>| r.contains(k) <==> (k == x || s.contains(k)) by {
            if r.contains(k) {
                let i = choose|i: int| 0 <= i < r.len() && r[i] == k;
                if i > 0 {
                    assert(s[i - 1] == k);
                }
            }
            if s.contains(k) {
                let i = choose|i: int| 0 <= i < s.len() && s[i] == k;
                assert(r[i + 1] == k);
            }
        }
    } else {
        let rest = s.drop_first();
        let inner = with_key(rest, x);
        assert(keys_ascending(rest)) by {
            assert forall|i: int, j: int| 0 <= i < j < rest.len() implies key_before(
                #[trigger] rest[i],
                #[trigger] rest[j],
            ) by {
                assert(key_before(s[i + 1], s[j + 1]));
            }
        }
        assert(!rest.contains(x)) by {
            if rest.contains(x) {
                let i = choose|i: int| 0 <= i < rest.len() && rest[i] == x;
                assert(s[i + 1] == x);
            }
        }
        lemma_with_key(rest, x);
        assert(s[0] != x);
        lemma_key_order_total(s[0], x);
        assert forall|i: int, j: int| 0 <= i < j < r.len() implies key_before(
            #[trigger] r[i],
            #[trigger] r[j],
        ) by {
            assert(r[j] == inner[j - 1]);
            if i == 0 {
                let k = inner[j - 1];
                assert(r[0] == s[0]);
                assert(inner.contains(k));
                assert(k == x || rest.contains(k));
                if k != x {
                    let m = choose|m: int| 0 <= m < rest.len() && rest[m] == k;
                    assert(s[m + 1] == k);
                    assert(key_before(s[0], s[m + 1]));
                }
            } else {
                assert(r[i] == inner[i - 1]);
                assert(key_before(inner[i - 1], inner[j - 1]));
            }
        }
        assert forall|k: Seq<char>| r.contains(k) <==> (k == x || s.contains(k)) by {
            if r.contains(k) {
                let i = choose|i: int| 0 <= i < r.len() && r[i] == k;
                if i > 0 {
                    assert(inner[i - 1] == k);
                    assert(inner.contains(k));
                    assert(k == x || rest.contains(k));
                    if k != x {
                        let m = choose|m: int| 0 <= m < rest.len() && rest[m] == k;
                        assert(s[m + 1] == k);
                    }
                } else {
                    assert(s[0] == k);
                }
            }
            if k == x {
                assert(inner.contains(x));
                let i = choose|i: int| 0 <= i < inner.len() && inner[i] == x;
                assert(r[i + 1] == x);
            }
            if s.contains(k) {
                let i = choose|i: int| 0 <= i < s.len() && s[i] == k;
                if i == 0 {
                    assert(r[0] == k);
                } else {
                    assert(rest[i - 1] == k);
                    assert(rest.contains(k));
                    assert(inner.contains(k));
                    let m = choose|m: int| 0 <= m < inner.len() && inner[m] == k;
                    assert(r[m + 1] == k);
                }
            }
        }
    }
}

/// Every finite set of keys has its ascending sequence.
pub proof fn lemma_ordered_keys_exist(keys: Set<Seq<char>>)
    requires
        keys.finite(),
    ensures
        keys_ascending(ordered_keys(keys)),
        ordered_keys(keys).to_set() == keys,
        ordered_keys(keys).no_duplicates(),
        ordered_keys(keys).len() == keys.len(),
    decreases keys.len(),
{
    if keys.len() == 0 {
        let s = Seq::<Seq<char>>::empty();
        assert(s.to_set() =~= keys);
        assert(keys_ascending(s) && s.to_set() == keys);
    } else {
        let x = keys.choose();
        let rest = keys.remove(x);
        lemma_ordered_keys_exist(rest);
        let s = ordered_keys(rest);
        assert(!s.contains(x)) by {
            if s.contains(x) {
                assert(s.to_set().contains(x));
            }
        }
        lemma_with_key(s, x);
        let r = with_key(s, x);
        assert(r.to_set() =~= keys) by {
            assert forall|k: Seq<char>| r.to_set().contains(k) <==> keys.contains(k) by {
                assert(r.to_set().contains(k) == r.contains(k));
                assert(s.to_set().contains(k) == s.contains(k));
            }
        }
        assert(keys_ascending(r) && r.to_set() == keys);
    }
    let chosen = ordered_keys(keys);
    assert(chosen.no_duplicates()) by {
        assert forall|i: int, j: int| 0 <= i < chosen.len() && 0 <= j < chosen.len() && i
            != j implies chosen[i] != chosen[j] by {
            lemma_key_order_asymmetric(chosen[i], chosen[j]);
            if i < j {
                assert(key_before(chosen[i], chosen[j]));
            } else {
                assert(key_before(chosen[j], chosen[i]));
            }
        }
    }
    chosen.unique_seq_to_set();
}

/// Compares two keys in the key order.
pub fn compare_keys(a: &str, b: &str) -> (r: KeyOrder)
    ensures
        (r == KeyOrder::Before) == key_before(a@, b@),
        (r == KeyOrder::Same) == (a@ == b@),
        (r == KeyOrder::After) == key_before(b@, a@),
{
    let x = a.as_bytes();
    let y = b.as_bytes();
    proof {
        lemma_key_order_asymmetric(a@, b@);
        lemma_key_order_asymmetric(b@, b@);
    }
    let mut i: usize = 0;
    while i < x.len() && i < y.len()
        invariant
            x@ == encode_utf8(a@),
            y@ == encode_utf8(b@),
            i <= x.len(),
            i <= y.len(),
            forall|k: int| 0 <= k < i ==> x@[k] == y@[k],
        decreases x.len() - i,
    {
        if x[i] != y[i] {
            proof {
                lemma_bytes_skip_common(x@, y@, i as nat);
                lemma_bytes_skip_common(y@, x@, i as nat);
            }
            if x[i] < y[i] {
                return KeyOrder::Before;
            } else {
                return KeyOrder::After;
            }
        }
        i += 1;
    }
    proof {
        lemma_bytes_skip_common(x@, y@, i as nat);
        lemma_bytes_skip_common(y@, x@, i as nat);
    }
    if x.len() == y.len() {
        proof {
            assert(x@ =~= y@);
            lemma_key_bytes_injective(a@, b@);
        }
        KeyOrder::Same
    } else if x.len() < y.len() {
        KeyOrder::Before
    } else {
        KeyOrder::After
    }
}

} // verus!
