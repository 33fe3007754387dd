//! The order in which table and chain names are kept and written out.
//!
//! Names are compared as Rust compares strings: byte by byte over their
//! UTF-8 encoding, a proper prefix coming before any of its extensions.

use vstd::prelude::*;
use vstd::string::*;
use vstd::utf8::*;

verus! {

/// `a` comes strictly before `b` in the lexicographic order on bytes.
pub open spec fn bytes_lt(a: Seq<u8>, b: Seq<u8>) -> bool
    decreases a.len(),
{
    if b.len() == 0 {
        false
    } else if a.len() == 0 {
        true
    } else if a[0] != b[0] {
        a[0] < b[0]
    } else {
        bytes_lt(a.drop_first(), b.drop_first())
    }
}

/// `a` comes strictly before `b` in the order of names.
pub open spec fn key_lt(a: Seq<char>, b: Seq<char>) -> bool {
    bytes_lt(encode_utf8(a), encode_utf8(b))
}

/// Every name of `ks` comes strictly before all the names after it.
pub open spec fn ascending(ks: Seq<Seq<char>>) -> bool {
    forall|i: int, j: int| 0 <= i < j < ks.len() ==> key_lt(#[trigger] ks[i], #[trigger] ks[j])
}

/// `ks` lists exactly the names of `s`, in ascending order.
pub open spec fn enumerates(ks: Seq<Seq<char>>, s: Set<Seq<char>>) -> bool {
    &&& ascending(ks)
    &&& forall|k: Seq<char>| ks.contains(k) <==> s.contains(k)
}

/// The names of `s` in ascending order. Meaningful for a finite `s`, for which
/// such a listing exists ([`lemma_in_order_enumerates`]) and is the only one
/// ([`lemma_enumeration_unique`]).
pub open spec fn in_order(s: Set<Seq<char>>) -> Seq<Seq<char>> {
    choose|ks: Seq<Seq<char>>| enumerates(ks, s)
}

/// No byte string comes before itself.
pub proof fn lemma_bytes_lt_irreflexive(a: Seq<u8>)
    ensures
        !bytes_lt(a, a),
    decreases a.len(),
{
    if a.len() > 0 {
        lemma_bytes_lt_irreflexive(a.drop_first());
    }
}

/// Of two byte strings, at most one comes before the other.
pub proof fn lemma_bytes_lt_asymmetric(a: Seq<u8>, b: Seq<u8>)
    requires
        bytes_lt(a, b),
    ensures
        !bytes_lt(b, a),
    decreases a.len(),
{
    if a.len() > 0 && b.len() > 0 && a[0] == b[0] {
        lemma_bytes_lt_asymmetric(a.drop_first(), b.drop_first());
    }
}

/// What comes before a byte string comes before all that comes after it.
pub proof fn lemma_bytes_lt_transitive(a: Seq<u8>, b: Seq<u8>, c: Seq<u8>)
    requires
        bytes_lt(a, b),
        bytes_lt(b, c),
    ensures
        bytes_lt(a, c),
    decreases a.len(),
{
    if a.len() > 0 && a[0] == b[0] && b[0] == c[0] {
        lemma_bytes_lt_transitive(a.drop_first(), b.drop_first(), c.drop_first());
    }
}

/// Two different byte strings are ordered one way or the other.
pub proof fn lemma_bytes_lt_connected(a: Seq<u8>, b: Seq<u8>)
    requires
        a != b,
    ensures
        bytes_lt(a, b) || bytes_lt(b, a),
    decreases a.len(),
{
    if a.len() == 0 || b.len() == 0 {
        assert(a.len() != b.len()) by {
            if a.len() == b.len() {
                assert(a =~= b);
            }
        }
    } else if a[0] == b[0] {
        assert(a.drop_first() != b.drop_first()) by {
            if a.drop_first() == b.drop_first() {
                assert(a =~= seq![a[0]] + a.drop_first());
                assert(b =~= seq![b[0]] + b.drop_first());
            }
        }
        lemma_bytes_lt_connected(a.drop_first(), b.drop_first());
    }
}

/// Where `a` and `b` agree on their first `n` bytes, the rest decides.
pub proof fn lemma_bytes_lt_after_common_prefix(a: Seq<u8>, b: Seq<u8>, n: int)
    requires
        0 <= n <= a.len(),
        n <= b.len(),
        forall|j: int| 0 <= j < n ==> a[j] == b[j],
    ensures
        bytes_lt(a, b) == bytes_lt(a.skip(n), b.skip(n)),
    decreases n,
{
    if n == 0 {
        assert(a.skip(0) =~= a);
        assert(b.skip(0) =~= b);
    } else {
        let ra = a.drop_first();
        let rb = b.drop_first();
        assert forall|j: int| 0 <= j < n - 1 implies ra[j] == rb[j] by {
            assert(ra[j] == a[j + 1]);
            assert(rb[j] == b[j + 1]);
        }
        lemma_bytes_lt_after_common_prefix(ra, rb, n - 1);
        assert(ra.skip(n - 1) =~= a.skip(n));
        assert(rb.skip(n - 1) =~= b.skip(n));
    }
}

/// No name comes before itself.
pub proof fn lemma_key_lt_irreflexive(a: Seq<char>)
    ensures
        !key_lt(a, a),
{
    lemma_bytes_lt_irreflexive(encode_utf8(a));
}

/// Of two names, at most one comes before the other.
pub proof fn lemma_key_lt_asymmetric(a: Seq<char>, b: Seq<char>)
    requires
        key_lt(a, b),
    ensures
        !key_lt(b, a),
        a != b,
{
    lemma_bytes_lt_asymmetric(encode_utf8(a), encode_utf8(b));
    lemma_bytes_lt_irreflexive(encode_utf8(a));
}

/// What comes before a name comes before all that comes after it.
pub proof fn lemma_key_lt_transitive(a: Seq<char>, b: Seq<char>, c: Seq<char>)
    requires
        key_lt(a, b),
        key_lt(b, c),
    ensures
        key_lt(a, c),
{
    lemma_bytes_lt_transitive(encode_utf8(a), encode_utf8(b), encode_utf8(c));
}

/// Two different names are ordered one way or the other: the order is total.
pub proof fn lemma_key_lt_connected(a: Seq<char>, b: Seq<char>)
    requires
        a != b,
    ensures
        key_lt(a, b) || key_lt(b, a),
{
    assert(encode_utf8(a) != encode_utf8(b)) by {
        encode_utf8_decode_utf8(a);
        encode_utf8_decode_utf8(b);
    }
    lemma_bytes_lt_connected(encode_utf8(a), encode_utf8(b));
}

/// An ascending listing holds no name twice.
pub proof fn lemma_ascending_distinct(ks: Seq<Seq<char>>, i: int, j: int)
    requires
        ascending(ks),
        0 <= i < ks.len(),
        0 <= j < ks.len(),
        ks[i] == ks[j],
    ensures
        i == j,
{
    if i < j {
        lemma_key_lt_irreflexive(ks[i]);
    } else if j < i {
        lemma_key_lt_irreflexive(ks[j]);
    }
}

/// A set of names has at most one ascending listing.
pub proof fn lemma_enumeration_unique(a: Seq<Seq<char>>, b: Seq<Seq<char>>, s: Set<Seq<char>>)
    requires
        enumerates(a, s),
        enumerates(b, s),
    ensures
        a == b,
    decreases a.len(),
{
    if a.len() == 0 {
        if b.len() > 0 {
            assert(b.contains(b[0]));
            assert(a.contains(b[0]));
        }
        assert(a =~= b);
    } else if b.len() == 0 {
        assert(a.contains(a[0]));
        assert(b.contains(a[0]));
    } else {
        let x = a.last();
        let y = b.last();
        assert(a.contains(x));
        assert(b.contains(y));
        // The last name of either listing is the greatest of the set.
        assert(x == y) by {
            assert(b.contains(x));
            assert(a.contains(y));
            let i = choose|i: int| 0 <= i < b.len() && b[i] == x;
            let j = choose|j: int| 0 <= j < a.len() && a[j] == y;
            if x != y {
                assert(key_lt(b[i], b[b.len() - 1]));
                assert(key_lt(a[j], a[a.len() - 1]));
                lemma_key_lt_asymmetric(x, y);
            }
        }
        let ra = a.drop_last();
        let rb = b.drop_last();
        let rest = s.remove(x);
        assert(enumerates(ra, rest)) by {
            lemma_drop_last_enumerates(a, s);
        }
        assert(enumerates(rb, rest)) by {
            lemma_drop_last_enumerates(b, s);
        }
        lemma_enumeration_unique(ra, rb, rest);
        assert(a =~= ra.push(x));
        assert(b =~= rb.push(y));
    }
}

/// Without its last name, an ascending listing lists the set without that name.
pub proof fn lemma_drop_last_enumerates(ks: Seq<Seq<char>>, s: Set<Seq<char>>)
    requires
        enumerates(ks, s),
        ks.len() > 0,
    ensures
        enumerates(ks.drop_last(), s.remove(ks.last())),
{
    let r = ks.drop_last();
    let x = ks.last();
    assert(ascending(r)) by {
        assert forall|i: int, j: int| 0 <= i < j < r.len() implies key_lt(
            #[trigger] r[i],
            #[trigger] r[j],
        ) by {
            assert(r[i] == ks[i] && r[j] == ks[j]);
        }
    }
    assert forall|k: Seq<char>| r.contains(k) <==> s.remove(x).contains(k) by {
        if r.contains(k) {
            let i = choose|i: int| 0 <= i < r.len() && r[i] == k;
            assert(ks[i] == k);
            assert(ks.contains(k));
            assert(key_lt(ks[i], ks[ks.len() - 1]));
            lemma_key_lt_asymmetric(k, x);
        }
        if s.remove(x).contains(k) {
            assert(ks.contains(k));
            let i = choose|i: int| 0 <= i < ks.len() && ks[i] == k;
            assert(i < ks.len() - 1);
            assert(r[i] == k);
        }
    }
}

/// Putting a name after the names that come before it and before the names
/// that come after it keeps a listing ascending.
pub proof fn lemma_insert_keeps_ascending(ks: Seq<Seq<char>>, i: int, k: Seq<char>)
    requires
        ascending(ks),
        0 <= i <= ks.len(),
        forall|j: int| 0 <= j < i ==> key_lt(#[trigger] ks[j], k),
        forall|j: int| i <= j < ks.len() ==> key_lt(k, #[trigger] ks[j]),
    ensures
        ascending(ks.insert(i, k)),
{
    let r = ks.insert(i, k);
    assert forall|a: int, b: int| 0 <= a < b < r.len() implies key_lt(
        #[trigger] r[a],
        #[trigger] r[b],
    ) by {
        if b < i {
            assert(r[a] == ks[a] && r[b] == ks[b]);
        } else if b == i {
            assert(r[a] == ks[a]);
        } else if a < i {
            assert(r[a] == ks[a] && r[b] == ks[b - 1]);
            lemma_key_lt_transitive(ks[a], k, ks[b - 1]);
        } else if a == i {
            assert(r[b] == ks[b - 1]);
        } else {
            assert(r[a] == ks[a - 1] && r[b] == ks[b - 1]);
        }
    }
}

/// A name that an ascending listing does not hold has its place in it: after
/// all the names that come before it, before all that come after it.
pub proof fn lemma_place_exists(ks: Seq<Seq<char>>, k: Seq<char>) -> (i: int)
    requires
        ascending(ks),
        !ks.contains(k),
    ensures
        0 <= i <= ks.len(),
        forall|j: int| 0 <= j < i ==> key_lt(#[trigger] ks[j], k),
        forall|j: int| i <= j < ks.len() ==> key_lt(k, #[trigger] ks[j]),
    decreases ks.len(),
{
    if ks.len() == 0 {
        0
    } else {
        let last = ks.last();
        assert(ks[ks.len() - 1] != k);
        if key_lt(last, k) {
            assert forall|j: int| 0 <= j < ks.len() implies key_lt(#[trigger] ks[j], k) by {
                if j < ks.len() - 1 {
                    assert(key_lt(ks[j], ks[ks.len() - 1]));
                    lemma_key_lt_transitive(ks[j], last, k);
                }
            }
            ks.len() as int
        } else {
            lemma_key_lt_connected(last, k);
            let rest = ks.drop_last();
            assert(ascending(rest)) by {
                assert forall|a: int, b: int| 0 <= a < b < rest.len() implies key_lt(
                    #[trigger] rest[a],
                    #[trigger] rest[b],
                ) by {
                    assert(rest[a] == ks[a] && rest[b] == ks[b]);
                }
            }
            assert(!rest.contains(k)) by {
                if rest.contains(k) {
                    let j = choose|j: int| 0 <= j < rest.len() && rest[j] == k;
                    assert(ks[j] == k);
                }
            }
            let i = lemma_place_exists(rest, k);
            assert forall|j: int| 0 <= j < i implies key_lt(#[trigger] ks[j], k) by {
                assert(ks[j] == rest[j]);
            }
            assert forall|j: int| i <= j < ks.len() implies key_lt(k, #[trigger] ks[j]) by {
                if j < ks.len() - 1 {
                    assert(ks[j] == rest[j]);
                }
            }
            i
        }
    }
}

/// Every finite set of names has an ascending listing, and [`in_order`] is
/// that listing.
pub proof fn lemma_in_order_enumerates(s: Set<Seq<char>>)
    requires
        s.finite(),
    ensures
        enumerates(in_order(s), s),
    decreases s.len(),
{
    if s.len() == 0 {
        s.lemma_len0_is_empty();
        assert(enumerates(Seq::<Seq<char>>::empty(), s));
    } else {
        let x = s.choose();
        let rest = s.remove(x);
        lemma_in_order_enumerates(rest);
        let ks = in_order(rest);
        let i = lemma_place_exists(ks, x);
        lemma_insert_keeps_ascending(ks, i, x);
        let all = ks.insert(i, x);
        assert forall|k: Seq<char>| all.contains(k) <==> s.contains(k) by {
            if all.contains(k) {
                let j = choose|j: int| 0 <= j < all.len() && all[j] == k;
                if j < i {
                    assert(ks[j] == k);
                    assert(ks.contains(k));
                } else if j > i {
                    assert(ks[j - 1] == k);
                    assert(ks.contains(k));
                }
            }
            if s.contains(k) {
                if k == x {
                    assert(all[i] == k);
                } else {
                    assert(rest.contains(k));
                    assert(ks.contains(k));
                    let j = choose|j: int| 0 <= j < ks.len() && ks[j] == k;
                    if j < i {
                        assert(all[j] == k);
                    } else {
                        assert(all[j + 1] == k);
                    }
                }
            }
        }
        assert(enumerates(all, s));
    }
}

/// An ascending listing of a set is the listing that [`in_order`] names.
pub proof fn lemma_in_order_is(ks: Seq<Seq<char>>, s: Set<Seq<char>>)
    requires
        enumerates(ks, s),
    ensures
        in_order(s) == ks,
{
    lemma_enumeration_unique(in_order(s), ks, s);
}

/// How one name stands to another.
#[derive(Clone, Copy, PartialEq, Eq, Debug)]
pub enum KeyOrder {
    /// The first comes before the second.
    Before,
    /// The two are the same name.
    Same,
    /// The first comes after the second.
    After,
}

/// Compares two names as strings are compared: over their bytes.
pub fn compare(a: &str, b: &str) -> (o: KeyOrder)
    ensures
        o is Before <==> key_lt(a@, b@),
        o is Same <==> a@ == b@,
        o is After <==> key_lt(b@, a@),
{
    let x = a.as_bytes();
    let y = b.as_bytes();
    let n = x.len();
    let m = y.len();
    let mut i: usize = 0;
    while i < n && i < m
        invariant
            i <= n,
            i <= m,
            n == x@.len(),
            m == y@.len(),
            x@ == encode_utf8(a@),
            y@ == encode_utf8(b@),
            forall|j: int| 0 <= j < i ==> x@[j] == y@[j],
        decreases n - i,
    {
        if x[i] != y[i] {
            proof {
                lemma_bytes_lt_after_common_prefix(x@, y@, i as int);
                lemma_bytes_lt_after_common_prefix(y@, x@, i as int);
            }
            if x[i] < y[i] {
                proof {
                    lemma_key_lt_asymmetric(a@, b@);
                }
                return KeyOrder::Before;
            } else {
                proof {
                    lemma_key_lt_asymmetric(b@, a@);
                }
                return KeyOrder::After;
            }
        }
        i = i + 1;
    }
    proof {
        lemma_bytes_lt_after_common_prefix(x@, y@, i as int);
        lemma_bytes_lt_after_common_prefix(y@, x@, i as int);
    }
    if n < m {
        proof {
            lemma_key_lt_asymmetric(a@, b@);
        }
        KeyOrder::Before
    } else if m < n {
        proof {
            lemma_key_lt_asymmetric(b@, a@);
        }
        KeyOrder::After
    } else {
        proof {
            assert(x@ =~= y@);
            encode_utf8_decode_utf8(a@);
            encode_utf8_decode_utf8(b@);
            lemma_key_lt_irreflexive(a@);
        }
        KeyOrder::Same
    }
}

/// Whether two strings hold the same characters.
pub fn same(a: &str, b: &str) -> (r: bool)
    ensures
        r == (a@ == b@),
{
    match compare(a, b) {
        KeyOrder::Same => true,
        _ => false,
    }
}

} // verus!
