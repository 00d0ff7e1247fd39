//! Pluggable total orders over keys.
//!
//! The tree is ordered by a comparator value rather than by a fixed trait on
//! the key type, so that the same key type can be held in ascending order,
//! descending order, or any other total order a caller proves lawful.

use core::cmp::Ordering;
use core::marker::PhantomData;
use vstd::laws_cmp::obeys_cmp;
use vstd::laws_eq::obeys_concrete_eq;
use vstd::prelude::*;
use vstd::std_specs::cmp::OrdSpec;
use vstd::std_specs::cmp::PartialEqSpec;
use vstd::std_specs::cmp::PartialOrdSpec;

verus! {

/// A pluggable total order over keys of type `K`.
///
/// `le` is the order as specifications see it; `valid` says that the
/// comparator value really describes a total order whose `Equal` outcome
/// coincides with equality of keys, and the three lemmas hand those laws to
/// proofs. `compare` is the executable three-way comparison, tied to `le` by
/// its contract.
///
/// Two keys that the comparator places `Equal` are the same key: an order
/// that identifies distinct keys (one that looks at only part of the key)
/// cannot be made `valid`.
pub trait Comparator<K>: Sized {
    /// The comparator value describes a lawful total order.
    spec fn valid(&self) -> bool;

    /// `a` comes no later than `b` in this order.
    spec fn le(&self, a: K, b: K) -> bool;

    /// Any two keys are ordered one way or the other.
    proof fn lemma_total(&self, a: K, b: K)
        requires
            self.valid(),
        ensures
            self.le(a, b) || self.le(b, a),
    ;

    /// The order is transitive.
    proof fn lemma_transitive(&self, a: K, b: K, c: K)
        requires
            self.valid(),
            self.le(a, b),
            self.le(b, c),
        ensures
            self.le(a, c),
    ;

    /// Keys ordered both ways are the same key.
    proof fn lemma_antisymmetric(&self, a: K, b: K)
        requires
            self.valid(),
            self.le(a, b),
            self.le(b, a),
        ensures
            a == b,
    ;

    /// Three-way comparison of `a` against `b`.
    fn compare(&self, a: &K, b: &K) -> (c: Ordering)
        requires
            self.valid(),
        ensures
            (match c {
                Ordering::Less => self.le(*a, *b) && *a != *b,
                Ordering::Equal => *a == *b,
                Ordering::Greater => self.le(*b, *a) && *a != *b,
            }),
    ;
}

/// `a` comes strictly before `b` under `cmp`.
pub open spec fn lt_under<K, C: Comparator<K>>(cmp: C, a: K, b: K) -> bool {
    cmp.le(a, b) && a != b
}

/// Strict order chains: `a` before `b` before `c` puts `a` before `c`.
pub proof fn lemma_lt_under_transitive<K, C: Comparator<K>>(cmp: C, a: K, b: K, c: K)
    requires
        cmp.valid(),
        lt_under(cmp, a, b),
        lt_under(cmp, b, c),
    ensures
        lt_under(cmp, a, c),
{
    cmp.lemma_transitive(a, b, c);
    if a == c {
        cmp.lemma_antisymmetric(b, c);
    }
}

/// The three-way outcome of comparing `a` against `b` under `cmp`.
pub open spec fn three_way<K, C: Comparator<K>>(cmp: C, a: K, b: K) -> Ordering {
    if a == b {
        Ordering::Equal
    } else if cmp.le(a, b) {
        Ordering::Less
    } else {
        Ordering::Greater
    }
}

/// The decision function `f` steers a search toward `probe` under `cmp`:
/// every answer it can give about a key is that key's three-way order
/// against `probe`.
pub open spec fn navigates<K, C: Comparator<K>, F: Fn(&K) -> Ordering>(
    f: F,
    cmp: C,
    probe: K,
) -> bool {
    forall|k: K, o: Ordering| #[trigger] call_ensures(f, (&k,), o) ==> o == three_way(cmp, probe, k)
}

/// The natural order of `K`, as its `Ord` implementation defines it.
///
/// The comparator is `valid` for key types whose `Ord` is known lawful to
/// the verifier: the primitive integers, and references, options and tuples
/// built from them (`vstd::laws_cmp::group_laws_cmp` and
/// `vstd::laws_eq::group_laws_eq` put those facts in scope).
pub struct Natural<K>(PhantomData<K>);

/// Creates the natural-order comparator for `K`.
pub fn natural<K>() -> Natural<K> {
    Natural(PhantomData)
}

impl<K: Ord> Comparator<K> for Natural<K> {
    open spec fn valid(&self) -> bool {
        obeys_cmp::<K>() && obeys_concrete_eq::<K>()
    }

    open spec fn le(&self, a: K, b: K) -> bool {
        a.cmp_spec(&b) != Ordering::Greater
    }

    proof fn lemma_total(&self, a: K, b: K) {
        reveal(vstd::laws_cmp::obeys_cmp_partial_ord);
        reveal(vstd::laws_cmp::obeys_cmp_ord);
        reveal(vstd::laws_cmp::obeys_partial_cmp_spec_properties);
        if a.cmp_spec(&b) == Ordering::Greater {
            assert(a.partial_cmp_spec(&b) == Some(Ordering::Greater));
            assert(b.partial_cmp_spec(&a) == Some(Ordering::Less));
        }
    }

    proof fn lemma_transitive(&self, a: K, b: K, c: K) {
        reveal(vstd::laws_cmp::obeys_cmp_partial_ord);
        reveal(vstd::laws_cmp::obeys_cmp_ord);
        reveal(vstd::laws_cmp::obeys_partial_cmp_spec_properties);
        reveal(vstd::laws_eq::obeys_concrete_eq);
        if a.cmp_spec(&b) == Ordering::Equal {
            assert(a.eq_spec(&b));
            assert(a == b);
        } else if b.cmp_spec(&c) == Ordering::Equal {
            assert(b.eq_spec(&c));
            assert(b == c);
        } else {
            assert(a.partial_cmp_spec(&b) == Some(Ordering::Less));
            assert(b.partial_cmp_spec(&c) == Some(Ordering::Less));
            assert(a.partial_cmp_spec(&c) == Some(Ordering::Less));
        }
    }

    proof fn lemma_antisymmetric(&self, a: K, b: K) {
        reveal(vstd::laws_cmp::obeys_cmp_partial_ord);
        reveal(vstd::laws_cmp::obeys_cmp_ord);
        reveal(vstd::laws_cmp::obeys_partial_cmp_spec_properties);
        reveal(vstd::laws_eq::obeys_concrete_eq);
        if a.cmp_spec(&b) == Ordering::Equal {
            assert(a.eq_spec(&b));
        } else {
            assert(a.partial_cmp_spec(&b) == Some(Ordering::Less));
            assert(b.partial_cmp_spec(&a) == Some(Ordering::Greater));
            assert(b.partial_cmp_spec(&a) == Some(Ordering::Less));
        }
    }

    fn compare(&self, a: &K, b: &K) -> (c: Ordering) {
        proof {
            reveal(vstd::laws_cmp::obeys_cmp_partial_ord);
            reveal(vstd::laws_cmp::obeys_cmp_ord);
            reveal(vstd::laws_cmp::obeys_partial_cmp_spec_properties);
            reveal(vstd::laws_eq::obeys_concrete_eq);
        }
        let c = a.cmp(b);
        proof {
            if *a == *b {
                assert(a.eq_spec(b));
                assert(a.partial_cmp_spec(b) == Some(Ordering::Equal));
            }
            if c == Ordering::Equal {
                assert(a.eq_spec(b));
            }
            if c == Ordering::Greater {
                assert(b.partial_cmp_spec(a) == Some(Ordering::Less));
            }
        }
        c
    }
}

/// The reverse of another comparator: greatest key first.
pub struct Rev<C>(pub C);

/// Creates the comparator that orders keys opposite to `cmp`.
pub fn rev<C>(cmp: C) -> (r: Rev<C>)
    ensures
        r.0 == cmp,
{
    Rev(cmp)
}

impl<K, C: Comparator<K>> Comparator<K> for Rev<C> {
    open spec fn valid(&self) -> bool {
        self.0.valid()
    }

    open spec fn le(&self, a: K, b: K) -> bool {
        self.0.le(b, a)
    }

    proof fn lemma_total(&self, a: K, b: K) {
        self.0.lemma_total(b, a);
    }

    proof fn lemma_transitive(&self, a: K, b: K, c: K) {
        self.0.lemma_transitive(c, b, a);
    }

    proof fn lemma_antisymmetric(&self, a: K, b: K) {
        self.0.lemma_antisymmetric(b, a);
    }

    fn compare(&self, a: &K, b: &K) -> (c: Ordering) {
        self.0.compare(b, a)
    }
}

} // verus!
