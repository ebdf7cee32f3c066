use core::cmp::Ordering;
use vstd::laws_cmp::obeys_cmp;
use vstd::laws_cmp::obeys_cmp_ord;
use vstd::laws_cmp::obeys_cmp_partial_ord;
use vstd::laws_cmp::obeys_partial_cmp_spec_properties;
use vstd::laws_eq::obeys_concrete_eq;
use vstd::prelude::*;
use vstd::std_specs::cmp::OrdSpec;
use vstd::std_specs::cmp::PartialEqSpec;
use vstd::std_specs::cmp::PartialOrdSpec;

verus! {

/// Whether `T` is ordered the way points on a timeline are: `cmp` is a total
/// order, the comparison operators agree with it, and two values compare
/// equal only when they are the same value.
pub open spec fn total_order<T: Ord>() -> bool {
    obeys_cmp::<T>() && obeys_concrete_eq::<T>()
}

/// `a` sorts strictly before `b`.
pub open spec fn before<T: Ord>(a: T, b: T) -> bool {
    a.cmp_spec(&b) == Ordering::Less
}

/// The later of two points.
pub open spec fn later<T: Ord>(a: T, b: T) -> T {
    if before(b, a) {
        a
    } else {
        b
    }
}

/// The earlier of two points.
pub open spec fn earlier<T: Ord>(a: T, b: T) -> T {
    if before(b, a) {
        b
    } else {
        a
    }
}

/// The laws of a strict total order, for every choice of points.
pub open spec fn strict_total<T: Ord>() -> bool {
    &&& forall|a: T| !#[trigger] before(a, a)
    &&& forall|a: T, b: T| #[trigger] before(a, b) ==> !before(b, a)
    &&& forall|a: T, b: T| a == b || #[trigger] before(a, b) || before(b, a)
    &&& forall|a: T, b: T, c: T| #[trigger] before(a, b) && #[trigger] before(b, c) ==> before(a, c)
}

/// What `cmp` answers on a totally ordered type, by cases on `before`.
pub open spec fn cmp_by_cases<T: Ord>() -> bool {
    forall|a: T, b: T| #[trigger]
        a.cmp_spec(&b) == if before(a, b) {
            Ordering::Less
        } else if a == b {
            Ordering::Equal
        } else {
            Ordering::Greater
        }
}

/// The comparison operators of a totally ordered type, read through `before`.
pub open spec fn operators_agree<T: Ord>() -> bool {
    &&& T::obeys_eq_spec()
    &&& T::obeys_partial_cmp_spec()
    &&& T::obeys_cmp_spec()
    &&& forall|a: T, b: T| #[trigger] a.eq_spec(&b) <==> a == b
    &&& forall|a: T, b: T| #[trigger] a.partial_cmp_spec(&b) == Some(a.cmp_spec(&b))
}

/// A total order is strict, total and transitive on `before`, and `cmp`, `<`
/// and `==` all answer by it.
pub proof fn lemma_total_order<T: Ord>()
    requires
        total_order::<T>(),
    ensures
        strict_total::<T>(),
        cmp_by_cases::<T>(),
        operators_agree::<T>(),
{
    reveal(obeys_cmp_ord);
    reveal(obeys_cmp_partial_ord);
    reveal(obeys_partial_cmp_spec_properties);
    reveal(obeys_concrete_eq);
    assert forall|a: T, b: T| a == b || #[trigger] before(a, b) || before(b, a) by {
        let o = a.partial_cmp_spec(&b);
        assert(o == Some(a.cmp_spec(&b)));
        if a.cmp_spec(&b) == Ordering::Greater {
            assert(b.partial_cmp_spec(&a) == Some(Ordering::Less));
            assert(b.partial_cmp_spec(&a) == Some(b.cmp_spec(&a)));
        } else if a.cmp_spec(&b) == Ordering::Equal {
            assert(a.eq_spec(&b));
        }
    }
    assert forall|a: T| !#[trigger] before(a, a) by {
        assert(a.eq_spec(&a));
        assert(a.partial_cmp_spec(&a) == Some(Ordering::Equal));
        assert(a.partial_cmp_spec(&a) == Some(a.cmp_spec(&a)));
    }
    assert forall|a: T, b: T| #[trigger] before(a, b) implies !before(b, a) by {
        assert(a.partial_cmp_spec(&b) == Some(a.cmp_spec(&b)));
        assert(b.partial_cmp_spec(&a) == Some(b.cmp_spec(&a)));
        assert(b.partial_cmp_spec(&a) == Some(Ordering::Greater));
    }
    assert forall|a: T, b: T, c: T| #[trigger] before(a, b) && #[trigger] before(b, c) implies before(
        a,
        c,
    ) by {
        assert(a.partial_cmp_spec(&b) == Some(a.cmp_spec(&b)));
        assert(b.partial_cmp_spec(&c) == Some(b.cmp_spec(&c)));
        assert(a.partial_cmp_spec(&c) == Some(a.cmp_spec(&c)));
    }
    assert forall|a: T, b: T| #[trigger]
        a.cmp_spec(&b) == if before(a, b) {
            Ordering::Less
        } else if a == b {
            Ordering::Equal
        } else {
            Ordering::Greater
        } by {
        assert(a.partial_cmp_spec(&b) == Some(a.cmp_spec(&b)));
        if a == b {
            assert(a.eq_spec(&b));
        } else if a.cmp_spec(&b) == Ordering::Equal {
            assert(a.eq_spec(&b));
        }
    }
}

} // verus!
