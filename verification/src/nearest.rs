//! Choosing among measured distances.
use vstd::prelude::*;

use crate::scalar::law_infinity_is_greatest;
use crate::scalar::law_order_is_total;
use crate::scalar::INFINITY_BITS;
use crate::scalar::Scalar;

verus! {

/// The distance that everything near is below.
pub open spec fn out_of_reach() -> Scalar {
    Scalar { bits: INFINITY_BITS }
}

/// The distance from a position to itself.
pub open spec fn no_distance() -> Scalar {
    Scalar { bits: 0 }
}

/// Entry `i` is the first among the smallest distances, and below infinity.
/// Entries that are no numbers do not count.
pub open spec fn is_nearest(distances: Seq<Scalar>, i: int) -> bool {
    &&& 0 <= i < distances.len()
    &&& distances[i].less(out_of_reach())
    &&& forall|j: int|
        0 <= j < distances.len() ==> !(#[trigger] distances[j]).less(distances[i])
    &&& forall|j: int| 0 <= j < i ==> !(#[trigger] distances[j]).at_most(distances[i])
}

/// The first of the smallest distances, if any is below infinity.
pub open spec fn nearest(distances: Seq<Scalar>) -> Option<int> {
    if exists|i: int| is_nearest(distances, i) {
        Some(choose|i: int| is_nearest(distances, i))
    } else {
        None
    }
}

/// There is at most one nearest entry.
pub proof fn law_nearest_is_unique(distances: Seq<Scalar>, i: int, j: int)
    requires
        is_nearest(distances, i),
        is_nearest(distances, j),
    ensures
        i == j,
{
    law_order_is_total(distances[i], distances[j]);
    if i < j {
        assert(!distances[i].at_most(distances[j]));
    } else if j < i {
        assert(!distances[j].at_most(distances[i]));
    }
}

/// There is a nearest entry exactly where some distance is below infinity.
pub proof fn law_nearest_exists(distances: Seq<Scalar>)
    ensures
        nearest(distances) is Some <==> exists|i: int|
            0 <= i < distances.len() && (#[trigger] distances[i]).less(out_of_reach()),
        nearest(distances) matches Some(i) ==> is_nearest(distances, i),
    decreases distances.len(),
{
    if distances.len() > 0 {
        let rest = distances.drop_last();
        let last = distances.len() - 1;
        law_nearest_exists(rest);
        if exists|i: int| 0 <= i < distances.len() && (#[trigger] distances[i]).less(out_of_reach()) {
            if nearest(rest) is None {
                assert forall|j: int| 0 <= j < last implies !(#[trigger] distances[j]).less(
                    out_of_reach(),
                ) by {
                    assert(rest[j] == distances[j]);
                }
                assert(is_nearest(distances, last));
            } else {
                let i = nearest(rest)->0;
                assert(rest[i] == distances[i]);
                assert forall|j: int| 0 <= j < last implies rest[j] == #[trigger] distances[j] by {}
                if distances[last].less(distances[i]) {
                    assert(is_nearest(distances, last));
                } else {
                    assert(is_nearest(distances, i));
                }
            }
        }
    }
}

/// The index of the first of the smallest distances, if any is below infinity.
pub fn find_nearest(distances: &Vec<Scalar>) -> (r: Option<usize>)
    ensures
        match r {
            Some(i) => nearest(distances@) == Some(i as int),
            None => nearest(distances@) is None,
        },
{
    let mut best: Option<usize> = None;
    let mut best_distance = Scalar::infinity();
    for i in 0..distances.len()
        invariant
            match best {
                Some(b) => is_nearest(distances@.take(i as int), b as int) && best_distance
                    == distances@[b as int],
                None => best_distance == out_of_reach() && forall|j: int|
                    0 <= j < i ==> !(#[trigger] distances@[j]).less(out_of_reach()),
            },
    {
        let ghost seen = distances@.take(i as int);
        let ghost more = distances@.take(i + 1);
        assert(forall|j: int| 0 <= j < i ==> seen[j] == distances@[j] && more[j] == seen[j]);
        assert(more[i as int] == distances@[i as int]);
        if distances[i].lt(best_distance) {
            proof {
                law_infinity_is_greatest(best_distance);
                assert(is_nearest(more, i as int));
            }
            best = Some(i);
            best_distance = distances[i];
        } else {
            proof {
                if best is Some {
                    assert(is_nearest(more, best->0 as int));
                } else {
                    assert(more[i as int] == distances@[i as int]);
                }
            }
        }
    }
    assert(distances@.take(distances@.len() as int) =~= distances@);
    proof {
        law_nearest_exists(distances@);
        if best is Some {
            law_nearest_is_unique(distances@, nearest(distances@)->0, best->0 as int);
        }
    }
    best
}

/// The smallest of the distances; infinity where there is none.
pub open spec fn least(distances: Seq<Scalar>) -> Scalar
    decreases distances.len(),
{
    if distances.len() == 0 {
        out_of_reach()
    } else {
        least(distances.drop_last()).smaller(distances.last())
    }
}

/// The smallest distance is a number, no larger than any of the distances, and
/// one of them unless it is infinity.
pub proof fn law_least_is_a_bound(distances: Seq<Scalar>)
    ensures
        least(distances).is_number(),
        forall|i: int|
            0 <= i < distances.len() && (#[trigger] distances[i]).is_number() ==> least(
                distances,
            ).at_most(distances[i]),
        least(distances) == out_of_reach() || distances.contains(least(distances)),
    decreases distances.len(),
{
    if distances.len() > 0 {
        let rest = distances.drop_last();
        law_least_is_a_bound(rest);
        assert forall|i: int|
            0 <= i < distances.len() && (#[trigger] distances[i]).is_number() implies least(
            distances,
        ).at_most(distances[i]) by {
            if i < rest.len() {
                assert(rest[i] == distances[i]);
            }
        }
        if rest.contains(least(rest)) {
            let i = choose|i: int| 0 <= i < rest.len() && rest[i] == least(rest);
            assert(distances[i] == least(rest));
        }
        assert(distances[distances.len() - 1] == distances.last());
    }
}

/// The smallest of the distances; infinity where there is none.
pub fn find_least(distances: &Vec<Scalar>) -> (r: Scalar)
    ensures
        r == least(distances@),
{
    let mut best = Scalar::infinity();
    for i in 0..distances.len()
        invariant
            best == least(distances@.take(i as int)),
    {
        assert(distances@.take(i + 1).drop_last() =~= distances@.take(i as int));
        best = best.min(distances[i]);
    }
    assert(distances@.take(distances@.len() as int) =~= distances@);
    best
}

/// The largest of the distances; zero where none is above zero.
pub open spec fn greatest(distances: Seq<Scalar>) -> Scalar
    decreases distances.len(),
{
    if distances.len() == 0 {
        no_distance()
    } else {
        greatest(distances.drop_last()).larger(distances.last())
    }
}

/// The largest distance is a number, no smaller than zero or any of the
/// distances, and one of them unless it is zero.
pub proof fn law_greatest_is_a_bound(distances: Seq<Scalar>)
    ensures
        greatest(distances).is_number(),
        no_distance().at_most(greatest(distances)),
        forall|i: int|
            0 <= i < distances.len() && (#[trigger] distances[i]).is_number()
                ==> distances[i].at_most(greatest(distances)),
        greatest(distances) == no_distance() || distances.contains(greatest(distances)),
    decreases distances.len(),
{
    if distances.len() > 0 {
        let rest = distances.drop_last();
        law_greatest_is_a_bound(rest);
        assert forall|i: int|
            0 <= i < distances.len() && (#[trigger] distances[i]).is_number() implies distances[i].at_most(
            greatest(distances),
        ) by {
            if i < rest.len() {
                assert(rest[i] == distances[i]);
            }
        }
        if rest.contains(greatest(rest)) {
            let i = choose|i: int| 0 <= i < rest.len() && rest[i] == greatest(rest);
            assert(distances[i] == greatest(rest));
        }
        assert(distances[distances.len() - 1] == distances.last());
    }
}

/// The largest of the distances; zero where none is above zero.
pub fn find_greatest(distances: &Vec<Scalar>) -> (r: Scalar)
    ensures
        r == greatest(distances@),
{
    let mut best = Scalar::zero();
    for i in 0..distances.len()
        invariant
            best == greatest(distances@.take(i as int)),
    {
        assert(distances@.take(i + 1).drop_last() =~= distances@.take(i as int));
        best = best.max(distances[i]);
    }
    assert(distances@.take(distances@.len() as int) =~= distances@);
    best
}

/// The nearest entry is a number below infinity that no entry is less than, and
/// every entry before it is more or no number. There is none where no entry is
/// below infinity.
pub proof fn law_nearest_is_the_first_smallest(distances: Seq<Scalar>)
    ensures
        match nearest(distances) {
            Some(i) => {
                &&& 0 <= i < distances.len()
                &&& distances[i].less(Scalar { bits: 0x7ff0_0000_0000_0000 })
                &&& forall|j: int|
                    0 <= j < distances.len() ==> !(#[trigger] distances[j]).less(distances[i])
                &&& forall|j: int|
                    0 <= j < i ==> !(#[trigger] distances[j]).at_most(distances[i])
            },
            None => forall|j: int|
                0 <= j < distances.len() ==> !(#[trigger] distances[j]).less(
                    Scalar { bits: 0x7ff0_0000_0000_0000 },
                ),
        },
{
    law_nearest_exists(distances);
}

/// The scale of distances begins at zero and ends at infinity.
pub proof fn law_ends_of_the_scale()
    ensures
        least(Seq::empty()) == (Scalar { bits: 0x7ff0_0000_0000_0000 }),
        greatest(Seq::empty()) == (Scalar { bits: 0 }),
{
}

/// A number that no number among the distances is below, and that is one of them,
/// is equal to the least.
pub proof fn law_least_is_determined(distances: Seq<Scalar>, i: int)
    requires
        0 <= i < distances.len(),
        distances[i].is_number(),
        forall|j: int| 0 <= j < distances.len() ==> !(#[trigger] distances[j]).less(distances[i]),
    ensures
        least(distances).equal(distances[i]),
{
    law_least_is_a_bound(distances);
    law_infinity_is_greatest(distances[i]);
    if distances.contains(least(distances)) {
        let j = choose|j: int| 0 <= j < distances.len() && distances[j] == least(distances);
        assert(!distances[j].less(distances[i]));
    }
}

/// A number of at least zero that no number among the distances is above, and that
/// is one of them, is equal to the greatest.
pub proof fn law_greatest_is_determined(distances: Seq<Scalar>, i: int)
    requires
        0 <= i < distances.len(),
        (Scalar { bits: 0 }).at_most(distances[i]),
        forall|j: int| 0 <= j < distances.len() ==> !distances[i].less(#[trigger] distances[j]),
    ensures
        greatest(distances).equal(distances[i]),
{
    law_greatest_is_a_bound(distances);
    if distances.contains(greatest(distances)) {
        let j = choose|j: int| 0 <= j < distances.len() && distances[j] == greatest(distances);
        assert(!distances[i].less(distances[j]));
    }
}

} // verus!
