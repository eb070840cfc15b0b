//! The points of the boolean hypercube `{0,1}^dims`, in lexicographic order.

use itertools::structs::MultiProduct;
use itertools::Itertools;
use std::ops::Range;
use vstd::arithmetic::power2::{lemma_pow2_pos, lemma_pow2_unfold, pow2};
use vstd::prelude::*;

verus! {

/// The point of `{0,1}^dims` at position `index` of the lexicographic order:
/// `index` written in binary with `dims` digits, the most significant first.
pub open spec fn cube_point(dims: nat, index: nat) -> Seq<u8>
    decreases dims,
{
    if dims == 0 {
        Seq::empty()
    } else {
        cube_point((dims - 1) as nat, index / 2).push((index % 2) as u8)
    }
}

/// Every coordinate of `point` is 0 or 1.
pub open spec fn is_boolean(point: Seq<u8>) -> bool {
    forall|k: int| 0 <= k < point.len() ==> #[trigger] point[k] <= 1
}

/// The position of a boolean point in the lexicographic order: its
/// coordinates read as a binary number, the most significant first.
pub open spec fn cube_index(point: Seq<u8>) -> nat
    decreases point.len(),
{
    if point.len() == 0 {
        0
    } else {
        2 * cube_index(point.drop_last()) + point.last() as nat
    }
}

/// All the points of `{0,1}^dims`, in lexicographic order.
pub open spec fn cube_points(dims: nat) -> Seq<Seq<u8>> {
    Seq::new(pow2(dims), |i: int| cube_point(dims, i as nat))
}

/// The iterator of itertools over the cartesian product of several copies of
/// one range.
#[verifier::external_type_specification]
#[verifier::external_body]
#[verifier::reject_recursive_types(I)]
pub struct ExMultiProduct<I: Iterator + Clone>(MultiProduct<I>) where I::Item: Clone;

/// The combinations that a walk over a cartesian product has still to
/// yield, in the order in which it will yield them.
pub uninterp spec fn upcoming(walk: MultiProduct<Range<u8>>) -> Seq<Seq<u8>>;

/// The walk over `{0,1}^dims` can be set up: itertools keeps, for each
/// dimension, the range and what is left of it, four bytes in all, in one
/// vector, which may not be larger than the largest allocation.
pub open spec fn walkable(dims: nat) -> bool {
    4 * dims <= isize::MAX
}

/// Calls `multi_cartesian_product` of itertools on `dims` copies of the range
/// `0..2`. The contract claims what the crate documents of the iterator that
/// comes back: it will yield every combination once, in lexicographic order,
/// the last coordinate changing fastest; with no range at all, it will yield
/// the one empty combination. The call panics where its vector of ranges
/// would be too large, which `walkable` excludes.
#[verifier::external_body]
pub(crate) fn boolean_points(dims: usize) -> (walk: MultiProduct<Range<u8>>)
    requires
        walkable(dims as nat),
    ensures
        upcoming(walk) == cube_points(dims as nat),
{
    (0..dims).map(|_| 0..2u8).multi_cartesian_product()
}

/// Calls `next` on the iterator of itertools over a cartesian product. The
/// contract claims that the call yields the first of the combinations still
/// to come and leaves the others, and that it yields nothing, now and ever
/// after, once none is left.
#[verifier::external_body]
pub(crate) fn next_point(walk: &mut MultiProduct<Range<u8>>) -> (point: Option<Vec<u8>>)
    ensures
        point is Some ==> upcoming(*old(walk)).len() > 0 && point->Some_0@ == upcoming(
            *old(walk),
        )[0] && upcoming(*final(walk)) == upcoming(*old(walk)).skip(1),
        point is None ==> upcoming(*old(walk)).len() == 0 && upcoming(*final(walk)).len() == 0,
{
    walk.next()
}

/// The points still to come once the first `done` points of `{0,1}^dims`
/// have been yielded: none when all have been, else the point at position
/// `done` and then those from position `done + 1` on.
pub proof fn lemma_cube_points_from(dims: nat, done: nat)
    requires
        done <= pow2(dims),
    ensures
        cube_points(dims).skip(done as int).len() == pow2(dims) - done,
        done < pow2(dims) ==> cube_points(dims).skip(done as int)[0] == cube_point(dims, done)
            && cube_points(dims).skip(done as int).skip(1) == cube_points(dims).skip((done + 1) as int),
{
    if done < pow2(dims) {
        assert(cube_points(dims).skip(done as int).skip(1) =~= cube_points(dims).skip((done + 1) as int));
    }
}

/// A point of the hypercube has `dims` coordinates, each 0 or 1.
pub proof fn lemma_cube_point_shape(dims: nat, index: nat)
    ensures
        cube_point(dims, index).len() == dims,
        is_boolean(cube_point(dims, index)),
    decreases dims,
{
    if dims > 0 {
        lemma_cube_point_shape((dims - 1) as nat, index / 2);
    }
}

/// A position below `2^dims` is the position of its own point.
pub proof fn lemma_cube_index_of_point(dims: nat, index: nat)
    requires
        index < pow2(dims),
    ensures
        cube_index(cube_point(dims, index)) == index,
    decreases dims,
{
    if dims == 0 {
        assert(pow2(0) == 1) by {
            lemma_pow2_pos(0);
            reveal(pow2);
            reveal(vstd::arithmetic::power::pow);
        }
    } else {
        let head = cube_point((dims - 1) as nat, index / 2);
        lemma_pow2_unfold(dims);
        lemma_cube_index_of_point((dims - 1) as nat, index / 2);
        assert(cube_point(dims, index).drop_last() =~= head);
    }
}

/// A boolean point is the point at its own position, and that position is
/// below `2^len`.
pub proof fn lemma_cube_point_of_index(point: Seq<u8>)
    requires
        is_boolean(point),
    ensures
        cube_index(point) < pow2(point.len()),
        cube_point(point.len(), cube_index(point)) == point,
    decreases point.len(),
{
    if point.len() == 0 {
        lemma_pow2_pos(0);
        assert(cube_point(0, 0) =~= point);
    } else {
        let head = point.drop_last();
        lemma_cube_point_of_index(head);
        lemma_pow2_unfold(point.len());
        let index = cube_index(point);
        assert(index / 2 == cube_index(head));
        assert(index % 2 == point.last() as nat);
        assert(cube_point(point.len(), index) =~= point);
    }
}

/// The first half of the positions holds the points that start with 0, the
/// second half those that start with 1; what follows the first coordinate is
/// the point of the smaller hypercube at the position within the half.
pub proof fn lemma_cube_point_leading(dims: nat, index: nat)
    requires
        dims >= 1,
        index < pow2(dims),
    ensures
        index < pow2((dims - 1) as nat) ==> cube_point(dims, index) == seq![0u8] + cube_point(
            (dims - 1) as nat,
            index,
        ),
        index >= pow2((dims - 1) as nat) ==> cube_point(dims, index) == seq![1u8] + cube_point(
            (dims - 1) as nat,
            (index - pow2((dims - 1) as nat)) as nat,
        ),
    decreases dims,
{
    let half = pow2((dims - 1) as nat);
    lemma_pow2_unfold(dims);
    lemma_pow2_pos((dims - 1) as nat);
    if dims == 1 {
        assert(half == 1) by {
            lemma_pow2_pos(0);
            reveal(pow2);
            reveal(vstd::arithmetic::power::pow);
        }
        assert(cube_point(0, index / 2) =~= Seq::<u8>::empty());
        assert(cube_point(0, index) =~= Seq::<u8>::empty());
        assert(cube_point(0, (index - half) as nat) =~= Seq::<u8>::empty());
        if index < half {
            assert(cube_point(dims, index) =~= seq![0u8] + cube_point(0, index));
        } else {
            assert(cube_point(dims, index) =~= seq![1u8] + cube_point(0, (index - half) as nat));
        }
    } else {
        let quarter = pow2((dims - 2) as nat);
        lemma_pow2_unfold((dims - 1) as nat);
        lemma_cube_point_leading((dims - 1) as nat, index / 2);
        if index < half {
            assert(index / 2 < quarter);
            assert(cube_point(dims, index) =~= seq![0u8] + cube_point((dims - 1) as nat, index));
        } else {
            let rest = (index - half) as nat;
            assert(index / 2 >= quarter);
            assert(rest / 2 == index / 2 - quarter);
            assert(rest % 2 == index % 2);
            assert(cube_point(dims, index) =~= seq![1u8] + cube_point((dims - 1) as nat, rest));
        }
    }
}

} // verus!
