use vstd::prelude::*;

use crate::bitboard::BitBoard;
use crate::board::AbstractBoard;
use crate::square::{is_neighbour, lemma_neighbour_symmetry, valid_size, Square};

verus! {

/// A walk over adjacent squares, all of them in `road`.
pub open spec fn road_path(road: BitBoard, s: int, p: Seq<int>) -> bool {
    &&& p.len() >= 1
    &&& forall|i: int| 0 <= i < p.len() ==> 0 <= #[trigger] p[i] < s * s && road.has(p[i])
    &&& forall|i: int| 0 <= i < p.len() - 1 ==> is_neighbour(#[trigger] p[i], p[i + 1], s)
}

/// Squares `a` and `b` are joined by a walk over adjacent squares of `road`.
pub open spec fn connected(road: BitBoard, s: int, a: int, b: int) -> bool {
    exists|p: Seq<int>| road_path(road, s, p) && p[0] == a && p.last() == b
}

/// Every labelled square of `road` has the same label as its neighbours in `road`.
pub open spec fn labels_closed(road: BitBoard, s: int, labels: Seq<u8>) -> bool {
    forall|x: int, y: int|
        0 <= x < s * s && 0 <= y < s * s && road.has(x) && road.has(y) && is_neighbour(x, y, s)
            && #[trigger] labels[x] != 0 ==> #[trigger] labels[y] == labels[x]
}

/// Squares of `road` that share a label are joined by a walk over `road`.
pub open spec fn labels_sound(road: BitBoard, s: int, labels: Seq<u8>) -> bool {
    forall|a: int, b: int|
        0 <= a < s * s && 0 <= b < s * s && road.has(a) && road.has(b) && #[trigger] labels[a] != 0
            && #[trigger] labels[b] == labels[a] ==> connected(road, s, a, b)
}

/// All the road neighbours of `y` are labelled.
pub open spec fn settled(road: BitBoard, s: int, labels: Seq<u8>, y: int) -> bool {
    forall|z: int| 0 <= z < s * s && road.has(z) && is_neighbour(y, z, s) ==> #[trigger] labels[z] != 0
}

/// Label `k` is given to some square of `road` that had no label before.
pub open spec fn label_is_new(road: BitBoard, before: Seq<u8>, after: Seq<u8>, k: int, n: int) -> bool {
    exists|y: int| 0 <= y < n && #[trigger] after[y] == k && before[y] == 0 && road.has(y)
}

/// The number of unlabelled squares.
pub open spec fn unlabelled(labels: Seq<u8>) -> nat
    decreases labels.len(),
{
    if labels.len() == 0 {
        0
    } else {
        unlabelled(labels.drop_last()) + if labels.last() == 0 { 1nat } else { 0nat }
    }
}

proof fn lemma_unlabelled_set(labels: Seq<u8>, i: int, v: u8)
    requires
        0 <= i < labels.len(),
        labels[i] == 0,
        v != 0,
    ensures
        unlabelled(labels.update(i, v)) + 1 == unlabelled(labels),
    decreases labels.len(),
{
    if i < labels.len() - 1 {
        lemma_unlabelled_set(labels.drop_last(), i, v);
        assert(labels.update(i, v).drop_last() =~= labels.drop_last().update(i, v));
    } else {
        assert(labels.update(i, v).drop_last() =~= labels.drop_last());
    }
}

pub proof fn lemma_unlabelled_bound(labels: Seq<u8>)
    ensures
        unlabelled(labels) <= labels.len(),
    decreases labels.len(),
{
    if labels.len() > 0 {
        lemma_unlabelled_bound(labels.drop_last());
    }
}

/// A walk read backwards is a walk.
pub proof fn lemma_road_path_reverse(road: BitBoard, s: int, p: Seq<int>)
    requires
        s > 0,
        road_path(road, s, p),
    ensures
        road_path(road, s, p.reverse()),
        p.reverse()[0] == p.last(),
        p.reverse().last() == p[0],
{
    let r = p.reverse();
    assert forall|i: int| 0 <= i < r.len() - 1 implies is_neighbour(#[trigger] r[i], r[i + 1], s) by {
        let j = p.len() - 2 - i;
        assert(is_neighbour(p[j], p[j + 1], s));
        lemma_neighbour_symmetry(p[j], p[j + 1], s);
    }
    assert forall|i: int| 0 <= i < r.len() implies 0 <= #[trigger] r[i] < s * s && road.has(r[i]) by {
        assert(r[i] == p[p.len() - 1 - i]);
    }
}

/// Two walks that meet make one walk.
pub proof fn lemma_road_path_join(road: BitBoard, s: int, p: Seq<int>, q: Seq<int>)
    requires
        road_path(road, s, p),
        road_path(road, s, q),
        p.last() == q[0],
    ensures
        road_path(road, s, p + q.skip(1)),
        (p + q.skip(1))[0] == p[0],
        (p + q.skip(1)).last() == q.last(),
{
    let r = p + q.skip(1);
    assert forall|i: int| 0 <= i < r.len() implies 0 <= #[trigger] r[i] < s * s && road.has(r[i]) by {
        if i >= p.len() {
            assert(r[i] == q[i - p.len() + 1]);
        }
    }
    assert forall|i: int| 0 <= i < r.len() - 1 implies is_neighbour(#[trigger] r[i], r[i + 1], s) by {
        if i < p.len() - 1 {
            assert(r[i] == p[i] && r[i + 1] == p[i + 1]);
        } else if i == p.len() - 1 {
            assert(r[i] == q[0] && r[i + 1] == q[1]);
        } else {
            assert(r[i] == q[i - p.len() + 1] && r[i + 1] == q[i - p.len() + 2]);
        }
    }
    if q.len() == 1 {
        assert(r =~= p);
    }
}

/// Two squares joined to a common square are joined to each other.
pub proof fn lemma_connected_via(road: BitBoard, s: int, c: int, a: int, b: int)
    requires
        s > 0,
        connected(road, s, c, a),
        connected(road, s, c, b),
    ensures
        connected(road, s, a, b),
{
    let p = choose|p: Seq<int>| road_path(road, s, p) && p[0] == c && p.last() == a;
    let q = choose|q: Seq<int>| road_path(road, s, q) && q[0] == c && q.last() == b;
    lemma_road_path_reverse(road, s, p);
    lemma_road_path_join(road, s, p.reverse(), q);
}

#[verifier::rlimit(100)]
/// Labels square `square`, and every square of `road` joined to it over
/// unlabelled squares of `road`, with the fresh label `id`.
pub fn connect_component<const S: usize>(road_pieces: BitBoard, components: &mut AbstractBoard<u8, S>, square: Square, id: u8)
    requires
        valid_size(S as int),
        old(components)@.len() == S * S,
        square.on_board(S as int),
        road_pieces.has(square.index()),
        old(components)@[square.index()] == 0,
        id != 0,
        forall|y: int| 0 <= y < S * S ==> old(components)@[y] != id,
        labels_closed(road_pieces, S as int, old(components)@),
        labels_sound(road_pieces, S as int, old(components)@),
    ensures
        final(components)@.len() == S * S,
        final(components)@[square.index()] == id,
        forall|y: int| 0 <= y < S * S && old(components)@[y] != 0 ==> #[trigger] final(components)@[y] == old(components)@[y],
        forall|y: int| 0 <= y < S * S && #[trigger] final(components)@[y] != old(components)@[y]
            ==> old(components)@[y] == 0 && final(components)@[y] == id && road_pieces.has(y),
        labels_closed(road_pieces, S as int, final(components)@),
        labels_sound(road_pieces, S as int, final(components)@),
        unlabelled(final(components)@) < unlabelled(old(components)@),
{
    let ghost s = S as int;
    let ghost l0 = components@;
    let ghost sqi = square.index();
    proof {
        lemma_unlabelled_set(components@, sqi, id);
        let p = seq![sqi];
        assert(road_path(road_pieces, s, p));
    }
    components.set(square, id);
    let mut stack: Vec<Square> = Vec::new();
    stack.push(square);
    proof {
        assert(S * S <= 64) by (nonlinear_arith)
            requires
                S <= 8,
        ;
        let p = seq![sqi];
        assert(road_path(road_pieces, s, p) && p[0] == sqi && p.last() == sqi);
        assert(connected(road_pieces, s, sqi, sqi));
        assert forall|y: int| 0 <= y < S * S && #[trigger] components@[y] == id implies y == sqi by {
            if y != sqi {
                assert(components@[y] == l0[y]);
            }
        }
        assert(stack@[0] == square);
    }
    while stack.len() > 0
        invariant
            valid_size(s),
            s == S as int,
            S * S <= 64,
            components@.len() == S * S,
            components@[sqi] == id,
            id != 0,
            forall|y: int| 0 <= y < S * S && l0[y] != 0 ==> #[trigger] components@[y] == l0[y],
            forall|y: int| 0 <= y < S * S && #[trigger] components@[y] != l0[y]
                ==> l0[y] == 0 && components@[y] == id && road_pieces.has(y),
            forall|y: int| 0 <= y < S * S ==> l0[y] != id,
            forall|k: int| 0 <= k < stack@.len() ==> (#[trigger] stack@[k]).on_board(s) && components@[stack@[k].index()] == id,
            forall|y: int| 0 <= y < S * S && #[trigger] components@[y] == id && !settled(road_pieces, s, components@, y)
                ==> exists|k: int| 0 <= k < stack@.len() && stack@[k].index() == y,
            forall|y: int| 0 <= y < S * S && #[trigger] components@[y] == id ==> connected(road_pieces, s, sqi, y),
            unlabelled(components@) < unlabelled(l0),
        decreases unlabelled(components@), stack@.len(),
    {
        let ghost stack_old = stack@;
        let x = stack.pop().unwrap();
        let ghost stack_rest = stack@;
        let ghost xi = x.index();
        let ghost u_before = unlabelled(components@);
        let ghost l_before = components@;
        let neighbours = x.neighbours::<S>();
        let mut ni: usize = 0;
        let ghost pushed_any = false;
        while ni < neighbours.len()
            invariant
                valid_size(s),
                s == S as int,
                S * S <= 64,
                x.on_board(s),
                stack_old == stack_rest.push(x),
                forall|y: int| 0 <= y < S * S && #[trigger] l_before[y] == id && !settled(road_pieces, s, l_before, y)
                    ==> exists|k: int| 0 <= k < stack_old.len() && stack_old[k].index() == y,
                xi == x.index(),
                components@.len() == S * S,
                components@[sqi] == id,
                components@[xi] == id,
                id != 0,
                forall|b: Square| neighbours@.contains(b) <==> is_neighbour(xi, b.index(), s),
                forall|k: int| 0 <= k < neighbours@.len() ==> (#[trigger] neighbours@[k]).on_board(s),
                ni <= neighbours@.len(),
                forall|y: int| 0 <= y < S * S && l0[y] != 0 ==> #[trigger] components@[y] == l0[y],
                forall|y: int| 0 <= y < S * S && #[trigger] components@[y] != l0[y]
                    ==> l0[y] == 0 && components@[y] == id && road_pieces.has(y),
                forall|y: int| 0 <= y < S * S && l_before[y] != 0 ==> #[trigger] components@[y] == l_before[y],
                forall|y: int| 0 <= y < S * S ==> l0[y] != id,
                stack@.len() >= stack_rest.len(),
                stack@.subrange(0, stack_rest.len() as int) == stack_rest,
                forall|k: int| 0 <= k < stack@.len() ==> (#[trigger] stack@[k]).on_board(s) && components@[stack@[k].index()] == id,
                forall|y: int| 0 <= y < S * S && #[trigger] components@[y] != l_before[y]
                    ==> exists|k: int| stack_rest.len() <= k < stack@.len() && stack@[k].index() == y,
                forall|k: int| 0 <= k < ni ==> road_pieces.has(#[trigger] neighbours@[k].index()) ==> components@[neighbours@[k].index()] != 0,
                forall|y: int| 0 <= y < S * S && #[trigger] components@[y] == id ==> connected(road_pieces, s, sqi, y),
                unlabelled(components@) <= u_before,
                stack@.len() > stack_rest.len() ==> unlabelled(components@) < u_before,
                unlabelled(components@) < unlabelled(l0),
            decreases neighbours@.len() - ni,
        {
            let n = neighbours[ni];
            if road_pieces.get(n.0) && components.get(n) == 0 {
                proof {
                    lemma_unlabelled_set(components@, n.index(), id);
                    assert(neighbours@.contains(n));
                    let p = choose|p: Seq<int>| road_path(road_pieces, s, p) && p[0] == sqi && p.last() == xi;
                    let q = p.push(n.index());
                    assert(q.last() == n.index());
                    assert(q[0] == sqi);
                    assert forall|i: int| 0 <= i < q.len() - 1 implies is_neighbour(#[trigger] q[i], q[i + 1], s) by {
                        if i < p.len() - 1 {
                            assert(q[i] == p[i] && q[i + 1] == p[i + 1]);
                        }
                    }
                    assert(road_path(road_pieces, s, q));
                }
                let ghost before_push = stack@;
                components.set(n, id);
                stack.push(n);
                proof {
                    assert forall|y: int| 0 <= y < S * S && #[trigger] components@[y] != l_before[y]
                        implies exists|k: int| stack_rest.len() <= k < stack@.len() && stack@[k].index() == y by {
                        if y == n.index() {
                            assert(stack@[stack@.len() - 1] == n);
                        } else {
                            let k = choose|k: int| stack_rest.len() <= k < before_push.len() && before_push[k].index() == y;
                            assert(stack@[k] == before_push[k]);
                        }
                    }
                    assert(stack@.subrange(0, stack_rest.len() as int) =~= stack_rest) by {
                        assert forall|k: int| 0 <= k < stack_rest.len() implies stack@[k] == stack_rest[k] by {
                            assert(stack@[k] == before_push[k]);
                            assert(before_push[k] == before_push.subrange(0, stack_rest.len() as int)[k]);
                        }
                    }
                }
            }
            ni = ni + 1;
        }
        proof {
            // x is settled now, and every other square of the component is settled or waiting.
            assert(settled(road_pieces, s, components@, xi)) by {
                assert forall|z: int| 0 <= z < s * s && road_pieces.has(z) && is_neighbour(xi, z, s) implies #[trigger] components@[z] != 0 by {
                    let b = Square(z as u8);
                    assert(neighbours@.contains(b));
                    let k = choose|k: int| 0 <= k < neighbours@.len() && neighbours@[k] == b;
                    assert(neighbours@[k].index() == z);
                }
            }
            assert forall|y: int| 0 <= y < S * S && #[trigger] components@[y] == id && !settled(road_pieces, s, components@, y)
                implies exists|k: int| 0 <= k < stack@.len() && stack@[k].index() == y by {
                if components@[y] != l_before[y] {
                    let k = choose|k: int| stack_rest.len() <= k < stack@.len() && stack@[k].index() == y;
                } else {
                    assert(l_before[y] == id);
                    if !settled(road_pieces, s, l_before, y) {
                        assert(y != xi);
                        let k = choose|k: int| 0 <= k < stack_old.len() && stack_old[k].index() == y;
                        assert(k < stack_rest.len());
                        assert(stack_old[k] == stack_rest[k]);
                        assert(stack@[k] == stack_rest[k]);
                    } else {
                        assert forall|z: int| 0 <= z < s * s && road_pieces.has(z) && is_neighbour(y, z, s) implies #[trigger] components@[z] != 0 by {
                            assert(l_before[z] != 0);
                        }
                    }
                }
            }
        }
    }
    proof {
        let l1 = components@;
        assert forall|y: int| 0 <= y < S * S && #[trigger] l1[y] == id implies settled(road_pieces, s, l1, y) by {}
        assert forall|x: int, y: int|
            0 <= x < s * s && 0 <= y < s * s && road_pieces.has(x) && road_pieces.has(y) && is_neighbour(x, y, s)
                && #[trigger] l1[x] != 0 implies #[trigger] l1[y] == l1[x] by {
            lemma_neighbour_symmetry(x, y, s);
            if l1[x] == id {
                assert(settled(road_pieces, s, l1, x));
                assert(l1[y] != 0);
                if l1[y] != id {
                    assert(l0[y] != 0);
                    assert(l0[x] == l0[y]);
                }
            } else {
                assert(l0[x] != 0);
                assert(l0[y] == l0[x]);
            }
        }
        assert forall|a: int, b: int|
            0 <= a < s * s && 0 <= b < s * s && road_pieces.has(a) && road_pieces.has(b) && #[trigger] l1[a] != 0
                && #[trigger] l1[b] == l1[a] implies connected(road_pieces, s, a, b) by {
            if l1[a] == id {
                lemma_connected_via(road_pieces, s, sqi, a, b);
            } else {
                assert(l0[a] == l1[a] && l0[b] == l1[b]);
            }
        }
    }
}

/// Labels every unlabelled square of `road`, one fresh label for each group
/// of adjacent squares, starting from label `*id`.
pub fn connected_components_graph<const S: usize>(road_pieces: BitBoard, components: &mut AbstractBoard<u8, S>, id: &mut u8)
    requires
        valid_size(S as int),
        old(components)@.len() == S * S,
        labels_closed(road_pieces, S as int, old(components)@),
        labels_sound(road_pieces, S as int, old(components)@),
        *old(id) >= 1,
        forall|y: int| 0 <= y < S * S ==> old(components)@[y] < *old(id),
        *old(id) + unlabelled(old(components)@) <= 255,
    ensures
        final(components)@.len() == S * S,
        labels_closed(road_pieces, S as int, final(components)@),
        labels_sound(road_pieces, S as int, final(components)@),
        forall|y: int| 0 <= y < S * S && road_pieces.has(y) ==> #[trigger] final(components)@[y] != 0,
        forall|y: int| 0 <= y < S * S && old(components)@[y] != 0 ==> #[trigger] final(components)@[y] == old(components)@[y],
        forall|y: int| 0 <= y < S * S && #[trigger] final(components)@[y] != old(components)@[y]
            ==> old(components)@[y] == 0 && road_pieces.has(y) && *old(id) <= final(components)@[y],
        forall|y: int| 0 <= y < S * S ==> #[trigger] final(components)@[y] < *final(id),
        *final(id) >= *old(id),
        *final(id) + unlabelled(final(components)@) <= *old(id) + unlabelled(old(components)@),
        forall|k: int| *old(id) <= k < *final(id) ==> #[trigger] label_is_new(road_pieces, old(components)@, final(components)@, k, S * S),
{
    let ghost l0 = components@;
    let ghost id0 = *id;
    let mut i: u8 = 0;
    assert(S * S <= 64) by (nonlinear_arith)
        requires
            S <= 8,
    ;
    while (i as usize) < S * S
        invariant
            valid_size(S as int),
            S * S <= 64,
            i <= S * S,
            components@.len() == S * S,
            labels_closed(road_pieces, S as int, components@),
            labels_sound(road_pieces, S as int, components@),
            forall|y: int| 0 <= y < i && road_pieces.has(y) ==> #[trigger] components@[y] != 0,
            forall|y: int| 0 <= y < S * S && l0[y] != 0 ==> #[trigger] components@[y] == l0[y],
            forall|y: int| 0 <= y < S * S && #[trigger] components@[y] != l0[y]
                ==> l0[y] == 0 && road_pieces.has(y) && id0 <= components@[y],
            forall|y: int| 0 <= y < S * S ==> #[trigger] components@[y] < *id,
            *id >= id0,
            *id + unlabelled(components@) <= id0 + unlabelled(l0),
            id0 + unlabelled(l0) <= 255,
            id0 >= 1,
            forall|k: int| id0 <= k < *id ==> #[trigger] label_is_new(road_pieces, l0, components@, k, S * S),
        decreases S * S - i,
    {
        let sq = Square(i);
        if road_pieces.get(i) && components.get(sq) == 0 {
            let ghost before = components@;
            proof {
                lemma_unlabelled_set(components@, i as int, 1);
            }
            connect_component(road_pieces, components, sq, *id);
            proof {
                assert forall|y: int| 0 <= y < S * S && #[trigger] components@[y] != l0[y]
                    implies l0[y] == 0 && road_pieces.has(y) && id0 <= components@[y] by {
                    if components@[y] != before[y] {
                        assert(before[y] == 0);
                    }
                }
                assert forall|y: int| 0 <= y < S * S implies #[trigger] components@[y] < *id + 1 by {
                    if components@[y] != before[y] {
                        assert(components@[y] == *id);
                    }
                }
                assert forall|k: int| id0 <= k < *id + 1 implies #[trigger] label_is_new(road_pieces, l0, components@, k, S * S) by {
                    if k < *id {
                        assert(label_is_new(road_pieces, l0, before, k, S * S));
                        let y = choose|y: int| 0 <= y < S * S && #[trigger] before[y] == k && l0[y] == 0 && road_pieces.has(y);
                        assert(components@[y] == k);
                    } else {
                        assert(components@[i as int] == k);
                        assert(before[i as int] == 0);
                        assert(l0[i as int] == 0) by {
                            if l0[i as int] != 0 {
                                assert(before[i as int] == l0[i as int]);
                            }
                        }
                    }
                }
            }
            *id = *id + 1;
        }
        i = i + 1;
    }
}

/// Along a walk over `road`, a closed labelling keeps the first square's label.
pub proof fn lemma_closed_along_path(road: BitBoard, s: int, labels: Seq<u8>, p: Seq<int>)
    requires
        labels_closed(road, s, labels),
        road_path(road, s, p),
        labels[p[0]] != 0,
    ensures
        labels[p.last()] == labels[p[0]],
    decreases p.len(),
{
    if p.len() > 1 {
        let q = p.drop_last();
        assert(road_path(road, s, q)) by {
            assert forall|i: int| 0 <= i < q.len() - 1 implies is_neighbour(#[trigger] q[i], q[i + 1], s) by {
                assert(q[i] == p[i] && q[i + 1] == p[i + 1]);
            }
            assert forall|i: int| 0 <= i < q.len() implies 0 <= #[trigger] q[i] < s * s && road.has(q[i]) by {
                assert(q[i] == p[i]);
            }
        }
        lemma_closed_along_path(road, s, labels, q);
        let a = p[p.len() - 2];
        assert(is_neighbour(a, p.last(), s));
        assert(labels[a] != 0);
    }
}

/// Connectivity soundness: in a closed and sound labelling of all of `road`,
/// two squares of `road` share a label exactly when a walk over adjacent
/// squares of `road` joins them.
pub proof fn lemma_same_label_iff_connected(road: BitBoard, s: int, labels: Seq<u8>, a: int, b: int)
    requires
        labels_closed(road, s, labels),
        labels_sound(road, s, labels),
        forall|y: int| 0 <= y < s * s && road.has(y) ==> #[trigger] labels[y] != 0,
        0 <= a < s * s,
        0 <= b < s * s,
        road.has(a),
        road.has(b),
    ensures
        labels[a] == labels[b] <==> connected(road, s, a, b),
{
    assert(labels[a] != 0);
    if connected(road, s, a, b) {
        let p = choose|p: Seq<int>| road_path(road, s, p) && p[0] == a && p.last() == b;
        lemma_closed_along_path(road, s, labels, p);
    }
}

/// The neighbours of `square`, as a set of squares.
pub fn neighbor_bitboard<const S: usize>(square: Square) -> (r: BitBoard)
    requires
        valid_size(S as int),
        square.on_board(S as int),
    ensures
        forall|j: int| 0 <= j < 64 ==> (#[trigger] r.has(j) <==> 0 <= j < S * S && is_neighbour(square.index(), j, S as int)),
{
    let nbs = square.neighbours::<S>();
    let mut r = BitBoard::empty();
    let mut k: usize = 0;
    assert(S * S <= 64) by (nonlinear_arith)
        requires
            S <= 8,
    ;
    while k < nbs.len()
        invariant
            valid_size(S as int),
            S * S <= 64,
            k <= nbs@.len(),
            forall|b: Square| nbs@.contains(b) <==> is_neighbour(square.index(), b.index(), S as int),
            forall|i: int| 0 <= i < nbs@.len() ==> (#[trigger] nbs@[i]).on_board(S as int),
            forall|j: int| 0 <= j < 64 ==> (#[trigger] r.has(j) <==> exists|i: int| 0 <= i < k && nbs@[i].index() == j),
        decreases nbs@.len() - k,
    {
        let ghost before = r;
        r = r.set(nbs[k].0);
        proof {
            assert forall|j: int| 0 <= j < 64 implies (#[trigger] r.has(j) <==> exists|i: int| 0 <= i < k + 1 && nbs@[i].index() == j) by {
                if r.has(j) && j != nbs@[k as int].index() {
                    assert(before.has(j));
                }
                if exists|i: int| 0 <= i < k + 1 && nbs@[i].index() == j {
                    let i = choose|i: int| 0 <= i < k + 1 && nbs@[i].index() == j;
                    if i < k {
                        assert(before.has(j));
                    }
                }
            }
        }
        k = k + 1;
    }
    proof {
        assert forall|j: int| 0 <= j < 64 implies (#[trigger] r.has(j) <==> 0 <= j < S * S && is_neighbour(square.index(), j, S as int)) by {
            if r.has(j) {
                let i = choose|i: int| 0 <= i < nbs@.len() && nbs@[i].index() == j;
                assert(nbs@.contains(nbs@[i]));
            }
            if 0 <= j < S * S && is_neighbour(square.index(), j, S as int) {
                let b = Square(j as u8);
                assert(nbs@.contains(b));
                let i = choose|i: int| 0 <= i < nbs@.len() && nbs@[i] == b;
                assert(nbs@[i].index() == j);
            }
        }
    }
    r
}

/// The neighbours of every square, as sets of squares.
pub fn generate_neighbor_table<const S: usize>() -> (r: AbstractBoard<BitBoard, S>)
    requires
        valid_size(S as int),
    ensures
        r@.len() == S * S,
        forall|i: int, j: int| 0 <= i < S * S && 0 <= j < 64 ==> (#[trigger] r@[i].has(j) <==> 0 <= j < S * S
            && is_neighbour(i, j, S as int)),
{
    let mut table = AbstractBoard::<BitBoard, S>::new_with_value(BitBoard::empty());
    let mut i: u8 = 0;
    assert(S * S <= 64) by (nonlinear_arith)
        requires
            S <= 8,
    ;
    while (i as usize) < S * S
        invariant
            valid_size(S as int),
            S * S <= 64,
            i <= S * S,
            table@.len() == S * S,
            forall|a: int, j: int| 0 <= a < i && 0 <= j < 64 ==> (#[trigger] table@[a].has(j) <==> 0 <= j < S * S
                && is_neighbour(a, j, S as int)),
        decreases S * S - i,
    {
        let nb = neighbor_bitboard::<S>(Square(i));
        table.set(Square(i), nb);
        i = i + 1;
    }
    table
}

/// The neighbours of `square`, as a set of squares.
pub fn lookup_neighbor_table<const S: usize>(square: Square) -> (r: BitBoard)
    requires
        valid_size(S as int),
        square.on_board(S as int),
    ensures
        forall|j: int| 0 <= j < 64 ==> (#[trigger] r.has(j) <==> 0 <= j < S * S && is_neighbour(square.index(), j, S as int)),
{
    neighbor_bitboard::<S>(square)
}

} // verus!
