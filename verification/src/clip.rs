use vstd::prelude::*;

use crate::area::area2;
use crate::area::lemma_area2_len2;
use crate::area::lemma_area2_remove1;
use crate::area::lemma_area2_rotate1;
use crate::area::lemma_sum_tri_area2_push;
use crate::area::sum_tri_area2;
use crate::geometry::convex_cycle;
use crate::geometry::lemma_convex_remove1;
use crate::geometry::lemma_convex_rotate_back;
use crate::geometry::lemma_orient2_cyclic;
use crate::geometry::orient2;
use crate::geometry::spec_contains;
use crate::geometry::spec_is_reflex;
use crate::geometry::tri_area2;
use crate::geometry::Point;
use crate::geometry::Triangle;

verus! {

/// A linked-list node, with usize references to a backing array.
#[derive(Clone, Copy, PartialEq, Eq, Structural, Debug)]
pub struct Node {
    /// Position of the node's vertex.
    pub pos: Point,
    /// A reference to the previous vertex at the end of a connected edge.
    pub prev: usize,
    /// A reference to the next vertex at the end of a connected edge.
    pub next: usize,
}

/// The error raised for an input polygon that cannot form a ring.
#[derive(Clone, Copy, PartialEq, Eq, Structural, Debug)]
pub enum EarcutError {
    /// The polygon has fewer than three vertices.
    InvalidInput,
}

/// The backing storage for the linked list.
#[derive(Clone, PartialEq, Debug)]
pub struct Earcut {
    /// All nodes of the ring, in input order; removal only rewrites links.
    pub nodes: Vec<Node>,
}

/// Successor of position `k` on a cycle of `len` positions.
pub open spec fn nxt(k: int, len: int) -> int {
    if k + 1 == len {
        0
    } else {
        k + 1
    }
}

/// Predecessor of position `k` on a cycle of `len` positions.
pub open spec fn prv(k: int, len: int) -> int {
    if k == 0 {
        len - 1
    } else {
        k - 1
    }
}

impl Earcut {
    /// The ring as first built: node `i` holds the `i`-th polygon vertex and
    /// links to its cyclic neighbours.
    pub open spec fn well_formed(self) -> bool {
        &&& self.nodes@.len() >= 3
        &&& forall|i: int|
            0 <= i < self.nodes@.len() ==> (#[trigger] self.nodes@[i].next) as int == nxt(
                i,
                self.nodes@.len() as int,
            )
        &&& forall|i: int|
            0 <= i < self.nodes@.len() ==> (#[trigger] self.nodes@[i].prev) as int == prv(
                i,
                self.nodes@.len() as int,
            )
    }

    /// The polygon the ring was built from: the vertex positions in input
    /// order.
    pub open spec fn polygon(self) -> Seq<Point> {
        Seq::new(self.nodes@.len(), |i: int| self.nodes@[i].pos)
    }

    /// Create a new earcut instance over the polygon's vertices.
    ///
    /// The caller must ensure that the points are valid (in order,
    /// deduplicated, non-self-intersecting, consistently wound); a polygon of
    /// fewer than three vertices is rejected outright.
    pub fn new(polygon: &[Point]) -> (r: Result<Self, EarcutError>)
        ensures
            polygon@.len() >= 3 <==> r is Ok,
            polygon@.len() < 3 ==> r == Err::<Earcut, EarcutError>(EarcutError::InvalidInput),
            r matches Ok(e) ==> e.well_formed() && e.nodes@.len() == polygon@.len() && e.polygon()
                == polygon@ && (forall|i: int|
                0 <= i < polygon@.len() ==> (#[trigger] e.nodes@[i]).pos == polygon@[i]),
    {
        let len = polygon.len();
        if len < 3 {
            return Err(EarcutError::InvalidInput);
        }
        let mut nodes: Vec<Node> = Vec::with_capacity(len);
        let mut idx: usize = 0;
        while idx < len
            invariant
                len == polygon@.len(),
                3 <= len,
                idx <= len,
                nodes@.len() == idx,
                forall|i: int|
                    0 <= i < idx ==> (#[trigger] nodes@[i]).pos == polygon@[i] && nodes@[i].prev
                        as int == prv(i, len as int) && nodes@[i].next as int == nxt(i, len as int),
            decreases len - idx,
        {
            let prev = if idx == 0 {
                len - 1
            } else {
                idx - 1
            };
            let next = if idx + 1 == len {
                0
            } else {
                idx + 1
            };
            nodes.push(Node { pos: polygon[idx], prev, next });
            idx += 1;
        }
        let e = Earcut { nodes };
        proof {
            assert(e.polygon() =~= polygon@);
        }
        Ok(e)
    }
}

/// The node at position `k` of `ring` is a valid index into `nodes`, and its
/// links lead to the nodes at the neighbouring ring positions.
pub open spec fn link_at(nodes: Seq<Node>, ring: Seq<usize>, k: int) -> bool {
    &&& (ring[k] as int) < nodes.len()
    &&& nodes[ring[k] as int].next == ring[nxt(k, ring.len() as int)]
    &&& nodes[ring[k] as int].prev == ring[prv(k, ring.len() as int)]
}

/// `ring` lists the pairwise-distinct indices of the live nodes, in an order
/// that the nodes' `prev` and `next` links trace as a cycle.
pub open spec fn ring_ok(nodes: Seq<Node>, ring: Seq<usize>) -> bool {
    &&& 2 <= ring.len() <= nodes.len()
    &&& (forall|k: int| 0 <= k < ring.len() ==> #[trigger] link_at(nodes, ring, k))
    &&& (forall|k1: int, k2: int|
        0 <= k1 < k2 < ring.len() ==> ring[k1] != ring[k2])
}

/// The vertex positions of the nodes listed by `ring`, in ring order.
pub open spec fn ring_pos(nodes: Seq<Node>, ring: Seq<usize>) -> Seq<Point> {
    Seq::new(ring.len(), |k: int| nodes[ring[k] as int].pos)
}

/// The candidate triangle of the node at ring position `p`: the positions of
/// its ring predecessor, itself, and its ring successor.
pub open spec fn ring_tri(nodes: Seq<Node>, ring: Seq<usize>, p: int) -> Triangle {
    Triangle(
        nodes[ring[prv(p, ring.len() as int)] as int].pos,
        nodes[ring[p] as int].pos,
        nodes[ring[nxt(p, ring.len() as int)] as int].pos,
    )
}

/// The ring position inspected at step `i` of the containment walk around
/// the node at ring position 1: the walk starts two links past that node and
/// wraps once past the end of `ring`.
pub open spec fn walk_pos(i: int, len: int) -> int {
    if 3 + i < len {
        3 + i
    } else {
        3 + i - len
    }
}

/// How many nodes the containment walk inspects on a ring of `len` nodes:
/// every node strictly between the candidate's successor and its
/// predecessor, and on a ring of three nodes the full wrap back to the
/// predecessor.
pub open spec fn walk_len(len: int) -> int {
    if len >= 4 {
        len - 3
    } else {
        3
    }
}

/// The node at ring position `p` rules out clipping the node at ring
/// position 1: it lies inside the candidate triangle and its own candidate
/// triangle is reflex.
pub open spec fn blocks(nodes: Seq<Node>, ring: Seq<usize>, p: int) -> bool {
    &&& spec_contains(ring_tri(nodes, ring, 1), nodes[ring[p] as int].pos)
    &&& spec_is_reflex(ring_tri(nodes, ring, p))
}

/// The node at ring position 1 is an ear: its candidate triangle is not
/// reflex, and no node inspected by the containment walk blocks it.
pub open spec fn spec_is_ear(nodes: Seq<Node>, ring: Seq<usize>) -> bool {
    &&& !spec_is_reflex(ring_tri(nodes, ring, 1))
    &&& forall|i: int|
        0 <= i < walk_len(ring.len() as int) ==> !blocks(
            nodes,
            ring,
            #[trigger] walk_pos(i, ring.len() as int),
        )
}

/// Decide whether the node `node_idx`, sitting at position 1 of the live
/// ring, is an ear that may be clipped.
fn is_ear(nodes: &Vec<Node>, node_idx: usize, Ghost(ring): Ghost<Seq<usize>>) -> (r: bool)
    requires
        ring_ok(nodes@, ring),
        ring.len() >= 3,
        node_idx == ring[1],
    ensures
        r == spec_is_ear(nodes@, ring),
{
    let ghost len = ring.len() as int;
    proof {
        assert(link_at(nodes@, ring, 0));
        assert(link_at(nodes@, ring, 1));
        assert(link_at(nodes@, ring, 2));
    }
    let current_node = nodes[node_idx];
    let previous_node = nodes[current_node.prev];
    let next_node = nodes[current_node.next];

    let current_triangle = Triangle(previous_node.pos, current_node.pos, next_node.pos);
    proof {
        assert(current_triangle == ring_tri(nodes@, ring, 1));
    }

    if current_triangle.is_reflex() {
        return false;
    }

    let mut checking_node_idx = next_node.next;
    let ghost mut i: int = 0;
    proof {
        assert(next_node.next == ring[nxt(2, len)]);
        assert(nxt(2, len) == walk_pos(0, len));
    }
    loop
        invariant_except_break
            ring_ok(nodes@, ring),
            len == ring.len() as int,
            len >= 3,
            node_idx == ring[1],
            current_node == nodes@[ring[1] as int],
            current_triangle == ring_tri(nodes@, ring, 1),
            !spec_is_reflex(current_triangle),
            0 <= i < walk_len(len),
            checking_node_idx == ring[walk_pos(i, len)],
            forall|j: int| 0 <= j < i ==> !blocks(nodes@, ring, #[trigger] walk_pos(j, len)),
        ensures
            spec_is_ear(nodes@, ring),
        decreases walk_len(len) - i,
    {
        let ghost p = walk_pos(i, len);
        proof {
            assert(0 <= p < len);
            assert(link_at(nodes@, ring, p));
            assert(link_at(nodes@, ring, nxt(p, len)));
            assert(link_at(nodes@, ring, prv(p, len)));
            assert(link_at(nodes@, ring, 1));
            assert(current_node.prev == ring[0]);
        }
        let checking_node = nodes[checking_node_idx];
        let checking_node_next = nodes[checking_node.next];
        let checking_node_prev = nodes[checking_node.prev];

        let neighbour_triangle = Triangle(
            checking_node_prev.pos,
            checking_node.pos,
            checking_node_next.pos,
        );
        proof {
            assert(neighbour_triangle == ring_tri(nodes@, ring, p));
        }

        if current_triangle.contains(checking_node.pos) && neighbour_triangle.is_reflex() {
            proof {
                assert(blocks(nodes@, ring, walk_pos(i, len)));
            }
            return false;
        }

        checking_node_idx = checking_node.next;
        proof {
            assert(checking_node_idx == ring[nxt(p, len)]);
            i = i + 1;
            assert(nxt(p, len) == if i == walk_len(len) {
                0int
            } else {
                walk_pos(i, len)
            });
        }
        if checking_node_idx == current_node.prev {
            proof {
                assert(ring[nxt(p, len)] == ring[0]);
                if i < walk_len(len) {
                    assert(walk_pos(i, len) != 0);
                    assert(false);
                }
            }
            break;
        } else {
            proof {
                if i == walk_len(len) {
                    assert(checking_node_idx == ring[0]);
                    assert(false);
                }
            }
        }
    }
    true
}

/// Law: on a ring in strictly convex position, every node is an ear: its
/// candidate triangle turns the right way, and no node can block it, since
/// blocking takes a reflex node and a convex ring has none.
pub proof fn lemma_convex_is_ear(nodes: Seq<Node>, ring: Seq<usize>)
    requires
        ring_ok(nodes, ring),
        ring.len() >= 3,
        convex_cycle(ring_pos(nodes, ring)),
    ensures
        spec_is_ear(nodes, ring),
{
    let len = ring.len() as int;
    let s = ring_pos(nodes, ring);
    assert forall|p: int| 0 <= p < len implies !spec_is_reflex(ring_tri(nodes, ring, p)) by {
        assert(ring_tri(nodes, ring, p).0 == s[prv(p, len)]);
        assert(ring_tri(nodes, ring, p).1 == s[p]);
        assert(ring_tri(nodes, ring, p).2 == s[nxt(p, len)]);
        if p == 0 {
            assert(orient2(s[0], s[1], s[len - 1]) > 0);
            lemma_orient2_cyclic(s[len - 1], s[0], s[1]);
        } else if p == len - 1 {
            assert(orient2(s[0], s[len - 2], s[len - 1]) > 0);
            lemma_orient2_cyclic(s[0], s[len - 2], s[len - 1]);
        } else {
            assert(orient2(s[p - 1], s[p], s[p + 1]) > 0);
        }
    }
    assert forall|i: int| 0 <= i < walk_len(len) implies !blocks(
        nodes,
        ring,
        #[trigger] walk_pos(i, len),
    ) by {
        assert(0 <= walk_pos(i, len) < len);
        assert(!spec_is_reflex(ring_tri(nodes, ring, walk_pos(i, len))));
    }
}

impl Earcut {
    /// Perform the earcut algorithm.
    ///
    /// Walks the ring, clipping every ear it finds, until only a single edge
    /// remains, or until a full walk of the ring finds no further ear (a
    /// degenerate input); in the latter case the triangles clipped so far
    /// are returned as a best-effort partial result.
    ///
    /// Every returned triangle has strictly positive signed area under the
    /// winding convention, and the signed areas of the returned triangles
    /// plus the signed area of the leftover cycle always make up exactly the
    /// signed area of the input polygon; in particular, a complete
    /// triangulation into `n - 2` triangles carries the polygon's whole
    /// signed area.
    pub fn earcut(self) -> (tris: Vec<Triangle>)
        requires
            self.well_formed(),
        ensures
            tris@.len() <= self.nodes@.len() - 2,
            forall|i: int| 0 <= i < tris@.len() ==> tri_area2(#[trigger] tris@[i]) > 0,
            forall|i: int| 0 <= i < tris@.len() ==> tri_of_polygon(#[trigger] tris@[i], self.polygon()),
            exists|rest: Seq<Point>| #[trigger] accounts_for(tris@, rest, self.polygon()),
            tris@.len() == self.nodes@.len() - 2 ==> sum_tri_area2(tris@) == area2(self.polygon()),
            convex_cycle(self.polygon()) ==> tris@.len() == self.nodes@.len() - 2,
    {
        let ghost poly = self.polygon();
        let n = self.nodes.len();
        let mut nodes = self.nodes;
        let mut tris: Vec<Triangle> = Vec::with_capacity(n - 2);
        let mut current_node_idx: usize = 0;
        let mut looped_no_recovery_idx: usize = current_node_idx;
        let ghost mut ring: Seq<usize> = Seq::new(
            n as nat,
            |k: int|
                if k == 0 {
                    (n - 1) as usize
                } else {
                    (k - 1) as usize
                },
        );
        let ghost mut apos: int = 1;
        proof {
            assert forall|k: int| 0 <= k < n implies #[trigger] link_at(nodes@, ring, k) by {
                let idx = ring[k] as int;
                assert(nodes@[idx].next as int == nxt(idx, n as int));
                assert(nodes@[idx].prev as int == prv(idx, n as int));
            }
            assert(ring_ok(nodes@, ring));
            assert(ring[1] == 0);
            let s0 = ring_pos(nodes@, ring);
            lemma_area2_rotate1(s0);
            assert(s0.drop_first().push(s0[0]) =~= poly);
            assert(sum_tri_area2(tris@) == 0);
            if convex_cycle(poly) {
                lemma_convex_rotate_back(s0);
            }
        }
        loop
            invariant_except_break
                nodes@.len() == n,
                n >= 3,
                poly.len() == n,
                forall|i: int| 0 <= i < n ==> (#[trigger] nodes@[i]).pos == poly[i],
                ring_ok(nodes@, ring),
                ring.len() + tris@.len() == n,
                current_node_idx == ring[1],
                0 <= apos < ring.len(),
                looped_no_recovery_idx == ring[apos],
                sum_tri_area2(tris@) + area2(ring_pos(nodes@, ring)) == area2(poly),
                forall|i: int| 0 <= i < tris@.len() ==> tri_area2(#[trigger] tris@[i]) > 0,
                forall|i: int| 0 <= i < tris@.len() ==> tri_of_polygon(#[trigger] tris@[i], poly),
                convex_cycle(poly) ==> convex_cycle(ring_pos(nodes@, ring)),
            ensures
                ring_ok(nodes@, ring),
                ring.len() + tris@.len() == n,
                sum_tri_area2(tris@) + area2(ring_pos(nodes@, ring)) == area2(poly),
                forall|i: int| 0 <= i < tris@.len() ==> tri_area2(#[trigger] tris@[i]) > 0,
                forall|i: int| 0 <= i < tris@.len() ==> tri_of_polygon(#[trigger] tris@[i], poly),
                convex_cycle(poly) ==> ring.len() == 2,
            decreases ring.len(), (if apos == 1 {
                ring.len() as int
            } else if apos == 0 {
                ring.len() as int - 1
            } else {
                apos - 1
            }),
        {
            let ghost len = ring.len() as int;
            proof {
                assert(link_at(nodes@, ring, 0));
                assert(link_at(nodes@, ring, 1));
                assert(link_at(nodes@, ring, nxt(1, len)));
            }
            let current_node = nodes[current_node_idx];
            let prev_node = nodes[current_node.prev];
            let next_node = nodes[current_node.next];

            if current_node.next == current_node.prev {
                proof {
                    if len >= 3 {
                        assert(current_node.next == ring[2]);
                        assert(current_node.prev == ring[0]);
                        assert(ring[0] != ring[2]);
                        assert(false);
                    }
                    assert(len == 2);
                }
                break;
            }
            proof {
                if len == 2 {
                    assert(current_node.next == ring[nxt(1, 2)]);
                    assert(current_node.prev == ring[prv(1, 2)]);
                    assert(false);
                }
                assert(len >= 3);
            }

            if is_ear(&nodes, current_node_idx, Ghost(ring)) {
                let clipped = Triangle(prev_node.pos, current_node.pos, next_node.pos);
                let ghost tris_before = tris@;
                let ghost nodes_before = nodes@;
                tris.push(clipped);
                let prev_idx = current_node.prev;
                let next_idx = current_node.next;
                proof {
                    assert(link_at(nodes@, ring, 2));
                    assert(prev_idx == ring[0] && next_idx == ring[2]);
                    assert(ring[0] != ring[1] && ring[0] != ring[2] && ring[1] != ring[2]);
                }
                let mut pn = nodes[prev_idx];
                pn.next = next_idx;
                nodes.set(prev_idx, pn);
                let mut nn = nodes[next_idx];
                nn.prev = prev_idx;
                nodes.set(next_idx, nn);
                looped_no_recovery_idx = next_idx;
                current_node_idx = next_idx;
                proof {
                    let s = ring_pos(nodes_before, ring);
                    assert(s[0] == prev_node.pos && s[1] == current_node.pos && s[2]
                        == next_node.pos);
                    assert(ring_tri(nodes_before, ring, 1) == clipped);
                    assert(tri_area2(clipped) > 0);
                    assert(clipped == (Triangle(
                        poly[ring[0] as int],
                        poly[ring[1] as int],
                        poly[ring[2] as int],
                    )));
                    assert(tri_of_polygon(clipped, poly));
                    lemma_sum_tri_area2_push(tris_before, clipped);
                    lemma_area2_remove1(s);
                    assert(orient2(s[0], s[1], s[2]) == tri_area2(clipped));
                    lemma_ring_ok_remove1(nodes_before, nodes@, ring);
                    assert(ring_pos(nodes@, ring.remove(1)) =~= s.remove(1));
                    if convex_cycle(poly) {
                        lemma_convex_remove1(s);
                    }
                    ring = ring.remove(1);
                    apos = 1;
                    assert(ring[1] == next_idx);
                    assert forall|i: int| 0 <= i < n implies (#[trigger] nodes@[i]).pos
                        == poly[i] by {
                        assert(nodes_before[i].pos == poly[i]);
                    }
                }
                continue;
            }

            current_node_idx = current_node.next;
            proof {
                if convex_cycle(poly) {
                    lemma_convex_is_ear(nodes@, ring);
                    assert(false);
                }
                let s = ring_pos(nodes@, ring);
                lemma_ring_ok_rotate1(nodes@, ring);
                lemma_area2_rotate1(s);
                assert(ring_pos(nodes@, ring.drop_first().push(ring[0])) =~= s.drop_first().push(
                    s[0],
                ));
                ring = ring.drop_first().push(ring[0]);
                apos = if apos == 0 {
                    len - 1
                } else {
                    apos - 1
                };
                assert(ring[1] == current_node_idx);
                assert(ring[apos] == looped_no_recovery_idx);
            }
            if current_node_idx == looped_no_recovery_idx {
                break;
            }
            proof {
                if apos == 1 {
                    assert(false);
                }
            }
        }
        proof {
            let rest = ring_pos(nodes@, ring);
            assert(rest.len() == ring.len());
            assert(accounts_for(tris@, rest, poly));
            if tris@.len() == n - 2 {
                assert(ring.len() == 2);
                lemma_area2_len2(rest);
            }
            if convex_cycle(poly) {
                assert(tris@.len() == n - 2);
            }
        }
        tris
    }
}

/// `t` is built from three vertices of `poly`: the clip loop invents no
/// geometry of its own.
pub open spec fn tri_of_polygon(t: Triangle, poly: Seq<Point>) -> bool {
    exists|a: int, b: int, c: int|
        0 <= a < poly.len() && 0 <= b < poly.len() && 0 <= c < poly.len() && t == (Triangle(
            poly[a],
            poly[b],
            poly[c],
        ))
}

/// `tris` and a leftover vertex cycle `rest` together account for the
/// polygon: every vertex is either clipped into a triangle or still on
/// `rest`, and the clipped triangles' signed areas make up exactly the area
/// that the leftover cycle has given up.
pub open spec fn accounts_for(tris: Seq<Triangle>, rest: Seq<Point>, poly: Seq<Point>) -> bool {
    &&& rest.len() >= 2
    &&& rest.len() + tris.len() == poly.len()
    &&& sum_tri_area2(tris) + area2(rest) == area2(poly)
}

/// Rotating the ring list by one position keeps it well-formed and rotates
/// the position sequence the same way.
proof fn lemma_ring_ok_rotate1(nodes: Seq<Node>, ring: Seq<usize>)
    requires
        ring_ok(nodes, ring),
    ensures
        ring_ok(nodes, ring.drop_first().push(ring[0])),
        ring_pos(nodes, ring.drop_first().push(ring[0])) =~= ring_pos(
            nodes,
            ring,
        ).drop_first().push(ring_pos(nodes, ring)[0]),
{
    let len = ring.len() as int;
    let r2 = ring.drop_first().push(ring[0]);
    assert(r2.len() == len);
    assert forall|k: int| 0 <= k < len implies r2[k] == ring[nxt(k, len)] by {}
    assert forall|k1: int, k2: int| 0 <= k1 < k2 < len implies r2[k1] != r2[k2] by {
        let a = nxt(k1, len);
        let b = nxt(k2, len);
        if a < b {
            assert(ring[a] != ring[b]);
        } else {
            assert(ring[b] != ring[a]);
        }
    }
    assert forall|k: int| 0 <= k < len implies #[trigger] link_at(nodes, r2, k) by {
        let m = nxt(k, len);
        assert(link_at(nodes, ring, m));
        assert(nxt(m, len) == nxt(nxt(k, len), len));
        assert(r2[nxt(k, len)] == ring[nxt(nxt(k, len), len)]);
        assert(prv(m, len) == k);
        assert(r2[prv(k, len)] == ring[nxt(prv(k, len), len)]);
        assert(nxt(prv(k, len), len) == k);
    }
}

/// After relinking the two ring neighbours of the node at ring position 1 so
/// that they skip it, the shortened ring list is well-formed again, and its
/// position sequence is the old one with position 1 removed.
proof fn lemma_ring_ok_remove1(nodes: Seq<Node>, nodes2: Seq<Node>, ring: Seq<usize>)
    requires
        ring_ok(nodes, ring),
        ring.len() >= 3,
        nodes2.len() == nodes.len(),
        nodes2[ring[0] as int].next == ring[2],
        nodes2[ring[0] as int].prev == nodes[ring[0] as int].prev,
        nodes2[ring[0] as int].pos == nodes[ring[0] as int].pos,
        nodes2[ring[2] as int].prev == ring[0],
        nodes2[ring[2] as int].next == nodes[ring[2] as int].next,
        nodes2[ring[2] as int].pos == nodes[ring[2] as int].pos,
        forall|j: int|
            0 <= j < nodes.len() && j != ring[0] as int && j != ring[2] as int ==> nodes2[j]
                == nodes[j],
    ensures
        ring_ok(nodes2, ring.remove(1)),
        ring_pos(nodes2, ring.remove(1)) =~= ring_pos(nodes, ring).remove(1),
{
    let len = ring.len() as int;
    let r2 = ring.remove(1);
    let len2 = len - 1;
    assert(r2.len() == len2);
    assert(r2[0] == ring[0]);
    assert forall|k: int| 1 <= k < len2 implies r2[k] == ring[k + 1] by {}
    assert forall|k1: int, k2: int| 0 <= k1 < k2 < len2 implies r2[k1] != r2[k2] by {
        let a: int = if k1 == 0 {
            0
        } else {
            k1 + 1
        };
        let b: int = k2 + 1;
        assert(ring[a] != ring[b]);
    }
    assert forall|k: int| 0 <= k < len2 implies #[trigger] link_at(nodes2, r2, k) by {
        assert(link_at(nodes, ring, 0));
        assert(link_at(nodes, ring, 1));
        assert(link_at(nodes, ring, 2));
        if k == 0 {
            assert(r2[nxt(0, len2)] == ring[2]);
            assert(r2[prv(0, len2)] == ring[prv(0, len)]);
        } else if k == 1 {
            assert(link_at(nodes, ring, 2));
            if len == 3 {
                assert(nodes[ring[2] as int].next == ring[0]);
                assert(r2[nxt(1, len2)] == ring[0]);
            } else {
                assert(nodes[ring[2] as int].next == ring[3]);
                assert(r2[nxt(1, len2)] == ring[3]);
            }
            assert(ring[2] != ring[0] && ring[2] != ring[1]);
        } else {
            assert(link_at(nodes, ring, k + 1));
            assert(ring[k + 1] != ring[0] && ring[k + 1] != ring[2]);
            assert(nodes2[ring[k + 1] as int] == nodes[ring[k + 1] as int]);
            if k + 1 == len - 1 {
                assert(nodes[ring[k + 1] as int].next == ring[0]);
                assert(nxt(k, len2) == 0);
            } else {
                assert(nodes[ring[k + 1] as int].next == ring[k + 2]);
                assert(r2[nxt(k, len2)] == ring[k + 2]);
            }
            assert(nodes[ring[k + 1] as int].prev == ring[k]);
            assert(r2[prv(k, len2)] == ring[k]);
        }
    }
    assert forall|k: int| 0 <= k < len2 implies ring_pos(nodes2, r2)[k] == ring_pos(
        nodes,
        ring,
    ).remove(1)[k] by {
        if k == 0 {
            assert(r2[0] == ring[0]);
            assert(ring_pos(nodes, ring).remove(1)[0] == nodes[ring[0] as int].pos);
            assert(nodes2[ring[0] as int].pos == nodes[ring[0] as int].pos);
        } else if k == 1 {
            assert(r2[1] == ring[2]);
            assert(ring_pos(nodes, ring).remove(1)[1] == nodes[ring[2] as int].pos);
            assert(nodes2[ring[2] as int].pos == nodes[ring[2] as int].pos);
        } else {
            assert(link_at(nodes, ring, k + 1));
            assert(r2[k] == ring[k + 1]);
            assert(ring_pos(nodes, ring).remove(1)[k] == nodes[ring[k + 1] as int].pos);
            assert(ring[k + 1] != ring[0] && ring[k + 1] != ring[2]);
            assert(nodes2[ring[k + 1] as int] == nodes[ring[k + 1] as int]);
        }
    }
}

/// Law: in a freshly-built ring, every node's `prev` and `next` indices lie
/// within the node array, and relinking is consistent both ways:
/// `nodes[nodes[i].next].prev == i` and `nodes[nodes[i].prev].next == i`.
pub proof fn lemma_ring_invariant(e: Earcut)
    requires
        e.well_formed(),
    ensures
        forall|i: int| 0 <= i < e.nodes@.len() ==> (#[trigger] e.nodes@[i].next) < e.nodes@.len(),
        forall|i: int| 0 <= i < e.nodes@.len() ==> (#[trigger] e.nodes@[i].prev) < e.nodes@.len(),
        forall|i: int|
            0 <= i < e.nodes@.len() ==> e.nodes@[(#[trigger] e.nodes@[i].next) as int].prev as int
                == i,
        forall|i: int|
            0 <= i < e.nodes@.len() ==> e.nodes@[(#[trigger] e.nodes@[i].prev) as int].next as int
                == i,
{
    let n = e.nodes@.len() as int;
    assert forall|i: int| 0 <= i < n implies e.nodes@[(#[trigger] e.nodes@[i].next) as int].prev
        as int == i by {
        assert(e.nodes@[i].next as int == nxt(i, n));
        assert(e.nodes@[nxt(i, n)].prev as int == prv(nxt(i, n), n));
    }
    assert forall|i: int| 0 <= i < n implies e.nodes@[(#[trigger] e.nodes@[i].prev) as int].next
        as int == i by {
        assert(e.nodes@[i].prev as int == prv(i, n));
        assert(e.nodes@[prv(i, n)].next as int == nxt(prv(i, n), n));
    }
}

} // verus!
