//! Exact-cover solver: Knuth's Algorithm X over a dancing-links (DLX) mesh.
//!
//! The mesh is an arena of [`node::Node`] records cross-linked four ways into
//! circular row rings and column rings, with a header row of column sentinels
//! closed by a root node. Search runs on an explicit step stack instead of
//! recursion, so solutions can be pulled one at a time.

use vstd::prelude::*;

pub mod node;

verus! {

use crate::node::{Node, NodeId};

/// Backing storage for the mesh: the node arena, the root of the header
/// row, and one size counter per column.
#[derive(Debug, Clone, PartialEq, Eq)]
struct SolverState {
    nodes: Vec<Node>,
    header: NodeId,
    column_sizes: Vec<usize>,
}

impl SolverState {
    /// A single node is well formed when all five of its links point into
    /// the arena, its column index has a size counter, and, unless it is its
    /// own header (column headers and the root), it carries a real row index.
    pub closed spec fn node_ok(self, i: int) -> bool {
        let nd = self.nodes@[i];
        &&& nd.left.0 < self.nodes@.len()
        &&& nd.right.0 < self.nodes@.len()
        &&& nd.up.0 < self.nodes@.len()
        &&& nd.down.0 < self.nodes@.len()
        &&& nd.header.0 < self.nodes@.len()
        &&& nd.col < self.column_sizes@.len()
        &&& (nd.header.0 != i ==> nd.row >= 0)
    }

    /// Every node in the arena is well formed.
    pub closed spec fn wf(self) -> bool {
        forall|i: int| 0 <= i < self.nodes@.len() ==> #[trigger] self.node_ok(i)
    }

    /// Allocates a fresh node that is a singleton ring along every axis:
    /// all five links refer to the node itself.
    fn new_node(&mut self) -> (r: NodeId)
        ensures
            r.0 == old(self).nodes@.len(),
            final(self).nodes@ == old(self).nodes@.push(singleton_node(r)),
            final(self).nodes@.len() <= usize::MAX,
            final(self).header == old(self).header,
            final(self).column_sizes == old(self).column_sizes,
            old(self).wf() && old(self).column_sizes@.len() > 0 ==> final(self).wf(),
    {
        let placeholder = NodeId::new(0);
        self.nodes.push(Node {
            left: placeholder,
            right: placeholder,
            up: placeholder,
            down: placeholder,
            header: placeholder,
            row: -1,
            col: 0,
        });
        let n = self.nodes.len();
        let id = NodeId::new(n - 1);
        let nd = Node {
            left: id,
            right: id,
            up: id,
            down: id,
            header: id,
            row: -1,
            col: 0,
        };
        self.nodes[n - 1] = nd;
        proof {
            assert(self.nodes@ =~= old(self).nodes@.push(nd));
            if old(self).wf() && old(self).column_sizes@.len() > 0 {
                assert forall|i: int| 0 <= i < self.nodes@.len() implies #[trigger] self.node_ok(i) by {
                    if i < old(self).nodes@.len() {
                        assert(old(self).node_ok(i));
                    }
                }
            }
        }
        id
    }
}

impl SolverState {
    /// No nodes, no size counters, an invalid root handle.
    pub closed spec fn is_empty_state(self) -> bool {
        &&& self.nodes@.len() == 0
        &&& self.header.0 == usize::MAX
        &&& self.column_sizes@.len() == 0
    }
}

impl Default for SolverState {
    fn default() -> (r: Self)
        ensures
            r.is_empty_state(),
            r.wf(),
    {
        SolverState { nodes: Vec::new(), header: NodeId::invalid(), column_sizes: Vec::new() }
    }
}

/// The node a fresh allocation holds: a valid singleton ring in every axis.
pub open spec fn singleton_node(id: NodeId) -> Node {
    Node { left: id, right: id, up: id, down: id, header: id, row: -1isize, col: 0 }
}

/// `nodes` with the `left` link of node `i` redirected to `v`.
pub open spec fn upd_left(nodes: Seq<Node>, i: int, v: NodeId) -> Seq<Node> {
    nodes.update(i, Node { left: v, ..nodes[i] })
}

/// `nodes` with the `right` link of node `i` redirected to `v`.
pub open spec fn upd_right(nodes: Seq<Node>, i: int, v: NodeId) -> Seq<Node> {
    nodes.update(i, Node { right: v, ..nodes[i] })
}

/// `nodes` with the `up` link of node `i` redirected to `v`.
pub open spec fn upd_up(nodes: Seq<Node>, i: int, v: NodeId) -> Seq<Node> {
    nodes.update(i, Node { up: v, ..nodes[i] })
}

/// `nodes` with the `down` link of node `i` redirected to `v`.
pub open spec fn upd_down(nodes: Seq<Node>, i: int, v: NodeId) -> Seq<Node> {
    nodes.update(i, Node { down: v, ..nodes[i] })
}

/// One vertical splice: node `cur` leaves its column ring (its neighbours
/// point past it) and the column's size counter drops, saturating at zero.
pub open spec fn unlink_sibling(nodes: Seq<Node>, sizes: Seq<usize>, cur: NodeId) -> (
    Seq<Node>,
    Seq<usize>,
) {
    let nd = nodes[cur.0 as int];
    let n1 = upd_down(nodes, nd.up.0 as int, nd.down);
    let n2 = upd_up(n1, nd.down.0 as int, nd.up);
    let s2 = if sizes[nd.col as int] > 0 {
        sizes.update(nd.col as int, (sizes[nd.col as int] - 1) as usize)
    } else {
        sizes
    };
    (n2, s2)
}

/// The exact inverse splice: node `cur` re-enters its column ring and the
/// counter rises, saturating at the machine limit.
pub open spec fn relink_sibling(nodes: Seq<Node>, sizes: Seq<usize>, cur: NodeId) -> (
    Seq<Node>,
    Seq<usize>,
) {
    let nd = nodes[cur.0 as int];
    let s2 = if sizes[nd.col as int] < usize::MAX {
        sizes.update(nd.col as int, (sizes[nd.col as int] + 1) as usize)
    } else {
        sizes
    };
    let n1 = upd_up(nodes, nd.down.0 as int, cur);
    let n2 = upd_down(n1, nd.up.0 as int, cur);
    (n2, s2)
}

/// What `detach_row` does: walk `right` from `cur` until the walk returns to
/// `node` (or the fuel, an arena-size bound that any genuine ring fits
/// inside, runs out), unlinking each visited node vertically.
pub open spec fn detach_row_walk(
    nodes: Seq<Node>,
    sizes: Seq<usize>,
    node: NodeId,
    cur: NodeId,
    fuel: nat,
) -> (Seq<Node>, Seq<usize>)
    decreases fuel,
{
    if cur == node || fuel == 0 {
        (nodes, sizes)
    } else {
        let nd = nodes[cur.0 as int];
        let p = unlink_sibling(nodes, sizes, cur);
        detach_row_walk(p.0, p.1, node, nd.right, (fuel - 1) as nat)
    }
}

/// What `attach_row` does: walk `left` from `cur` back to `node`, relinking
/// each visited node vertically — the reverse order of `detach_row_walk`.
pub open spec fn attach_row_walk(
    nodes: Seq<Node>,
    sizes: Seq<usize>,
    node: NodeId,
    cur: NodeId,
    fuel: nat,
) -> (Seq<Node>, Seq<usize>)
    decreases fuel,
{
    if cur == node || fuel == 0 {
        (nodes, sizes)
    } else {
        let nd = nodes[cur.0 as int];
        let p = relink_sibling(nodes, sizes, cur);
        attach_row_walk(p.0, p.1, node, nd.left, (fuel - 1) as nat)
    }
}

/// `detach_row_walk` as `detach_row` starts it: from the right neighbour,
/// with the whole arena as fuel.
pub open spec fn detach_row_full(nodes: Seq<Node>, sizes: Seq<usize>, node: NodeId) -> (
    Seq<Node>,
    Seq<usize>,
) {
    detach_row_walk(nodes, sizes, node, nodes[node.0 as int].right, nodes.len())
}

/// `attach_row_walk` as `attach_row` starts it: from the left neighbour.
pub open spec fn attach_row_full(nodes: Seq<Node>, sizes: Seq<usize>, node: NodeId) -> (
    Seq<Node>,
    Seq<usize>,
) {
    attach_row_walk(nodes, sizes, node, nodes[node.0 as int].left, nodes.len())
}

/// What detaching the column of node `n` does to the arena: the column's
/// header is spliced out of the header row by linking its two horizontal
/// neighbours to each other. The header's own links are left untouched.
pub open spec fn detach_col_spec(nodes: Seq<Node>, n: int) -> Seq<Node> {
    let h = nodes[n].header.0 as int;
    let hl = nodes[h].left;
    let hr = nodes[h].right;
    upd_left(upd_right(nodes, hl.0 as int, hr), hr.0 as int, hl)
}

/// What reattaching the column of node `n` does to the arena: the header's
/// retained links name its former neighbours, which are pointed back at it.
pub open spec fn attach_col_spec(nodes: Seq<Node>, n: int) -> Seq<Node> {
    let h = nodes[n].header;
    let hl = nodes[h.0 as int].left;
    let hr = nodes[h.0 as int].right;
    upd_left(upd_right(nodes, hl.0 as int, h), hr.0 as int, h)
}

/// The column walk of `cover`: from `cur` down to the header `h`, detach
/// every intersecting row from all other columns.
pub open spec fn cover_walk(
    nodes: Seq<Node>,
    sizes: Seq<usize>,
    h: NodeId,
    cur: NodeId,
    fuel: nat,
) -> (Seq<Node>, Seq<usize>)
    decreases fuel,
{
    if cur == h || fuel == 0 {
        (nodes, sizes)
    } else {
        let p = detach_row_full(nodes, sizes, cur);
        cover_walk(p.0, p.1, h, p.0[cur.0 as int].down, (fuel - 1) as nat)
    }
}

/// What `cover` does to the mesh: splice the header of `n`'s column out of
/// the header row, then walk the column's `down` chain detaching every
/// intersecting row.
pub open spec fn cover_spec(nodes: Seq<Node>, sizes: Seq<usize>, n: NodeId) -> (
    Seq<Node>,
    Seq<usize>,
) {
    let dn = detach_col_spec(nodes, n.0 as int);
    let h = dn[n.0 as int].header;
    cover_walk(dn, sizes, h, dn[h.0 as int].down, nodes.len())
}

/// The column walk of `uncover`: from `cur` up to the header `h`, relink
/// every intersecting row — the reverse order of `cover_walk`.
pub open spec fn uncover_walk(
    nodes: Seq<Node>,
    sizes: Seq<usize>,
    h: NodeId,
    cur: NodeId,
    fuel: nat,
) -> (Seq<Node>, Seq<usize>)
    decreases fuel,
{
    if cur == h || fuel == 0 {
        (nodes, sizes)
    } else {
        let p = attach_row_full(nodes, sizes, cur);
        uncover_walk(p.0, p.1, h, p.0[cur.0 as int].up, (fuel - 1) as nat)
    }
}

/// What `uncover` does to the mesh: walk the column's `up` chain relinking
/// every intersecting row, then splice the header back into the header row.
pub open spec fn uncover_spec(nodes: Seq<Node>, sizes: Seq<usize>, n: NodeId) -> (
    Seq<Node>,
    Seq<usize>,
) {
    let h = nodes[n.0 as int].header;
    let p = uncover_walk(nodes, sizes, h, nodes[h.0 as int].up, nodes.len());
    (attach_col_spec(p.0, n.0 as int), p.1)
}

/// The header-row walk of `choose_column`: keep the first header whose size
/// counter is strictly smaller than everything seen before it.
pub open spec fn choose_walk(
    nodes: Seq<Node>,
    sizes: Seq<usize>,
    root: NodeId,
    cur: NodeId,
    best: Option<NodeId>,
    best_size: usize,
    fuel: nat,
) -> Option<NodeId>
    decreases fuel,
{
    if cur == root || fuel == 0 {
        best
    } else {
        let size = sizes[nodes[cur.0 as int].col as int];
        if size < best_size {
            choose_walk(nodes, sizes, root, nodes[cur.0 as int].right, Some(cur), size, (fuel - 1) as nat)
        } else {
            choose_walk(nodes, sizes, root, nodes[cur.0 as int].right, best, best_size, (fuel - 1) as nat)
        }
    }
}

/// What `choose_column` returns: the first data node (`down`) of the first
/// minimal-size header on the ring from `root.right`, or nothing when only
/// the root remains.
pub open spec fn choose_spec(nodes: Seq<Node>, sizes: Seq<usize>, root: NodeId) -> Option<
    NodeId,
> {
    match choose_walk(
        nodes,
        sizes,
        root,
        nodes[root.0 as int].right,
        None::<NodeId>,
        usize::MAX,
        nodes.len(),
    ) {
        None => None,
        Some(b) => Some(nodes[b.0 as int].down),
    }
}

/// The row walk of a forward step: cover `node`'s own column, then walk
/// `right` covering the column of every other node of the row.
pub open spec fn cover_row_walk(
    nodes: Seq<Node>,
    sizes: Seq<usize>,
    node: NodeId,
    cur: NodeId,
    fuel: nat,
) -> (Seq<Node>, Seq<usize>)
    decreases fuel,
{
    if cur == node || fuel == 0 {
        (nodes, sizes)
    } else {
        let p = cover_spec(nodes, sizes, cur);
        cover_row_walk(p.0, p.1, node, p.0[cur.0 as int].right, (fuel - 1) as nat)
    }
}

/// What a forward step does to the mesh: cover every column that `node`'s
/// row satisfies, starting with `node`'s own.
pub open spec fn cover_row_full(nodes: Seq<Node>, sizes: Seq<usize>, node: NodeId) -> (
    Seq<Node>,
    Seq<usize>,
) {
    let p = cover_spec(nodes, sizes, node);
    cover_row_walk(p.0, p.1, node, p.0[node.0 as int].right, nodes.len())
}

/// The row walk of a backward step: walk `left` uncovering the column of
/// every other node of the row, in the reverse order of `cover_row_walk`.
pub open spec fn uncover_row_walk(
    nodes: Seq<Node>,
    sizes: Seq<usize>,
    node: NodeId,
    cur: NodeId,
    fuel: nat,
) -> (Seq<Node>, Seq<usize>)
    decreases fuel,
{
    if cur == node || fuel == 0 {
        (nodes, sizes)
    } else {
        let p = uncover_spec(nodes, sizes, cur);
        uncover_row_walk(p.0, p.1, node, p.0[cur.0 as int].left, (fuel - 1) as nat)
    }
}

/// What a backward step does to the mesh: uncover every column that
/// `node`'s row satisfies, `node`'s own column last.
pub open spec fn uncover_row_full(nodes: Seq<Node>, sizes: Seq<usize>, node: NodeId) -> (
    Seq<Node>,
    Seq<usize>,
) {
    let p = uncover_row_walk(nodes, sizes, node, nodes[node.0 as int].left, nodes.len());
    uncover_spec(p.0, p.1, node)
}

impl SolverState {
    /// Reads the node behind a handle.
    fn node(&self, id: NodeId) -> (r: Node)
        requires
            id.0 < self.nodes@.len(),
        ensures
            r == self.nodes@[id.0 as int],
    {
        self.nodes[id.0]
    }

    /// Overwrites the node behind a handle.
    fn set_node(&mut self, id: NodeId, nd: Node)
        requires
            id.0 < old(self).nodes@.len(),
        ensures
            final(self).nodes@ == old(self).nodes@.update(id.0 as int, nd),
            final(self).header == old(self).header,
            final(self).column_sizes == old(self).column_sizes,
    {
        self.nodes[id.0] = nd;
    }

    /// Links two nodes as horizontal neighbours: `left_id.right = right_id`
    /// and `right_id.left = left_id`.
    fn link_horizontal(&mut self, left_id: NodeId, right_id: NodeId)
        requires
            old(self).wf(),
            left_id.0 < old(self).nodes@.len(),
            right_id.0 < old(self).nodes@.len(),
        ensures
            final(self).nodes@ == upd_left(
                upd_right(old(self).nodes@, left_id.0 as int, right_id),
                right_id.0 as int,
                left_id,
            ),
            final(self).header == old(self).header,
            final(self).column_sizes == old(self).column_sizes,
            final(self).wf(),
    {
        let mut left = self.node(left_id);
        left.right = right_id;
        self.set_node(left_id, left);

        let mut right = self.node(right_id);
        right.left = left_id;
        self.set_node(right_id, right);

        proof {
            assert forall|i: int| 0 <= i < self.nodes@.len() implies #[trigger] self.node_ok(i) by {
                assert(old(self).node_ok(i));
            }
        }
    }

    /// Splices the header of `node_id`'s column out of the header row.
    fn detach_column(&mut self, node_id: NodeId)
        requires
            old(self).wf(),
            node_id.0 < old(self).nodes@.len(),
        ensures
            final(self).nodes@ == detach_col_spec(old(self).nodes@, node_id.0 as int),
            final(self).header == old(self).header,
            final(self).column_sizes == old(self).column_sizes,
            final(self).wf(),
    {
        proof {
            assert(old(self).node_ok(node_id.0 as int));
            assert(old(self).node_ok(old(self).nodes@[node_id.0 as int].header.0 as int));
        }
        let node = self.node(node_id);
        let header = self.node(node.header);

        let header_left_id = header.left;
        let header_right_id = header.right;

        let mut header_left = self.node(header_left_id);
        header_left.right = header_right_id;
        self.set_node(header_left_id, header_left);

        let mut header_right = self.node(header_right_id);
        header_right.left = header_left_id;
        self.set_node(header_right_id, header_right);

        proof {
            assert forall|i: int| 0 <= i < self.nodes@.len() implies #[trigger] self.node_ok(i) by {
                assert(old(self).node_ok(i));
            }
        }
    }

    /// Splices the header of `node_id`'s column back into the header row,
    /// using the links the header itself retained while detached.
    fn attach_column(&mut self, node_id: NodeId)
        requires
            old(self).wf(),
            node_id.0 < old(self).nodes@.len(),
        ensures
            final(self).nodes@ == attach_col_spec(old(self).nodes@, node_id.0 as int),
            final(self).header == old(self).header,
            final(self).column_sizes == old(self).column_sizes,
            final(self).wf(),
    {
        proof {
            assert(old(self).node_ok(node_id.0 as int));
            assert(old(self).node_ok(old(self).nodes@[node_id.0 as int].header.0 as int));
        }
        let node = self.node(node_id);
        let header_id = node.header;

        let header = self.node(header_id);
        let header_left_id = header.left;
        let header_right_id = header.right;

        let mut header_left = self.node(header_left_id);
        header_left.right = header_id;
        self.set_node(header_left_id, header_left);

        let mut header_right = self.node(header_right_id);
        header_right.left = header_id;
        self.set_node(header_right_id, header_right);

        proof {
            assert forall|i: int| 0 <= i < self.nodes@.len() implies #[trigger] self.node_ok(i) by {
                assert(old(self).node_ok(i));
            }
        }
    }

    /// Unlinks every node of `node_id`'s row, except `node_id` itself, from
    /// its column ring, and lowers the affected size counters. Only `up` and
    /// `down` links change. The walk is bounded by the arena size, which any
    /// genuine ring fits inside; the counters saturate at zero rather than
    /// rely on the full mesh invariant.
    #[verifier::loop_isolation(false)]
    fn detach_row(&mut self, node_id: NodeId)
        requires
            old(self).wf(),
            node_id.0 < old(self).nodes@.len(),
        ensures
            final(self).wf(),
            vert_frame(old(self).nodes@, final(self).nodes@),
            final(self).column_sizes@.len() == old(self).column_sizes@.len(),
            final(self).header == old(self).header,
            (final(self).nodes@, final(self).column_sizes@) == detach_row_full(
                old(self).nodes@,
                old(self).column_sizes@,
                node_id,
            ),
    {
        let mut fuel: usize = self.nodes.len();
        proof {
            assert(old(self).node_ok(node_id.0 as int));
        }
        let mut current_id = self.node(node_id).right;

        while current_id != node_id && fuel > 0
            invariant
                self.wf(),
                vert_frame(old(self).nodes@, self.nodes@),
                self.column_sizes@.len() == old(self).column_sizes@.len(),
                self.header == old(self).header,
                current_id.0 < self.nodes@.len(),
                detach_row_walk(self.nodes@, self.column_sizes@, node_id, current_id, fuel as nat)
                    == detach_row_full(old(self).nodes@, old(self).column_sizes@, node_id),
            decreases fuel,
        {
            let ghost pre = *self;
            proof {
                assert(self.node_ok(current_id.0 as int));
            }
            let current_node = self.node(current_id);
            let current_col_idx = current_node.col;
            let current_down_id = current_node.down;
            let current_up_id = current_node.up;
            let current_right_id = current_node.right;

            let mut up_node = self.node(current_up_id);
            up_node.down = current_down_id;
            self.set_node(current_up_id, up_node);

            let mut down_node = self.node(current_down_id);
            down_node.up = current_up_id;
            self.set_node(current_down_id, down_node);

            let size = self.column_sizes[current_col_idx];
            if size > 0 {
                self.column_sizes[current_col_idx] = size - 1;
            }

            proof {
                assert forall|i: int| 0 <= i < self.nodes@.len() implies #[trigger] self.node_ok(i) by {
                    assert(pre.node_ok(i));
                    assert(pre.node_ok(current_id.0 as int));
                }
                assert((self.nodes@, self.column_sizes@) == unlink_sibling(
                    pre.nodes@,
                    pre.column_sizes@,
                    current_id,
                ));
            }

            current_id = current_right_id;
            fuel = fuel - 1;
        }
    }

    /// Exact mirror of `detach_row`: relinks every node of `node_id`'s row,
    /// except `node_id` itself, into its column ring, walking `left` so the
    /// relinks happen in the reverse order of the unlinks.
    #[verifier::loop_isolation(false)]
    fn attach_row(&mut self, node_id: NodeId)
        requires
            old(self).wf(),
            node_id.0 < old(self).nodes@.len(),
        ensures
            final(self).wf(),
            vert_frame(old(self).nodes@, final(self).nodes@),
            final(self).column_sizes@.len() == old(self).column_sizes@.len(),
            final(self).header == old(self).header,
            (final(self).nodes@, final(self).column_sizes@) == attach_row_full(
                old(self).nodes@,
                old(self).column_sizes@,
                node_id,
            ),
    {
        let mut fuel: usize = self.nodes.len();
        proof {
            assert(old(self).node_ok(node_id.0 as int));
        }
        let mut current_id = self.node(node_id).left;

        while current_id != node_id && fuel > 0
            invariant
                self.wf(),
                vert_frame(old(self).nodes@, self.nodes@),
                self.column_sizes@.len() == old(self).column_sizes@.len(),
                self.header == old(self).header,
                current_id.0 < self.nodes@.len(),
                attach_row_walk(self.nodes@, self.column_sizes@, node_id, current_id, fuel as nat)
                    == attach_row_full(old(self).nodes@, old(self).column_sizes@, node_id),
            decreases fuel,
        {
            proof {
                assert(self.node_ok(current_id.0 as int));
            }
            let ghost pre = *self;
            let current_node = self.node(current_id);
            let current_col_idx = current_node.col;
            let current_down_id = current_node.down;
            let current_left_id = current_node.left;
            let current_up_id = current_node.up;

            let size = self.column_sizes[current_col_idx];
            if size < usize::MAX {
                self.column_sizes[current_col_idx] = size + 1;
            }

            let mut down_node = self.node(current_down_id);
            down_node.up = current_id;
            self.set_node(current_down_id, down_node);

            let mut up_node = self.node(current_up_id);
            up_node.down = current_id;
            self.set_node(current_up_id, up_node);

            proof {
                assert forall|i: int| 0 <= i < self.nodes@.len() implies #[trigger] self.node_ok(i) by {
                    assert(pre.node_ok(i));
                    assert(pre.node_ok(current_id.0 as int));
                }
                assert((self.nodes@, self.column_sizes@) == relink_sibling(
                    pre.nodes@,
                    pre.column_sizes@,
                    current_id,
                ));
            }

            current_id = current_left_id;
            fuel = fuel - 1;
        }
    }

    /// Looks up the size counter of `id`'s column.
    fn node_column_size(&self, id: NodeId) -> (r: usize)
        requires
            self.wf(),
            id.0 < self.nodes@.len(),
        ensures
            r == self.column_sizes@[self.nodes@[id.0 as int].col as int],
    {
        proof {
            assert(self.node_ok(id.0 as int));
        }
        let col = self.node(id).col;
        self.column_sizes[col]
    }
}

/// Relates two arenas in which only vertical links (`up`, `down`) may
/// differ: same length, and every node keeps its `left`, `right`, `header`,
/// `row` and `col` fields.
pub open spec fn vert_frame(a: Seq<Node>, b: Seq<Node>) -> bool {
    &&& b.len() == a.len()
    &&& forall|i: int| 0 <= i < a.len() ==> {
        let x = a[i];
        let y = #[trigger] b[i];
        &&& y.left == x.left
        &&& y.right == x.right
        &&& y.header == x.header
        &&& y.row == x.row
        &&& y.col == x.col
    }
}

/// Relates two arenas of the same shape: same length, and every node keeps
/// its `header`, `row` and `col` fields; any link may differ.
pub open spec fn same_skeleton(a: Seq<Node>, b: Seq<Node>) -> bool {
    &&& b.len() == a.len()
    &&& forall|i: int| 0 <= i < a.len() ==> {
        let x = a[i];
        let y = #[trigger] b[i];
        &&& y.header == x.header
        &&& y.row == x.row
        &&& y.col == x.col
    }
}

/// One frame of the explicit search stack: the data node being tried in the
/// chosen column, and whether the frame is entered for the first time
/// (`backtracking == false`, try the row) or re-entered (`backtracking ==
/// true`, undo the row and advance).
#[derive(Copy, Clone, Debug, PartialEq, Eq, Structural)]
struct Step {
    node_id: NodeId,
    backtracking: bool,
}

/// How many backtracking frames a step stack holds. The partial solution
/// carries exactly one row index per such frame.
spec fn count_backtracking(s: Seq<Step>) -> nat
    decreases s.len(),
{
    if s.len() == 0 {
        0
    } else {
        count_backtracking(s.drop_last()) + if s.last().backtracking {
            1nat
        } else {
            0nat
        }
    }
}

proof fn lemma_count_push(s: Seq<Step>, e: Step)
    ensures
        count_backtracking(s.push(e)) == count_backtracking(s) + if e.backtracking {
            1nat
        } else {
            0nat
        },
{
    assert(s.push(e).drop_last() =~= s);
}

/// The exact-cover solver: the mesh, the explicit step stack, and the row
/// indices chosen along the current search path.
#[derive(Debug, Clone, PartialEq, Eq)]
pub struct Solver {
    state: SolverState,
    step_stack: Vec<Step>,
    partial_solution: Vec<usize>,
}

impl Solver {
    /// Number of nodes in the arena, headers and root included.
    pub closed spec fn num_nodes(self) -> nat {
        self.state.nodes@.len()
    }

    /// The arena, as a sequence of nodes.
    pub closed spec fn spec_nodes(self) -> Seq<Node> {
        self.state.nodes@
    }

    /// The per-column size counters.
    pub closed spec fn spec_sizes(self) -> Seq<usize> {
        self.state.column_sizes@
    }

    /// The root sentinel of the header row.
    pub closed spec fn spec_root(self) -> NodeId {
        self.state.header
    }

    /// The row indices chosen along the current search path.
    pub closed spec fn spec_partial(self) -> Seq<usize> {
        self.partial_solution@
    }

    /// The stream is exhausted when no step remains to be taken.
    pub closed spec fn spec_is_completed(self) -> bool {
        self.step_stack@.len() == 0
    }

    /// Depth of the step stack.
    pub closed spec fn spec_stack_len(self) -> nat {
        self.step_stack@.len()
    }

    /// All columns are covered: the header row holds only the root.
    pub closed spec fn spec_solved(self) -> bool {
        &&& self.state.header.0 < self.state.nodes@.len()
        &&& self.state.nodes@[self.state.header.0 as int].right == self.state.header
    }

    /// The next step to be popped is a dead-branch sentinel: its node is its
    /// own column header, so the chosen column has no candidate rows.
    pub closed spec fn spec_top_is_sentinel(self) -> bool {
        &&& self.step_stack@.len() > 0
        &&& {
            let e = self.step_stack@.last();
            &&& e.node_id.0 < self.state.nodes@.len()
            &&& self.state.nodes@[e.node_id.0 as int].header.0 == e.node_id.0
        }
    }

    /// The next step to be popped re-enters its frame to undo a tried row.
    pub closed spec fn spec_top_is_backtracking(self) -> bool {
        &&& self.step_stack@.len() > 0
        &&& self.step_stack@.last().backtracking
    }

    /// The row index of the node named by the next step to be popped.
    pub closed spec fn spec_top_row(self) -> isize {
        self.state.nodes@[self.step_stack@.last().node_id.0 as int].row
    }

    /// The mesh alone is well formed.
    pub closed spec fn state_wf(self) -> bool {
        self.state.wf()
    }

    /// Both solvers carry the same step stack and partial solution.
    pub closed spec fn same_search(self, other: Solver) -> bool {
        &&& self.step_stack@ == other.step_stack@
        &&& self.partial_solution@ == other.partial_solution@
    }

    /// Every stack frame names a node of the arena, and a backtracking frame
    /// never names a column header (those are discarded on pop, before the
    /// backtracking flag is consulted).
    pub closed spec fn stack_ok(self) -> bool {
        forall|k: int| 0 <= k < self.step_stack@.len() ==> {
            let e = #[trigger] self.step_stack@[k];
            &&& e.node_id.0 < self.state.nodes@.len()
            &&& (e.backtracking ==> self.state.nodes@[e.node_id.0 as int].header.0 != e.node_id.0)
        }
    }

    /// Solver invariant: the mesh is well formed, the stack is well formed,
    /// the partial solution holds exactly one row per backtracking frame, and
    /// a pending step implies the root handle is usable.
    pub closed spec fn wf(self) -> bool {
        &&& self.state.wf()
        &&& self.stack_ok()
        &&& self.partial_solution@.len() == count_backtracking(self.step_stack@)
        &&& (self.step_stack@.len() > 0 ==> self.state.header.0 < self.state.nodes@.len())
    }

    /// Covers the column of `node_id`: splices its header out of the header
    /// row, then unlinks every row intersecting the column from all other
    /// columns. The step stack and partial solution are untouched.
    pub fn cover(&mut self, node_id: NodeId)
        requires
            old(self).state_wf(),
            node_id.0 < old(self).num_nodes(),
        ensures
            final(self).state_wf(),
            same_skeleton(old(self).spec_nodes(), final(self).spec_nodes()),
            final(self).spec_sizes().len() == old(self).spec_sizes().len(),
            final(self).spec_root() == old(self).spec_root(),
            final(self).same_search(*old(self)),
            (final(self).spec_nodes(), final(self).spec_sizes()) == cover_spec(
                old(self).spec_nodes(),
                old(self).spec_sizes(),
                node_id,
            ),
            forall|i: int| 0 <= i < old(self).num_nodes() ==> {
                let d = detach_col_spec(old(self).spec_nodes(), node_id.0 as int);
                &&& (#[trigger] final(self).spec_nodes()[i]).left == d[i].left
                &&& final(self).spec_nodes()[i].right == d[i].right
            },
    {
        let ghost dc = detach_col_spec(old(self).state.nodes@, node_id.0 as int);
        proof {
            assert(old(self).state.node_ok(node_id.0 as int));
            assert(old(self).state.node_ok(
                old(self).state.nodes@[node_id.0 as int].header.0 as int,
            ));
        }
        self.state.detach_column(node_id);
        proof {
            assert forall|i: int| 0 <= i < self.state.nodes@.len() implies {
                let x = old(self).state.nodes@[i];
                let y = #[trigger] self.state.nodes@[i];
                y.header == x.header && y.row == x.row && y.col == x.col
            } by {}
        }

        let node_header_id = self.state.node(node_id).header;

        let mut fuel: usize = self.state.nodes.len();
        proof {
            assert(self.state.node_ok(node_header_id.0 as int));
        }
        let mut down_id = self.state.node(node_header_id).down;
        while down_id != node_header_id && fuel > 0
            invariant
                self.state.wf(),
                same_skeleton(old(self).state.nodes@, self.state.nodes@),
                self.state.column_sizes@.len() == old(self).state.column_sizes@.len(),
                self.state.header == old(self).state.header,
                self.step_stack@ == old(self).step_stack@,
                self.partial_solution@ == old(self).partial_solution@,
                down_id.0 < self.state.nodes@.len(),
                forall|i: int| 0 <= i < self.state.nodes@.len() ==> {
                    &&& (#[trigger] self.state.nodes@[i]).left == dc[i].left
                    &&& self.state.nodes@[i].right == dc[i].right
                },
                cover_walk(
                    self.state.nodes@,
                    self.state.column_sizes@,
                    node_header_id,
                    down_id,
                    fuel as nat,
                ) == cover_spec(old(self).state.nodes@, old(self).state.column_sizes@, node_id),
            decreases fuel,
        {
            let ghost pre_row = self.state;
            self.state.detach_row(down_id);
            proof {
                assert((self.state.nodes@, self.state.column_sizes@) == detach_row_full(
                    pre_row.nodes@,
                    pre_row.column_sizes@,
                    down_id,
                ));
            }
            proof {
                assert(self.state.node_ok(down_id.0 as int));
            }
            down_id = self.state.node(down_id).down;
            fuel = fuel - 1;
        }
    }

    /// Exact inverse of `cover`, in reverse traversal order: relinks every
    /// row intersecting the column, walking `up`, then splices the header
    /// back into the header row.
    pub fn uncover(&mut self, node_id: NodeId)
        requires
            old(self).state_wf(),
            node_id.0 < old(self).num_nodes(),
        ensures
            final(self).state_wf(),
            same_skeleton(old(self).spec_nodes(), final(self).spec_nodes()),
            final(self).spec_sizes().len() == old(self).spec_sizes().len(),
            final(self).spec_root() == old(self).spec_root(),
            final(self).same_search(*old(self)),
            (final(self).spec_nodes(), final(self).spec_sizes()) == uncover_spec(
                old(self).spec_nodes(),
                old(self).spec_sizes(),
                node_id,
            ),
            forall|i: int| 0 <= i < old(self).num_nodes() ==> {
                let a = attach_col_spec(old(self).spec_nodes(), node_id.0 as int);
                &&& (#[trigger] final(self).spec_nodes()[i]).left == a[i].left
                &&& final(self).spec_nodes()[i].right == a[i].right
            },
    {
        proof {
            assert(old(self).state.node_ok(node_id.0 as int));
        }
        let node_header_id = self.state.node(node_id).header;
        let mut fuel: usize = self.state.nodes.len();
        proof {
            assert(self.state.node_ok(node_header_id.0 as int));
        }
        let mut up_id = self.state.node(node_header_id).up;
        while up_id != node_header_id && fuel > 0
            invariant
                self.state.wf(),
                same_skeleton(old(self).state.nodes@, self.state.nodes@),
                self.state.column_sizes@.len() == old(self).state.column_sizes@.len(),
                self.state.header == old(self).state.header,
                self.step_stack@ == old(self).step_stack@,
                self.partial_solution@ == old(self).partial_solution@,
                up_id.0 < self.state.nodes@.len(),
                node_id.0 < self.state.nodes@.len(),
                forall|i: int| 0 <= i < self.state.nodes@.len() ==> {
                    &&& (#[trigger] self.state.nodes@[i]).left == old(self).state.nodes@[i].left
                    &&& self.state.nodes@[i].right == old(self).state.nodes@[i].right
                },
                uncover_walk(
                    self.state.nodes@,
                    self.state.column_sizes@,
                    node_header_id,
                    up_id,
                    fuel as nat,
                ) == uncover_walk(
                    old(self).state.nodes@,
                    old(self).state.column_sizes@,
                    node_header_id,
                    old(self).state.nodes@[node_header_id.0 as int].up,
                    old(self).state.nodes@.len(),
                ),
            decreases fuel,
        {
            let ghost pre_row = self.state;
            self.state.attach_row(up_id);
            proof {
                assert((self.state.nodes@, self.state.column_sizes@) == attach_row_full(
                    pre_row.nodes@,
                    pre_row.column_sizes@,
                    up_id,
                ));
            }
            proof {
                assert(self.state.node_ok(up_id.0 as int));
            }
            up_id = self.state.node(up_id).up;
            fuel = fuel - 1;
        }

        let ghost pre = self.state;
        self.state.attach_column(node_id);
        proof {
            assert(pre.node_ok(node_id.0 as int));
            assert(pre.node_ok(pre.nodes@[node_id.0 as int].header.0 as int));
            assert forall|i: int| 0 <= i < self.state.nodes@.len() implies {
                let x = pre.nodes@[i];
                let y = #[trigger] self.state.nodes@[i];
                y.header == x.header && y.row == x.row && y.col == x.col
            } by {}
            let a = attach_col_spec(old(self).state.nodes@, node_id.0 as int);
            let ghost h = pre.nodes@[node_id.0 as int].header;
            assert(old(self).state.node_ok(node_id.0 as int));
            assert(old(self).state.node_ok(old(self).state.nodes@[node_id.0 as int].header.0 as int));
            assert forall|i: int| 0 <= i < self.state.nodes@.len() implies {
                let y = #[trigger] self.state.nodes@[i];
                y.left == a[i].left && y.right == a[i].right
            } by {}
        }
    }

    /// Walks the header row once and picks the column with the smallest size
    /// counter (first encountered wins ties), returning its first candidate
    /// data node; with no columns left it returns nothing.
    fn choose_column(&self) -> (r: Option<NodeId>)
        requires
            self.state.wf(),
            self.state.header.0 < self.state.nodes@.len(),
        ensures
            r == choose_spec(self.state.nodes@, self.state.column_sizes@, self.state.header),
            r matches Some(id) ==> id.0 < self.state.nodes@.len(),
            self.state.nodes@[self.state.header.0 as int].right == self.state.header ==> r is None,
    {
        let mut best_column_id: Option<NodeId> = None;
        let mut best_size: usize = usize::MAX;

        let header = self.state.header;
        proof {
            assert(self.state.node_ok(header.0 as int));
        }
        let mut current_node_id = self.state.node(header).right;
        let mut fuel: usize = self.state.nodes.len();

        while current_node_id != header && fuel > 0
            invariant
                self.state.wf(),
                header == self.state.header,
                header.0 < self.state.nodes@.len(),
                current_node_id.0 < self.state.nodes@.len(),
                best_column_id matches Some(id) ==> id.0 < self.state.nodes@.len(),
                self.state.nodes@[header.0 as int].right == header ==> current_node_id == header,
                self.state.nodes@[header.0 as int].right == header ==> best_column_id is None,
                choose_walk(
                    self.state.nodes@,
                    self.state.column_sizes@,
                    header,
                    current_node_id,
                    best_column_id,
                    best_size,
                    fuel as nat,
                ) == choose_walk(
                    self.state.nodes@,
                    self.state.column_sizes@,
                    header,
                    self.state.nodes@[header.0 as int].right,
                    None::<NodeId>,
                    usize::MAX,
                    self.state.nodes@.len(),
                ),
            decreases fuel,
        {
            let current_size = self.state.node_column_size(current_node_id);

            if current_size < best_size {
                best_column_id = Some(current_node_id);
                best_size = current_size;
            }
            proof {
                assert(self.state.node_ok(current_node_id.0 as int));
            }
            current_node_id = self.state.node(current_node_id).right;
            fuel = fuel - 1;
        }

        match best_column_id {
            None => None,
            Some(best) => {
                proof {
                    assert(self.state.node_ok(best.0 as int));
                }
                Some(self.state.node(best).down)
            },
        }
    }

    /// Builds a solver for `rows`, each row an ascending list of column
    /// indices. The universe is `0 ..= max` over all listed indices. Every
    /// column in `forced_columns` is covered eagerly, through the first data
    /// node below its header, before search begins; rows chosen this way are
    /// not reported in emitted solutions. With no rows, or only empty rows,
    /// the stream is exhausted from the start.
    #[verifier::loop_isolation(false)]
    #[verifier::rlimit(100)]
    pub fn new(rows: Vec<Vec<usize>>, forced_columns: Vec<usize>) -> (r: Solver)
        requires
            rows@.len() <= isize::MAX,
            forall|a: int, b: int|
                0 <= a < rows@.len() && 0 <= b < rows@[a]@.len() ==> #[trigger] rows@[a]@[b]
                    < usize::MAX,
        ensures
            r.wf(),
            r.spec_partial().len() == 0,
            r.spec_stack_len() <= 1,
            rows@.len() == 0 ==> r.spec_is_completed(),
            (forall|k: int| 0 <= k < rows@.len() ==> rows@[k]@.len() == 0)
                ==> r.spec_is_completed(),
            (r.num_nodes() > 0) <==> (exists|k: int|
                0 <= k < rows@.len() && rows@[k]@.len() > 0),
            r.model() == build_model(rows@, forced_columns@),
    {
        // The universe: one column for every index up to the largest listed.
        let mut max_col: usize = 0;
        let mut i: usize = 0;
        while i < rows.len()
            invariant
                i <= rows@.len(),
                max_col < usize::MAX,
                forall|a: int, b: int|
                    0 <= a < i && 0 <= b < rows@[a]@.len() ==> #[trigger] rows@[a]@[b] <= max_col,
                max_col == rows_max(rows@, i as int, 0),
            decreases rows@.len() - i,
        {
            let mut j: usize = 0;
            while j < rows[i].len()
                invariant
                    i < rows@.len(),
                    j <= rows@[i as int]@.len(),
                    max_col < usize::MAX,
                    forall|a: int, b: int|
                        0 <= a < i && 0 <= b < rows@[a]@.len() ==> #[trigger] rows@[a]@[b]
                            <= max_col,
                    forall|b: int| 0 <= b < j ==> #[trigger] rows@[i as int]@[b] <= max_col,
                    max_col == row_prefix_max(
                        rows@[i as int]@,
                        j as int,
                        rows_max(rows@, i as int, 0),
                    ),
                decreases rows@[i as int]@.len() - j,
            {
                let c = rows[i][j];
                if c > max_col {
                    max_col = c;
                }
                j = j + 1;
            }
            i = i + 1;
        }
        let column_count = max_col + 1;

        let mut column_sizes: Vec<usize> = Vec::new();
        let mut c: usize = 0;
        while c < column_count
            invariant
                c <= column_count,
                column_sizes@.len() == c,
                forall|k: int| 0 <= k < c ==> column_sizes@[k] == 0,
            decreases column_count - c,
        {
            column_sizes.push(0);
            c = c + 1;
        }

        let mut state = SolverState {
            nodes: Vec::new(),
            header: NodeId::invalid(),
            column_sizes,
        };

        let mut header_row: Vec<NodeId> = Vec::new();
        let mut above_nodes = invalid_handles(column_count);
        let mut forced_rep = invalid_handles(column_count);

        let ghost b0 = build_base(column_count as nat);
        proof {
            assert(column_count == rows_max(rows@, rows@.len() as int, 0) + 1);
            assert(state.nodes@ =~= b0.nodes);
            assert(state.column_sizes@ =~= b0.sizes);
            assert(header_row@ =~= b0.header_row);
            assert(above_nodes@ =~= b0.above);
            assert(forced_rep@ =~= b0.forced_rep);
        }

        let mut row_idx: usize = 0;
        while row_idx < rows.len()
            invariant
                row_idx <= rows@.len(),
                state.wf(),
                state.column_sizes@.len() == column_count,
                state.header.0 == usize::MAX,
                above_nodes@.len() == column_count,
                forced_rep@.len() == column_count,
                forall|k: int|
                    0 <= k < column_count ==> (#[trigger] above_nodes@[k]).0 == usize::MAX
                        || above_nodes@[k].0 < state.nodes@.len(),
                forall|k: int|
                    0 <= k < column_count ==> (#[trigger] forced_rep@[k]).0 == usize::MAX
                        || forced_rep@[k].0 < state.nodes@.len(),
                forall|k: int|
                    0 <= k < header_row@.len() ==> (#[trigger] header_row@[k]).0
                        < state.nodes@.len(),
                forall|k: int|
                    0 <= k < column_count ==> #[trigger] state.column_sizes@[k]
                        <= state.nodes@.len(),
                (forall|k: int| 0 <= k < row_idx ==> rows@[k]@.len() == 0) ==> header_row@.len()
                    == 0,
                (exists|k: int| 0 <= k < row_idx && rows@[k]@.len() > 0) ==> header_row@.len()
                    > 0,
                (exists|c: int| 0 <= c < column_count && above_nodes@[c].0 != usize::MAX)
                    ==> header_row@.len() > 0,
                ({
                    let bi = insert_rows(b0, forced_columns@, rows@, row_idx as int);
                    &&& state.nodes@ == bi.nodes
                    &&& state.column_sizes@ == bi.sizes
                    &&& header_row@ == bi.header_row
                    &&& above_nodes@ == bi.above
                    &&& forced_rep@ == bi.forced_rep
                }),
            decreases rows@.len() - row_idx,
        {
            let mut first = NodeId::invalid();
            let mut prev = NodeId::invalid();

            let mut j: usize = 0;
            while j < rows[row_idx].len()
                invariant
                    row_idx < rows@.len(),
                    j <= rows@[row_idx as int]@.len(),
                    state.wf(),
                    state.column_sizes@.len() == column_count,
                    state.header.0 == usize::MAX,
                    above_nodes@.len() == column_count,
                    forced_rep@.len() == column_count,
                    forall|k: int|
                        0 <= k < column_count ==> (#[trigger] above_nodes@[k]).0 == usize::MAX
                            || above_nodes@[k].0 < state.nodes@.len(),
                    forall|k: int|
                        0 <= k < column_count ==> (#[trigger] forced_rep@[k]).0 == usize::MAX
                            || forced_rep@[k].0 < state.nodes@.len(),
                    forall|k: int|
                        0 <= k < header_row@.len() ==> (#[trigger] header_row@[k]).0
                            < state.nodes@.len(),
                    forall|k: int|
                        0 <= k < column_count ==> #[trigger] state.column_sizes@[k]
                            <= state.nodes@.len(),
                    first.0 == usize::MAX || first.0 < state.nodes@.len(),
                    prev.0 == usize::MAX || prev.0 < state.nodes@.len(),
                    ((forall|k: int| 0 <= k < row_idx ==> rows@[k]@.len() == 0)
                        && rows@[row_idx as int]@.len() == 0) ==> header_row@.len() == 0,
                    (exists|k: int| 0 <= k < row_idx && rows@[k]@.len() > 0)
                        ==> header_row@.len() > 0,
                    (exists|c: int| 0 <= c < column_count && above_nodes@[c].0 != usize::MAX)
                        ==> header_row@.len() > 0,
                    j > 0 ==> header_row@.len() > 0,
                    ({
                        let bro = BuildModel {
                            first: NodeId(usize::MAX),
                            prev: NodeId(usize::MAX),
                            ..insert_rows(b0, forced_columns@, rows@, row_idx as int)
                        };
                        let bj = insert_cells(
                            bro,
                            forced_columns@,
                            rows@[row_idx as int]@,
                            row_idx as int,
                            j as int,
                        );
                        &&& state.nodes@ == bj.nodes
                        &&& state.column_sizes@ == bj.sizes
                        &&& header_row@ == bj.header_row
                        &&& above_nodes@ == bj.above
                        &&& forced_rep@ == bj.forced_rep
                        &&& first == bj.first
                        &&& prev == bj.prev
                    }),
                decreases rows@[row_idx as int]@.len() - j,
            {
                let ghost bj = insert_cells(
                    BuildModel {
                        first: NodeId(usize::MAX),
                        prev: NodeId(usize::MAX),
                        ..insert_rows(b0, forced_columns@, rows@, row_idx as int)
                    },
                    forced_columns@,
                    rows@[row_idx as int]@,
                    row_idx as int,
                    j as int,
                );
                let col_idx = rows[row_idx][j];
                proof {
                    assert(rows@[row_idx as int]@[j as int] <= max_col);
                }

                let node_id = state.new_node();
                let ghost pre_init = state;
                let mut nd = state.node(node_id);
                nd.row = row_idx as isize;
                nd.col = col_idx;
                state.set_node(node_id, nd);
                proof {
                    assert forall|k: int| 0 <= k < state.nodes@.len() implies
                        #[trigger] state.node_ok(k) by {
                        assert(pre_init.node_ok(k));
                    }
                }

                let ghost pre_sz = state;
                let size = state.column_sizes[col_idx];
                state.column_sizes[col_idx] = size + 1;
                proof {
                    assert forall|k: int| 0 <= k < state.nodes@.len() implies
                        #[trigger] state.node_ok(k) by {
                        assert(pre_sz.node_ok(k));
                    }
                }

                if !first.is_valid() {
                    first = node_id;
                }

                if prev.is_valid() {
                    state.link_horizontal(prev, node_id);
                }

                let above_id = above_nodes[col_idx];
                if above_id.is_valid() {
                    let ghost pre = state;
                    proof {
                        assert(pre.node_ok(above_id.0 as int));
                        assert(pre.node_ok(node_id.0 as int));
                    }
                    let above_node = state.node(above_id);
                    let above_down_id = above_node.down;
                    let above_header_id = above_node.header;

                    let mut above_mut = above_node;
                    above_mut.down = node_id;
                    state.set_node(above_id, above_mut);

                    let mut node_mut = state.node(node_id);
                    node_mut.up = above_id;
                    node_mut.down = above_down_id;
                    node_mut.header = above_header_id;
                    state.set_node(node_id, node_mut);

                    let mut header_mut = state.node(above_header_id);
                    header_mut.up = node_id;
                    state.set_node(above_header_id, header_mut);

                    proof {
                        assert forall|k: int| 0 <= k < state.nodes@.len() implies
                            #[trigger] state.node_ok(k) by {
                            assert(pre.node_ok(k));
                        }
                    }
                } else {
                    let header_id = state.new_node();
                    header_row.push(header_id);

                    let ghost pre = state;
                    let mut header_mut = state.node(header_id);
                    header_mut.row = -1;
                    header_mut.col = col_idx;
                    header_mut.header = header_id;
                    header_mut.up = node_id;
                    header_mut.down = node_id;
                    state.set_node(header_id, header_mut);

                    let mut node_mut = state.node(node_id);
                    node_mut.up = header_id;
                    node_mut.down = header_id;
                    node_mut.header = header_id;
                    state.set_node(node_id, node_mut);

                    proof {
                        assert(pre.node_ok(node_id.0 as int));
                        assert forall|k: int| 0 <= k < state.nodes@.len() implies
                            #[trigger] state.node_ok(k) by {
                            assert(pre.node_ok(k));
                        }
                    }
                }

                above_nodes[col_idx] = node_id;
                prev = node_id;

                if contains_col(&forced_columns, col_idx) {
                    if !forced_rep[col_idx].is_valid() {
                        forced_rep[col_idx] = node_id;
                    }
                }

                proof {
                    let bj1 = insert_cell(bj, forced_columns@, row_idx as int, col_idx);
                    assert(state.nodes@ == bj1.nodes);
                    assert(state.column_sizes@ == bj1.sizes);
                    assert(header_row@ == bj1.header_row);
                    assert(above_nodes@ == bj1.above);
                    assert(forced_rep@ == bj1.forced_rep);
                    assert(first == bj1.first);
                    assert(prev == bj1.prev);
                    assert(rows@[row_idx as int]@[j as int] == col_idx);
                    assert(insert_cells(
                        BuildModel {
                            first: NodeId(usize::MAX),
                            prev: NodeId(usize::MAX),
                            ..insert_rows(b0, forced_columns@, rows@, row_idx as int)
                        },
                        forced_columns@,
                        rows@[row_idx as int]@,
                        row_idx as int,
                        j as int + 1,
                    ) == bj1);
                }

                j = j + 1;
            }

            let ghost bexit = insert_cells(
                BuildModel {
                    first: NodeId(usize::MAX),
                    prev: NodeId(usize::MAX),
                    ..insert_rows(b0, forced_columns@, rows@, row_idx as int)
                },
                forced_columns@,
                rows@[row_idx as int]@,
                row_idx as int,
                rows@[row_idx as int]@.len() as int,
            );
            if first.is_valid() && prev.is_valid() {
                state.link_horizontal(prev, first);
            }
            proof {
                let bnext = insert_row(
                    insert_rows(b0, forced_columns@, rows@, row_idx as int),
                    forced_columns@,
                    rows@[row_idx as int]@,
                    row_idx as int,
                );
                assert(bnext == insert_rows(b0, forced_columns@, rows@, row_idx as int + 1));
                assert(state.nodes@ == bnext.nodes);
                assert(state.column_sizes@ == bnext.sizes);
                assert(header_row@ == bnext.header_row);
                assert(above_nodes@ == bnext.above);
                assert(forced_rep@ == bnext.forced_rep);
            }

            row_idx = row_idx + 1;
        }

        // Order the header row by ascending column index (insertion sort; the
        // keys are distinct, one header per column).
        let ghost b1 = insert_rows(b0, forced_columns@, rows@, rows@.len() as int);
        let ghost hr0 = header_row@;
        let ghost n_headers = header_row@.len();
        let mut k: usize = 1;
        while k < header_row.len()
            invariant
                header_row@.len() == n_headers,
                1 <= k,
                k as int <= n_headers || k == 1,
                forall|q: int|
                    0 <= q < header_row@.len() ==> (#[trigger] header_row@[q]).0
                        < state.nodes@.len(),
                header_row@ == sort_upto(state.nodes@, hr0, k as int),
            decreases header_row@.len() - k,
        {
            let ghost entry_hr = header_row@;
            let mut m: usize = k;
            while m > 0 && state.node(header_row[m - 1]).col > state.node(header_row[m]).col
                invariant
                    m <= k,
                    k < header_row@.len(),
                    header_row@.len() == n_headers,
                    forall|q: int|
                        0 <= q < header_row@.len() ==> (#[trigger] header_row@[q]).0
                            < state.nodes@.len(),
                    sort_shift(state.nodes@, header_row@, m as int) == sort_shift(
                        state.nodes@,
                        entry_hr,
                        k as int,
                    ),
                decreases m,
            {
                let ghost pre_hr = header_row@;
                let a = header_row[m - 1];
                let b = header_row[m];
                header_row[m - 1] = b;
                header_row[m] = a;
                proof {
                    assert(header_row@ == pre_hr.update(m - 1, pre_hr[m as int]).update(
                        m as int,
                        pre_hr[m - 1],
                    ));
                }
                m = m - 1;
            }
            proof {
                assert(header_row@ == sort_shift(state.nodes@, entry_hr, k as int));
                assert(header_row@ == sort_upto(state.nodes@, hr0, k as int + 1));
            }
            k = k + 1;
        }
        proof {
            if header_row@.len() == 0 {
                assert(sort_upto(state.nodes@, hr0, 0) == hr0);
            }
            assert(header_row@ == sort_upto(state.nodes@, hr0, header_row@.len() as int));
        }

        if header_row.len() == 0 {
            let empty_solver = Solver::default();
            proof {
                assert(empty_solver.model() == build_model(rows@, forced_columns@));
            }
            return empty_solver;
        }
        let ghost sorted_hr = header_row@;

        // Close the header ring and splice in the root sentinel.
        let first_header_id = header_row[0];
        let last_header_id = header_row[header_row.len() - 1];

        let ghost pre_ring = state;
        let mut f = state.node(first_header_id);
        f.left = last_header_id;
        state.set_node(first_header_id, f);
        let mut l = state.node(last_header_id);
        l.right = first_header_id;
        state.set_node(last_header_id, l);
        proof {
            assert(pre_ring.node_ok(first_header_id.0 as int));
            assert(pre_ring.node_ok(last_header_id.0 as int));
            assert forall|q: int| 0 <= q < state.nodes@.len() implies #[trigger] state.node_ok(q)
            by {
                assert(pre_ring.node_ok(q));
            }
        }
        let ghost ring_base = state.nodes@;
        proof {
            assert(ring_base == upd_right(
                upd_left(b1.nodes, first_header_id.0 as int, last_header_id),
                last_header_id.0 as int,
                first_header_id,
            ));
        }

        let mut w: usize = 1;
        while w < header_row.len()
            invariant
                state.wf(),
                state.column_sizes@.len() == column_count,
                state.column_sizes@ == b1.sizes,
                state.header.0 == usize::MAX,
                forall|q: int|
                    0 <= q < header_row@.len() ==> (#[trigger] header_row@[q]).0
                        < state.nodes@.len(),
                forall|q: int|
                    0 <= q < column_count ==> (#[trigger] forced_rep@[q]).0 == usize::MAX
                        || forced_rep@[q].0 < state.nodes@.len(),
                1 <= w,
                w as int <= sorted_hr.len() || w == 1,
                header_row@ == sorted_hr,
                state.nodes@ == link_windows(ring_base, sorted_hr, w as int),
            decreases header_row@.len() - w,
        {
            state.link_horizontal(header_row[w - 1], header_row[w]);
            w = w + 1;
        }
        proof {
            assert(state.nodes@ == link_windows(ring_base, sorted_hr, sorted_hr.len() as int));
        }

        let header_root_id = state.new_node();

        let ghost pre_root = state;
        let mut root_nd = state.node(header_root_id);
        root_nd.right = first_header_id;
        state.set_node(header_root_id, root_nd);
        let mut f2 = state.node(first_header_id);
        f2.left = header_root_id;
        state.set_node(first_header_id, f2);
        let mut root_nd2 = state.node(header_root_id);
        root_nd2.left = last_header_id;
        state.set_node(header_root_id, root_nd2);
        let mut l2 = state.node(last_header_id);
        l2.right = header_root_id;
        state.set_node(last_header_id, l2);
        proof {
            assert(pre_root.node_ok(first_header_id.0 as int));
            assert(pre_root.node_ok(last_header_id.0 as int));
            assert(pre_root.node_ok(header_root_id.0 as int));
            assert forall|q: int| 0 <= q < state.nodes@.len() implies #[trigger] state.node_ok(q)
            by {
                assert(pre_root.node_ok(q));
            }
            assert(state.nodes@ == close_header_ring(b1.nodes, sorted_hr).0);
            assert(header_root_id == close_header_ring(b1.nodes, sorted_hr).1);
        }

        let ghost pre_hdr = state;
        state.header = header_root_id;
        proof {
            assert forall|q: int| 0 <= q < state.nodes@.len() implies #[trigger] state.node_ok(q)
            by {
                assert(pre_hdr.node_ok(q));
            }
        }

        let mut solver = Solver {
            state,
            step_stack: Vec::new(),
            partial_solution: Vec::new(),
        };

        // Cover every forced column, through the first data node that is
        // currently below its header. `cover` reads only the header of the
        // node it is handed, so this fixes the topmost remaining row.
        let ghost rr = close_header_ring(b1.nodes, sorted_hr);
        let mut fc: usize = 0;
        while fc < forced_rep.len()
            invariant
                solver.state.wf(),
                solver.step_stack@.len() == 0,
                solver.partial_solution@.len() == 0,
                solver.state.header == rr.1,
                solver.state.header.0 < solver.state.nodes@.len(),
                forced_rep@.len() == column_count,
                fc <= forced_rep@.len(),
                forall|q: int|
                    0 <= q < column_count ==> (#[trigger] forced_rep@[q]).0 == usize::MAX
                        || forced_rep@[q].0 < solver.state.nodes@.len(),
                (solver.state.nodes@, solver.state.column_sizes@) == forced_covers(
                    rr.0,
                    b1.sizes,
                    forced_rep@,
                    fc as int,
                ),
            decreases forced_rep@.len() - fc,
        {
            let ghost fc_pre = (solver.state.nodes@, solver.state.column_sizes@);
            let rep = forced_rep[fc];
            if rep.is_valid() {
                proof {
                    assert(solver.state.node_ok(rep.0 as int));
                }
                let rep_header_id = solver.state.node(rep).header;
                proof {
                    assert(solver.state.node_ok(rep_header_id.0 as int));
                }
                let column_first_node_id = solver.state.node(rep_header_id).down;
                solver.cover(column_first_node_id);
                proof {
                    assert((solver.state.nodes@, solver.state.column_sizes@) == cover_spec(
                        fc_pre.0,
                        fc_pre.1,
                        column_first_node_id,
                    ));
                }
            }
            proof {
                assert((solver.state.nodes@, solver.state.column_sizes@) == forced_covers(
                    rr.0,
                    b1.sizes,
                    forced_rep@,
                    fc as int + 1,
                ));
            }
            fc = fc + 1;
        }

        match solver.choose_column() {
            Some(node_id) => {
                let ghost stack_before = solver.step_stack@;
                solver.step_stack.push(Step { node_id, backtracking: false });
                proof {
                    lemma_count_push(stack_before, Step { node_id, backtracking: false });
                    assert(stack_view(solver.step_stack@) =~= Seq::<(NodeId, bool)>::empty().push(
                        (node_id, false),
                    ));
                }
            },
            None => {
                proof {
                    assert(stack_view(solver.step_stack@) =~= Seq::<(NodeId, bool)>::empty());
                }
            },
        }

        proof {
            let bm = build_model(rows@, forced_columns@);
            assert(hr0 == b1.header_row);
            assert(sorted_hr == sort_upto(b1.nodes, b1.header_row, b1.header_row.len() as int));
            assert(solver.partial_solution@ =~= Seq::<usize>::empty());
            assert(solver.model().nodes == bm.nodes);
            assert(solver.model().sizes == bm.sizes);
            assert(solver.model().root == bm.root);
            assert(solver.model().stack == bm.stack);
            assert(solver.model().partial == bm.partial);
            assert(solver.model() == bm);
        }
        solver
    }

    /// The ghost image of this solver.
    pub closed spec fn model(self) -> SolverModel {
        SolverModel {
            nodes: self.state.nodes@,
            sizes: self.state.column_sizes@,
            root: self.state.header,
            stack: stack_view(self.step_stack@),
            partial: self.partial_solution@,
        }
    }

    /// Both solvers agree on every observable part: mesh, counters, root,
    /// step stack and partial solution.
    pub closed spec fn equiv(self, other: Solver) -> bool {
        &&& self.state.nodes@ == other.state.nodes@
        &&& self.state.header == other.state.header
        &&& self.state.column_sizes@ == other.state.column_sizes@
        &&& self.step_stack@ == other.step_stack@
        &&& self.partial_solution@ == other.partial_solution@
    }

    /// Tries the row of `node_id`: records the row, covers every column the
    /// row satisfies, then queues the matching backtracking frame and, if a
    /// column remains, a forward frame for its first candidate.
    #[verifier::loop_isolation(false)]
    fn step_forward(&mut self, node_id: NodeId)
        requires
            old(self).state.wf(),
            old(self).stack_ok(),
            old(self).partial_solution@.len() == count_backtracking(old(self).step_stack@),
            node_id.0 < old(self).state.nodes@.len(),
            old(self).state.nodes@[node_id.0 as int].header.0 != node_id.0,
            old(self).state.header.0 < old(self).state.nodes@.len(),
        ensures
            final(self).wf(),
            final(self).state.nodes@.len() == old(self).state.nodes@.len(),
            final(self).state.column_sizes@.len() == old(self).state.column_sizes@.len(),
            final(self).state.header == old(self).state.header,
            same_skeleton(old(self).state.nodes@, final(self).state.nodes@),
            final(self).partial_solution@ == old(self).partial_solution@.push(
                old(self).state.nodes@[node_id.0 as int].row as usize,
            ),
            (final(self).state.nodes@, final(self).state.column_sizes@) == cover_row_full(
                old(self).state.nodes@,
                old(self).state.column_sizes@,
                node_id,
            ),
            final(self).step_stack@ == {
                let m = cover_row_full(
                    old(self).state.nodes@,
                    old(self).state.column_sizes@,
                    node_id,
                );
                let back = old(self).step_stack@.push(Step { node_id, backtracking: true });
                match choose_spec(m.0, m.1, old(self).state.header) {
                    None => back,
                    Some(next_id) => back.push(Step { node_id: next_id, backtracking: false }),
                }
            },
    {
        proof {
            assert(self.state.node_ok(node_id.0 as int));
        }
        let node_row = self.state.node(node_id).row;
        self.partial_solution.push(node_row as usize);

        let mut fuel: usize = self.state.nodes.len();
        self.cover(node_id);
        proof {
            assert(self.state.node_ok(node_id.0 as int));
        }
        let mut current_id = self.state.node(node_id).right;
        while current_id != node_id && fuel > 0
            invariant
                self.state.wf(),
                same_skeleton(old(self).state.nodes@, self.state.nodes@),
                self.state.column_sizes@.len() == old(self).state.column_sizes@.len(),
                self.state.header == old(self).state.header,
                self.step_stack@ == old(self).step_stack@,
                self.partial_solution@ == old(self).partial_solution@.push(
                    old(self).state.nodes@[node_id.0 as int].row as usize,
                ),
                current_id.0 < self.state.nodes@.len(),
                cover_row_walk(
                    self.state.nodes@,
                    self.state.column_sizes@,
                    node_id,
                    current_id,
                    fuel as nat,
                ) == cover_row_full(
                    old(self).state.nodes@,
                    old(self).state.column_sizes@,
                    node_id,
                ),
            decreases fuel,
        {
            let ghost pre_cov = self.state;
            self.cover(current_id);
            proof {
                assert(self.state.node_ok(current_id.0 as int));
                assert((self.state.nodes@, self.state.column_sizes@) == cover_spec(
                    pre_cov.nodes@,
                    pre_cov.column_sizes@,
                    current_id,
                ));
            }
            current_id = self.state.node(current_id).right;
            fuel = fuel - 1;
        }

        let ghost stack_before = self.step_stack@;
        self.step_stack.push(Step { node_id, backtracking: true });
        proof {
            lemma_count_push(stack_before, Step { node_id, backtracking: true });
        }

        match self.choose_column() {
            Some(next_id) => {
                let ghost stack_mid = self.step_stack@;
                self.step_stack.push(Step { node_id: next_id, backtracking: false });
                proof {
                    lemma_count_push(stack_mid, Step { node_id: next_id, backtracking: false });
                }
            },
            None => {},
        }

        proof {
            assert forall|k: int| 0 <= k < self.step_stack@.len() implies {
                let e = #[trigger] self.step_stack@[k];
                &&& e.node_id.0 < self.state.nodes@.len()
                &&& (e.backtracking ==> self.state.nodes@[e.node_id.0 as int].header.0
                    != e.node_id.0)
            } by {
                if k < old(self).step_stack@.len() {
                    assert(old(self).step_stack@[k] == self.step_stack@[k]);
                    assert(old(self).stack_ok());
                }
            }
        }
    }

    /// Undoes the row of `node_id`: drops the recorded row, uncovers its
    /// columns in reverse order, and queues the next candidate of the same
    /// column if one remains.
    #[verifier::loop_isolation(false)]
    fn step_backward(&mut self, node_id: NodeId)
        requires
            old(self).state.wf(),
            old(self).stack_ok(),
            old(self).partial_solution@.len() == count_backtracking(old(self).step_stack@) + 1,
            node_id.0 < old(self).state.nodes@.len(),
            old(self).state.header.0 < old(self).state.nodes@.len(),
        ensures
            final(self).wf(),
            final(self).state.nodes@.len() == old(self).state.nodes@.len(),
            final(self).state.column_sizes@.len() == old(self).state.column_sizes@.len(),
            final(self).state.header == old(self).state.header,
            same_skeleton(old(self).state.nodes@, final(self).state.nodes@),
            final(self).partial_solution@ == old(self).partial_solution@.drop_last(),
            (final(self).state.nodes@, final(self).state.column_sizes@) == uncover_row_full(
                old(self).state.nodes@,
                old(self).state.column_sizes@,
                node_id,
            ),
            final(self).step_stack@ == {
                let m = uncover_row_full(
                    old(self).state.nodes@,
                    old(self).state.column_sizes@,
                    node_id,
                );
                if m.0[node_id.0 as int].down != m.0[node_id.0 as int].header {
                    old(self).step_stack@.push(
                        Step { node_id: m.0[node_id.0 as int].down, backtracking: false },
                    )
                } else {
                    old(self).step_stack@
                }
            },
    {
        self.partial_solution.pop();

        let mut fuel: usize = self.state.nodes.len();
        proof {
            assert(self.state.node_ok(node_id.0 as int));
        }
        let mut current_id = self.state.node(node_id).left;
        while current_id != node_id && fuel > 0
            invariant
                self.state.wf(),
                same_skeleton(old(self).state.nodes@, self.state.nodes@),
                self.state.column_sizes@.len() == old(self).state.column_sizes@.len(),
                self.state.header == old(self).state.header,
                self.step_stack@ == old(self).step_stack@,
                self.partial_solution@ == old(self).partial_solution@.drop_last(),
                current_id.0 < self.state.nodes@.len(),
                node_id.0 < self.state.nodes@.len(),
                uncover_row_walk(
                    self.state.nodes@,
                    self.state.column_sizes@,
                    node_id,
                    current_id,
                    fuel as nat,
                ) == uncover_row_walk(
                    old(self).state.nodes@,
                    old(self).state.column_sizes@,
                    node_id,
                    old(self).state.nodes@[node_id.0 as int].left,
                    old(self).state.nodes@.len(),
                ),
            decreases fuel,
        {
            let ghost pre_unc = self.state;
            self.uncover(current_id);
            proof {
                assert(self.state.node_ok(current_id.0 as int));
                assert((self.state.nodes@, self.state.column_sizes@) == uncover_spec(
                    pre_unc.nodes@,
                    pre_unc.column_sizes@,
                    current_id,
                ));
            }
            current_id = self.state.node(current_id).left;
            fuel = fuel - 1;
        }
        let ghost pre_last = self.state;
        self.uncover(node_id);
        proof {
            assert((self.state.nodes@, self.state.column_sizes@) == uncover_spec(
                pre_last.nodes@,
                pre_last.column_sizes@,
                node_id,
            ));
        }

        proof {
            assert(self.state.node_ok(node_id.0 as int));
        }
        let node_down = self.state.node(node_id).down;
        let node_header = self.state.node(node_id).header;

        if node_down != node_header {
            let ghost stack_before = self.step_stack@;
            self.step_stack.push(Step { node_id: node_down, backtracking: false });
            proof {
                lemma_count_push(stack_before, Step { node_id: node_down, backtracking: false });
            }
        }

        proof {
            assert forall|k: int| 0 <= k < self.step_stack@.len() implies {
                let e = #[trigger] self.step_stack@[k];
                &&& e.node_id.0 < self.state.nodes@.len()
                &&& (e.backtracking ==> self.state.nodes@[e.node_id.0 as int].header.0
                    != e.node_id.0)
            } by {
                if k < old(self).step_stack@.len() {
                    assert(old(self).step_stack@[k] == self.step_stack@[k]);
                    assert(old(self).stack_ok());
                }
            }
        }
    }

    /// Advances the engine by one step. Pops a frame; a frame whose node is
    /// its own header is a dead branch and is discarded without touching the
    /// mesh. Otherwise the frame is executed forward or backward, and if the
    /// header row is then empty, a copy of the partial solution is returned:
    /// exactly then has a complete cover been reached.
    pub fn step(&mut self) -> (r: Option<Vec<usize>>)
        requires
            old(self).wf(),
        ensures
            final(self).wf(),
            final(self).num_nodes() == old(self).num_nodes(),
            final(self).spec_sizes().len() == old(self).spec_sizes().len(),
            final(self).spec_root() == old(self).spec_root(),
            old(self).spec_is_completed() ==> r is None && final(self).equiv(*old(self)),
            r matches Some(s) ==> s@ == final(self).spec_partial() && final(self).spec_solved(),
            !old(self).spec_is_completed() && !old(self).spec_top_is_sentinel() ==> ((r is Some)
                <==> final(self).spec_solved()),
            old(self).spec_top_is_sentinel() ==> {
                &&& r is None
                &&& final(self).spec_nodes() == old(self).spec_nodes()
                &&& final(self).spec_sizes() == old(self).spec_sizes()
                &&& final(self).spec_partial() == old(self).spec_partial()
                &&& final(self).spec_stack_len() == old(self).spec_stack_len() - 1
            },
            ({
                &&& !old(self).spec_is_completed()
                &&& !old(self).spec_top_is_sentinel()
                &&& !old(self).spec_top_is_backtracking()
            }) ==> final(self).spec_partial() == old(self).spec_partial().push(
                old(self).spec_top_row() as usize,
            ),
            !old(self).spec_is_completed() && old(self).spec_top_is_backtracking()
                ==> final(self).spec_partial() == old(self).spec_partial().drop_last(),
            final(self).model() == step_model(old(self).model()).0,
            r matches Some(v) ==> step_model(old(self).model()).1 == Some(v@),
            r is None ==> step_model(old(self).model()).1 is None,
    {
        let popped = self.step_stack.pop();
        let step = match popped {
            Some(s) => s,
            None => {
                proof {
                    assert(old(self).model().stack.len() == 0);
                    assert(self.model() == old(self).model());
                }
                return None;
            },
        };
        let node_id = step.node_id;
        let backtracking = step.backtracking;

        proof {
            assert(old(self).stack_ok());
            assert(old(self).step_stack@[old(self).step_stack@.len() - 1] == step);
            assert(old(self).step_stack@.drop_last() =~= self.step_stack@);
            lemma_stack_view_drop(old(self).step_stack@);
            assert(old(self).model().stack.last() == frame_of(step));
            assert(self.model() == (SolverModel {
                stack: old(self).model().stack.drop_last(),
                ..old(self).model()
            }));
        }

        let node_header_id = self.state.node(node_id).header;

        if node_id == node_header_id {
            proof {
                assert(step_model(old(self).model()).0 == self.model());
                assert(step_model(old(self).model()).1 is None);
            }
            return None;
        }

        let ghost popped_model = self.model();
        if backtracking {
            self.step_backward(node_id);
            proof {
                lemma_stack_view_push(
                    old(self).step_stack@.drop_last(),
                    Step {
                        node_id: uncover_row_full(
                            popped_model.nodes,
                            popped_model.sizes,
                            node_id,
                        ).0[node_id.0 as int].down,
                        backtracking: false,
                    },
                );
                assert(self.model() == backward_model(popped_model, node_id));
            }
        } else {
            self.step_forward(node_id);
            proof {
                let m = cover_row_full(popped_model.nodes, popped_model.sizes, node_id);
                lemma_stack_view_push(
                    old(self).step_stack@.drop_last(),
                    Step { node_id, backtracking: true },
                );
                match choose_spec(m.0, m.1, popped_model.root) {
                    Some(next) => {
                        lemma_stack_view_push(
                            old(self).step_stack@.drop_last().push(
                                Step { node_id, backtracking: true },
                            ),
                            Step { node_id: next, backtracking: false },
                        );
                    },
                    None => {},
                }
                assert(self.model() == forward_model(popped_model, node_id));
            }
        }
        proof {
            assert(self.model() == step_model(old(self).model()).0);
        }

        let header_root_id = self.state.header;
        proof {
            assert(self.state.node_ok(header_root_id.0 as int));
        }
        if self.state.node(header_root_id).right == header_root_id {
            Some(clone_solution(&self.partial_solution))
        } else {
            None
        }
    }

    /// The row indices chosen along the current search path.
    pub fn partial_solution(&self) -> (r: &[usize])
        ensures
            r@ == self.spec_partial(),
    {
        self.partial_solution.as_slice()
    }

    /// True exactly when the step stack is empty: the stream is exhausted.
    pub fn is_completed(&self) -> (r: bool)
        ensures
            r == self.spec_is_completed(),
    {
        self.step_stack.is_empty()
    }

    /// Number of nodes in the arena, headers and root included.
    pub fn node_count(&self) -> (r: usize)
        ensures
            r == self.num_nodes(),
    {
        self.state.nodes.len()
    }

    /// Pulls the next solution: runs the engine until a solution is produced
    /// or the step stack drains. A step budget bounds the loop; it is far
    /// beyond any search this mesh can sustain, and if it were ever spent the
    /// solver would abandon the enumeration and report exhaustion.
    pub fn next(&mut self) -> (r: Option<Vec<usize>>)
        requires
            old(self).wf(),
        ensures
            final(self).wf(),
            final(self).num_nodes() == old(self).num_nodes(),
            final(self).spec_sizes().len() == old(self).spec_sizes().len(),
            final(self).spec_root() == old(self).spec_root(),
            old(self).spec_is_completed() ==> r is None && final(self).equiv(*old(self)),
            r is None ==> final(self).spec_is_completed() && final(self).spec_partial().len()
                == 0,
            r matches Some(s) ==> s@ == final(self).spec_partial() && final(self).spec_solved(),
            final(self).model() == run_model(old(self).model(), u64::MAX as nat).0,
            r matches Some(s) ==> run_model(old(self).model(), u64::MAX as nat).1 == Some(s@),
            r is None ==> run_model(old(self).model(), u64::MAX as nat).1 is None,
    {
        let mut fuel: u64 = u64::MAX;
        while fuel > 0
            invariant
                self.wf(),
                self.num_nodes() == old(self).num_nodes(),
                self.spec_sizes().len() == old(self).spec_sizes().len(),
                self.spec_root() == old(self).spec_root(),
                old(self).spec_is_completed() ==> self.equiv(*old(self)),
                run_model(self.model(), fuel as nat) == run_model(
                    old(self).model(),
                    u64::MAX as nat,
                ),
            decreases fuel,
        {
            if self.is_completed() {
                proof {
                    assert(self.model().stack.len() == 0);
                    assert(run_model(self.model(), fuel as nat) == (self.model(), None::<Seq<usize>>));
                }
                return None;
            }

            let step = self.step();
            if step.is_some() {
                return step;
            }
            fuel = fuel - 1;
        }

        let ghost before = *self;
        self.step_stack = Vec::new();
        self.partial_solution = Vec::new();
        proof {
            if old(self).spec_is_completed() {
                assert(count_backtracking(before.step_stack@) == 0);
                assert(self.step_stack@ =~= before.step_stack@);
                assert(self.partial_solution@ =~= before.partial_solution@);
            }
            assert(self.model().stack =~= Seq::<(NodeId, bool)>::empty());
            assert(self.model().partial =~= Seq::<usize>::empty());
            assert(self.model() == run_model(old(self).model(), u64::MAX as nat).0);
        }
        None
    }
}

impl Default for Solver {
    /// The empty solver: no mesh, nothing to do, an exhausted stream.
    fn default() -> (r: Self)
        ensures
            r.wf(),
            r.spec_is_completed(),
            r.spec_partial().len() == 0,
            r.num_nodes() == 0,
            r.model() == empty_solver_model(),
    {
        let s = Solver {
            state: SolverState::default(),
            step_stack: Vec::new(),
            partial_solution: Vec::new(),
        };
        proof {
            assert(count_backtracking(s.step_stack@) == 0);
            assert(s.model().nodes =~= empty_solver_model().nodes);
            assert(s.model().sizes =~= empty_solver_model().sizes);
            assert(s.model().stack =~= empty_solver_model().stack);
            assert(s.model().partial =~= empty_solver_model().partial);
        }
        s
    }
}

/// True exactly when `v` holds `x`.
fn contains_col(v: &Vec<usize>, x: usize) -> (r: bool)
    ensures
        r == v@.contains(x),
{
    let mut i: usize = 0;
    while i < v.len()
        invariant
            i <= v@.len(),
            forall|k: int| 0 <= k < i ==> v@[k] != x,
        decreases v@.len() - i,
    {
        if v[i] == x {
            return true;
        }
        i = i + 1;
    }
    proof {
        assert(!v@.contains(x));
    }
    false
}

/// A vector of `n` invalid handles.
fn invalid_handles(n: usize) -> (r: Vec<NodeId>)
    ensures
        r@.len() == n,
        forall|k: int| 0 <= k < n ==> r@[k].0 == usize::MAX,
{
    let mut r: Vec<NodeId> = Vec::new();
    let mut i: usize = 0;
    while i < n
        invariant
            i <= n,
            r@.len() == i,
            forall|k: int| 0 <= k < i ==> r@[k].0 == usize::MAX,
        decreases n - i,
    {
        r.push(NodeId::invalid());
        i = i + 1;
    }
    r
}

/// The running maximum of the first `n` entries of one row.
pub open spec fn row_prefix_max(row: Seq<usize>, n: int, acc: usize) -> usize
    decreases n,
{
    if n <= 0 {
        acc
    } else {
        let m = row_prefix_max(row, n - 1, acc);
        if row[n - 1] > m {
            row[n - 1]
        } else {
            m
        }
    }
}

/// The largest column index among the first `n` rows (or `acc` if none).
pub open spec fn rows_max(rows: Seq<Vec<usize>>, n: int, acc: usize) -> usize
    decreases n,
{
    if n <= 0 {
        acc
    } else {
        row_prefix_max(rows[n - 1]@, rows[n - 1]@.len() as int, rows_max(rows, n - 1, acc))
    }
}

/// `n` size counters, all zero.
pub open spec fn zeros_seq(n: nat) -> Seq<usize> {
    Seq::new(n, |i: int| 0usize)
}

/// `n` invalid handles.
pub open spec fn invalid_seq(n: nat) -> Seq<NodeId> {
    Seq::new(n, |i: int| NodeId(usize::MAX))
}

/// The builder before any row has entered: an empty arena, one zero counter
/// per column, and no header, column bottom or forced representative yet.
pub open spec fn build_base(column_count: nat) -> BuildModel {
    BuildModel {
        nodes: Seq::empty(),
        sizes: zeros_seq(column_count),
        header_row: Seq::empty(),
        above: invalid_seq(column_count),
        forced_rep: invalid_seq(column_count),
        first: NodeId(usize::MAX),
        prev: NodeId(usize::MAX),
    }
}

/// The image of a solver with no mesh and nothing to do.
pub open spec fn empty_solver_model() -> SolverModel {
    SolverModel {
        nodes: Seq::empty(),
        sizes: Seq::empty(),
        root: NodeId(usize::MAX),
        stack: Seq::empty(),
        partial: Seq::empty(),
    }
}

/// Ghost image of the mesh builder mid-construction: the growing arena and
/// counters, the headers in creation order, the lowest node so far of each
/// column, the recorded representative of each forced column, and the first
/// and latest node of the row being built.
pub struct BuildModel {
    pub nodes: Seq<Node>,
    pub sizes: Seq<usize>,
    pub header_row: Seq<NodeId>,
    pub above: Seq<NodeId>,
    pub forced_rep: Seq<NodeId>,
    pub first: NodeId,
    pub prev: NodeId,
}

/// The common tail of one cell insertion: remember the column's lowest node,
/// advance the row cursor, and record a representative for a forced column
/// seen for the first time.
pub open spec fn finish_cell(
    b: BuildModel,
    nodes: Seq<Node>,
    sizes: Seq<usize>,
    header_row: Seq<NodeId>,
    first: NodeId,
    node_id: NodeId,
    forced: Seq<usize>,
    col: usize,
) -> BuildModel {
    BuildModel {
        nodes,
        sizes,
        header_row,
        above: b.above.update(col as int, node_id),
        forced_rep: if forced.contains(col) && b.forced_rep[col as int].0 == usize::MAX {
            b.forced_rep.update(col as int, node_id)
        } else {
            b.forced_rep
        },
        first,
        prev: node_id,
    }
}

/// One cell of a row entering the mesh: a fresh node takes the row and
/// column, the column counter rises, the node joins the row being built, and
/// it is spliced to the bottom of its column — under a fresh header if the
/// column had none yet.
pub open spec fn insert_cell(b: BuildModel, forced: Seq<usize>, row_idx: int, col: usize) -> BuildModel {
    let node_id = NodeId(b.nodes.len() as usize);
    let n0 = b.nodes.push(singleton_node(node_id));
    let n1 = n0.update(
        node_id.0 as int,
        Node { row: row_idx as isize, col, ..n0[node_id.0 as int] },
    );
    let s1 = b.sizes.update(col as int, (b.sizes[col as int] + 1) as usize);
    let first1 = if b.first.0 == usize::MAX {
        node_id
    } else {
        b.first
    };
    let n2 = if b.prev.0 != usize::MAX {
        upd_left(upd_right(n1, b.prev.0 as int, node_id), node_id.0 as int, b.prev)
    } else {
        n1
    };
    let above_id = b.above[col as int];
    if above_id.0 != usize::MAX {
        let av = n2[above_id.0 as int];
        let n3 = n2.update(above_id.0 as int, Node { down: node_id, ..av });
        let n4 = n3.update(
            node_id.0 as int,
            Node { up: above_id, down: av.down, header: av.header, ..n3[node_id.0 as int] },
        );
        let n5 = n4.update(av.header.0 as int, Node { up: node_id, ..n4[av.header.0 as int] });
        finish_cell(b, n5, s1, b.header_row, first1, node_id, forced, col)
    } else {
        let header_id = NodeId(n2.len() as usize);
        let n3 = n2.push(singleton_node(header_id));
        let hr1 = b.header_row.push(header_id);
        let n4 = n3.update(
            header_id.0 as int,
            Node {
                row: -1isize,
                col,
                header: header_id,
                up: node_id,
                down: node_id,
                ..n3[header_id.0 as int]
            },
        );
        let n5 = n4.update(
            node_id.0 as int,
            Node { up: header_id, down: header_id, header: header_id, ..n4[node_id.0 as int] },
        );
        finish_cell(b, n5, s1, hr1, first1, node_id, forced, col)
    }
}

/// The first `j` cells of one row entering the mesh, left to right.
pub open spec fn insert_cells(
    b: BuildModel,
    forced: Seq<usize>,
    row: Seq<usize>,
    row_idx: int,
    j: int,
) -> BuildModel
    decreases j,
{
    if j <= 0 {
        b
    } else {
        insert_cell(insert_cells(b, forced, row, row_idx, j - 1), forced, row_idx, row[j - 1])
    }
}

/// One whole row entering the mesh: its cells in order, then the horizontal
/// ring closed, if the row was nonempty.
pub open spec fn insert_row(b: BuildModel, forced: Seq<usize>, row: Seq<usize>, row_idx: int) -> BuildModel {
    let b0 = BuildModel { first: NodeId(usize::MAX), prev: NodeId(usize::MAX), ..b };
    let b1 = insert_cells(b0, forced, row, row_idx, row.len() as int);
    if b1.first.0 != usize::MAX && b1.prev.0 != usize::MAX {
        BuildModel {
            nodes: upd_left(
                upd_right(b1.nodes, b1.prev.0 as int, b1.first),
                b1.first.0 as int,
                b1.prev,
            ),
            ..b1
        }
    } else {
        b1
    }
}

/// The first `i` rows entering the mesh, in input order.
pub open spec fn insert_rows(b: BuildModel, forced: Seq<usize>, rows: Seq<Vec<usize>>, i: int) -> BuildModel
    decreases i,
{
    if i <= 0 {
        b
    } else {
        insert_row(insert_rows(b, forced, rows, i - 1), forced, rows[i - 1]@, i - 1)
    }
}

/// One shift of the header sort: the entry at `m` sinks left while the
/// column index to its left is larger.
pub open spec fn sort_shift(nodes: Seq<Node>, hr: Seq<NodeId>, m: int) -> Seq<NodeId>
    decreases m,
{
    if m <= 0 {
        hr
    } else if nodes[hr[m - 1].0 as int].col > nodes[hr[m].0 as int].col {
        sort_shift(nodes, hr.update(m - 1, hr[m]).update(m, hr[m - 1]), m - 1)
    } else {
        hr
    }
}

/// The header sort after its first `k` outer rounds: insertion sort by
/// ascending column index.
pub open spec fn sort_upto(nodes: Seq<Node>, hr: Seq<NodeId>, k: int) -> Seq<NodeId>
    decreases k,
{
    if k <= 1 {
        hr
    } else {
        sort_shift(nodes, sort_upto(nodes, hr, k - 1), k - 1)
    }
}

/// The header pairs linked left to right, after `w` rounds of the walk.
pub open spec fn link_windows(nodes: Seq<Node>, hr: Seq<NodeId>, w: int) -> Seq<Node>
    decreases w,
{
    if w <= 1 {
        nodes
    } else {
        let p = link_windows(nodes, hr, w - 1);
        upd_left(upd_right(p, hr[w - 2].0 as int, hr[w - 1]), hr[w - 1].0 as int, hr[w - 2])
    }
}

/// The header row closed into a ring, with the root sentinel spliced in
/// between the last and the first header; returns the arena and the root.
pub open spec fn close_header_ring(nodes: Seq<Node>, hr: Seq<NodeId>) -> (Seq<Node>, NodeId) {
    let first = hr[0];
    let last = hr[hr.len() - 1];
    let n1 = upd_left(nodes, first.0 as int, last);
    let n2 = upd_right(n1, last.0 as int, first);
    let n3 = link_windows(n2, hr, hr.len() as int);
    let root = NodeId(n3.len() as usize);
    let n4 = n3.push(singleton_node(root));
    let n5 = n4.update(root.0 as int, Node { right: first, ..n4[root.0 as int] });
    let n6 = n5.update(first.0 as int, Node { left: root, ..n5[first.0 as int] });
    let n7 = n6.update(root.0 as int, Node { left: last, ..n6[root.0 as int] });
    let n8 = n7.update(last.0 as int, Node { right: root, ..n7[last.0 as int] });
    (n8, root)
}

/// The eager covers of the forced columns, in ascending column order, each
/// through the first data node currently below the column's header.
pub open spec fn forced_covers(
    nodes: Seq<Node>,
    sizes: Seq<usize>,
    forced_rep: Seq<NodeId>,
    c: int,
) -> (Seq<Node>, Seq<usize>)
    decreases c,
{
    if c <= 0 {
        (nodes, sizes)
    } else {
        let p = forced_covers(nodes, sizes, forced_rep, c - 1);
        let rep = forced_rep[c - 1];
        if rep.0 != usize::MAX {
            let h = p.0[rep.0 as int].header;
            cover_spec(p.0, p.1, p.0[h.0 as int].down)
        } else {
            p
        }
    }
}

/// What `Solver::new` builds, as a function of its inputs: the universe is
/// sized by the largest column index, every row enters the mesh in order,
/// the headers are sorted and closed into a ring with the root, the forced
/// columns are eagerly covered, and one forward frame is queued if a column
/// remains.
pub open spec fn build_model(rows: Seq<Vec<usize>>, forced: Seq<usize>) -> SolverModel {
    let column_count = rows_max(rows, rows.len() as int, 0) + 1;
    let b0 = build_base(column_count as nat);
    let b1 = insert_rows(b0, forced, rows, rows.len() as int);
    let hr = sort_upto(b1.nodes, b1.header_row, b1.header_row.len() as int);
    if hr.len() == 0 {
        empty_solver_model()
    } else {
        let rr = close_header_ring(b1.nodes, hr);
        let fc = forced_covers(rr.0, b1.sizes, b1.forced_rep, b1.forced_rep.len() as int);
        let stack = match choose_spec(fc.0, fc.1, rr.1) {
            None => Seq::<(NodeId, bool)>::empty(),
            Some(id) => Seq::<(NodeId, bool)>::empty().push((id, false)),
        };
        SolverModel { nodes: fc.0, sizes: fc.1, root: rr.1, stack, partial: Seq::empty() }
    }
}

/// Ghost image of a solver: everything its behaviour depends on. Stack
/// frames appear as (node, backtracking) pairs.
pub struct SolverModel {
    pub nodes: Seq<Node>,
    pub sizes: Seq<usize>,
    pub root: NodeId,
    pub stack: Seq<(NodeId, bool)>,
    pub partial: Seq<usize>,
}

/// What a forward step does to the model: record the row, cover every
/// column the row satisfies, queue the backtracking frame and, if a column
/// remains, a forward frame for its chosen first candidate.
pub open spec fn forward_model(m: SolverModel, node: NodeId) -> SolverModel {
    let p = cover_row_full(m.nodes, m.sizes, node);
    let back = m.stack.push((node, true));
    let stack = match choose_spec(p.0, p.1, m.root) {
        None => back,
        Some(next) => back.push((next, false)),
    };
    SolverModel {
        nodes: p.0,
        sizes: p.1,
        root: m.root,
        stack,
        partial: m.partial.push(m.nodes[node.0 as int].row as usize),
    }
}

/// What a backward step does to the model: drop the recorded row, uncover
/// the row's columns in reverse order, and queue the next candidate of the
/// same column if one remains.
pub open spec fn backward_model(m: SolverModel, node: NodeId) -> SolverModel {
    let p = uncover_row_full(m.nodes, m.sizes, node);
    let stack = if p.0[node.0 as int].down != p.0[node.0 as int].header {
        m.stack.push((p.0[node.0 as int].down, false))
    } else {
        m.stack
    };
    SolverModel { nodes: p.0, sizes: p.1, root: m.root, stack, partial: m.partial.drop_last() }
}

/// One engine step on the model: pop a frame; a sentinel frame (its node is
/// its own header) is discarded without touching the mesh; any other frame
/// runs forward or backward; the partial solution is reported exactly when
/// the header row has emptied.
pub open spec fn step_model(m: SolverModel) -> (SolverModel, Option<Seq<usize>>) {
    if m.stack.len() == 0 {
        (m, None)
    } else {
        let top = m.stack.last();
        let popped = SolverModel { stack: m.stack.drop_last(), ..m };
        if m.nodes[top.0.0 as int].header == top.0 {
            (popped, None)
        } else {
            let stepped = if top.1 {
                backward_model(popped, top.0)
            } else {
                forward_model(popped, top.0)
            };
            if stepped.nodes[stepped.root.0 as int].right == stepped.root {
                (stepped, Some(stepped.partial))
            } else {
                (stepped, None)
            }
        }
    }
}

/// A stack frame as the model shows it.
spec fn frame_of(e: Step) -> (NodeId, bool) {
    (e.node_id, e.backtracking)
}

/// The step stack as the model shows it.
spec fn stack_view(s: Seq<Step>) -> Seq<(NodeId, bool)> {
    s.map(|i: int, e: Step| frame_of(e))
}

proof fn lemma_stack_view_push(s: Seq<Step>, e: Step)
    ensures
        stack_view(s.push(e)) == stack_view(s).push(frame_of(e)),
{
    assert(stack_view(s.push(e)) =~= stack_view(s).push(frame_of(e)));
}

proof fn lemma_stack_view_drop(s: Seq<Step>)
    requires
        s.len() > 0,
    ensures
        stack_view(s.drop_last()) == stack_view(s).drop_last(),
        stack_view(s).last() == frame_of(s.last()),
{
    assert(stack_view(s.drop_last()) =~= stack_view(s).drop_last());
}

/// The engine run behind one pull: step until a solution is produced or the
/// stack drains; a spent budget abandons the enumeration with cleared
/// stacks.
pub open spec fn run_model(m: SolverModel, fuel: nat) -> (SolverModel, Option<Seq<usize>>)
    decreases fuel,
{
    if fuel == 0 {
        (SolverModel { stack: Seq::empty(), partial: Seq::empty(), ..m }, None)
    } else if m.stack.len() == 0 {
        (m, None)
    } else {
        let s = step_model(m);
        if s.1 is Some {
            s
        } else {
            run_model(s.0, (fuel - 1) as nat)
        }
    }
}

/// Determinism: stepping and pulling are functions of the solver's
/// observable state alone — `step` returns exactly `step_model` of its
/// state and `next` exactly `run_model` of it — so two solvers built from
/// identical inputs, given identical calls, emit identical streams.
pub proof fn lemma_determinism(a: Solver, b: Solver)
    requires
        a.model() == b.model(),
    ensures
        step_model(a.model()) == step_model(b.model()),
        forall|fuel: nat| run_model(a.model(), fuel) == #[trigger] run_model(b.model(), fuel),
{
}

/// Stack drain: once the stream is exhausted — the step stack is empty —
/// the partial solution is empty as well. Every forward step that records a
/// row also queues the backtracking frame that will remove it.
pub proof fn lemma_stack_drain(s: Solver)
    requires
        s.wf(),
        s.spec_is_completed(),
    ensures
        s.spec_partial().len() == 0,
{
}

/// Reversibility of the header-row splice: detaching a column's header and
/// reattaching it restores every node of the arena exactly, whenever the
/// header row is a doubly linked ring at that header (its left neighbour's
/// `right` and its right neighbour's `left` both name it). These are the
/// transformations `detach_column` and `attach_column` are specified to
/// perform, so a cover followed by an uncover restores the header row.
pub proof fn lemma_detach_attach_column(nodes: Seq<Node>, n: int)
    requires
        0 <= n < nodes.len(),
        nodes[n].header.0 < nodes.len(),
        ({
            let h = nodes[n].header.0 as int;
            &&& nodes[h].left.0 < nodes.len()
            &&& nodes[h].right.0 < nodes.len()
        }),
        ({
            let h = nodes[n].header.0 as int;
            &&& nodes[nodes[h].left.0 as int].right == nodes[n].header
            &&& nodes[nodes[h].right.0 as int].left == nodes[n].header
        }),
    ensures
        attach_col_spec(detach_col_spec(nodes, n), n) == nodes,
{
    let h = nodes[n].header.0 as int;
    let hl = nodes[h].left;
    let hr = nodes[h].right;
    let d = detach_col_spec(nodes, n);
    let a = attach_col_spec(d, n);
    assert(d[n].header == nodes[n].header);
    assert(d[h].left == nodes[h].left && d[h].right == nodes[h].right);
    assert forall|i: int| 0 <= i < nodes.len() implies a[i] == nodes[i] by {
        if i == hl.0 as int {
            assert(a[i] == nodes[i]);
        }
        if i == hr.0 as int {
            assert(a[i] == nodes[i]);
        }
    }
    assert(a =~= nodes);
}

/// Copies a solution vector element by element.
fn clone_solution(v: &Vec<usize>) -> (r: Vec<usize>)
    ensures
        r@ == v@,
{
    let mut r: Vec<usize> = Vec::new();
    let mut i: usize = 0;
    while i < v.len()
        invariant
            i <= v@.len(),
            r@ == v@.subrange(0, i as int),
        decreases v@.len() - i,
    {
        r.push(v[i]);
        i = i + 1;
        proof {
            assert(r@ =~= v@.subrange(0, i as int));
        }
    }
    proof {
        assert(r@ =~= v@);
    }
    r
}

} // verus!
