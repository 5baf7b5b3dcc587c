use vstd::prelude::*;

verus! {

/// Handle into the solver's node arena. The value `usize::MAX` is the
/// invalid sentinel, used only transiently while the mesh is being built;
/// it never appears inside a finished mesh.
#[derive(Copy, Clone, Debug, PartialEq, Eq, Structural)]
pub struct NodeId(pub usize);

impl NodeId {
    /// A handle is valid when it is not the sentinel value.
    pub open spec fn spec_is_valid(self) -> bool {
        self.0 != usize::MAX
    }

    pub fn new(value: usize) -> (r: Self)
        ensures
            r.0 == value,
    {
        NodeId(value)
    }

    pub fn invalid() -> (r: Self)
        ensures
            r.0 == usize::MAX,
    {
        NodeId(usize::MAX)
    }

    pub fn is_valid(&self) -> (r: bool)
        ensures
            r == self.spec_is_valid(),
    {
        self.0 != usize::MAX
    }

    pub fn value(&self) -> (r: usize)
        requires
            self.spec_is_valid(),
        ensures
            r == self.0,
    {
        self.0
    }
}

impl Default for NodeId {
    fn default() -> (r: Self)
        ensures
            r.0 == usize::MAX,
    {
        NodeId(usize::MAX)
    }
}

/// One element of the toroidal mesh: four ring neighbours, a link to the
/// column header, and the originating row and column of the node. Column
/// headers and the root sentinel carry `row == -1`.
#[derive(Copy, Clone, Debug, PartialEq, Eq, Structural)]
pub struct Node {
    pub left: NodeId,
    pub right: NodeId,
    pub up: NodeId,
    pub down: NodeId,
    pub header: NodeId,
    pub row: isize,
    pub col: usize,
}

} // verus!
