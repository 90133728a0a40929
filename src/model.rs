//! The decoded snapshot: nodes, four element classes and their fields.
//!
//! Floating-point values are held as the bit patterns of IEEE-754 singles, as
//! they were stored; nothing in the library computes with them.
use vstd::prelude::*;

verus! {

/// The node table with its node-attached fields.
pub struct NodeTable {
    pub count: usize,
    /// Three coordinates per node.
    pub coords: Vec<u32>,
    pub scalar_names: Vec<String>,
    /// One array of `count` values per scalar name, one after the other.
    pub scalars: Vec<u32>,
    pub vector_names: Vec<String>,
    /// One array of `3 * count` values per vector name.
    pub vectors: Vec<u32>,
    /// Node numbering; empty when the stream carries none.
    pub ids: Vec<i32>,
}

impl NodeTable {
    pub open spec fn wf(&self) -> bool {
        &&& self.coords@.len() == 3 * self.count
        &&& self.scalars@.len() == self.scalar_names@.len() * self.count
        &&& self.vectors@.len() == 3 * self.count * self.vector_names@.len()
        &&& (self.ids@.len() == self.count || self.ids@.len() == 0)
    }

    pub fn empty() -> (r: NodeTable)
        ensures
            r.wf(),
            r.count == 0,
    {
        NodeTable {
            count: 0,
            coords: Vec::new(),
            scalar_names: Vec::new(),
            scalars: Vec::new(),
            vector_names: Vec::new(),
            vectors: Vec::new(),
            ids: Vec::new(),
        }
    }
}

/// One element class (1D, 2D, 3D or SPH): fixed-arity connectivity,
/// deletion flags, parts and element-attached fields.
pub struct ElementClass {
    pub count: usize,
    /// `arity` node ids per element.
    pub connect: Vec<i32>,
    /// One deletion byte per element; 1 marks an eroded element.
    pub deleted: Vec<u8>,
    /// Index of the first element of each part, non-decreasing.
    pub def_part: Vec<i32>,
    /// One id text per part.
    pub part_names: Vec<String>,
    pub scalar_names: Vec<String>,
    /// One array of `count` values per scalar name.
    pub scalars: Vec<u32>,
    pub tensor_names: Vec<String>,
    /// One array of `width * count` values per tensor name.
    pub tensors: Vec<u32>,
    /// Element numbering; empty when the stream carries none.
    pub ids: Vec<i32>,
}

impl ElementClass {
    /// Shape of a class with `arity` nodes per element and `width` stored
    /// components per tensor.
    pub open spec fn wf(&self, arity: nat, width: nat) -> bool {
        &&& self.connect@.len() == self.count * arity
        &&& self.deleted@.len() == self.count
        &&& self.def_part@.len() == self.part_names@.len()
        &&& self.scalars@.len() == self.scalar_names@.len() * self.count
        &&& self.tensors@.len() == self.count * width * self.tensor_names@.len()
        &&& (self.ids@.len() == self.count || self.ids@.len() == 0)
    }

    pub fn empty() -> (r: ElementClass)
        ensures
            r.wf(0, 0),
            forall|a: nat, w: nat| #[trigger] r.wf(a, w),
            r.count == 0,
    {
        ElementClass {
            count: 0,
            connect: Vec::new(),
            deleted: Vec::new(),
            def_part: Vec::new(),
            part_names: Vec::new(),
            scalar_names: Vec::new(),
            scalars: Vec::new(),
            tensor_names: Vec::new(),
            tensors: Vec::new(),
            ids: Vec::new(),
        }
    }
}

/// Nodes per element of each class.
pub const BEAM_ARITY: usize = 2;
pub const SHELL_ARITY: usize = 4;
pub const SOLID_ARITY: usize = 8;
pub const SPH_ARITY: usize = 1;

/// Stored components per tensor of each class: a 2D symmetric tensor keeps
/// xx, yy, xy; 3D and SPH keep xx, yy, zz, xy, xz, yz; a 1D force/moment
/// set keeps three forces and six moments.
pub const SHELL_TENSOR_WIDTH: usize = 3;
pub const SOLID_TENSOR_WIDTH: usize = 6;
pub const BEAM_TENSOR_WIDTH: usize = 9;
pub const SPH_TENSOR_WIDTH: usize = 6;

/// A decoded snapshot.
pub struct AnimModel {
    /// Bit pattern of the simulation time (an IEEE-754 single).
    pub time_bits: u32,
    /// The feature-flag vector of the header.
    pub flags: Vec<i32>,
    pub nodes: NodeTable,
    pub beams: ElementClass,
    pub shells: ElementClass,
    pub solids: ElementClass,
    pub sph: ElementClass,
}

impl AnimModel {
    pub open spec fn wf(&self) -> bool {
        &&& self.flags@.len() == 10
        &&& self.nodes.wf()
        &&& self.beams.wf(BEAM_ARITY as nat, BEAM_TENSOR_WIDTH as nat)
        &&& self.shells.wf(SHELL_ARITY as nat, SHELL_TENSOR_WIDTH as nat)
        &&& self.solids.wf(SOLID_ARITY as nat, SOLID_TENSOR_WIDTH as nat)
        &&& self.sph.wf(SPH_ARITY as nat, SPH_TENSOR_WIDTH as nat)
    }

    /// Number of cells over the four classes.
    pub open spec fn cell_count(&self) -> int {
        self.beams.count + self.shells.count + self.solids.count + self.sph.count
    }
}

} // verus!
