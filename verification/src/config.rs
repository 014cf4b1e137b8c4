//! The description of a terrain: its size, its levels, its attachments and the
//! size of its atlas. A description is checked once, when it is built.

use crate::error::TerrainError;
use crate::node::MAX_LOD;
use vstd::prelude::*;

verus! {

/// The texel format of an attachment.
#[derive(Clone, Copy, Debug, PartialEq, Eq, Structural)]
pub enum AttachmentFormat {
    Rgb8,
    Rgba8,
    R16,
    Rg16,
}

impl AttachmentFormat {
    /// The number of bytes of one texel.
    pub open spec fn spec_texel_bytes(self) -> u32 {
        match self {
            AttachmentFormat::Rgb8 => 3,
            AttachmentFormat::Rgba8 => 4,
            AttachmentFormat::R16 => 2,
            AttachmentFormat::Rg16 => 4,
        }
    }

    /// The number of bytes of one texel.
    pub fn texel_bytes(&self) -> (n: u32)
        ensures
            n == self.spec_texel_bytes(),
    {
        match self {
            AttachmentFormat::Rgb8 => 3,
            AttachmentFormat::Rgba8 => 4,
            AttachmentFormat::R16 => 2,
            AttachmentFormat::Rg16 => 4,
        }
    }
}

/// Where the data of an attachment comes from.
#[derive(Clone, Copy, Debug, PartialEq, Eq, Structural)]
pub enum AttachmentStorage {
    /// The data is read from files.
    Disk,
    /// The data is computed when it is needed.
    Generated,
}

/// One data layer of a terrain, such as its height or its albedo.
#[derive(Debug, PartialEq, Eq)]
pub struct AttachmentConfig {
    pub name: String,
    /// The side of the texture of one node, border included.
    pub texture_resolution: u32,
    /// The width of the border that a node shares with its neighbours.
    pub border_size: u32,
    pub format: AttachmentFormat,
    pub mip_levels: u32,
    pub storage: AttachmentStorage,
}

impl AttachmentConfig {
    /// An attachment is usable if it has a name, its texture is larger than its
    /// two borders together, and it has at least one mip level.
    pub open spec fn valid(&self) -> bool {
        &&& self.name@.len() > 0
        &&& 2 * self.border_size < self.texture_resolution
        &&& self.mip_levels >= 1
    }

    /// Executable form of [`AttachmentConfig::valid`].
    pub fn is_valid(&self) -> (b: bool)
        ensures
            b == self.valid(),
    {
        !self.name.as_str().is_empty() && (self.border_size as u64) * 2 < (
        self.texture_resolution as u64) && self.mip_levels >= 1
    }

    /// The side of the part of the texture that belongs to the node alone: the
    /// texture without its two borders.
    pub open spec fn spec_center_size(&self) -> Option<u32> {
        if self.valid() {
            Some((self.texture_resolution - 2 * self.border_size) as u32)
        } else {
            None
        }
    }

    /// The side of the part of the texture that belongs to the node alone, for a
    /// usable attachment.
    pub fn center_size(&self) -> (n: Option<u32>)
        ensures
            n == self.spec_center_size(),
    {
        if self.is_valid() {
            Some(self.texture_resolution - 2 * self.border_size)
        } else {
            None
        }
    }
}

/// Whether every attachment is usable and no two have the same name.
pub open spec fn valid_attachments(attachments: Seq<AttachmentConfig>) -> bool {
    &&& attachments.len() > 0
    &&& forall|i: int| 0 <= i < attachments.len() ==> (#[trigger] attachments[i]).valid()
    &&& forall|i: int, j: int|
        0 <= i < j < attachments.len() ==> (#[trigger] attachments[i]).name@ != (
        #[trigger] attachments[j]).name@
}

/// Executable form of [`valid_attachments`].
pub fn check_attachments(attachments: &Vec<AttachmentConfig>) -> (b: bool)
    ensures
        b == valid_attachments(attachments@),
{
    if attachments.len() == 0 {
        return false;
    }
    let mut i: usize = 0;
    while i < attachments.len()
        invariant
            i <= attachments.len(),
            forall|k: int| 0 <= k < i ==> (#[trigger] attachments[k]).valid(),
            forall|k: int, j: int|
                0 <= k < j < i ==> (#[trigger] attachments[k]).name@ != (
                #[trigger] attachments[j]).name@,
        decreases attachments.len() - i,
    {
        if !attachments[i].is_valid() {
            return false;
        }
        let mut k: usize = 0;
        while k < i
            invariant
                k <= i < attachments.len(),
                forall|m: int|
                    0 <= m < k ==> (#[trigger] attachments[m]).name@
                        != attachments[i as int].name@,
            decreases i - k,
        {
            if attachments[k].name == attachments[i].name {
                return false;
            }
            k += 1;
        }
        i += 1;
    }
    true
}

/// The size of a texture array: the side of each layer and the number of layers.
#[derive(Clone, Copy, Debug, PartialEq, Eq, Structural)]
pub struct Extent {
    pub width: u32,
    pub height: u32,
    pub layers: u32,
}

/// The place of one node in the texture array of an attachment.
#[derive(Clone, Copy, Debug, PartialEq, Eq, Structural)]
pub struct CopyRegion {
    /// The layer that belongs to the slot of the node.
    pub layer: u32,
    /// The part of the layer to fill: all of it, one layer deep.
    pub extent: Extent,
}

/// The description of a terrain as a mathematical value.
pub struct TerrainConfigView {
    pub terrain_size: u32,
    pub max_lod: u8,
    pub node_atlas_size: usize,
    pub attachments: Seq<AttachmentConfig>,
    pub radius: Seq<u32>,
}

impl TerrainConfigView {
    /// A terrain can be built from a description with a positive side, levels
    /// that can be addressed, at least one slot in the atlas, usable attachments
    /// with different names, and one radius for each level.
    pub open spec fn valid(self) -> bool {
        &&& self.terrain_size > 0
        &&& self.max_lod <= MAX_LOD
        &&& self.node_atlas_size > 0
        &&& valid_attachments(self.attachments)
        &&& self.radius.len() == self.max_lod + 1
    }

    /// The size of the texture array that holds attachment `attachment` of all
    /// slots, if there is such an attachment and the slots can be counted in 32 bits.
    pub open spec fn atlas_extent(self, attachment: int) -> Option<Extent> {
        if 0 <= attachment < self.attachments.len() && self.node_atlas_size <= u32::MAX {
            Some(
                Extent {
                    width: self.attachments[attachment].texture_resolution,
                    height: self.attachments[attachment].texture_resolution,
                    layers: self.node_atlas_size as u32,
                },
            )
        } else {
            None
        }
    }

    /// The place of slot `slot` in the texture array of attachment `attachment`,
    /// if there is such a slot in such an array.
    pub open spec fn slot_region(self, attachment: int, slot: int) -> Option<CopyRegion> {
        if self.atlas_extent(attachment) is Some && 0 <= slot < self.node_atlas_size {
            Some(
                CopyRegion {
                    layer: slot as u32,
                    extent: Extent {
                        width: self.attachments[attachment].texture_resolution,
                        height: self.attachments[attachment].texture_resolution,
                        layers: 1,
                    },
                },
            )
        } else {
            None
        }
    }
}

/// The description of a terrain. It cannot be changed once it is built.
#[derive(Debug)]
pub struct TerrainConfig {
    terrain_size: u32,
    max_lod: u8,
    node_atlas_size: usize,
    attachments: Vec<AttachmentConfig>,
    radius: Vec<u32>,
}

impl View for TerrainConfig {
    type V = TerrainConfigView;

    closed spec fn view(&self) -> TerrainConfigView {
        TerrainConfigView {
            terrain_size: self.terrain_size,
            max_lod: self.max_lod,
            node_atlas_size: self.node_atlas_size,
            attachments: self.attachments@,
            radius: self.radius@,
        }
    }
}

impl TerrainConfig {
    /// Every description that was built is valid.
    #[verifier::type_invariant]
    pub open spec fn wf(&self) -> bool {
        self@.valid()
    }


    /// Checks and builds the description of a terrain of side `terrain_size`
    /// with levels 0 to `max_lod`, an atlas of `node_atlas_size` slots, the
    /// given attachments, and the given radius for each level.
    pub fn new(
        terrain_size: u32,
        max_lod: u8,
        node_atlas_size: usize,
        attachments: Vec<AttachmentConfig>,
        radius: Vec<u32>,
    ) -> (r: Result<TerrainConfig, TerrainError>)
        ensures
            ({
                let view = TerrainConfigView {
                    terrain_size,
                    max_lod,
                    node_atlas_size,
                    attachments: attachments@,
                    radius: radius@,
                };
                &&& view.valid() ==> r is Ok && r->Ok_0@ == view
                &&& !view.valid() ==> r is Err && r->Err_0 == TerrainError::InvalidConfiguration
            }),
    {
        if terrain_size == 0 || max_lod > MAX_LOD || node_atlas_size == 0 || radius.len()
            != max_lod as usize + 1 || !check_attachments(&attachments) {
            return Err(TerrainError::InvalidConfiguration);
        }
        Ok(TerrainConfig { terrain_size, max_lod, node_atlas_size, attachments, radius })
    }

    /// The side of the terrain in world units.
    pub fn terrain_size(&self) -> (n: u32)
        ensures
            n == self@.terrain_size,
    {
        self.terrain_size
    }

    /// The deepest level of the quadtree.
    pub fn max_lod(&self) -> (n: u8)
        ensures
            n == self@.max_lod,
    {
        self.max_lod
    }

    /// The number of slots of the atlas.
    pub fn node_atlas_size(&self) -> (n: usize)
        ensures
            n == self@.node_atlas_size,
    {
        self.node_atlas_size
    }

    /// The number of attachments of every node.
    pub fn attachment_count(&self) -> (n: usize)
        ensures
            n == self@.attachments.len(),
    {
        self.attachments.len()
    }

    /// The attachment with the given number.
    pub fn attachment(&self, index: usize) -> (a: Option<&AttachmentConfig>)
        ensures
            index < self@.attachments.len() ==> a == Some(&self@.attachments[index as int]),
            index >= self@.attachments.len() ==> a is None,
    {
        if index < self.attachments.len() {
            Some(&self.attachments[index])
        } else {
            None
        }
    }

    /// The number of the attachment with the given name.
    pub fn attachment_index(&self, name: &String) -> (r: Option<usize>)
        ensures
            r matches Some(i) ==> i < self@.attachments.len() && self@.attachments[i as int].name@
                == name@ && forall|k: int|
                0 <= k < self@.attachments.len() && k != i ==> (
                #[trigger] self@.attachments[k]).name@ != name@,
            r is None ==> forall|i: int|
                0 <= i < self@.attachments.len() ==> (#[trigger] self@.attachments[i]).name@
                    != name@,
    {
        proof {
            use_type_invariant(self);
        }
        let mut i: usize = 0;
        while i < self.attachments.len()
            invariant
                i <= self.attachments.len(),
                valid_attachments(self.attachments@),
                forall|k: int| 0 <= k < i ==> (#[trigger] self.attachments[k]).name@ != name@,
            decreases self.attachments.len() - i,
        {
            if self.attachments[i].name == *name {
                return Some(i);
            }
            i += 1;
        }
        None
    }

    /// The radius within which the nodes of each level are wanted.
    pub fn radius(&self) -> (r: Vec<u32>)
        ensures
            r@ == self@.radius,
    {
        let mut r: Vec<u32> = Vec::new();
        let mut i: usize = 0;
        while i < self.radius.len()
            invariant
                i <= self.radius.len(),
                r@ == self.radius@.subrange(0, i as int),
            decreases self.radius.len() - i,
        {
            r.push(self.radius[i]);
            proof {
                assert(r@ =~= self.radius@.subrange(0, i + 1));
            }
            i += 1;
        }
        proof {
            assert(r@ =~= self.radius@);
        }
        r
    }

    /// The size of the texture array that holds one attachment of all slots.
    pub fn atlas_extent(&self, attachment: usize) -> (r: Option<Extent>)
        ensures
            r == self@.atlas_extent(attachment as int),
    {
        if attachment < self.attachments.len() && self.node_atlas_size <= u32::MAX as usize {
            let side = self.attachments[attachment].texture_resolution;
            Some(Extent { width: side, height: side, layers: self.node_atlas_size as u32 })
        } else {
            None
        }
    }

    /// The place in the texture array of an attachment to which the data of the
    /// node in `slot` is copied.
    pub fn slot_region(&self, attachment: usize, slot: usize) -> (r: Option<CopyRegion>)
        ensures
            r == self@.slot_region(attachment as int, slot as int),
    {
        if attachment < self.attachments.len() && self.node_atlas_size <= u32::MAX as usize
            && slot < self.node_atlas_size {
            let side = self.attachments[attachment].texture_resolution;
            Some(
                CopyRegion {
                    layer: slot as u32,
                    extent: Extent { width: side, height: side, layers: 1 },
                },
            )
        } else {
            None
        }
    }
}

} // verus!
