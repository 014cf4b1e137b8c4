//! The streaming core of a terrain renderer for height fields of any size.
//!
//! A terrain is far too large to keep all of its data in memory. It is therefore
//! cut into a quadtree of nodes, and the data of a node is loaded when a viewer
//! comes near and dropped when nobody needs it any more. Two structures work
//! together: the [`node_atlas::NodeAtlas`], a table of a fixed number of slots
//! that holds the resident nodes, and one [`quadtree_view::QuadtreeView`] for each
//! viewer, which knows what that viewer wants and answers, for any position, with
//! the best node that is usable right now. The [`driver::StreamingDriver`] keeps
//! the two in line, tick by tick.

use crate::atlas::AtlasView;
use crate::config::TerrainConfig;
use crate::node_atlas::NodeAtlas;
use vstd::prelude::*;

pub mod atlas;
pub mod config;
pub mod driver;
pub mod error;
pub mod laws;
pub mod node;
pub mod node_atlas;
pub mod node_list;
pub mod quadtree;
pub mod quadtree_view;
pub mod streaming;

verus! {

/// Marks a terrain.
#[derive(Clone, Copy, Debug, PartialEq, Eq, Structural)]
pub struct Terrain;

/// The components of a terrain: its marker, its node atlas and its description.
pub struct TerrainBundle {
    terrain: Terrain,
    node_atlas: NodeAtlas,
    config: TerrainConfig,
}

impl TerrainBundle {
    /// What holds of every bundle: its atlas is the empty atlas of the size and
    /// the attachment count of its description.
    #[verifier::type_invariant]
    pub closed spec fn wf(&self) -> bool {
        &&& self.config.wf()
        &&& self.node_atlas.wf()
        &&& self.node_atlas@ == AtlasView::empty(
            self.config@.node_atlas_size as nat,
            self.config@.attachments.len(),
        )
    }

    /// The description of the terrain.
    pub closed spec fn spec_config(&self) -> TerrainConfig {
        self.config
    }

    /// The node atlas of the terrain.
    pub closed spec fn spec_node_atlas(&self) -> NodeAtlas {
        self.node_atlas
    }

    /// Creates a new terrain bundle from the config. The atlas of the bundle is empty.
    pub fn new(config: TerrainConfig) -> (bundle: Self)
        ensures
            bundle.spec_config() == config,
            bundle.spec_node_atlas()@ == AtlasView::empty(
                config@.node_atlas_size as nat,
                config@.attachments.len(),
            ),
    {
        Self { terrain: Terrain, node_atlas: NodeAtlas::from_config(&config), config }
    }

    /// The description of the terrain.
    pub fn config(&self) -> (c: &TerrainConfig)
        ensures
            *c == self.spec_config(),
    {
        &self.config
    }

    /// The node atlas of the terrain.
    pub fn node_atlas(&self) -> (a: &NodeAtlas)
        ensures
            *a == self.spec_node_atlas(),
            a.wf(),
    {
        proof {
            use_type_invariant(self);
        }
        &self.node_atlas
    }

    /// Takes the bundle apart.
    pub fn into_parts(self) -> (parts: (Terrain, NodeAtlas, TerrainConfig))
        ensures
            parts.1 == self.spec_node_atlas(),
            parts.2 == self.spec_config(),
            parts.1.wf(),
            parts.2.wf(),
            parts.1@ == AtlasView::empty(
                parts.2@.node_atlas_size as nat,
                parts.2@.attachments.len(),
            ),
    {
        proof {
            use_type_invariant(&self);
        }
        (self.terrain, self.node_atlas, self.config)
    }
}

/// The plugin for the terrain renderer.
#[derive(Clone, Copy, Debug, PartialEq, Eq, Structural)]
pub struct TerrainPlugin {
    /// The number of terrain attachments.
    pub attachment_count: usize,
}

impl Default for TerrainPlugin {
    fn default() -> (plugin: Self)
        ensures
            plugin.attachment_count == 2,
    {
        Self { attachment_count: 2 }
    }
}

impl TerrainPlugin {
    /// Whether a terrain of this description can be rendered with this plugin:
    /// it has as many attachments as the plugin was set up for.
    pub fn accepts(&self, config: &TerrainConfig) -> (b: bool)
        ensures
            b == (config@.attachments.len() == self.attachment_count),
    {
        config.attachment_count() == self.attachment_count
    }
}

} // verus!
