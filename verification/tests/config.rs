use bevy_terrain::config::{
    check_attachments, AttachmentConfig, AttachmentFormat, AttachmentStorage, CopyRegion, Extent,
    TerrainConfig,
};
use bevy_terrain::error::TerrainError;
use bevy_terrain::{TerrainBundle, TerrainPlugin};

fn attachment(name: &str, resolution: u32, border: u32) -> AttachmentConfig {
    AttachmentConfig {
        name: name.to_string(),
        texture_resolution: resolution,
        border_size: border,
        format: AttachmentFormat::R16,
        mip_levels: 1,
        storage: AttachmentStorage::Disk,
    }
}

fn two() -> Vec<AttachmentConfig> {
    vec![attachment("heightmap", 132, 2), attachment("albedo", 128, 0)]
}

#[test]
fn texel_sizes() {
    assert_eq!(AttachmentFormat::Rgb8.texel_bytes(), 3);
    assert_eq!(AttachmentFormat::Rgba8.texel_bytes(), 4);
    assert_eq!(AttachmentFormat::R16.texel_bytes(), 2);
    assert_eq!(AttachmentFormat::Rg16.texel_bytes(), 4);
}

#[test]
fn an_attachment_needs_a_name_a_texture_and_a_mip_level() {
    assert!(attachment("heightmap", 132, 2).is_valid());
    assert!(attachment("h", 1, 0).is_valid());
    assert!(!attachment("", 132, 2).is_valid());
    assert!(!attachment("heightmap", 0, 0).is_valid());
    assert!(!attachment("heightmap", 4, 2).is_valid());
    assert!(attachment("heightmap", 5, 2).is_valid());
    assert!(!attachment("heightmap", u32::MAX, u32::MAX).is_valid());
    let mut a = attachment("heightmap", 132, 2);
    a.mip_levels = 0;
    assert!(!a.is_valid());
    assert_eq!(attachment("heightmap", 132, 2).center_size(), Some(128));
    assert_eq!(attachment("heightmap", 5, 2).center_size(), Some(1));
    assert_eq!(attachment("heightmap", 4, 2).center_size(), None);
}

#[test]
fn attachments_need_different_names() {
    assert!(check_attachments(&two()));
    assert!(!check_attachments(&vec![]));
    let repeated = vec![attachment("a", 8, 0), attachment("b", 8, 0), attachment("a", 16, 1)];
    assert!(!check_attachments(&repeated));
    assert!(!check_attachments(&vec![attachment("a", 8, 0), attachment("b", 8, 4)]));
}

#[test]
fn a_config_is_checked_when_it_is_built() {
    let config = TerrainConfig::new(1024, 2, 4, two(), vec![0, 100, 50]).unwrap();
    assert_eq!(config.terrain_size(), 1024);
    assert_eq!(config.max_lod(), 2);
    assert_eq!(config.node_atlas_size(), 4);
    assert_eq!(config.attachment_count(), 2);
    assert_eq!(config.radius(), vec![0, 100, 50]);
    assert_eq!(config.attachment(1), Some(&attachment("albedo", 128, 0)));
    assert_eq!(config.attachment(2), None);
    assert_eq!(config.attachment_index(&"albedo".to_string()), Some(1));
    assert_eq!(config.attachment_index(&"normal".to_string()), None);

    let invalid = Some(TerrainError::InvalidConfiguration);
    assert_eq!(TerrainConfig::new(0, 2, 4, two(), vec![0, 100, 50]).err(), invalid);
    assert_eq!(TerrainConfig::new(1024, 33, 4, two(), vec![0; 34]).err(), invalid);
    assert_eq!(TerrainConfig::new(1024, 2, 0, two(), vec![0, 100, 50]).err(), invalid);
    assert_eq!(TerrainConfig::new(1024, 2, 4, vec![], vec![0, 100, 50]).err(), invalid);
    assert_eq!(TerrainConfig::new(1024, 2, 4, two(), vec![0, 100]).err(), invalid);
    assert_eq!(
        TerrainConfig::new(1024, 2, 4, vec![attachment("", 8, 0)], vec![0, 100, 50]).err(),
        invalid
    );
    let repeated = vec![attachment("a", 8, 0), attachment("a", 8, 0)];
    assert_eq!(TerrainConfig::new(1024, 2, 4, repeated, vec![0, 100, 50]).err(), invalid);
}

#[test]
fn the_atlas_texture_has_one_layer_for_each_slot() {
    let config = TerrainConfig::new(1024, 2, 4, two(), vec![0, 100, 50]).unwrap();
    assert_eq!(config.atlas_extent(0), Some(Extent { width: 132, height: 132, layers: 4 }));
    assert_eq!(config.atlas_extent(1), Some(Extent { width: 128, height: 128, layers: 4 }));
    assert_eq!(config.atlas_extent(2), None);
    assert_eq!(
        config.slot_region(0, 3),
        Some(CopyRegion { layer: 3, extent: Extent { width: 132, height: 132, layers: 1 } })
    );
    assert_eq!(config.slot_region(0, 4), None);
    assert_eq!(config.slot_region(2, 0), None);
    let huge = TerrainConfig::new(1024, 2, 1 << 32, two(), vec![0, 100, 50]).unwrap();
    assert_eq!(huge.atlas_extent(0), None);
    assert_eq!(huge.slot_region(0, 0), None);
}

#[test]
fn a_bundle_holds_an_empty_atlas_of_the_configured_size() {
    let config = TerrainConfig::new(1024, 2, 4, two(), vec![0, 100, 50]).unwrap();
    let bundle = TerrainBundle::new(config);
    assert_eq!(bundle.node_atlas().capacity(), 4);
    assert_eq!(bundle.node_atlas().attachment_count(), 2);
    assert_eq!(bundle.node_atlas().resident_count(), 0);
    assert_eq!(bundle.config().terrain_size(), 1024);
    let (_, atlas, config) = bundle.into_parts();
    assert_eq!(atlas.capacity(), config.node_atlas_size());
}

#[test]
fn the_plugin_expects_two_attachments_by_default() {
    let plugin = TerrainPlugin::default();
    assert_eq!(plugin.attachment_count, 2);
    let config = TerrainConfig::new(1024, 2, 4, two(), vec![0, 100, 50]).unwrap();
    assert!(plugin.accepts(&config));
    assert!(!TerrainPlugin { attachment_count: 3 }.accepts(&config));
}
