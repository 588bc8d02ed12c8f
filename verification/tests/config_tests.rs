use valence_terrain::BlockId;
use valence_terrain::BlockRegistry;
use valence_terrain::ConfigError;
use valence_terrain::NoiseBuilder;
use valence_terrain::SerializableTerrainGenConfig;
use valence_terrain::TerrainGenConfig;

fn registry() -> BlockRegistry {
    let mut reg = BlockRegistry::new();
    reg.register("stone".to_owned(), BlockId(1));
    reg.register("dirt".to_owned(), BlockId(2));
    reg.register("grass_block".to_owned(), BlockId(3));
    reg
}

#[test]
fn registry_lookup() {
    let reg = registry();
    assert_eq!(reg.lookup(&"dirt".to_owned()), Some(BlockId(2)));
    assert_eq!(reg.lookup(&"lava".to_owned()), None);
}

#[test]
fn config_parses_whole_profile() {
    let cfg = SerializableTerrainGenConfig {
        block: "stone".to_owned(),
        surface_layers: vec![(3, "dirt".to_owned()), (1, "grass_block".to_owned())],
        noise: "c 10".to_owned(),
        height: 128,
    };
    let parsed = cfg.parse(&registry()).unwrap();
    assert_eq!(parsed.block, BlockId(1));
    assert_eq!(parsed.surface_layers, vec![(3, BlockId(2)), (1, BlockId(3))]);
    assert_eq!(parsed.height, 128);
    assert!(matches!(parsed.noise, NoiseBuilder::Constant(_)));
}

#[test]
fn config_reports_invalid_layer_identifier_first() {
    let cfg = SerializableTerrainGenConfig {
        block: "also_bad".to_owned(),
        surface_layers: vec![(3, "dirt".to_owned()), (1, "bad_layer".to_owned())],
        noise: "c 10".to_owned(),
        height: 128,
    };
    match cfg.parse(&registry()) {
        Err(ConfigError::InvalidBlock(name)) => assert_eq!(name, "bad_layer"),
        _ => panic!("expected the layer identifier to be reported"),
    }
}

#[test]
fn config_reports_invalid_base_identifier() {
    let cfg = SerializableTerrainGenConfig {
        block: "bedrock".to_owned(),
        surface_layers: vec![(1, "dirt".to_owned())],
        noise: "c 10".to_owned(),
        height: 128,
    };
    match cfg.parse(&registry()) {
        Err(ConfigError::InvalidBlock(name)) => assert_eq!(name, "bedrock"),
        _ => panic!("expected the base identifier to be reported"),
    }
}

#[test]
fn config_reports_noise_expression_error() {
    let cfg = SerializableTerrainGenConfig {
        block: "stone".to_owned(),
        surface_layers: vec![(1, "dirt".to_owned())],
        noise: "add c 1".to_owned(),
        height: 128,
    };
    assert!(matches!(cfg.parse(&registry()), Err(ConfigError::Expr(_))));
}

#[test]
fn default_profile() {
    let cfg = TerrainGenConfig::default();
    assert_eq!(cfg.height, 384);
    assert_eq!(cfg.surface_layers.len(), 1);
    assert_eq!(cfg.surface_layers[0].0, 1);
    match &cfg.noise {
        NoiseBuilder::Constant(t) => assert_eq!(t, "64"),
        _ => panic!("default noise is a constant"),
    }
}
