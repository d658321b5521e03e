use std::path::PathBuf;

use photonyx::config::{
    dirty_given, output_stale,
    ColorSampleConfig, GridLayerLock, GridMosiacFraming, GridMosiacMasterLight, LayerLock, PanelLock,
    ProfileConfig, ProjectLinearStack, SampleOutputFormat, SingleFraming, SingleFramingLock, SyncPolicy,
};

fn layer(name: &str, hash: &str, out: Option<&str>) -> LayerLock {
    LayerLock {
        name: name.to_string(),
        input_hash: hash.to_string(),
        master_light: out.map(PathBuf::from),
        registered_master_light: None,
        stacked_at: None,
    }
}

#[test]
fn defaults() {
    assert_eq!(SyncPolicy::default(), SyncPolicy::Auto);
    let c = ColorSampleConfig::default();
    assert!(!c.enable_pcc);
    assert_eq!(c.output_formats, vec![SampleOutputFormat::Png, SampleOutputFormat::Jpg]);
    assert!(c.exclude_mixes.is_empty());
    let p = ProfileConfig::new("home".to_string(), None);
    assert_eq!(p.name, "home");
    assert!(p.filters.is_empty());
}

#[test]
fn layer_lookup_finds_first_match() {
    let lock = SingleFramingLock {
        master_lights: vec![layer("Ha", "a", None), layer("OIII", "b", None), layer("Ha", "c", None)],
    };
    assert_eq!(lock.find_layer("Ha").unwrap().input_hash, "a");
    assert_eq!(lock.find_layer("OIII").unwrap().input_hash, "b");
    assert!(lock.find_layer("SII").is_none());
}

#[test]
fn dirty_when_hash_changes_or_output_missing() {
    let l = layer("Ha", "abc", None);
    assert!(l.is_dirty("abc"));
    let l = layer("Ha", "abc", Some("/definitely/not/here.fits"));
    assert!(l.is_dirty("abc"));
    assert!(l.is_dirty("other"));
    assert!(l.is_registration_dirty());
    let here = PathBuf::from("/");
    let l = LayerLock { master_light: Some(here.clone()), ..layer("Ha", "abc", None) };
    assert!(!l.is_dirty("abc"));
    assert!(l.is_dirty("abd"));

    let g = GridLayerLock {
        name: "L".to_string(),
        panels: vec![PanelLock {
            name: "p1".to_string(),
            input_hash: "h".to_string(),
            master_light: Some(here),
            stacked_at: None,
        }],
        master_light: None,
        registered_master_light: None,
        stacked_at: None,
    };
    assert!(g.is_grid_dirty());
    assert!(!g.find_panel("p1").unwrap().is_dirty("h"));
    assert!(g.find_panel("p2").is_none());
}

fn stack(name: &str, filter: Option<&str>, panel: Option<&str>) -> ProjectLinearStack {
    ProjectLinearStack {
        profile: PathBuf::from("/profiles/a"),
        name: name.to_string(),
        panel: panel.map(str::to_string),
        comments: None,
        filter: filter.map(str::to_string),
        extract_background: false,
        observations: Vec::new(),
    }
}

#[test]
fn single_framing_lists_its_layers() {
    let f = SingleFraming { master_lights: vec![stack("Ha", Some("Ha"), None), stack("L", None, Some("p1"))] };
    assert_eq!(f.display_text(), "Single (2 layers)\n  - Ha [Ha]\n  - L (panel: p1)");
    let empty = SingleFraming { master_lights: Vec::new() };
    assert_eq!(empty.display_text(), "Single (0 layers)");
}

#[test]
fn grid_mosaic_lists_its_panels() {
    let f = GridMosiacFraming {
        master_lights: vec![
            GridMosiacMasterLight { name: "P1".into(), filter: Some("OIII".into()), panels: vec![stack("a", None, None)] },
            GridMosiacMasterLight { name: "P2".into(), filter: None, panels: Vec::new() },
        ],
    };
    assert_eq!(f.display_text(), "Grid Mosaic (2 panels)\n  - P1 [OIII] (1 stacks)\n  - P2 (0 stacks)");
}

#[test]
fn dirty_given_decides_from_hash_output_and_disk() {
    let out = Some(PathBuf::from("/tmp/master.fits"));
    assert!(!dirty_given("abc", "abc", &out, true));
    assert!(dirty_given("abc", "abc", &out, false));
    assert!(dirty_given("abc", "abd", &out, true));
    assert!(dirty_given("abc", "abc", &None, true));
    assert!(!output_stale(&out, true));
    assert!(output_stale(&out, false));
    assert!(output_stale(&None, true));
}
