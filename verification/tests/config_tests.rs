use zanbil::config::{conf_from_fields, load_unit_config, ConfigError, ZanbilConf};

#[test]
fn defaults_without_a_block() {
    let conf = load_unit_config("[package]\nname = \"demo\"\n").unwrap();
    assert_eq!(conf, ZanbilConf { cpp: None, make_dependencies_public: false });
}

#[test]
fn defaults_on_empty_manifest() {
    let conf = load_unit_config("").unwrap();
    assert_eq!(conf, ZanbilConf { cpp: None, make_dependencies_public: false });
}

#[test]
fn reads_both_options() {
    let manifest = "[package]\nname = \"demo\"\n[package.metadata.zanbil]\ncpp = 17\nmake_dependencies_public = true\n";
    let conf = load_unit_config(manifest).unwrap();
    assert_eq!(conf, ZanbilConf { cpp: Some(17), make_dependencies_public: true });
}

#[test]
fn absent_fields_default_individually() {
    let manifest = "[package.metadata.zanbil]\ncpp = 23\n";
    let conf = load_unit_config(manifest).unwrap();
    assert_eq!(conf, ZanbilConf { cpp: Some(23), make_dependencies_public: false });
}

#[test]
fn malformed_block_degrades_to_defaults() {
    let wrong_type = "[package.metadata.zanbil]\ncpp = \"seventeen\"\nmake_dependencies_public = true\n";
    let conf = load_unit_config(wrong_type).unwrap();
    assert_eq!(conf, ZanbilConf { cpp: None, make_dependencies_public: false });

    let out_of_range = "[package.metadata.zanbil]\ncpp = 300\nmake_dependencies_public = true\n";
    let conf = load_unit_config(out_of_range).unwrap();
    assert_eq!(conf, ZanbilConf { cpp: None, make_dependencies_public: false });

    let bad_bool = "[package.metadata.zanbil]\ncpp = 11\nmake_dependencies_public = 1\n";
    let conf = load_unit_config(bad_bool).unwrap();
    assert_eq!(conf, ZanbilConf { cpp: None, make_dependencies_public: false });
}

#[test]
fn unparsable_manifest_is_fatal() {
    assert_eq!(load_unit_config("= = ["), Err(ConfigError::Unparsable));
}

#[test]
fn field_decisions_are_exact() {
    let defaults = ZanbilConf { cpp: None, make_dependencies_public: false };
    assert_eq!(conf_from_fields(None, None), defaults);
    assert_eq!(
        conf_from_fields(None, Some(Some(true))),
        ZanbilConf { cpp: None, make_dependencies_public: true }
    );
    assert_eq!(
        conf_from_fields(Some(Some(0)), Some(Some(false))),
        ZanbilConf { cpp: Some(0), make_dependencies_public: false }
    );
    assert_eq!(
        conf_from_fields(Some(Some(255)), None),
        ZanbilConf { cpp: Some(255), make_dependencies_public: false }
    );
    assert_eq!(conf_from_fields(Some(Some(256)), Some(Some(true))), defaults);
    assert_eq!(conf_from_fields(Some(Some(-1)), None), defaults);
    assert_eq!(conf_from_fields(Some(None), Some(Some(true))), defaults);
    assert_eq!(conf_from_fields(Some(Some(20)), Some(None)), defaults);
}
