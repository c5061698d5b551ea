use zanbil::channel::{decode, encode, Dependency};
use zanbil::config::ZanbilConf;
use zanbil::unit::{collect_dep_entries, lowercase_name, InitError, ZanbilCrate};

fn bv(dirs: &[&[u8]]) -> Vec<Vec<u8>> {
    dirs.iter().map(|d| d.to_vec()).collect()
}

fn defaults() -> ZanbilConf {
    ZanbilConf { cpp: None, make_dependencies_public: false }
}

#[test]
fn missing_link_name_aborts_first() {
    let garbage_env = vec![(b"DEP_X_ZANBIL_HDRS".to_vec(), b"!!! not decodable !!!".to_vec())];
    let r = ZanbilCrate::init(None, b"/out/hdrs".to_vec(), defaults(), &garbage_env);
    assert!(matches!(r, Err(InitError::MissingLinkName)));
}

#[test]
fn undecodable_upstream_value_is_fatal() {
    let env = vec![(b"DEP_X_ZANBIL_HDRS".to_vec(), b"!!! not decodable !!!".to_vec())];
    let r = ZanbilCrate::init(Some(b"demo".to_vec()), b"/out/hdrs".to_vec(), defaults(), &env);
    assert!(matches!(r, Err(InitError::BadDependency)));
}

#[test]
fn foreign_environment_entries_are_ignored() {
    let env = vec![
        (b"PATH".to_vec(), b"/usr/bin".to_vec()),
        (b"DEP_FOO_SOMETHING_ELSE".to_vec(), b"zzz".to_vec()),
        (b"ZANBIL_HDRS".to_vec(), b"zzz".to_vec()),
        (b"DEP_ZANBIL_HDRS".to_vec(), b"zzz".to_vec()),
    ];
    assert_eq!(collect_dep_entries(&env), vec![]);
    let unit =
        ZanbilCrate::init(Some(b"demo".to_vec()), b"/own".to_vec(), defaults(), &env).unwrap();
    assert_eq!(unit.dependencies.len(), 0);
    assert_eq!(unit.aggregated_header_dirs, bv(&[b"/own"]));
}

#[test]
fn channel_entries_are_recognized_and_named() {
    let value = encode(&Dependency { dirs: bv(&[b"/up"]) }).unwrap();
    let env = vec![
        (b"DEP_CORE_ZANBIL_HDRS".to_vec(), value.clone()),
        (b"DEP__ZANBIL_HDRS".to_vec(), value.clone()),
    ];
    let entries = collect_dep_entries(&env);
    assert_eq!(
        entries,
        vec![(b"CORE".to_vec(), value.clone()), (b"".to_vec(), value.clone())]
    );
    assert_eq!(lowercase_name(&b"CORE".to_vec()), b"core".to_vec());
    assert_eq!(lowercase_name(&b"A1_b".to_vec()), b"a1_b".to_vec());
}

#[test]
fn visibility_private_hides_upstream_dirs() {
    let upstream = encode(&Dependency { dirs: bv(&[b"/X", b"/Y"]) }).unwrap();
    let env = vec![(b"DEP_P1_ZANBIL_HDRS".to_vec(), upstream)];
    let unit =
        ZanbilCrate::init(Some(b"demo".to_vec()), b"/own".to_vec(), defaults(), &env).unwrap();
    let advertised = unit.republish();
    assert_eq!(advertised.dirs, bv(&[b"/own"]));
    assert!(!advertised.dirs.contains(&b"/X".to_vec()));
    assert!(!advertised.dirs.contains(&b"/Y".to_vec()));
}

#[test]
fn visibility_public_republishes_the_full_aggregate() {
    let upstream = encode(&Dependency { dirs: bv(&[b"/X", b"/Y"]) }).unwrap();
    let env = vec![(b"DEP_P1_ZANBIL_HDRS".to_vec(), upstream)];
    let conf = ZanbilConf { cpp: None, make_dependencies_public: true };
    let unit = ZanbilCrate::init(Some(b"demo".to_vec()), b"/own".to_vec(), conf, &env).unwrap();
    let advertised = unit.republish();
    assert_eq!(advertised.dirs, unit.aggregated_header_dirs);
    assert_eq!(advertised.dirs, bv(&[b"/X", b"/Y", b"/own"]));
}

#[test]
fn two_units_end_to_end() {
    // The "core" unit builds with no upstream dependencies.
    let core = ZanbilCrate::init(
        Some(b"core".to_vec()),
        b"/out/core/hdrs".to_vec(),
        defaults(),
        &vec![],
    )
    .unwrap();
    assert_eq!(core.aggregated_header_dirs, bv(&[b"/out/core/hdrs"]));
    let core_advertises = core.republish();
    assert_eq!(core_advertises.dirs, bv(&[b"/out/core/hdrs"]));

    // The "app" unit sees core's published record through the channel.
    let value = encode(&core_advertises).unwrap();
    let env = vec![(b"DEP_CORE_ZANBIL_HDRS".to_vec(), value)];
    let app = ZanbilCrate::init(
        Some(b"app".to_vec()),
        b"/out/app/hdrs".to_vec(),
        defaults(),
        &env,
    )
    .unwrap();
    assert_eq!(app.dep_names, vec![b"CORE".to_vec()]);
    assert_eq!(app.dependencies, vec![Dependency { dirs: bv(&[b"/out/core/hdrs"]) }]);
    // The compile sees both directories, in the deterministic order.
    assert_eq!(app.aggregated_header_dirs, bv(&[b"/out/app/hdrs", b"/out/core/hdrs"]));
    // Downstream consumers of "app" see only app's own directory.
    let app_advertises = app.republish();
    assert_eq!(app_advertises.dirs, bv(&[b"/out/app/hdrs"]));
    assert_eq!(decode(&encode(&app_advertises).unwrap()), Ok(app_advertises));
}
