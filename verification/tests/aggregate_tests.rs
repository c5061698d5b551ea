use zanbil::channel::Dependency;
use zanbil::unit::aggregate_dirs;

fn dep(dirs: &[&[u8]]) -> Dependency {
    Dependency { dirs: dirs.iter().map(|d| d.to_vec()).collect() }
}

fn bv(dirs: &[&[u8]]) -> Vec<Vec<u8>> {
    dirs.iter().map(|d| d.to_vec()).collect()
}

#[test]
fn own_dir_alone_with_no_upstreams() {
    let own = b"/out/core/hdrs".to_vec();
    let agg = aggregate_dirs(&own, &vec![]);
    assert_eq!(agg, bv(&[b"/out/core/hdrs"]));
}

#[test]
fn own_dir_always_member() {
    let own = b"/own".to_vec();
    let agg = aggregate_dirs(&own, &vec![dep(&[b"/a", b"/z"])]);
    assert!(agg.contains(&own));
}

#[test]
fn sorted_and_deduplicated() {
    let own = b"/m".to_vec();
    let agg = aggregate_dirs(&own, &vec![dep(&[b"/z", b"/a", b"/m", b"/a"]), dep(&[b"/a"])]);
    assert_eq!(agg, bv(&[b"/a", b"/m", b"/z"]));
}

#[test]
fn order_of_discovery_is_irrelevant() {
    let own = b"/own".to_vec();
    let one = aggregate_dirs(&own, &vec![dep(&[b"/a", b"/b"])]);
    let other = aggregate_dirs(&own, &vec![dep(&[b"/b", b"/a"])]);
    assert_eq!(one, other);
    let split = aggregate_dirs(&own, &vec![dep(&[b"/b"]), dep(&[b"/a"])]);
    assert_eq!(one, split);
}

#[test]
fn aggregation_is_idempotent() {
    let own = b"/own".to_vec();
    let records = vec![dep(&[b"/q", b"/c"]), dep(&[b"/c", b"/d"])];
    let first = aggregate_dirs(&own, &records);
    let second = aggregate_dirs(&own, &records);
    assert_eq!(first, second);
    assert_eq!(first, bv(&[b"/c", b"/d", b"/own", b"/q"]));
}
