use pkgbuild_updater::digest::{
    arch_of_name, get_sha256, select_checksums, ArchType, Asset,
};

#[test]
fn digest_hash_between_marker_and_space() {
    assert_eq!(get_sha256("sha256:abcdef 0644"), Some(String::from("abcdef")));
}

#[test]
fn digest_without_marker_yields_none() {
    assert_eq!(get_sha256("md5:abcdef 0644"), None);
}

#[test]
fn digest_without_following_space_yields_none() {
    assert_eq!(get_sha256("sha256:abcdef"), None);
}

#[test]
fn digest_empty_hash() {
    assert_eq!(get_sha256("sha256: 0644"), Some(String::from("")));
}

#[test]
fn arch_classification() {
    assert_eq!(arch_of_name("biome-linux-arm64"), ArchType::Arm64);
    assert_eq!(arch_of_name("biome-linux-x64"), ArchType::X64);
    assert_eq!(arch_of_name("anything-else"), ArchType::X64);
}

#[test]
fn arch_default_is_x64() {
    assert_eq!(ArchType::default(), ArchType::X64);
}

fn asset(name: &str, digest: Option<&str>) -> Asset {
    Asset { name: String::from(name), digest: digest.map(String::from) }
}

#[test]
fn selection_excludes_musl_and_maps_architectures() {
    let assets = vec![
        asset("biome-linux-x64", Some("sha256:hx 0644")),
        asset("biome-linux-x64-musl", Some("sha256:hm 0644")),
        asset("biome-linux-arm64", Some("sha256:ha 0644")),
    ];
    let (x64, arm64) = select_checksums(&assets);
    assert_eq!(x64, Some(String::from("hx")));
    assert_eq!(arm64, Some(String::from("ha")));
}

#[test]
fn selection_skips_foreign_and_digestless_assets() {
    let assets = vec![
        asset("biome-darwin-x64", Some("sha256:hd 0644")),
        asset("biome-linux-x64", None),
        asset("biome-linux-arm64", Some("sha256:ha 0644")),
    ];
    let (x64, arm64) = select_checksums(&assets);
    assert_eq!(x64, None);
    assert_eq!(arm64, Some(String::from("ha")));
}

#[test]
fn selection_last_asset_wins_per_architecture() {
    let assets = vec![
        asset("biome-linux-x64", Some("sha256:first 0644")),
        asset("biome-linux-x64", Some("sha256:second 0644")),
    ];
    let (x64, arm64) = select_checksums(&assets);
    assert_eq!(x64, Some(String::from("second")));
    assert_eq!(arm64, None);
}

#[test]
fn selection_of_no_assets_is_empty() {
    let (x64, arm64) = select_checksums(&Vec::new());
    assert_eq!(x64, None);
    assert_eq!(arm64, None);
}
