use pkgbuild_updater::digest::Asset;
use pkgbuild_updater::plan::{plan_update, Release, UpdatePlan};

fn release(tag: &str, prerelease: bool, assets: Vec<Asset>) -> Release {
    Release { tag_name: String::from(tag), prerelease, assets }
}

fn linux_assets() -> Vec<Asset> {
    vec![
        Asset {
            name: String::from("biome-linux-x64"),
            digest: Some(String::from("sha256:hx 0644")),
        },
        Asset {
            name: String::from("biome-linux-x64-musl"),
            digest: Some(String::from("sha256:hm 0644")),
        },
        Asset {
            name: String::from("biome-linux-arm64"),
            digest: Some(String::from("sha256:ha 0644")),
        },
    ]
}

#[test]
fn equal_version_texts_mean_nothing_to_do() {
    let r = release("@biomejs/biome@1.2.0", false, linux_assets());
    assert!(matches!(plan_update("1.2.0", &r), UpdatePlan::AlreadyCurrent));
}

#[test]
fn newer_release_updates_and_resets_revision() {
    let r = release("@biomejs/biome@1.3.0", false, linux_assets());
    match plan_update("1.2.0", &r) {
        UpdatePlan::Update { downgrade, new_version, x64_sum, arm64_sum } => {
            assert!(!downgrade);
            assert_eq!(new_version, "1.3.0");
            assert_eq!(x64_sum, Some(String::from("hx")));
            assert_eq!(arm64_sum, Some(String::from("ha")));
        },
        other => panic!("expected an update, got {:?}", other),
    }
}

#[test]
fn older_release_still_rewrites_but_flags_the_downgrade() {
    let r = release("@biomejs/biome@1.2.0", false, linux_assets());
    match plan_update("1.3.0", &r) {
        UpdatePlan::Update { downgrade, new_version, x64_sum, arm64_sum } => {
            assert!(downgrade);
            assert_eq!(new_version, "1.2.0");
            assert_eq!(x64_sum, Some(String::from("hx")));
            assert_eq!(arm64_sum, Some(String::from("ha")));
        },
        other => panic!("expected an update, got {:?}", other),
    }
}

#[test]
fn build_metadata_breaks_raw_equality_but_still_orders() {
    let r = release("@biomejs/biome@1.2.0+build.5", false, linux_assets());
    match plan_update("1.2.0", &r) {
        UpdatePlan::Update { downgrade, new_version, .. } => {
            assert!(!downgrade);
            assert_eq!(new_version, "1.2.0+build.5");
        },
        other => panic!("expected an update for differing build metadata, got {:?}", other),
    }
}

#[test]
fn foreign_tag_is_rejected() {
    let r = release("v1.3.0", false, linux_assets());
    assert!(matches!(plan_update("1.2.0", &r), UpdatePlan::NotProjectRelease));
}

#[test]
fn other_product_tag_is_rejected() {
    let r = release("@biomejs/biome-js-api@1.3.0", false, linux_assets());
    assert!(matches!(plan_update("1.2.0", &r), UpdatePlan::NotProjectRelease));
}

#[test]
fn prerelease_is_rejected() {
    let r = release("@biomejs/biome@1.3.0", true, linux_assets());
    assert!(matches!(plan_update("1.2.0", &r), UpdatePlan::Prerelease));
}

#[test]
fn unparsable_descriptor_version_is_fatal() {
    let r = release("@biomejs/biome@1.3.0", false, linux_assets());
    assert!(matches!(plan_update("not-a-version", &r), UpdatePlan::CurrentVersionInvalid));
}

#[test]
fn unparsable_release_version_is_fatal() {
    let r = release("@biomejs/biome@nightly", false, linux_assets());
    assert!(matches!(plan_update("1.2.0", &r), UpdatePlan::LatestVersionInvalid));
}

#[test]
fn update_without_matching_assets_carries_no_checksums() {
    let r = release("@biomejs/biome@1.3.0", false, Vec::new());
    match plan_update("1.2.0", &r) {
        UpdatePlan::Update { downgrade, new_version, x64_sum, arm64_sum } => {
            assert!(!downgrade);
            assert_eq!(new_version, "1.3.0");
            assert_eq!(x64_sum, None);
            assert_eq!(arm64_sum, None);
        },
        other => panic!("expected an update, got {:?}", other),
    }
}
