use pkgbuild_updater::descriptor::{
    read_current_version, reset_revision, write_checksums, write_version, ReadVersionError,
};

const SAMPLE: &str = "# Maintainer: someone\npkgname=biome\npkgver=1.2.0\npkgrel=3\nsha256sums_x86_64=('oldx')\nsha256sums_aarch64=('olda')\n";

#[test]
fn read_returns_version_up_to_line_break() {
    assert_eq!(read_current_version(SAMPLE), Ok(String::from("1.2.0")));
}

#[test]
fn read_stops_at_first_line_break() {
    let text = "pkgver=9.8.7\npkgver=0.0.0\n";
    assert_eq!(read_current_version(text), Ok(String::from("9.8.7")));
}

#[test]
fn read_fails_without_marker() {
    let text = "pkgname=biome\npkgrel=1\n";
    assert_eq!(read_current_version(text), Err(ReadVersionError::NoPkgverFound));
}

#[test]
fn read_fails_distinctly_without_trailing_line() {
    let text = "pkgname=biome\npkgver=1.2.0";
    assert_eq!(read_current_version(text), Err(ReadVersionError::NoLineAfterPkgver));
}

#[test]
fn write_version_round_trip() {
    let updated = write_version(SAMPLE, "1.3.0");
    assert_eq!(read_current_version(&updated), Ok(String::from("1.3.0")));
}

#[test]
fn write_version_touches_only_the_version_line() {
    let updated = write_version(SAMPLE, "1.3.0");
    let expected = "# Maintainer: someone\npkgname=biome\npkgver=1.3.0\npkgrel=3\nsha256sums_x86_64=('oldx')\nsha256sums_aarch64=('olda')\n";
    assert_eq!(updated, expected);
}

#[test]
fn write_version_other_lines_byte_identical() {
    let updated = write_version(SAMPLE, "10.20.30");
    let before: Vec<&str> = SAMPLE.split('\n').collect();
    let after: Vec<&str> = updated.split('\n').collect();
    assert_eq!(before.len(), after.len());
    for (b, a) in before.iter().zip(after.iter()) {
        if b.starts_with("pkgver=") {
            assert_eq!(*a, "pkgver=10.20.30");
        } else {
            assert_eq!(a, b);
        }
    }
}

#[test]
fn reset_revision_sets_counter_to_one() {
    let updated = reset_revision(SAMPLE);
    let expected = "# Maintainer: someone\npkgname=biome\npkgver=1.2.0\npkgrel=1\nsha256sums_x86_64=('oldx')\nsha256sums_aarch64=('olda')\n";
    assert_eq!(updated, expected);
}

#[test]
fn reset_revision_without_field_is_identity() {
    let text = "pkgname=biome\npkgver=1.2.0\n";
    assert_eq!(reset_revision(text), text);
}

#[test]
fn write_checksums_x64_only() {
    let updated = write_checksums(SAMPLE, Some("newx"), None);
    let expected = "# Maintainer: someone\npkgname=biome\npkgver=1.2.0\npkgrel=3\nsha256sums_x86_64=('newx')\nsha256sums_aarch64=('olda')\n";
    assert_eq!(updated, expected);
}

#[test]
fn write_checksums_arm64_only() {
    let updated = write_checksums(SAMPLE, None, Some("newa"));
    let expected = "# Maintainer: someone\npkgname=biome\npkgver=1.2.0\npkgrel=3\nsha256sums_x86_64=('oldx')\nsha256sums_aarch64=('newa')\n";
    assert_eq!(updated, expected);
}

#[test]
fn write_checksums_both() {
    let updated = write_checksums(SAMPLE, Some("newx"), Some("newa"));
    let expected = "# Maintainer: someone\npkgname=biome\npkgver=1.2.0\npkgrel=3\nsha256sums_x86_64=('newx')\nsha256sums_aarch64=('newa')\n";
    assert_eq!(updated, expected);
}

#[test]
fn write_checksums_none_is_identity() {
    assert_eq!(write_checksums(SAMPLE, None, None), SAMPLE);
}

#[test]
fn rewrites_preserve_missing_trailing_newline() {
    let text = "pkgver=1.0.0\npkgrel=2";
    assert_eq!(reset_revision(text), "pkgver=1.0.0\npkgrel=1");
}
