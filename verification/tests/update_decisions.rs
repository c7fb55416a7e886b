use std::path::Path;
use vicharak_update::update::{
    available_packages, get_pacman_wrapper, OSType, Package, PacmanWrapper, VicharakPackages,
};

fn package(name: &str, version: (u8, u8, u8), os: OSType) -> Package {
    Package { name: name.to_string(), version, os }
}

fn record(entries: &[(&str, (u8, u8, u8))]) -> VicharakPackages {
    let mut packages = VicharakPackages::new();
    for (name, version) in entries {
        packages.add_package(package(name, *version, OSType::Debian));
    }
    packages
}

fn names(packages: &[Package]) -> Vec<String> {
    packages.iter().map(|p| p.name.clone()).collect()
}

#[test]
fn two_packages_are_kept_up_to_date() {
    assert_eq!(available_packages(), ["vicharak-firmware", "vicharak-config"]);
}

#[test]
fn host_family_goes_by_pacman_then_apt() {
    assert_eq!(OSType::of_host(true, false), OSType::Arch);
    assert_eq!(OSType::of_host(true, true), OSType::Arch);
    assert_eq!(OSType::of_host(false, true), OSType::Debian);
    assert_eq!(OSType::of_host(false, false), OSType::Unknown);
}

#[test]
fn front_end_goes_by_yay_then_paru() {
    assert_eq!(PacmanWrapper::of_host(true, false), PacmanWrapper::Yay);
    assert_eq!(PacmanWrapper::of_host(true, true), PacmanWrapper::Yay);
    assert_eq!(PacmanWrapper::of_host(false, true), PacmanWrapper::Paru);
    assert_eq!(PacmanWrapper::of_host(false, false), PacmanWrapper::Pacman);
}

#[test]
fn host_family_of_this_machine_matches_its_binaries() {
    let expected =
        OSType::of_host(Path::new("/usr/bin/pacman").exists(), Path::new("/usr/bin/apt").exists());
    assert_eq!(Package::get_host_os_type(), expected);
}

#[test]
fn front_end_of_this_machine_matches_its_binaries() {
    let expected = PacmanWrapper::of_host(
        Path::new("/usr/bin/yay").exists(),
        Path::new("/usr/bin/paru").exists(),
    );
    assert_eq!(get_pacman_wrapper().unwrap(), expected);
}

#[test]
fn new_package_keeps_name_and_version() {
    let p = Package::new("vicharak-config".to_string(), (1, 2, 3));
    assert_eq!(p.name, "vicharak-config");
    assert_eq!(p.version, (1, 2, 3));
    assert_eq!(p.os, Package::get_host_os_type());
}

#[test]
fn clone_keeps_every_field() {
    let p = package("a", (4, 5, 6), OSType::Arch);
    let q = p.clone();
    assert_eq!(q.name, "a");
    assert_eq!(q.version, (4, 5, 6));
    assert_eq!(q.os, OSType::Arch);
}

#[test]
fn urls_are_built_around_the_name() {
    assert_eq!(
        Package::pkgbuild_url("vicharak-firmware"),
        "https://raw.githubusercontent.com/vicharak-in/vicharak-PKGBUILDS/vicharak-firmware/master/PKGBUILD"
    );
    assert_eq!(
        Package::changelog_url("vicharak-config"),
        "http://github.com/vicharak-in/vicharak-config/raw/master/debian/changelog"
    );
    assert_eq!(
        Package::pkgbuild_url(""),
        "https://raw.githubusercontent.com/vicharak-in/vicharak-PKGBUILDS//master/PKGBUILD"
    );
}

#[test]
fn new_list_is_empty_and_grows_at_the_end() {
    let mut packages = VicharakPackages::new();
    assert!(packages.packages.is_empty());
    assert!(VicharakPackages::default().packages.is_empty());
    packages.add_package(package("a", (1, 0, 0), OSType::Arch));
    packages.add_package(package("b", (2, 0, 0), OSType::Debian));
    packages.add_package(package("a", (3, 0, 0), OSType::Unknown));
    assert_eq!(names(&packages.packages), ["a", "b", "a"]);
    assert_eq!(packages.packages[2].version, (3, 0, 0));
    assert_eq!(packages.packages[2].os, OSType::Unknown);
}

#[test]
fn current_version_is_that_of_the_first_record_of_the_name() {
    let installed = record(&[("a", (1, 0, 0)), ("b", (2, 0, 0)), ("a", (3, 0, 0))]);
    assert_eq!(Package::get_current_version("a", &installed), Some((1, 0, 0)));
    assert_eq!(Package::get_current_version("b", &installed), Some((2, 0, 0)));
    assert_eq!(Package::get_current_version("c", &installed), None);
    assert_eq!(Package::get_current_version("", &installed), None);
    assert_eq!(Package::get_current_version("A", &installed), None);
    assert_eq!(Package::get_current_version("a", &VicharakPackages::new()), None);
}

#[test]
fn update_is_due_when_the_recorded_version_is_older() {
    let installed = record(&[("a", (1, 2, 3))]);
    assert!(package("a", (1, 2, 4), OSType::Arch).check_update(&installed));
    assert!(package("a", (1, 3, 0), OSType::Arch).check_update(&installed));
    assert!(package("a", (2, 0, 0), OSType::Arch).check_update(&installed));
    assert!(package("a", (1, 10, 0), OSType::Arch).check_update(&installed));
}

#[test]
fn no_update_is_due_when_equal_older_or_unrecorded() {
    let installed = record(&[("a", (1, 2, 3))]);
    assert!(!package("a", (1, 2, 3), OSType::Arch).check_update(&installed));
    assert!(!package("a", (1, 2, 2), OSType::Arch).check_update(&installed));
    assert!(!package("a", (0, 3, 0), OSType::Arch).check_update(&installed));
    assert!(!package("a", (0, 0, 0), OSType::Arch).check_update(&installed));
    assert!(!package("b", (9, 9, 9), OSType::Arch).check_update(&installed));
    assert!(!package("a", (9, 9, 9), OSType::Arch).check_update(&VicharakPackages::new()));
}

#[test]
fn an_older_version_is_no_update_of_a_newer_record() {
    let installed = record(&[("a", (2, 0, 0))]);
    assert!(!package("a", (1, 5, 0), OSType::Arch).check_update(&installed));
    let older = record(&[("a", (1, 5, 0))]);
    assert!(package("a", (2, 0, 0), OSType::Arch).check_update(&older));
}

#[test]
fn report_tells_how_the_version_has_changed() {
    let installed = record(&[("a", (1, 2, 3)), ("b", (10, 0, 255))]);
    assert_eq!(
        package("a", (1, 3, 0), OSType::Arch).update_report(&installed),
        Some("a: 1.2.3 -> 1.3.0".to_string())
    );
    assert_eq!(
        package("a", (1, 2, 3), OSType::Arch).update_report(&installed),
        Some("a: up to date".to_string())
    );
    assert_eq!(
        package("b", (9, 0, 100), OSType::Arch).update_report(&installed),
        Some("Downgrade(b: 10.0.255 -> 9.0.100)".to_string())
    );
}

#[test]
fn report_is_empty_handed_without_a_record_of_the_name() {
    let installed = record(&[("a", (1, 2, 3))]);
    assert_eq!(package("c", (1, 0, 0), OSType::Arch).update_report(&installed), None);
    assert_eq!(package("c", (1, 0, 0), OSType::Arch).update_report(&VicharakPackages::new()), None);
}

#[test]
fn notice_is_given_for_an_empty_record_only() {
    assert_eq!(VicharakPackages::new().empty_notice(), Some("No packages found".to_string()));
    assert_eq!(record(&[("a", (1, 2, 3))]).empty_notice(), None);
}

#[test]
fn check_updates_keeps_the_upgrades_in_order() {
    let installed = record(&[("a", (1, 0, 0)), ("b", (2, 0, 0)), ("c", (3, 0, 0))]);
    let mut latest = VicharakPackages::new();
    latest.add_package(package("c", (3, 0, 1), OSType::Arch));
    latest.add_package(package("b", (2, 0, 0), OSType::Arch));
    latest.add_package(package("d", (9, 9, 9), OSType::Arch));
    latest.add_package(package("a", (1, 1, 0), OSType::Debian));
    latest.add_package(package("c", (2, 9, 0), OSType::Arch));
    latest.add_package(package("c", (4, 0, 0), OSType::Arch));
    let found = latest.check_updates(&installed);
    assert_eq!(names(&found), ["c", "a", "c"]);
    assert_eq!(found[0].version, (3, 0, 1));
    assert_eq!(found[1].version, (1, 1, 0));
    assert_eq!(found[1].os, OSType::Debian);
    assert_eq!(found[2].version, (4, 0, 0));
    assert!(latest.check_updates(&VicharakPackages::new()).is_empty());
    assert!(VicharakPackages::new().check_updates(&installed).is_empty());
}

#[test]
fn to_string_of_a_package_joins_name_and_version() {
    assert_eq!(package("vicharak-config", (1, 20, 3), OSType::Arch).to_string(), "vicharak-config@1.20.3");
    assert_eq!(package("", (0, 0, 0), OSType::Unknown).to_string(), "@0.0.0");
}

#[test]
fn to_string_of_a_list_ends_each_entry_with_a_comma() {
    assert_eq!(VicharakPackages::new().to_string(), "");
    assert_eq!(record(&[("a", (1, 2, 3))]).to_string(), "a: 1.2.3, ");
    assert_eq!(
        record(&[("vicharak-firmware", (1, 2, 3)), ("vicharak-config", (0, 10, 255))]).to_string(),
        "vicharak-firmware: 1.2.3, vicharak-config: 0.10.255, "
    );
}

#[test]
fn front_ends_have_the_names_of_their_programs() {
    assert_eq!(PacmanWrapper::Pacman.program_name(), "pacman");
    assert_eq!(PacmanWrapper::Yay.program_name(), "yay");
    assert_eq!(PacmanWrapper::Paru.program_name(), "paru");
}

#[test]
fn pacman_command_installs_without_asking() {
    let p = package("vicharak-config", (1, 0, 0), OSType::Arch);
    assert_eq!(
        p.pacman_command_with(PacmanWrapper::Pacman),
        ["sudo", "pacman", "-S", "--noconfirm", "vicharak-config"]
    );
    assert_eq!(
        p.pacman_command_with(PacmanWrapper::Yay),
        ["sudo", "yay", "-S", "--noconfirm", "vicharak-config"]
    );
    assert_eq!(
        p.pacman_command_with(PacmanWrapper::Paru),
        ["sudo", "paru", "-S", "--noconfirm", "vicharak-config"]
    );
}

#[test]
fn pacman_command_uses_the_front_end_of_this_machine() {
    let p = package("vicharak-config", (1, 0, 0), OSType::Arch);
    let wrapper = get_pacman_wrapper().unwrap();
    assert_eq!(p.pacman_command().unwrap(), p.pacman_command_with(wrapper));
}

#[test]
fn apt_command_installs_without_asking() {
    let p = package("vicharak-firmware", (1, 0, 0), OSType::Debian);
    assert_eq!(p.apt_command(), ["sudo", "apt", "install", "-y", "vicharak-firmware"]);
}

#[test]
fn update_command_goes_by_the_family_of_the_package() {
    let wrapper = get_pacman_wrapper().unwrap();
    let arch = package("a", (1, 0, 0), OSType::Arch);
    assert_eq!(arch.update_command().unwrap(), Some(arch.pacman_command_with(wrapper)));
    let debian = package("a", (1, 0, 0), OSType::Debian);
    assert_eq!(debian.update_command().unwrap(), Some(debian.apt_command()));
    let unknown = package("a", (1, 0, 0), OSType::Unknown);
    assert_eq!(unknown.update_command().unwrap(), None);
}

#[test]
fn position_is_that_of_the_first_package_of_the_name() {
    let installed = record(&[("a", (1, 0, 0)), ("b", (2, 0, 0)), ("a", (3, 0, 0))]);
    assert_eq!(installed.position("a"), Some(0));
    assert_eq!(installed.position("b"), Some(1));
    assert_eq!(installed.position("c"), None);
    assert_eq!(VicharakPackages::new().position("a"), None);
}

#[test]
fn a_new_name_is_added_to_the_record() {
    let mut installed = record(&[("a", (1, 0, 0))]);
    assert!(installed.record_package(&package("b", (2, 0, 0), OSType::Arch)));
    assert_eq!(names(&installed.packages), ["a", "b"]);
    assert_eq!(installed.packages[0].version, (1, 0, 0));
    assert_eq!(installed.packages[1].version, (2, 0, 0));
    assert_eq!(installed.packages[1].os, OSType::Arch);
    let mut empty = VicharakPackages::new();
    assert!(empty.record_package(&package("a", (0, 0, 1), OSType::Debian)));
    assert_eq!(Package::get_current_version("a", &empty), Some((0, 0, 1)));
}

#[test]
fn a_recorded_name_takes_the_new_version() {
    let mut installed = record(&[("a", (1, 0, 0)), ("b", (2, 0, 0))]);
    assert!(!installed.record_package(&package("a", (1, 0, 1), OSType::Arch)));
    assert_eq!(names(&installed.packages), ["a", "b"]);
    assert_eq!(Package::get_current_version("a", &installed), Some((1, 0, 1)));
    assert_eq!(installed.packages[0].os, OSType::Arch);
    assert_eq!(installed.packages[1].version, (2, 0, 0));
    assert_eq!(installed.packages[1].os, OSType::Debian);
    assert!(!installed.record_package(&package("b", (2, 1, 0), OSType::Debian)));
    assert_eq!(names(&installed.packages), ["a", "b"]);
    assert_eq!(Package::get_current_version("b", &installed), Some((2, 1, 0)));
    assert_eq!(Package::get_current_version("a", &installed), Some((1, 0, 1)));
}

#[test]
fn a_single_record_is_replaced_and_stays_single() {
    let mut installed = record(&[("a", (1, 0, 0))]);
    assert!(!installed.record_package(&package("a", (1, 0, 1), OSType::Debian)));
    assert_eq!(installed.packages.len(), 1);
    assert_eq!(installed.packages[0].name, "a");
    assert_eq!(installed.packages[0].version, (1, 0, 1));
}

#[test]
fn only_the_first_record_of_a_name_is_replaced() {
    let mut installed = record(&[("a", (1, 0, 0)), ("b", (2, 0, 0)), ("a", (3, 0, 0))]);
    assert!(!installed.record_package(&package("a", (5, 0, 0), OSType::Arch)));
    assert_eq!(names(&installed.packages), ["a", "b", "a"]);
    assert_eq!(installed.packages[0].version, (5, 0, 0));
    assert_eq!(installed.packages[2].version, (3, 0, 0));
}

#[test]
fn recording_twice_is_recording_once() {
    let mut installed = record(&[("a", (1, 0, 0))]);
    let p = package("b", (2, 0, 0), OSType::Arch);
    assert!(installed.record_package(&p));
    assert!(!installed.record_package(&p));
    assert_eq!(names(&installed.packages), ["a", "b"]);
    assert_eq!(Package::get_current_version("b", &installed), Some((2, 0, 0)));
}

#[test]
fn every_recorded_package_is_read_back_at_its_version() {
    let mut installed = record(&[("b", (0, 9, 0)), ("x", (7, 7, 7))]);
    let offered =
        [package("a", (1, 2, 3), OSType::Arch), package("b", (2, 0, 0), OSType::Arch)];
    for p in &offered {
        installed.record_package(p);
    }
    for p in &offered {
        assert_eq!(Package::get_current_version(&p.name, &installed), Some(p.version));
    }
    assert_eq!(Package::get_current_version("x", &installed), Some((7, 7, 7)));
    assert_eq!(names(&installed.packages), ["b", "x", "a"]);
}

#[test]
fn a_list_is_recorded_one_package_after_the_other() {
    let mut installed = record(&[("b", (0, 9, 0)), ("x", (7, 7, 7))]);
    let mut latest = VicharakPackages::new();
    latest.add_package(package("a", (1, 2, 3), OSType::Arch));
    latest.add_package(package("b", (2, 0, 0), OSType::Arch));
    latest.add_package(package("a", (1, 2, 4), OSType::Arch));
    installed.record_packages(&latest);
    assert_eq!(names(&installed.packages), ["b", "x", "a"]);
    assert_eq!(Package::get_current_version("b", &installed), Some((2, 0, 0)));
    assert_eq!(Package::get_current_version("x", &installed), Some((7, 7, 7)));
    assert_eq!(Package::get_current_version("a", &installed), Some((1, 2, 4)));
    assert!(latest.check_updates(&installed).is_empty());
    installed.record_packages(&VicharakPackages::new());
    assert_eq!(names(&installed.packages), ["b", "x", "a"]);
}

#[test]
fn a_recorded_package_is_no_longer_due() {
    let mut installed = record(&[("a", (1, 0, 0))]);
    let known = package("a", (1, 1, 0), OSType::Arch);
    let unknown = package("b", (2, 0, 0), OSType::Arch);
    assert!(known.check_update(&installed));
    assert!(!unknown.check_update(&installed));
    installed.record_package(&known);
    installed.record_package(&unknown);
    assert!(!known.check_update(&installed));
    assert!(!unknown.check_update(&installed));
    assert_eq!(known.update_report(&installed), Some("a: up to date".to_string()));
    assert_eq!(unknown.update_report(&installed), Some("b: up to date".to_string()));
}

#[test]
fn a_package_on_a_host_has_the_family_of_that_host() {
    let p = Package::on_host("a".to_string(), (1, 2, 3), true, true);
    assert_eq!((p.name.as_str(), p.version, p.os), ("a", (1, 2, 3), OSType::Arch));
    assert_eq!(Package::on_host("a".to_string(), (0, 0, 0), false, true).os, OSType::Debian);
    assert_eq!(Package::on_host("a".to_string(), (0, 0, 0), true, false).os, OSType::Arch);
    assert_eq!(Package::on_host("a".to_string(), (0, 0, 0), false, false).os, OSType::Unknown);
}

#[test]
fn record_file_is_in_the_home_of_the_user() {
    assert_eq!(VicharakPackages::file_path("vicharak"), "/home/vicharak/.vicharak_packages.json");
    assert_eq!(VicharakPackages::file_path(""), "/home//.vicharak_packages.json");
}

#[test]
fn record_file_of_the_current_user_names_that_user() {
    assert_eq!(
        VicharakPackages::file_path_of_current_user(),
        format!("/home/{}/.vicharak_packages.json", whoami::username())
    );
}
