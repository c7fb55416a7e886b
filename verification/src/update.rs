//! Packages, the record of what is installed, and the decisions of an update
//! run: which package manager the host has, whether a published version is an
//! upgrade, and which command installs it.

use crate::host::{current_username, path_exists};
use crate::version::{
    compare_versions, precedes, push_version, version_change, version_text, VersionChange,
};
use vstd::prelude::*;
use vstd::string::StringExecFns;

verus! {

/// The package manager family of a host.
#[derive(Clone, Copy, Debug, PartialEq, Eq, Structural)]
pub enum OSType {
    Arch,
    Debian,
    Unknown,
}

/// The front end to `pacman` that installs packages on an Arch host.
#[derive(Clone, Copy, Debug, PartialEq, Eq, Structural)]
pub enum PacmanWrapper {
    Pacman,
    Yay,
    Paru,
}

/// A package by name, with a version and the family of the host it is for.
#[derive(Debug)]
pub struct Package {
    pub name: String,
    pub version: (u8, u8, u8),
    pub os: OSType,
}

/// A package as a plain value.
pub struct PackageView {
    pub name: Seq<char>,
    pub version: (u8, u8, u8),
    pub os: OSType,
}

impl View for Package {
    type V = PackageView;

    open spec fn view(&self) -> PackageView {
        PackageView { name: self.name@, version: self.version, os: self.os }
    }
}

impl Clone for Package {
    fn clone(&self) -> (copy: Self)
        ensures
            copy == *self,
    {
        Package { name: self.name.clone(), version: self.version, os: self.os }
    }
}

/// A list of packages, in the order in which they were added.
pub struct VicharakPackages {
    pub packages: Vec<Package>,
}

/// The packages of a list as plain values.
pub open spec fn package_views(packages: Seq<Package>) -> Seq<PackageView> {
    packages.map_values(|p: Package| p@)
}

impl View for VicharakPackages {
    type V = Seq<PackageView>;

    open spec fn view(&self) -> Seq<PackageView> {
        package_views(self.packages@)
    }
}

/// The names of the packages that are kept up to date, in the order in which
/// they are looked at.
pub fn available_packages() -> (names: Vec<&'static str>)
    ensures
        names@.len() == 2,
        names@[0]@ == "vicharak-firmware"@,
        names@[1]@ == "vicharak-config"@,
{
    let mut names: Vec<&'static str> = Vec::new();
    names.push("vicharak-firmware");
    names.push("vicharak-config");
    names
}

/// The family of a host on which `pacman` or `apt` is installed or not.
/// `pacman` decides first.
pub open spec fn host_os_type(has_pacman: bool, has_apt: bool) -> OSType {
    if has_pacman {
        OSType::Arch
    } else if has_apt {
        OSType::Debian
    } else {
        OSType::Unknown
    }
}

/// The front end to use on a host on which `yay` or `paru` is installed or
/// not. `yay` is preferred to `paru`, and `pacman` itself is what is left.
pub open spec fn pacman_wrapper(has_yay: bool, has_paru: bool) -> PacmanWrapper {
    if has_yay {
        PacmanWrapper::Yay
    } else if has_paru {
        PacmanWrapper::Paru
    } else {
        PacmanWrapper::Pacman
    }
}

impl OSType {
    /// The family of a host, from which package managers it has.
    pub fn of_host(has_pacman: bool, has_apt: bool) -> (os: OSType)
        ensures
            os == host_os_type(has_pacman, has_apt),
    {
        if has_pacman {
            OSType::Arch
        } else if has_apt {
            OSType::Debian
        } else {
            OSType::Unknown
        }
    }
}

impl PacmanWrapper {
    /// The front end to use, from which front ends the host has.
    pub fn of_host(has_yay: bool, has_paru: bool) -> (wrapper: PacmanWrapper)
        ensures
            wrapper == pacman_wrapper(has_yay, has_paru),
    {
        if has_yay {
            PacmanWrapper::Yay
        } else if has_paru {
            PacmanWrapper::Paru
        } else {
            PacmanWrapper::Pacman
        }
    }
}

/// Looks for `/usr/bin/yay` and `/usr/bin/paru` on this host and picks the
/// front end accordingly. It never fails.
pub fn get_pacman_wrapper() -> (r: Result<PacmanWrapper, std::io::Error>)
    ensures
        r is Ok,
{
    let has_yay = path_exists("/usr/bin/yay");
    let has_paru = path_exists("/usr/bin/paru");
    Ok(PacmanWrapper::of_host(has_yay, has_paru))
}

/// `i` is the place of the first record of `name` in `records`.
pub open spec fn is_first_record(records: Seq<PackageView>, name: Seq<char>, i: int) -> bool {
    &&& 0 <= i < records.len()
    &&& records[i].name == name
    &&& forall|j: int| 0 <= j < i ==> records[j].name != name
}

/// The place of the first record of `name` in `records`, if there is one.
pub open spec fn record_index(records: Seq<PackageView>, name: Seq<char>) -> Option<int> {
    if exists|i: int| is_first_record(records, name, i) {
        Some(choose|i: int| is_first_record(records, name, i))
    } else {
        None
    }
}

/// The version recorded for `name`: that of the first record with this name.
pub open spec fn recorded_version(records: Seq<PackageView>, name: Seq<char>) -> Option<
    (u8, u8, u8),
> {
    match record_index(records, name) {
        Some(i) => Some(records[i].version),
        None => None,
    }
}

/// A name has one first record at most.
pub proof fn lemma_record_index_is(records: Seq<PackageView>, name: Seq<char>, i: int)
    requires
        is_first_record(records, name, i),
    ensures
        record_index(records, name) == Some(i),
{
    let k = choose|k: int| is_first_record(records, name, k);
    assert(is_first_record(records, name, k));
    if k < i {
        assert(records[k].name != name);
    } else if i < k {
        assert(records[i].name != name);
    }
}

/// A name that some record has, has a first record.
pub proof fn lemma_record_index_some(records: Seq<PackageView>, name: Seq<char>, k: int)
    requires
        0 <= k < records.len(),
        records[k].name == name,
    ensures
        record_index(records, name) matches Some(i) && i <= k && is_first_record(records, name, i),
    decreases k,
{
    if exists|j: int| 0 <= j < k && records[j].name == name {
        let j = choose|j: int| 0 <= j < k && records[j].name == name;
        lemma_record_index_some(records, name, j);
    } else {
        assert(is_first_record(records, name, k));
        lemma_record_index_is(records, name, k);
    }
}

/// What `record_index` gives is the first record of the name, and it gives
/// nothing exactly where no record has the name.
pub proof fn lemma_record_index(records: Seq<PackageView>, name: Seq<char>)
    ensures
        match record_index(records, name) {
            Some(i) => is_first_record(records, name, i),
            None => forall|k: int| 0 <= k < records.len() ==> records[k].name != name,
        },
{
    if exists|k: int| 0 <= k < records.len() && records[k].name == name {
        let k = choose|k: int| 0 <= k < records.len() && records[k].name == name;
        lemma_record_index_some(records, name, k);
    }
}

/// Whether `package` is an upgrade of what `records` hold under its name. A
/// package without a record is not.
pub open spec fn update_available(records: Seq<PackageView>, package: PackageView) -> bool {
    match recorded_version(records, package.name) {
        Some(current) => version_change(current, package.version) == VersionChange::Upgrade,
        None => false,
    }
}

/// An update is due exactly where the first record of the name holds an
/// older version.
pub proof fn lemma_update_is_due_when_older(
    records: Seq<PackageView>,
    package: PackageView,
    i: int,
)
    requires
        is_first_record(records, package.name, i),
    ensures
        update_available(records, package) == precedes(records[i].version, package.version),
{
    lemma_record_index_is(records, package.name, i);
}

/// Of two packages of one name, at most one is an update of the other.
pub proof fn lemma_update_is_one_way(p: PackageView, q: PackageView)
    requires
        p.name == q.name,
    ensures
        !(update_available(seq![p], q) && update_available(seq![q], p)),
{
    assert(is_first_record(seq![p], q.name, 0));
    assert(is_first_record(seq![q], p.name, 0));
    lemma_update_is_due_when_older(seq![p], q, 0);
    lemma_update_is_due_when_older(seq![q], p, 0);
}

/// The line that tells the user how the version of `package` has changed
/// against what `records` hold under its name. A package without a record
/// gets no line.
pub open spec fn update_report(records: Seq<PackageView>, package: PackageView) -> Option<
    Seq<char>,
> {
    match recorded_version(records, package.name) {
        None => None,
        Some(current) => Some(
            match version_change(current, package.version) {
                VersionChange::Upgrade => package.name + ": "@ + version_text(current) + " -> "@
                    + version_text(package.version),
                VersionChange::UpToDate => package.name + ": up to date"@,
                VersionChange::Downgrade => "Downgrade("@ + package.name + ": "@ + version_text(
                    current,
                ) + " -> "@ + version_text(package.version) + ")"@,
            },
        ),
    }
}

/// The line that tells the user that `records` hold nothing at all; there is
/// none where they hold something.
pub open spec fn empty_notice(records: Seq<PackageView>) -> Option<Seq<char>> {
    if records.len() == 0 {
        Some("No packages found"@)
    } else {
        None
    }
}

/// A package in print: its name, an `@`, and its version.
pub open spec fn package_text(package: PackageView) -> Seq<char> {
    package.name + "@"@ + version_text(package.version)
}

/// Where the build recipe of the package `name` is published.
pub open spec fn pkgbuild_url(name: Seq<char>) -> Seq<char> {
    "https://raw.githubusercontent.com/vicharak-in/vicharak-PKGBUILDS/"@ + name
        + "/master/PKGBUILD"@
}

/// Where the changelog of the package `name` is published.
pub open spec fn changelog_url(name: Seq<char>) -> Seq<char> {
    "http://github.com/vicharak-in/"@ + name + "/raw/master/debian/changelog"@
}

impl Package {
    /// A package for this host: its family is looked up at the time of the
    /// call.
    pub fn new(name: String, version: (u8, u8, u8)) -> (package: Package)
        ensures
            package.name == name,
            package.version == version,
    {
        let has_pacman = path_exists("/usr/bin/pacman");
        let has_apt = path_exists("/usr/bin/apt");
        Package::on_host(name, version, has_pacman, has_apt)
    }

    /// A package for a host on which `pacman` or `apt` is installed or not.
    pub fn on_host(
        name: String,
        version: (u8, u8, u8),
        has_pacman: bool,
        has_apt: bool,
    ) -> (package: Package)
        ensures
            package.name == name,
            package.version == version,
            package.os == host_os_type(has_pacman, has_apt),
    {
        Package { name, version, os: OSType::of_host(has_pacman, has_apt) }
    }

    /// Looks for `/usr/bin/pacman` and `/usr/bin/apt` on this host and names
    /// its family accordingly.
    pub fn get_host_os_type() -> (os: OSType) {
        let has_pacman = path_exists("/usr/bin/pacman");
        let has_apt = path_exists("/usr/bin/apt");
        OSType::of_host(has_pacman, has_apt)
    }

    /// Where to fetch the build recipe of the package `name`.
    pub fn pkgbuild_url(name: &str) -> (url: String)
        ensures
            url@ == pkgbuild_url(name@),
    {
        let mut url = String::from_str(
            "https://raw.githubusercontent.com/vicharak-in/vicharak-PKGBUILDS/",
        );
        url.append(name);
        url.append("/master/PKGBUILD");
        url
    }

    /// Where to fetch the changelog of the package `name`.
    pub fn changelog_url(name: &str) -> (url: String)
        ensures
            url@ == changelog_url(name@),
    {
        let mut url = String::from_str("http://github.com/vicharak-in/");
        url.append(name);
        url.append("/raw/master/debian/changelog");
        url
    }

    /// The version that `installed` records for the package `name`.
    pub fn get_current_version(name: &str, installed: &VicharakPackages) -> (version: Option<
        (u8, u8, u8),
    >)
        ensures
            version == recorded_version(installed@, name@),
    {
        match installed.position(name) {
            Some(i) => Some(installed.packages[i].version),
            None => None,
        }
    }

    /// Whether this package is an upgrade of what `installed` records under
    /// its name.
    pub fn check_update(&self, installed: &VicharakPackages) -> (update: bool)
        ensures
            update == update_available(installed@, self@),
    {
        match Package::get_current_version(self.name.as_str(), installed) {
            Some(current) => match compare_versions(current, self.version) {
                VersionChange::Upgrade => true,
                _ => false,
            },
            None => false,
        }
    }

    /// The line to show the user about this package after `check_update`.
    pub fn update_report(&self, installed: &VicharakPackages) -> (line: Option<String>)
        ensures
            match line {
                Some(text) => update_report(installed@, self@) == Some(text@),
                None => update_report(installed@, self@) is None,
            },
    {
        match Package::get_current_version(self.name.as_str(), installed) {
            None => None,
            Some(current) => {
                let mut line = String::new();
                match compare_versions(current, self.version) {
                    VersionChange::Upgrade => {
                        line.append(self.name.as_str());
                        line.append(": ");
                        push_version(&mut line, current);
                        line.append(" -> ");
                        push_version(&mut line, self.version);
                    },
                    VersionChange::UpToDate => {
                        line.append(self.name.as_str());
                        line.append(": up to date");
                    },
                    VersionChange::Downgrade => {
                        line.append("Downgrade(");
                        line.append(self.name.as_str());
                        line.append(": ");
                        push_version(&mut line, current);
                        line.append(" -> ");
                        push_version(&mut line, self.version);
                        line.append(")");
                    },
                }
                assert(Some(line@) =~= update_report(installed@, self@));
                Some(line)
            },
        }
    }

    /// This package in print.
    pub fn to_string(&self) -> (text: String)
        ensures
            text@ == package_text(self@),
    {
        let mut text = self.name.clone();
        text.append("@");
        push_version(&mut text, self.version);
        text
    }
}

/// The words of a command line as plain values.
pub open spec fn words(command: Seq<String>) -> Seq<Seq<char>> {
    command.map_values(|word: String| word@)
}

/// The command that installs the package `name` through `wrapper`.
pub open spec fn pacman_command(wrapper: PacmanWrapper, name: Seq<char>) -> Seq<Seq<char>> {
    seq!["sudo"@, wrapper.program(), "-S"@, "--noconfirm"@, name]
}

/// The command that installs the package `name` through `apt`.
pub open spec fn apt_command(name: Seq<char>) -> Seq<Seq<char>> {
    seq!["sudo"@, "apt"@, "install"@, "-y"@, name]
}

impl PacmanWrapper {
    /// The name of the program to run.
    pub open spec fn program(self) -> Seq<char> {
        match self {
            PacmanWrapper::Pacman => "pacman"@,
            PacmanWrapper::Yay => "yay"@,
            PacmanWrapper::Paru => "paru"@,
        }
    }

    /// The name of the program to run.
    pub fn program_name(self) -> (name: &'static str)
        ensures
            name@ == self.program(),
    {
        match self {
            PacmanWrapper::Pacman => "pacman",
            PacmanWrapper::Yay => "yay",
            PacmanWrapper::Paru => "paru",
        }
    }
}

impl Package {
    /// The command that installs this package on an Arch host through
    /// `wrapper`.
    pub fn pacman_command_with(&self, wrapper: PacmanWrapper) -> (command: Vec<String>)
        ensures
            words(command@) == pacman_command(wrapper, self.name@),
    {
        let mut command: Vec<String> = Vec::new();
        command.push(String::from_str("sudo"));
        command.push(String::from_str(wrapper.program_name()));
        command.push(String::from_str("-S"));
        command.push(String::from_str("--noconfirm"));
        command.push(self.name.clone());
        assert(words(command@) =~= pacman_command(wrapper, self.name@));
        command
    }

    /// The command that installs this package on an Arch host, through the
    /// front end that this host has.
    pub fn pacman_command(&self) -> (r: Result<Vec<String>, std::io::Error>)
        ensures
            r matches Ok(command) && exists|wrapper: PacmanWrapper|
                words(command@) == pacman_command(wrapper, self.name@),
    {
        match get_pacman_wrapper() {
            Ok(wrapper) => Ok(self.pacman_command_with(wrapper)),
            Err(e) => Err(e),
        }
    }

    /// The command that installs this package on a Debian host.
    pub fn apt_command(&self) -> (command: Vec<String>)
        ensures
            words(command@) == apt_command(self.name@),
    {
        let mut command: Vec<String> = Vec::new();
        command.push(String::from_str("sudo"));
        command.push(String::from_str("apt"));
        command.push(String::from_str("install"));
        command.push(String::from_str("-y"));
        command.push(self.name.clone());
        assert(words(command@) =~= apt_command(self.name@));
        command
    }

    /// The command that brings this package up to date on a host of its
    /// family. There is none for a host of unknown family.
    pub fn update_command(&self) -> (r: Result<Option<Vec<String>>, std::io::Error>)
        ensures
            r is Ok,
            match self.os {
                OSType::Arch => r matches Ok(Some(command)) && exists|wrapper: PacmanWrapper|
                    words(command@) == pacman_command(wrapper, self.name@),
                OSType::Debian => r matches Ok(Some(command)) && words(command@) == apt_command(
                    self.name@,
                ),
                OSType::Unknown => r == Ok::<Option<Vec<String>>, std::io::Error>(None),
            },
    {
        match self.os {
            OSType::Arch => match self.pacman_command() {
                Ok(command) => Ok(Some(command)),
                Err(e) => Err(e),
            },
            OSType::Debian => Ok(Some(self.apt_command())),
            OSType::Unknown => Ok(None),
        }
    }
}

/// The packages among `candidates` that are upgrades of what `records` hold,
/// in the order of `candidates`.
pub open spec fn updates(records: Seq<PackageView>, candidates: Seq<PackageView>) -> Seq<
    PackageView,
> {
    candidates.filter(|package: PackageView| update_available(records, package))
}

/// A list of packages in print: for each one its name, a colon, its version
/// and a comma, each followed by a blank.
pub open spec fn packages_text(packages: Seq<PackageView>) -> Seq<char>
    decreases packages.len(),
{
    if packages.len() == 0 {
        Seq::empty()
    } else {
        packages_text(packages.drop_last()) + packages.last().name + ": "@ + version_text(
            packages.last().version,
        ) + ", "@
    }
}

/// `records` after `package` was recorded: it takes the place of the first
/// record of its name, and where there is none it is added at the end. The
/// other records stay as they are and where they are.
pub open spec fn with_package(records: Seq<PackageView>, package: PackageView) -> Seq<
    PackageView,
> {
    match record_index(records, package.name) {
        Some(i) => records.update(i, package),
        None => records.push(package),
    }
}

/// No two records have the same name.
pub open spec fn distinct_names(records: Seq<PackageView>) -> bool {
    forall|i: int, j: int|
        0 <= i < j < records.len() ==> #[trigger] records[i].name != #[trigger] records[j].name
}

/// What is recorded is what is read back: once a package was recorded, the
/// version found under its name is its own.
pub proof fn lemma_recording_persists(records: Seq<PackageView>, package: PackageView)
    ensures
        recorded_version(with_package(records, package), package.name) == Some(package.version),
{
    let after = with_package(records, package);
    lemma_record_index(records, package.name);
    match record_index(records, package.name) {
        Some(i) => {
            assert(is_first_record(after, package.name, i));
            lemma_record_index_is(after, package.name, i);
        },
        None => {
            assert(is_first_record(after, package.name, records.len() as int));
            lemma_record_index_is(after, package.name, records.len() as int);
        },
    }
}

/// Recording a package leaves the records of every other name as they are.
pub proof fn lemma_recording_keeps_others(
    records: Seq<PackageView>,
    package: PackageView,
    name: Seq<char>,
)
    requires
        name != package.name,
    ensures
        recorded_version(with_package(records, package), name) == recorded_version(records, name),
{
    let after = with_package(records, package);
    lemma_record_index(records, package.name);
    lemma_record_index(records, name);
    match record_index(records, name) {
        Some(i) => {
            assert(is_first_record(after, name, i));
            lemma_record_index_is(after, name, i);
        },
        None => {
            lemma_record_index(after, name);
            match record_index(after, name) {
                Some(k) => {
                    if k < records.len() {
                        assert(after[k].name == records[k].name);
                    }
                },
                None => {},
            }
        },
    }
}

/// Recording a package adds one record where its name had none, and none
/// where it had one; names that were distinct stay distinct.
pub proof fn lemma_recording_keeps_one_record_per_name(
    records: Seq<PackageView>,
    package: PackageView,
)
    ensures
        recorded_version(records, package.name) is None ==> with_package(records, package).len()
            == records.len() + 1,
        recorded_version(records, package.name) is Some ==> with_package(records, package).len()
            == records.len(),
        distinct_names(records) ==> distinct_names(with_package(records, package)),
{
    let after = with_package(records, package);
    lemma_record_index(records, package.name);
    if distinct_names(records) {
        assert forall|i: int, j: int| 0 <= i < j < after.len() implies #[trigger] after[i].name
            != #[trigger] after[j].name by {
            if j < records.len() {
                assert(after[i].name == records[i].name);
                assert(after[j].name == records[j].name);
            } else {
                assert(after[i].name == records[i].name);
            }
        }
    }
}

/// Recording a package twice is the same as recording it once.
pub proof fn lemma_recording_is_idempotent(records: Seq<PackageView>, package: PackageView)
    ensures
        with_package(with_package(records, package), package) == with_package(records, package),
{
    let after = with_package(records, package);
    lemma_record_index(records, package.name);
    match record_index(records, package.name) {
        Some(i) => {
            assert(is_first_record(after, package.name, i));
            lemma_record_index_is(after, package.name, i);
            assert(after.update(i, package) =~= after);
        },
        None => {
            let i = records.len() as int;
            assert(is_first_record(after, package.name, i));
            lemma_record_index_is(after, package.name, i);
            assert(after.update(i, package) =~= after);
        },
    }
}

/// A package that was recorded is not due for an update any more.
pub proof fn lemma_recording_settles_update(records: Seq<PackageView>, package: PackageView)
    ensures
        !update_available(with_package(records, package), package),
{
    lemma_recording_persists(records, package);
}

/// `records` after each of `packages` was recorded, one after the other.
pub open spec fn with_packages(records: Seq<PackageView>, packages: Seq<PackageView>) -> Seq<
    PackageView,
>
    decreases packages.len(),
{
    if packages.len() == 0 {
        records
    } else {
        with_package(with_packages(records, packages.drop_last()), packages.last())
    }
}

/// Once a list of packages with distinct names was recorded, each of them is
/// read back at its own version.
pub proof fn lemma_recorded_packages_are_read_back(
    records: Seq<PackageView>,
    packages: Seq<PackageView>,
    k: int,
)
    requires
        distinct_names(packages),
        0 <= k < packages.len(),
    ensures
        recorded_version(with_packages(records, packages), packages[k].name) == Some(
            packages[k].version,
        ),
    decreases packages.len(),
{
    let earlier = packages.drop_last();
    let before = with_packages(records, earlier);
    if k == packages.len() - 1 {
        lemma_recording_persists(before, packages.last());
    } else {
        assert(distinct_names(earlier)) by {
            assert forall|i: int, j: int| 0 <= i < j < earlier.len() implies #[trigger] earlier[i]
                .name != #[trigger] earlier[j].name by {
                assert(earlier[i] == packages[i] && earlier[j] == packages[j]);
            }
        }
        assert(earlier[k] == packages[k]);
        lemma_recorded_packages_are_read_back(records, earlier, k);
        assert(packages[k].name != packages[packages.len() - 1].name);
        lemma_recording_keeps_others(before, packages.last(), packages[k].name);
    }
}

/// Recording a list of packages leaves the record of every name that is not
/// in the list as it is.
pub proof fn lemma_recorded_packages_keep_others(
    records: Seq<PackageView>,
    packages: Seq<PackageView>,
    name: Seq<char>,
)
    requires
        forall|k: int| 0 <= k < packages.len() ==> packages[k].name != name,
    ensures
        recorded_version(with_packages(records, packages), name) == recorded_version(
            records,
            name,
        ),
    decreases packages.len(),
{
    if packages.len() > 0 {
        let earlier = packages.drop_last();
        assert forall|k: int| 0 <= k < earlier.len() implies earlier[k].name != name by {
            assert(earlier[k] == packages[k]);
        }
        lemma_recorded_packages_keep_others(records, earlier, name);
        assert(packages[packages.len() - 1].name != name);
        lemma_recording_keeps_others(with_packages(records, earlier), packages.last(), name);
    }
}

/// The file that keeps the record of the user `username`.
pub open spec fn packages_file_path(username: Seq<char>) -> Seq<char> {
    "/home/"@ + username + "/.vicharak_packages.json"@
}

impl VicharakPackages {
    /// An empty list.
    pub fn new() -> (packages: Self)
        ensures
            packages@ == Seq::<PackageView>::empty(),
    {
        let packages = Self { packages: Vec::new() };
        assert(packages@ =~= Seq::<PackageView>::empty());
        packages
    }

    /// Adds `package` at the end of the list.
    pub fn add_package(&mut self, package: Package)
        ensures
            final(self)@ == old(self)@.push(package@),
    {
        self.packages.push(package);
        assert(self@ =~= old(self)@.push(package@));
    }

    /// The place of the first package named `name` in this list.
    pub fn position(&self, name: &str) -> (place: Option<usize>)
        ensures
            match place {
                Some(i) => record_index(self@, name@) == Some(i as int) && i < self.packages.len(),
                None => record_index(self@, name@) is None,
            },
    {
        let wanted: String = name.to_owned();
        let mut i: usize = 0;
        while i < self.packages.len()
            invariant
                i <= self.packages.len(),
                wanted@ == name@,
                forall|j: int| 0 <= j < i ==> self@[j].name != name@,
            decreases self.packages.len() - i,
        {
            if self.packages[i].name == wanted {
                proof {
                    assert(self@[i as int].name == name@);
                    lemma_record_index_is(self@, name@, i as int);
                }
                return Some(i);
            }
            i += 1;
        }
        proof {
            lemma_record_index(self@, name@);
        }
        None
    }

    /// Records a copy of `package`: it takes the place of the first package
    /// of its name, or is added at the end where the list has none. Returns
    /// whether it was added.
    pub fn record_package(&mut self, package: &Package) -> (added: bool)
        ensures
            final(self)@ == with_package(old(self)@, package@),
            added == recorded_version(old(self)@, package.name@) is None,
    {
        match self.position(package.name.as_str()) {
            Some(i) => {
                self.packages.set(i, package.clone());
                assert(self@ =~= old(self)@.update(i as int, package@));
                false
            },
            None => {
                self.add_package(package.clone());
                true
            },
        }
    }

    /// Records a copy of each of `packages`, one after the other.
    pub fn record_packages(&mut self, packages: &VicharakPackages)
        ensures
            final(self)@ == with_packages(old(self)@, packages@),
    {
        let mut i: usize = 0;
        assert(packages@.take(0) =~= Seq::<PackageView>::empty());
        while i < packages.packages.len()
            invariant
                i <= packages.packages.len(),
                self@ == with_packages(old(self)@, packages@.take(i as int)),
            decreases packages.packages.len() - i,
        {
            let ghost seen = packages@.take(i + 1);
            proof {
                assert(seen.drop_last() =~= packages@.take(i as int));
                assert(seen.last() == packages.packages@[i as int]@);
            }
            self.record_package(&packages.packages[i]);
            i += 1;
        }
        assert(packages@.take(i as int) =~= packages@);
    }

    /// The line to show the user when this list was looked into and holds
    /// nothing.
    pub fn empty_notice(&self) -> (line: Option<String>)
        ensures
            match line {
                Some(text) => empty_notice(self@) == Some(text@),
                None => empty_notice(self@) is None,
            },
    {
        if self.packages.len() == 0 {
            Some(String::from_str("No packages found"))
        } else {
            None
        }
    }

    /// The packages of this list that are upgrades of what `installed`
    /// records, in the order of this list.
    pub fn check_updates(&self, installed: &VicharakPackages) -> (found: Vec<Package>)
        ensures
            package_views(found@) == updates(installed@, self@),
    {
        let mut found: Vec<Package> = Vec::new();
        let mut i: usize = 0;
        proof {
            reveal(Seq::filter);
            assert(self@.take(0) =~= Seq::<PackageView>::empty());
            assert(package_views(found@) =~= Seq::<PackageView>::empty());
        }
        while i < self.packages.len()
            invariant
                i <= self.packages.len(),
                package_views(found@) == updates(installed@, self@.take(i as int)),
            decreases self.packages.len() - i,
        {
            let ghost seen = self@.take(i + 1);
            proof {
                reveal(Seq::filter);
                assert(seen.drop_last() =~= self@.take(i as int));
                assert(seen.last() == self.packages@[i as int]@);
            }
            if self.packages[i].check_update(installed) {
                let ghost before = found@;
                found.push(self.packages[i].clone());
                assert(package_views(found@) =~= package_views(before).push(
                    self.packages@[i as int]@,
                ));
            }
            i += 1;
        }
        assert(self@.take(i as int) =~= self@);
        found
    }

    /// This list in print.
    pub fn to_string(&self) -> (text: String)
        ensures
            text@ == packages_text(self@),
    {
        let mut text = String::new();
        let mut i: usize = 0;
        assert(self@.take(0) =~= Seq::<PackageView>::empty());
        while i < self.packages.len()
            invariant
                i <= self.packages.len(),
                text@ == packages_text(self@.take(i as int)),
            decreases self.packages.len() - i,
        {
            let ghost seen = self@.take(i + 1);
            let ghost before = text@;
            proof {
                assert(seen.drop_last() =~= self@.take(i as int));
                assert(seen.last() == self.packages@[i as int]@);
            }
            text.append(self.packages[i].name.as_str());
            text.append(": ");
            push_version(&mut text, self.packages[i].version);
            text.append(", ");
            assert(text@ =~= before + seen.last().name + ": "@ + version_text(seen.last().version)
                + ", "@);
            i += 1;
        }
        assert(self@.take(i as int) =~= self@);
        text
    }

    /// The file that keeps the record of the user `username`.
    pub fn file_path(username: &str) -> (path: String)
        ensures
            path@ == packages_file_path(username@),
    {
        let mut path = String::from_str("/home/");
        path.append(username);
        path.append("/.vicharak_packages.json");
        path
    }

    /// The file that keeps the record of the user this process runs as.
    pub fn file_path_of_current_user() -> (path: String)
        ensures
            exists|username: Seq<char>| path@ == packages_file_path(username),
    {
        let username = current_username();
        VicharakPackages::file_path(username.as_str())
    }
}

impl Default for VicharakPackages {
    fn default() -> (packages: Self)
        ensures
            packages@ == Seq::<PackageView>::empty(),
    {
        VicharakPackages::new()
    }
}

} // verus!
