//! Planning the installation of NuGet packages that a manifest asks for: which
//! packages, from where, what to make of the server's answer, and which files
//! of a package to keep.

use vstd::prelude::*;
use vstd::string::*;

verus! {

/// Why an installation failed.
#[derive(Clone, Copy, Debug, PartialEq, Eq, Structural)]
pub enum NugetError {
    /// The server did not deliver a package.
    DownloadError,
    /// The manifest does not list its packages as it should.
    MalformedManifest,
}

/// The command that installs the packages of a manifest.
#[derive(Clone, Copy, Debug, PartialEq, Eq, Structural)]
pub struct Install {}

/// A value of the manifest's free-form metadata.
#[derive(Debug, PartialEq, Eq)]
pub enum MetaValue {
    /// A text.
    Text(String),
    /// A table: keys with their values, in the order of the manifest.
    Table(Vec<(String, MetaValue)>),
    /// A value of any other kind.
    Other,
}

/// A package to install.
#[derive(Debug, Clone, PartialEq, Eq)]
pub struct Dependency {
    pub name: String,
    pub version: String,
}

/// The key under which the metadata lists the packages.
pub open spec fn dependencies_key() -> Seq<char> {
    "nuget_dependencies"@
}

/// The place of the first entry of a table with the given key, or the length
/// of the table if it has none.
pub open spec fn place_of(entries: Seq<(String, MetaValue)>, key: Seq<char>) -> int
    decreases entries.len(),
{
    if entries.len() == 0 {
        0
    } else if entries[0].0@ == key {
        0
    } else {
        1 + place_of(entries.drop_first(), key)
    }
}

/// The table of packages in a manifest's metadata: the metadata must be a
/// table, and what it holds under the key for packages must be a table too.
pub open spec fn listed(metadata: Option<MetaValue>) -> Option<Seq<(String, MetaValue)>> {
    match metadata {
        Some(MetaValue::Table(entries)) => {
            let at = place_of(entries@, dependencies_key());
            if at < entries@.len() {
                match entries@[at].1 {
                    MetaValue::Table(packages) => Some(packages@),
                    _ => None,
                }
            } else {
                None
            }
        },
        _ => None,
    }
}

/// Whether every package of a table comes with a text for its version.
pub open spec fn all_versions_text(packages: Seq<(String, MetaValue)>) -> bool {
    forall|i: int| 0 <= i < packages.len() ==> (#[trigger] packages[i]).1 is Text
}

/// Whether `deps` are the packages of a table, one for one and in order.
pub open spec fn matches_packages(deps: Seq<Dependency>, packages: Seq<(String, MetaValue)>) -> bool {
    &&& deps.len() == packages.len()
    &&& forall|i: int|
        0 <= i < deps.len() ==> (#[trigger] deps[i]).name@ == packages[i].0@ && deps[i].version@
            == packages[i].1->Text_0@
}

/// The address of a package.
pub open spec fn package_url(name: Seq<char>, version: Seq<char>) -> Seq<char> {
    "https://www.nuget.org/api/v2/package/"@ + name + "/"@ + version
}

/// Whether two texts are the same.
pub fn same_text(a: &str, b: &str) -> (r: bool)
    ensures
        r == (a@ == b@),
{
    let n = a.unicode_len();
    if n != b.unicode_len() {
        return false;
    }
    let mut i: usize = 0;
    while i < n
        invariant
            i <= n,
            n == a@.len(),
            n == b@.len(),
            forall|j: int| 0 <= j < i ==> a@[j] == b@[j],
        decreases n - i,
    {
        if a.get_char(i) != b.get_char(i) {
            return false;
        }
        i += 1;
    }
    assert(a@ =~= b@);
    true
}

/// The first entry of a table with the given key, by its place.
fn find_entry(entries: &Vec<(String, MetaValue)>, key: &str) -> (at: usize)
    ensures
        at == place_of(entries@, key@),
        at <= entries@.len(),
{
    let mut i: usize = 0;
    assert(entries@.subrange(0, entries@.len() as int) =~= entries@);
    while i < entries.len()
        invariant
            i <= entries@.len(),
            place_of(entries@, key@) == i + place_of(
                entries@.subrange(i as int, entries@.len() as int),
                key@,
            ),
        decreases entries.len() - i,
    {
        let ghost rest = entries@.subrange(i as int, entries@.len() as int);
        assert(rest[0] == entries@[i as int]);
        assert(rest.drop_first() =~= entries@.subrange(i as int + 1, entries@.len() as int));
        if same_text(entries[i].0.as_str(), key) {
            return i;
        }
        i += 1;
    }
    assert(entries@.subrange(i as int, entries@.len() as int).len() == 0);
    i
}

impl Dependency {
    /// A package by name and version.
    pub fn new(name: String, version: String) -> (dep: Self)
        ensures
            dep.name == name,
            dep.version == version,
    {
        Self { name, version }
    }

    /// The address from which the package is downloaded.
    pub fn url(&self) -> (url: String)
        ensures
            url@ == package_url(self.name@, self.version@),
    {
        let mut url = String::from_str("https://www.nuget.org/api/v2/package/");
        url.append(self.name.as_str());
        url.append("/");
        url.append(self.version.as_str());
        url
    }
}

/// The packages that a manifest asks for.
///
/// Fails with `MalformedManifest` unless the metadata is a table that holds,
/// under `nuget_dependencies`, a table of package names with a text each:
/// the version.
pub fn get_deps(metadata: &Option<MetaValue>) -> (r: Result<Vec<Dependency>, NugetError>)
    ensures
        match listed(*metadata) {
            Some(packages) => if all_versions_text(packages) {
                r is Ok && matches_packages(r->Ok_0@, packages)
            } else {
                r == Err::<Vec<Dependency>, NugetError>(NugetError::MalformedManifest)
            },
            None => r == Err::<Vec<Dependency>, NugetError>(NugetError::MalformedManifest),
        },
{
    let entries = match metadata {
        Some(MetaValue::Table(entries)) => entries,
        _ => {
            return Err(NugetError::MalformedManifest);
        },
    };
    let at = find_entry(entries, "nuget_dependencies");
    if at >= entries.len() {
        return Err(NugetError::MalformedManifest);
    }
    let packages = match &entries[at].1 {
        MetaValue::Table(packages) => packages,
        _ => {
            return Err(NugetError::MalformedManifest);
        },
    };
    let mut deps: Vec<Dependency> = Vec::new();
    let mut i: usize = 0;
    while i < packages.len()
        invariant
            i <= packages@.len(),
            deps@.len() == i,
            listed(*metadata) == Some(packages@),
            forall|j: int| 0 <= j < i ==> (#[trigger] packages@[j]).1 is Text,
            forall|j: int|
                0 <= j < i ==> (#[trigger] deps@[j]).name@ == packages@[j].0@ && deps@[j].version@
                    == packages@[j].1->Text_0@,
        decreases packages.len() - i,
    {
        match &packages[i].1 {
            MetaValue::Text(version) => {
                deps.push(Dependency::new(packages[i].0.clone(), version.clone()));
            },
            _ => {
                assert(!(packages@[i as int].1 is Text));
                return Err(NugetError::MalformedManifest);
            },
        }
        i += 1;
    }
    Ok(deps)
}

/// What to do with an answer of the server that is of use.
#[derive(Debug, Clone, PartialEq, Eq)]
pub enum Verdict {
    /// The answer holds the package: take its body.
    TakeBody,
    /// The package is elsewhere: ask at this address.
    Follow(String),
}

/// Judges the first answer of the server by its status and, for a
/// redirection, the address it names.
///
/// 200 delivers the package and 302 sends on to another address; any other
/// status fails with `DownloadError`. A redirection must name its address.
pub fn judge_answer(status: u16, location: Option<String>) -> (r: Result<Verdict, NugetError>)
    requires
        status == 302 ==> location is Some,
    ensures
        status == 200 ==> r == Ok::<Verdict, NugetError>(Verdict::TakeBody),
        status == 302 ==> r == Ok::<Verdict, NugetError>(Verdict::Follow(location->Some_0)),
        status != 200 && status != 302 ==> r == Err::<Verdict, NugetError>(
            NugetError::DownloadError,
        ),
{
    if status == 200 {
        Ok(Verdict::TakeBody)
    } else if status == 302 {
        match location {
            Some(address) => Ok(Verdict::Follow(address)),
            None => Err(NugetError::DownloadError),
        }
    } else {
        Err(NugetError::DownloadError)
    }
}

/// Whether a file with this extension is among those that are kept: the
/// Windows metadata files.
pub fn is_winmd(extension: Option<&str>) -> (r: bool)
    ensures
        r == (extension matches Some(e) && e@ == "winmd"@),
{
    match extension {
        Some(e) => same_text(e, "winmd"),
        None => false,
    }
}

/// A file of a package, as far as choosing goes.
#[derive(Debug, Clone, PartialEq, Eq)]
pub struct PackedFile {
    /// The last part of the file's path.
    pub name: String,
    /// What follows the last dot of the name, if it has one.
    pub extension: Option<String>,
}

/// Whether a file is kept.
pub open spec fn kept(file: PackedFile) -> bool {
    file.extension matches Some(e) && e@ == "winmd"@
}

impl Install {
    /// The places, among the files of a package, of those that are kept: the
    /// Windows metadata files, in their order.
    pub fn select(&self, files: &Vec<PackedFile>) -> (places: Vec<usize>)
        ensures
            forall|k: int| 0 <= k < places@.len() ==> places@[k] < files@.len() && kept(
                files@[#[trigger] places@[k] as int],
            ),
            forall|k: int, l: int| 0 <= k < l < places@.len() ==> places@[k] < places@[l],
            forall|i: int|
                0 <= i < files@.len() && kept(#[trigger] files@[i]) ==> places@.contains(
                    i as usize,
                ),
    {
        let mut places: Vec<usize> = Vec::new();
        let mut i: usize = 0;
        while i < files.len()
            invariant
                i <= files@.len(),
                forall|k: int| 0 <= k < places@.len() ==> places@[k] < i && kept(
                    files@[#[trigger] places@[k] as int],
                ),
                forall|k: int, l: int| 0 <= k < l < places@.len() ==> places@[k] < places@[l],
                forall|j: int|
                    0 <= j < i && kept(#[trigger] files@[j]) ==> places@.contains(j as usize),
            decreases files.len() - i,
        {
            let keep = match &files[i].extension {
                Some(e) => is_winmd(Some(e.as_str())),
                None => is_winmd(None),
            };
            if keep {
                let ghost before = places@;
                places.push(i);
                proof {
                    assert forall|j: int| 0 <= j < i + 1 && kept(#[trigger] files@[j]) implies places@.contains(
                        j as usize,
                    ) by {
                        if j < i {
                            let k = choose|k: int| 0 <= k < before.len() && before[k] == j as usize;
                            assert(places@[k] == j as usize);
                        } else {
                            assert(places@[places@.len() - 1] == j as usize);
                        }
                    }
                }
            }
            i += 1;
        }
        places
    }
}

} // verus!
