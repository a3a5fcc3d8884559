use wordguess::collisions::{asteroids_to_despawn, Contact};
use wordguess::nuget::{
    get_deps, is_winmd, judge_answer, same_text, Dependency, Install, MetaValue, NugetError,
    PackedFile, Verdict,
};

fn text(s: &str) -> MetaValue {
    MetaValue::Text(String::from(s))
}

fn table(entries: Vec<(&str, MetaValue)>) -> MetaValue {
    MetaValue::Table(entries.into_iter().map(|(k, v)| (String::from(k), v)).collect())
}

#[test]
fn packages_are_read_from_the_metadata() {
    let metadata = Some(table(vec![
        ("docs", text("yes")),
        (
            "nuget_dependencies",
            table(vec![("Microsoft.Windows.SDK.Contracts", text("10.0.19041.1")), ("Win2D", text("1.25"))]),
        ),
        ("nuget_dependencies", text("shadowed")),
    ]));
    assert_eq!(
        get_deps(&metadata),
        Ok(vec![
            Dependency::new(
                String::from("Microsoft.Windows.SDK.Contracts"),
                String::from("10.0.19041.1")
            ),
            Dependency::new(String::from("Win2D"), String::from("1.25")),
        ])
    );
    let none = Some(table(vec![("nuget_dependencies", table(vec![]))]));
    assert_eq!(get_deps(&none), Ok(vec![]));
}

#[test]
fn a_manifest_without_a_proper_list_is_malformed() {
    let malformed = Err(NugetError::MalformedManifest);
    assert_eq!(get_deps(&None), malformed);
    assert_eq!(get_deps(&Some(text("nuget_dependencies"))), malformed);
    assert_eq!(get_deps(&Some(MetaValue::Other)), malformed);
    assert_eq!(get_deps(&Some(table(vec![]))), malformed);
    assert_eq!(get_deps(&Some(table(vec![("nuget-dependencies", table(vec![]))]))), malformed);
    assert_eq!(get_deps(&Some(table(vec![("nuget_dependencies", text("1.0"))]))), malformed);
    assert_eq!(
        get_deps(&Some(table(vec![
            ("nuget_dependencies", MetaValue::Other),
            ("nuget_dependencies", table(vec![])),
        ]))),
        malformed
    );
    assert_eq!(
        get_deps(&Some(table(vec![(
            "nuget_dependencies",
            table(vec![("a", text("1")), ("b", MetaValue::Other)])
        )]))),
        malformed
    );
    assert_eq!(
        get_deps(&Some(table(vec![(
            "nuget_dependencies",
            table(vec![("a", table(vec![("version", text("1"))]))])
        )]))),
        malformed
    );
}

#[test]
fn a_package_knows_its_address() {
    let dep = Dependency::new(String::from("Win2D"), String::from("1.25.0"));
    assert_eq!(dep.name, "Win2D");
    assert_eq!(dep.version, "1.25.0");
    assert_eq!(dep.url(), "https://www.nuget.org/api/v2/package/Win2D/1.25.0");
    let odd = Dependency::new(String::new(), String::from("ø"));
    assert_eq!(odd.url(), "https://www.nuget.org/api/v2/package//ø");
}

#[test]
fn answers_are_judged_by_their_status() {
    assert_eq!(judge_answer(200, None), Ok(Verdict::TakeBody));
    assert_eq!(judge_answer(200, Some(String::from("https://elsewhere"))), Ok(Verdict::TakeBody));
    assert_eq!(
        judge_answer(302, Some(String::from("https://elsewhere"))),
        Ok(Verdict::Follow(String::from("https://elsewhere")))
    );
    let refused = Err(NugetError::DownloadError);
    assert_eq!(judge_answer(404, None), refused);
    assert_eq!(judge_answer(301, Some(String::from("https://elsewhere"))), refused);
    assert_eq!(judge_answer(0, None), refused);
    assert_eq!(judge_answer(201, None), refused);
}

#[test]
fn only_windows_metadata_files_are_kept() {
    assert!(is_winmd(Some("winmd")));
    assert!(!is_winmd(Some("WINMD")));
    assert!(!is_winmd(Some("winmd ")));
    assert!(!is_winmd(Some("dll")));
    assert!(!is_winmd(Some("")));
    assert!(!is_winmd(None));
    assert!(same_text("", ""));
    assert!(same_text("blåbær", "blåbær"));
    assert!(!same_text("blåbær", "blabar"));
    assert!(!same_text("ab", "abc"));
    let file = |name: &str, extension: Option<&str>| PackedFile {
        name: String::from(name),
        extension: extension.map(String::from),
    };
    let files = vec![
        file("Windows.Foundation.winmd", Some("winmd")),
        file("readme.txt", Some("txt")),
        file("LICENSE", None),
        file("Windows.UI.winmd", Some("winmd")),
        file("winmd", None),
        file("x.winmd.bak", Some("bak")),
    ];
    assert_eq!(Install {}.select(&files), vec![0, 3]);
    assert_eq!(Install {}.select(&vec![]), Vec::<usize>::new());
}

#[test]
fn asteroids_are_destroyed_by_anything_but_asteroids() {
    let contact = |entity: u64, colliding: &[u64]| Contact { entity, colliding: colliding.to_vec() };
    let asteroids = vec![
        contact(1, &[2]),
        contact(2, &[1, 3]),
        contact(3, &[2, 100]),
        contact(4, &[]),
        contact(5, &[200, 201]),
        contact(6, &[6]),
    ];
    assert_eq!(asteroids_to_despawn(&asteroids), vec![3, 5]);
    assert_eq!(asteroids_to_despawn(&vec![]), Vec::<u64>::new());
    assert_eq!(asteroids_to_despawn(&vec![contact(7, &[8])]), vec![7]);
    assert_eq!(asteroids_to_despawn(&vec![contact(7, &[8]), contact(8, &[7])]), Vec::<u64>::new());
}
