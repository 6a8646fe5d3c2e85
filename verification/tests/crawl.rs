use zip_exclude::args::parse_items;
use zip_exclude::args::Args;
use zip_exclude::crawler::child_path;
use zip_exclude::crawler::crawl;
use zip_exclude::crawler::file_name;
use zip_exclude::crawler::is_ignored;
use zip_exclude::crawler::react;
use zip_exclude::crawler::Failure;
use zip_exclude::crawler::Reaction;
use zip_exclude::crawler::visit;
use zip_exclude::crawler::Entry;
use zip_exclude::crawler::Node;
use zip_exclude::crawler::Step;
use zip_exclude::exclude::Item;
use zip_exclude::exclude::Matches;

fn file(name: &str) -> Node {
    Node::File { name: name.to_string() }
}

fn dir(name: &str, entries: Vec<Node>) -> Node {
    Node::Directory { name: name.to_string(), entries }
}

fn items(texts: &[&str]) -> Vec<Item<'static>> {
    texts.iter().map(|t| Item::from_string(t)).collect()
}

fn render(entries: &[Entry]) -> Vec<String> {
    entries.iter().map(|e| if e.is_dir { format!("{}/", e.name) } else { e.name.clone() }).collect()
}

fn archive(tree: &[Node], includes: &[&str], excludes: &[&str]) -> Vec<String> {
    let mut out = Vec::new();
    crawl(&[".".to_string()], tree, &items(includes), &items(excludes), &mut out);
    render(&out)
}

fn walk_by_steps(at: &[String], entries: &[Node], includes: Vec<Item>, excludes: Vec<Item>, out: &mut Vec<String>) {
    for entry in entries {
        let (name, is_dir) = match entry {
            Node::File { name } => (name, false),
            Node::Directory { name, .. } => (name, true),
        };
        let path = child_path(at, name);
        match visit(name, is_dir, &includes, &excludes) {
            Step::Skip => {},
            Step::AddFile => out.push(file_name(&path)),
            Step::AddDirectory { includes: inner, excludes: outer } => {
                out.push(format!("{}/", file_name(&path)));
                if let Node::Directory { entries: children, .. } = entry {
                    walk_by_steps(&path, children, inner, outer, out);
                }
            },
        }
    }
}

fn small_tree() -> Vec<Node> {
    vec![file("a.txt"), file("b.txt"), dir("sub", vec![file("c.txt")])]
}

fn build_tree() -> Vec<Node> {
    vec![
        file("main.rs"),
        dir("build", vec![file("out.o"), dir("cache", vec![file("x.bin"), dir("deep", vec![file("y.bin")])])]),
        dir("src", vec![file("lib.rs"), dir("inner", vec![file("mod.rs")])]),
    ]
}

#[test]
fn reserved_names_are_ignored() {
    assert!(is_ignored(".git"));
    assert!(is_ignored(".gitignore"));
    assert!(!is_ignored(".gitmodules"));
    assert!(!is_ignored("git"));
    assert!(!is_ignored(""));
    assert!(!is_ignored(".GIT"));
}

#[test]
fn reserved_names_are_skipped_before_patterns() {
    let all = items(&["*"]);
    let none: Vec<Item> = Vec::new();
    assert!(matches!(visit(".git", true, &all, &none), Step::Skip));
    assert!(matches!(visit(".gitignore", false, &all, &none), Step::Skip));
    assert!(matches!(visit(".gitattributes", false, &all, &none), Step::AddFile));
}

#[test]
fn file_name_joins_components_without_dots() {
    let path = vec![".".to_string(), "sub".to_string(), "c.txt".to_string()];
    assert_eq!(file_name(&path), "sub/c.txt");
    assert_eq!(file_name(&[".".to_string(), "a.txt".to_string()]), "a.txt");
    assert_eq!(file_name(&["a".to_string(), ".".to_string(), "b".to_string()]), "a/b");
    assert_eq!(file_name(&[".".to_string()]), "");
    assert_eq!(file_name(&[]), "");
    assert_eq!(file_name(&["..".to_string(), "x".to_string()]), "../x");
}

#[test]
fn file_needs_an_exact_include() {
    let partial = items(&["a.txt/more"]);
    let none: Vec<Item> = Vec::new();
    assert!(matches!(visit("a.txt", false, &partial, &none), Step::Skip));
    let exact = items(&["a.txt"]);
    assert!(matches!(visit("a.txt", false, &exact, &none), Step::AddFile));
    assert!(matches!(visit("b.txt", false, &exact, &none), Step::Skip));
}

#[test]
fn file_is_kept_under_a_partial_exclude() {
    let all = items(&["*"]);
    let partial = items(&["a.txt/more"]);
    assert!(matches!(visit("a.txt", false, &all, &partial), Step::AddFile));
    let exact = items(&["a.txt"]);
    assert!(matches!(visit("a.txt", false, &all, &exact), Step::Skip));
}

#[test]
fn directory_descends_with_residuals() {
    let includes = items(&["src/lib/x.rs", "doc"]);
    let excludes = items(&["src/lib", "other"]);
    match visit("src", true, &includes, &excludes) {
        Step::AddDirectory { includes: inner, excludes: outer } => {
            assert_eq!(inner.len(), 1);
            assert_eq!(inner[0].len(), 2);
            assert_eq!(outer.len(), 1);
            assert!(matches!(outer[0].recurse("lib"), Matches::Exact));
        },
        _ => panic!("the directory was not entered"),
    }
    assert!(matches!(visit("lib", true, &includes, &excludes), Step::Skip));
}

#[test]
fn directory_without_exclude_match_gets_no_excludes() {
    let includes = items(&["src"]);
    let excludes = items(&["build"]);
    match visit("src", true, &includes, &excludes) {
        Step::AddDirectory { includes: inner, excludes: outer } => {
            assert_eq!(inner.len(), 1);
            assert!(outer.is_empty());
        },
        _ => panic!("the directory was not entered"),
    }
}

#[test]
fn exact_include_takes_everything_beneath() {
    let got = archive(&build_tree(), &["src"], &[]);
    assert_eq!(got, vec!["src/", "src/lib.rs", "src/inner/", "src/inner/mod.rs"]);
}

#[test]
fn exact_include_still_honours_excludes_beneath() {
    let got = archive(&build_tree(), &["src"], &["src/inner"]);
    assert_eq!(got, vec!["src/", "src/lib.rs"]);
}

#[test]
fn exact_exclude_removes_the_whole_directory() {
    let got = archive(&build_tree(), &["*"], &["build"]);
    assert_eq!(got, vec!["main.rs", "src/", "src/lib.rs", "src/inner/", "src/inner/mod.rs"]);
}

#[test]
fn partial_exclude_narrows_beneath() {
    let got = archive(&build_tree(), &["*"], &["build/cache"]);
    assert_eq!(
        got,
        vec!["main.rs", "build/", "build/out.o", "src/", "src/lib.rs", "src/inner/", "src/inner/mod.rs"]
    );
}

#[test]
fn include_everything_scenario() {
    let got = archive(&small_tree(), &["*"], &[]);
    assert_eq!(got, vec!["a.txt", "b.txt", "sub/", "sub/c.txt"]);
}

#[test]
fn include_txt_exclude_one_scenario() {
    let got = archive(&small_tree(), &["*.txt"], &["b.txt"]);
    assert_eq!(got, vec!["a.txt"]);
}

#[test]
fn nothing_included_gives_nothing() {
    let got = archive(&small_tree(), &[], &[]);
    assert!(got.is_empty());
}

#[test]
fn parse_items_keeps_order() {
    let texts = vec!["a/b".to_string(), "c".to_string(), "".to_string()];
    let got = parse_items(&texts);
    assert_eq!(got.len(), 3);
    assert_eq!(got[0].len(), 2);
    assert_eq!(got[1].len(), 1);
    assert!(matches!(got[1].recurse("c"), Matches::Exact));
    assert!(matches!(got[1].recurse("d"), Matches::No));
    assert!(matches!(got[2].recurse("d"), Matches::Exact));
}

#[test]
fn archive_excludes_itself() {
    let args = Args { output: "out.zip".to_string(), inputs: vec!["*".to_string()], excludes: vec![] };
    let includes = args.include_items();
    let excludes = args.exclude_items();
    assert_eq!(includes.len(), 1);
    assert_eq!(excludes.len(), 1);
    assert!(matches!(visit("out.zip", false, &includes, &excludes), Step::Skip));
    assert!(matches!(visit("other.zip", false, &includes, &excludes), Step::AddFile));
}

#[test]
fn archive_path_comes_last_among_excludes() {
    let args = Args {
        output: "out.zip".to_string(),
        inputs: vec!["src".to_string(), "doc".to_string()],
        excludes: vec!["src/tmp".to_string(), "doc".to_string()],
    };
    let includes = args.include_items();
    let excludes = args.exclude_items();
    assert_eq!(includes.len(), 2);
    assert_eq!(excludes.len(), 3);
    assert_eq!(excludes[0].len(), 2);
    assert!(matches!(excludes[1].recurse("doc"), Matches::Exact));
    assert!(matches!(excludes[2].recurse("out.zip"), Matches::Exact));
    assert!(matches!(excludes[2].recurse("doc"), Matches::No));
}

#[test]
fn crawl_appends_to_what_is_there() {
    let mut out = vec![Entry { name: "earlier".to_string(), is_dir: false }];
    crawl(&[".".to_string()], &small_tree(), &items(&["sub"]), &[], &mut out);
    assert_eq!(
        out,
        vec![
            Entry { name: "earlier".to_string(), is_dir: false },
            Entry { name: "sub".to_string(), is_dir: true },
            Entry { name: "sub/c.txt".to_string(), is_dir: false },
        ]
    );
}

#[test]
fn crawl_names_entries_from_the_given_path() {
    let mut out = Vec::new();
    crawl(&["top".to_string(), ".".to_string()], &small_tree(), &items(&["*.txt"]), &[], &mut out);
    assert_eq!(render(&out), vec!["top/a.txt", "top/b.txt"]);
}

#[test]
fn crawl_skips_reserved_names_at_every_depth() {
    let tree = vec![
        dir(".git", vec![file("config")]),
        file(".gitignore"),
        dir("src", vec![file(".gitignore"), dir(".git", vec![file("HEAD")]), file("lib.rs")]),
    ];
    assert_eq!(archive(&tree, &["*"], &[]), vec!["src/", "src/lib.rs"]);
}

#[test]
fn crawl_agrees_with_a_walk_by_single_steps() {
    let cases: Vec<(Vec<&str>, Vec<&str>)> = vec![
        (vec!["*"], vec![]),
        (vec!["*"], vec!["build"]),
        (vec!["*"], vec!["build/cache"]),
        (vec!["src", "build/*.o"], vec!["src/inner/mod.rs"]),
        (vec!["*/*"], vec!["*/lib.rs"]),
        (vec![], vec!["src"]),
    ];
    for (inc, exc) in cases {
        let mut stepped = Vec::new();
        walk_by_steps(&[".".to_string()], &build_tree(), items(&inc), items(&exc), &mut stepped);
        assert_eq!(archive(&build_tree(), &inc, &exc), stepped);
    }
}

#[test]
fn partial_include_admits_only_what_it_leads_to() {
    let got = archive(&build_tree(), &["build/*.o"], &[]);
    assert_eq!(got, vec!["build/", "build/out.o"]);
}

#[test]
fn child_path_adds_one_component() {
    let at = vec![".".to_string(), "a".to_string()];
    assert_eq!(child_path(&at, &"b".to_string()), vec![".", "a", "b"]);
    assert_eq!(child_path(&[], &"b".to_string()), vec!["b"]);
}

#[test]
fn listing_failures_are_confined() {
    assert!(matches!(react(Failure::DirectoryRead), Reaction::AbandonSubtree));
    assert!(matches!(react(Failure::EntryRead), Reaction::AbandonListing));
}

#[test]
fn content_and_archive_failures_end_the_run() {
    assert!(matches!(react(Failure::FileContentRead), Reaction::Abort));
    assert!(matches!(react(Failure::SinkWrite), Reaction::Abort));
}

#[test]
fn archive_in_a_directory_is_excluded_there() {
    let args = Args { output: "dist/out.zip".to_string(), inputs: vec!["*".to_string()], excludes: vec![] };
    let includes = args.include_items();
    let excludes = args.exclude_items();
    match visit("dist", true, &includes, &excludes) {
        Step::AddDirectory { includes: inner, excludes: outer } => {
            assert_eq!(outer.len(), 1);
            assert!(matches!(visit("out.zip", false, &inner, &outer), Step::Skip));
            assert!(matches!(visit("notes.txt", false, &inner, &outer), Step::AddFile));
        },
        _ => panic!("the directory was not entered"),
    }
}
