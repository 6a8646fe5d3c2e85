use zip_exclude::exclude::recurse_collection;
use zip_exclude::exclude::same_chars;
use zip_exclude::exclude::CollectionMatches;
use zip_exclude::exclude::Component;
use zip_exclude::exclude::Item;
use zip_exclude::exclude::Matches;
use zip_exclude::exclude::PathComponent;
use zip_exclude::text::chars;
use zip_exclude::text::split_chars;

fn cs(s: &str) -> Vec<char> {
    s.chars().collect()
}

fn parts(s: &str, sep: char) -> Vec<String> {
    split_chars(&cs(s), sep).iter().map(|p| p.iter().collect::<String>()).collect()
}

fn is_exact(m: &Matches) -> bool {
    matches!(m, Matches::Exact)
}

fn is_no(m: &Matches) -> bool {
    matches!(m, Matches::No)
}

#[test]
fn chars_reads_every_character() {
    assert_eq!(chars("a/b.c"), vec!['a', '/', 'b', '.', 'c']);
    assert_eq!(chars(""), Vec::<char>::new());
    assert_eq!(chars("h\u{e9}llo"), vec!['h', '\u{e9}', 'l', 'l', 'o']);
}

#[test]
fn split_gives_the_parts_between_separators() {
    assert_eq!(parts("a.b.c", '.'), vec!["a", "b", "c"]);
    assert_eq!(parts("abc", '.'), vec!["abc"]);
    assert_eq!(parts("", '.'), vec![""]);
    assert_eq!(parts(".", '.'), vec!["", ""]);
    assert_eq!(parts("a..b", '.'), vec!["a", "", "b"]);
    assert_eq!(parts("a.", '.'), vec!["a", ""]);
    assert_eq!(parts(".a", '.'), vec!["", "a"]);
    assert_eq!(parts("src/main.rs", '/'), vec!["src", "main.rs"]);
}

#[test]
fn split_agrees_with_the_standard_split() {
    for s in ["", "a", ".", "..", "a.b", ".a.", "a..b.c", "x.y.z.", "/a/b"] {
        for sep in ['.', '/'] {
            let want: Vec<String> = s.split(sep).map(|p| p.to_string()).collect();
            assert_eq!(parts(s, sep), want);
        }
    }
}

#[test]
fn same_chars_compares_contents() {
    assert!(same_chars(&cs("abc"), &cs("abc")));
    assert!(same_chars(&cs(""), &cs("")));
    assert!(!same_chars(&cs("abc"), &cs("abd")));
    assert!(!same_chars(&cs("abc"), &cs("ab")));
    assert!(!same_chars(&cs("ab"), &cs("abc")));
}

#[test]
fn token_star_is_wildcard() {
    assert!(matches!(PathComponent::from_string(&cs("*")), PathComponent::Wildcard));
    match PathComponent::from_string(&cs("txt")) {
        PathComponent::Str(s) => assert_eq!(s, cs("txt")),
        PathComponent::Wildcard => panic!("a literal was read as the wildcard"),
    }
    match PathComponent::from_string(&cs("**")) {
        PathComponent::Str(s) => assert_eq!(s, cs("**")),
        PathComponent::Wildcard => panic!("a literal was read as the wildcard"),
    }
    match PathComponent::from_string(&cs("")) {
        PathComponent::Str(s) => assert_eq!(s, cs("")),
        PathComponent::Wildcard => panic!("a literal was read as the wildcard"),
    }
}

#[test]
fn token_matching_is_exact_and_case_sensitive() {
    let any = PathComponent::from_string(&cs("*"));
    assert!(any.matches(&cs("anything")));
    assert!(any.matches(&cs("")));
    let lit = PathComponent::from_string(&cs("txt"));
    assert!(lit.matches(&cs("txt")));
    assert!(!lit.matches(&cs("TXT")));
    assert!(!lit.matches(&cs("tx")));
    assert!(!lit.matches(&cs("txt2")));
}

#[test]
fn segment_wildcard_forms() {
    assert!(matches!(Component::from_string(&cs("*")), Component::Wildcard));
    assert!(matches!(Component::from_string(&cs(".")), Component::Wildcard));
    assert!(matches!(Component::from_string(&cs("")), Component::Wildcard));
    match Component::from_string(&cs("*.txt")) {
        Component::Path(tokens) => {
            assert_eq!(tokens.len(), 2);
            assert!(matches!(tokens[0], PathComponent::Wildcard));
            assert!(matches!(&tokens[1], PathComponent::Str(s) if *s == cs("txt")));
        },
        Component::Wildcard => panic!("a tokenized segment was read as the wildcard"),
    }
    match Component::from_string(&cs("..")) {
        Component::Path(tokens) => assert_eq!(tokens.len(), 3),
        Component::Wildcard => panic!("a tokenized segment was read as the wildcard"),
    }
}

#[test]
fn segment_wildcard_matches_everything() {
    let any = Component::from_string(&cs("*"));
    assert!(any.matches(&cs("a.b.c")));
    assert!(any.matches(&cs("")));
    assert!(any.matches(&cs("Makefile")));
}

#[test]
fn wildcard_token_absorbs_one_part() {
    let seg = Component::from_string(&cs("a.*"));
    assert!(seg.matches(&cs("a.txt")));
    assert!(seg.matches(&cs("a.anything")));
    assert!(seg.matches(&cs("a.")));
    assert!(!seg.matches(&cs("a")));
    assert!(!seg.matches(&cs("a.b.c")));
    assert!(!seg.matches(&cs("b.txt")));
}

#[test]
fn wildcard_pattern_a_star_through_recurse() {
    let item = Item::from_string("a.*");
    assert!(is_exact(&item.recurse("a.txt")));
    assert!(is_exact(&item.recurse("a.anything")));
    assert!(is_no(&item.recurse("a")));
    assert!(is_no(&item.recurse("a.b.c")));
}

#[test]
fn dot_count_must_agree() {
    let item = Item::from_string("a.b");
    assert!(is_no(&item.recurse("a.b.c")));
    assert!(is_exact(&item.recurse("a.b")));
    assert!(is_no(&item.recurse("a")));
    assert!(is_no(&item.recurse("a.c")));
}

#[test]
fn two_wildcards_match_any_two_levels() {
    let item = Item::from_string("*/*");
    assert_eq!(item.len(), 2);
    for first in ["src", "a.b.c", "", "x y"] {
        match item.recurse(first) {
            Matches::Partial(rest) => {
                assert_eq!(rest.len(), 1);
                for second in ["main.rs", "deep", "..", ""] {
                    assert!(is_exact(&rest.recurse(second)));
                }
            },
            _ => panic!("the first level did not match partially"),
        }
    }
}

#[test]
fn empty_text_is_one_wildcard() {
    let item = Item::from_string("");
    assert_eq!(item.len(), 1);
    assert!(is_exact(&item.recurse("whatever.it.is")));
}

#[test]
fn pattern_has_one_segment_per_slash_part() {
    assert_eq!(Item::from_string("a").len(), 1);
    assert_eq!(Item::from_string("a/b").len(), 2);
    assert_eq!(Item::from_string("a/b/c.d").len(), 3);
    assert_eq!(Item::from_string("a//b").len(), 3);
    assert_eq!(Item::from_string("/").len(), 2);
    assert_eq!(Item::from_string("./out.zip").len(), 2);
}

#[test]
fn partial_match_carries_the_tail() {
    let item = Item::from_string("src/lib/mod.rs");
    let first = item.recurse("src");
    let rest = match first {
        Matches::Partial(rest) => rest,
        _ => panic!("the head did not match partially"),
    };
    assert_eq!(rest.len(), 2);
    assert!(is_no(&rest.recurse("src")));
    let last = match rest.recurse("lib") {
        Matches::Partial(last) => last,
        _ => panic!("the second segment did not match partially"),
    };
    assert_eq!(last.len(), 1);
    assert!(is_exact(&last.recurse("mod.rs")));
    assert!(is_no(&last.recurse("mod.txt")));
}

#[test]
fn wildcard_item_admits_everything() {
    let item = Item::wildcard();
    assert_eq!(item.len(), 1);
    assert!(is_exact(&item.recurse("a")));
    assert!(is_exact(&item.recurse("a.b.c")));
    assert!(is_exact(&item.recurse("")));
}

#[test]
fn names_are_matched_by_their_last_component() {
    let item = Item::from_string("main.rs");
    assert!(is_exact(&item.recurse("src/main.rs")));
    assert!(is_exact(&item.recurse("a/b/main.rs")));
    assert!(is_no(&item.recurse("main.rs/src")));
    let dir = Item::from_string("src");
    assert!(is_no(&dir.recurse("src/main.rs")));
}

#[test]
fn matching_twice_gives_the_same_outcome() {
    let texts = ["*", "a.*", "a/b", "src", "*.txt/x"];
    let names = ["a", "a.txt", "src", "b.txt", ""];
    for t in texts {
        let item = Item::from_string(t);
        for n in names {
            let one = item.recurse(n);
            let two = item.recurse(n);
            match (one, two) {
                (Matches::Exact, Matches::Exact) => {},
                (Matches::No, Matches::No) => {},
                (Matches::Partial(a), Matches::Partial(b)) => assert_eq!(a.len(), b.len()),
                _ => panic!("two evaluations disagreed"),
            }
        }
    }
}

#[test]
fn collection_with_no_match_is_no() {
    let items = vec![Item::from_string("a"), Item::from_string("b/c")];
    assert!(matches!(recurse_collection("x", &items), CollectionMatches::No));
    let none: Vec<Item> = Vec::new();
    assert!(matches!(recurse_collection("x", &none), CollectionMatches::No));
}

#[test]
fn collection_partial_carries_residuals_in_order() {
    let items = vec![
        Item::from_string("src/a/b"),
        Item::from_string("doc"),
        Item::from_string("src/c"),
    ];
    match recurse_collection("src", &items) {
        CollectionMatches::Partial(rest) => {
            assert_eq!(rest.len(), 2);
            assert_eq!(rest[0].len(), 2);
            assert_eq!(rest[1].len(), 1);
            assert!(matches!(rest[0].recurse("a"), Matches::Partial(_)));
            assert!(is_exact(&rest[1].recurse("c")));
        },
        _ => panic!("the verdict was not partial"),
    }
}

#[test]
fn collection_exact_adds_the_universal_pattern() {
    let items = vec![Item::from_string("src/main.rs"), Item::from_string("src")];
    match recurse_collection("src", &items) {
        CollectionMatches::Exact(rest) => {
            assert_eq!(rest.len(), 2);
            assert!(is_no(&rest[0].recurse("lib.rs")));
            assert!(is_exact(&rest[0].recurse("main.rs")));
            assert_eq!(rest[1].len(), 1);
            assert!(is_exact(&rest[1].recurse("lib.rs")));
            assert!(is_exact(&rest[1].recurse("anything.at.all")));
        },
        _ => panic!("the verdict was not exact"),
    }
}

#[test]
fn collection_exact_stays_exact_below() {
    let items = vec![Item::from_string("src")];
    let below = match recurse_collection("src", &items) {
        CollectionMatches::Exact(rest) => rest,
        _ => panic!("the verdict was not exact"),
    };
    let deeper = match recurse_collection("nested", &below) {
        CollectionMatches::Exact(rest) => rest,
        _ => panic!("the verdict below was not exact"),
    };
    assert!(matches!(recurse_collection("file.tar.gz", &deeper), CollectionMatches::Exact(_)));
}
