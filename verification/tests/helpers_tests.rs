use taggu::helpers::{fuzzy_name_match, FuzzyMatchError};
use taggu::path::{is_valid_item_name, normalize};

#[test]
fn test_normalize() {
    assert_eq!(normalize(""), ".");
    assert_eq!(normalize("/"), "/");
    assert_eq!(normalize("//"), "/");
    assert_eq!(normalize("///"), "/");
    assert_eq!(normalize("."), ".");
    assert_eq!(normalize(".."), "..");
    assert_eq!(normalize("./"), ".");
    assert_eq!(normalize("../"), "..");
    assert_eq!(normalize("/."), "/");
    assert_eq!(normalize("/.."), "/");
    assert_eq!(normalize("./foo"), "foo");
    assert_eq!(normalize("foo"), "foo");
    assert_eq!(normalize(".foo"), ".foo");
    assert_eq!(normalize("foo."), "foo.");
    assert_eq!(normalize("foo/bar/"), "foo/bar");
    assert_eq!(normalize("foo//bar///"), "foo/bar");
    assert_eq!(normalize("foo/bar/./baz/"), "foo/bar/baz");
    assert_eq!(normalize("foo/bar/../baz/"), "foo/baz");
    assert_eq!(normalize("../foo"), "../foo");
}

#[test]
fn helpers_test_is_valid_item_name() {
    let inputs_and_expected = vec![
        ("simple", true),
        ("simple.ext", true),
        ("spaces ok", true),
        ("questions?", true),
        ("exclamation!", true),
        ("period.", true),
        (".period", true),
        ("", false),
        (".", false),
        ("..", false),
        ("/simple", false),
        ("./simple", false),
        ("simple/", false),
        ("simple/.", false),
        ("/", false),
        ("/simple/more", false),
        ("simple/more", false),
    ];

    for (input, expected) in inputs_and_expected {
        let produced = is_valid_item_name(input);
        assert_eq!(expected, produced);
    }
}

#[test]
fn test_fuzzy_name_match() {
    let haystack = vec![
        "TRACK00.flac",
        "TRACK01.flac",
        "TRACK01.flac",
        "TRACK02.flac",
        "TRACK03.flac",
        "TRACK04.flac",
        "TRACK05.flac",
        "TRACK06.flac",
        "TRACK07.flac",
        "TRACK08.flac",
        "TRACK09.flac",
        "TRACK10.flac",
    ];

    let inputs_and_expected: Vec<(&str, Result<&str, FuzzyMatchError>)> = vec![
        ("TRACK00", Ok("TRACK00.flac")),
        ("TRACK00.flac", Ok("TRACK00.flac")),
        ("TRACK07", Ok("TRACK07.flac")),
        ("TRACK1", Ok("TRACK10.flac")),
        ("TRACK01", Err(FuzzyMatchError::MultipleMatches(String::from("TRACK01*"), 2))),
        ("NOTFOUND", Err(FuzzyMatchError::ZeroMatches(String::from("NOTFOUND*")))),
        ("TRACK0", Err(FuzzyMatchError::MultipleMatches(String::from("TRACK0*"), 11))),
        ("****", Err(FuzzyMatchError::InvalidPattern(String::from("*****")))),
    ];

    for (input, expected) in inputs_and_expected {
        let produced = fuzzy_name_match(input, &haystack);
        assert_eq!(expected, produced);
    }
}

#[test]
fn fuzzy_match_errors_describe_themselves() {
    let e = FuzzyMatchError::ZeroMatches(String::from("X*"));
    assert_eq!(e.description(), "Found zero matches for pattern, expected exactly one");
    assert_eq!(e.message(), "Found 0 matches for pattern \"X*\", expected exactly one");
    let e = FuzzyMatchError::MultipleMatches(String::from("X*"), 13);
    assert_eq!(e.description(), "Found multiple matches for pattern, expected exactly one");
    assert_eq!(e.message(), "Found 13 matches for pattern \"X*\", expected exactly one");
    let e = FuzzyMatchError::InvalidPattern(String::from("***"));
    assert_eq!(e.description(), "Invalid glob pattern");
    assert_eq!(e.message(), "Invalid glob pattern: \"***\"");
}

#[test]
fn fuzzy_match_on_empty_haystack_finds_nothing() {
    let haystack: Vec<&str> = vec![];
    assert_eq!(
        fuzzy_name_match("A", &haystack),
        Err(FuzzyMatchError::ZeroMatches(String::from("A*")))
    );
}

#[test]
fn normalize_is_idempotent_on_examples() {
    for p in ["", "/a/../b/./c//", "../../x", "a/b/../../..", "/.."] {
        let once = normalize(p);
        assert_eq!(normalize(&once), once);
    }
}
