use tigerturtle::Doc;
use tigerturtle::TtError;

const EXAMPLE_TOML: &str = r#"
eggs = "spam"
bar = "baz"

[numbers]
sixty_nine = 69
four_twenty = 420
pi = 3.1415
"#;

fn keys_to_vec(keys: &[&str]) -> Vec<String> {
    keys.iter().map(std::string::ToString::to_string).collect()
}

#[test]
fn one_line_per_key_in_order() {
    let out = tigerturtle::process_toml(
        EXAMPLE_TOML,
        keys_to_vec(&["bar", "missing", "eggs"]),
        "toml__",
        "_",
        "__",
    )
    .expect("process");
    let lines = out.split('\n').collect::<Vec<&str>>();
    assert_eq!(lines.len(), 3);
    assert_eq!(lines[0], "toml__bar=\"baz\"");
    assert_eq!(lines[1], "toml__missing=");
    assert_eq!(lines[2], "toml__eggs=\"spam\"");
}

#[test]
fn exact_scalar_line() {
    let out = tigerturtle::process_toml(
        EXAMPLE_TOML,
        keys_to_vec(&["numbers__pi"]),
        "toml__",
        "_",
        "__",
    )
    .expect("process");
    assert_eq!(out, "toml__numbers__pi=3.1415");
}

#[test]
fn end_to_end_all_keys() {
    let out = tigerturtle::process_toml(
        EXAMPLE_TOML,
        keys_to_vec(&[
            "eggs",
            "bar",
            "numbers__sixty_nine",
            "numbers__four_twenty",
            "numbers__pi",
        ]),
        "toml__",
        "_",
        "__",
    )
    .expect("process");
    assert_eq!(
        out,
        "toml__eggs=\"spam\"\ntoml__bar=\"baz\"\ntoml__numbers__sixty_nine=69\ntoml__numbers__four_twenty=420\ntoml__numbers__pi=3.1415"
    );
}

#[test]
fn custom_delim_exact_line() {
    let out = tigerturtle::process_toml(
        EXAMPLE_TOML,
        keys_to_vec(&["numbersABCDEFGpi"]),
        "toml__",
        "_",
        "ABCDEFG",
    )
    .expect("process");
    assert_eq!(out, "toml__numbersABCDEFGpi=3.1415");
}

#[test]
fn table_key_resolves_absent() {
    let out = tigerturtle::process_toml(
        EXAMPLE_TOML,
        keys_to_vec(&["numbers"]),
        "toml__",
        "_",
        "__",
    )
    .expect("process");
    assert_eq!(out, "toml__numbers=");
}

#[test]
fn required_absent_fails_whole_batch() {
    let r = tigerturtle::process_toml(
        EXAMPLE_TOML,
        keys_to_vec(&["eggs", "_foo"]),
        "toml__",
        "_",
        "__",
    );
    match r {
        Err(TtError::MissingRequiredKey(name)) => {
            assert_eq!(name, "foo");
        },
        _ => panic!("expected a missing required key"),
    }
}

#[test]
fn missing_key_message_names_key() {
    let r = tigerturtle::process_toml(EXAMPLE_TOML, keys_to_vec(&["_foo"]), "toml__", "_", "__");
    let e = r.expect_err("must fail");
    assert_eq!(e.message(), "missing required key: foo");
}

#[test]
fn optional_absent_is_empty_value() {
    let out = tigerturtle::process_toml(EXAMPLE_TOML, keys_to_vec(&["foo"]), "toml__", "_", "__")
        .expect("process");
    assert_eq!(out, "toml__foo=");
}

#[test]
fn descend_below_leaf_is_absent() {
    let out = tigerturtle::process_toml(
        EXAMPLE_TOML,
        keys_to_vec(&["eggs__deeper"]),
        "toml__",
        "_",
        "__",
    )
    .expect("process");
    assert_eq!(out, "toml__eggs__deeper=");
}

#[test]
fn empty_key_list_is_empty_output() {
    let out = tigerturtle::process_toml(EXAMPLE_TOML, Vec::new(), "toml__", "_", "__")
        .expect("process");
    assert_eq!(out, "");
}

#[test]
fn parse_error_is_reported() {
    let r = tigerturtle::process_toml("not = = toml", keys_to_vec(&["eggs"]), "", "_", "__");
    let e = r.expect_err("must fail");
    assert!(matches!(e, TtError::Parse(_)));
    assert!(e.message().starts_with("parse toml: "));
}

#[test]
fn array_and_bool_render_as_toml_literals() {
    let doc = "arr = [1, 2]\nflag = true\n";
    let out = tigerturtle::process_toml(doc, keys_to_vec(&["arr", "flag"]), "", "_", "__")
        .expect("process");
    assert_eq!(out, "arr=[1, 2]\nflag=true");
}

#[test]
fn split_join_round_trip() {
    for (s, d) in [
        ("numbers__pi", "__"),
        ("a__b__c", "__"),
        ("", "__"),
        ("____", "__"),
        ("no_delim_here", "ABCDEFG"),
        ("xAByABz", "AB"),
    ] {
        let parts = tigerturtle::text::split_str(s, d);
        let joined = tigerturtle::text::join_strings(&parts, d);
        assert_eq!(joined, s);
    }
}

#[test]
fn split_exact_segments() {
    let parts = tigerturtle::text::split_str("a__b__c", "__");
    assert_eq!(parts, vec!["a", "b", "c"]);
    let parts = tigerturtle::text::split_str("__x__", "__");
    assert_eq!(parts, vec!["", "x", ""]);
    let parts = tigerturtle::text::split_str("ab", "");
    assert_eq!(parts, vec!["", "a", "b", ""]);
    let joined = tigerturtle::text::join_strings(&tigerturtle::text::split_str("ab", ""), "");
    assert_eq!(joined, "ab");
}

#[test]
fn resolve_in_hand_built_document() {
    let entries: Vec<(String, Doc)> = vec![
        ("eggs".to_string(), Doc::Leaf("\"spam\"".to_string())),
        (
            "numbers".to_string(),
            Doc::Table(vec![("pi".to_string(), Doc::Leaf("3.1415".to_string()))]),
        ),
    ];
    let found = tigerturtle::get_toml_value(&entries, &keys_to_vec(&["numbers", "pi"]));
    assert_eq!(found, Some("3.1415".to_string()));
    let leaf = tigerturtle::get_toml_value(&entries, &keys_to_vec(&["eggs"]));
    assert_eq!(leaf, Some("\"spam\"".to_string()));
    let table = tigerturtle::get_toml_value(&entries, &keys_to_vec(&["numbers"]));
    assert_eq!(table, None);
    let below_leaf = tigerturtle::get_toml_value(&entries, &keys_to_vec(&["eggs", "deeper"]));
    assert_eq!(below_leaf, None);
    let missing = tigerturtle::get_toml_value(&entries, &keys_to_vec(&["nope"]));
    assert_eq!(missing, None);
    let empty_path = tigerturtle::get_toml_value(&entries, &Vec::new());
    assert_eq!(empty_path, None);
}

#[test]
fn process_args_defaults_to_empty_prefix() {
    let args = tigerturtle::Args {
        file: None,
        delim: "__".to_string(),
        output_prefix: None,
        default: None,
        write_missing: false,
        required_prefix: "_".to_string(),
        generate: false,
        keys: keys_to_vec(&["eggs", "numbers__pi"]),
    };
    let out = tigerturtle::process_args(&args, EXAMPLE_TOML).expect("process");
    assert_eq!(out, "eggs=\"spam\"\nnumbers__pi=3.1415");
}

#[test]
fn process_args_uses_given_prefix() {
    let args = tigerturtle::Args {
        file: None,
        delim: "__".to_string(),
        output_prefix: Some("cfg_".to_string()),
        default: None,
        write_missing: false,
        required_prefix: "_".to_string(),
        generate: false,
        keys: keys_to_vec(&["bar"]),
    };
    let out = tigerturtle::process_args(&args, EXAMPLE_TOML).expect("process");
    assert_eq!(out, "cfg_bar=\"baz\"");
}
