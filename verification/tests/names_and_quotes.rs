//! Package names, requirements, shell quoting, text and colors.

use ut::error::report;
use ut::error::Error;
use ut::names::NameMap;
use ut::names::NameSet;
use ut::package::can_parse;
use ut::package::normalize;
use ut::package::requirement_name;
use ut::style::echo;
use ut::style::paint;
use ut::style::pick_color;
use ut::style::Color;
use ut::tasks::copy_tasks;
use ut::tasks::shell_quote;
use ut::tasks::with_args;
use ut::tasks::Task;
use ut::text::decimal_of;
use ut::text::join;
use ut::text::pad;
use ut::text::quoted;
use ut::text::quoted_list;
use ut::text::rank_texts;
use ut::text::same_text;
use ut::text::widest_of;
use ut::text::Rank;

fn strings(list: &[&str]) -> Vec<String> {
    list.iter().map(|s| s.to_string()).collect()
}

#[test]
fn quotes_only_when_needed() {
    assert_eq!(shell_quote("pytest"), "pytest");
    assert_eq!(shell_quote("-k"), "-k");
    assert_eq!(shell_quote("a b"), "'a b'");
    assert_eq!(shell_quote("it's"), r"'it'\''s'");
    assert_eq!(shell_quote(""), "''");
}

#[test]
fn appends_args() {
    assert_eq!(with_args("pytest -s", &[]), "pytest -s");
    assert_eq!(
        with_args("pytest", &["-k".into(), "scope test".into()]),
        "pytest -k 'scope test'"
    );
}

#[test]
fn normalizes_pep503() {
    assert_eq!(normalize("My.Package_Name"), "my-package-name");
    assert_eq!(normalize("effecton"), "effecton");
    assert_eq!(normalize("a--b__c"), "a-b-c");
}

#[test]
fn extracts_requirement_names() {
    assert_eq!(requirement_name("effecton>=0.1"), Some("effecton".into()));
    assert_eq!(
        requirement_name("Foo.Bar[extra]==1.0; python_version >= '3.14'"),
        Some("foo-bar".into())
    );
    assert_eq!(requirement_name("not a spec !!"), None);
}

#[test]
fn plain_characters_stay_unquoted() {
    assert_eq!(shell_quote("a-_./=:@%+,Z9"), "a-_./=:@%+,Z9");
    assert_eq!(shell_quote("$HOME"), "'$HOME'");
    assert_eq!(shell_quote("é"), "'é'");
    assert_eq!(shell_quote("'"), r"''\'''");
}

#[test]
fn normalizing_twice_changes_nothing() {
    for name in ["My.Package_Name", "--a--", "_", "", "A.-_b", "É.x"] {
        let once = normalize(name);
        assert_eq!(normalize(&once), once);
    }
    assert_eq!(normalize("--a--"), "-a-");
    assert_eq!(normalize("_a."), "-a-");
    assert_eq!(normalize("..."), "-");
    assert_eq!(normalize(""), "");
    assert_eq!(normalize("É.X"), "É-x");
}

#[test]
fn requirement_names_are_normalized() {
    assert_eq!(requirement_name("  My_Pkg"), Some("my-pkg".into()));
    assert_eq!(requirement_name("pytest>=8"), Some("pytest".into()));
    assert_eq!(
        requirement_name("Zeta @ https://example.org/zeta.tar.gz"),
        Some("zeta".into())
    );
    assert_eq!(requirement_name("a[b,c]"), Some("a".into()));
    assert_eq!(requirement_name(""), None);
    assert_eq!(requirement_name("-x"), None);
    assert_eq!(requirement_name("pkg-1.0.tar.gz"), None);
    assert_eq!(requirement_name("name-"), None);
    assert_eq!(
        requirement_name("a ; os_name == 'posix' and (python_version > '3')"),
        Some("a".into())
    );
}

#[test]
fn texts_that_stop_the_parser_are_told_apart() {
    assert!(can_parse("effecton>=0.1"));
    assert!(can_parse("Foo.Bar[extra]==1.0; python_version >= '3.14'"));
    assert!(can_parse("not a spec !!"));
    assert!(can_parse(""));
    assert!(can_parse("name-"));
    assert!(!can_parse("name- >=1"));
    assert!(can_parse("a[b, c]"));
    assert!(!can_parse("a[b-]"));
    assert!(!can_parse("a[b, c_ ]"));
    assert!(can_parse("a[b-c"));
    assert!(!can_parse("a; 'x' ~= os_name"));
    assert!(can_parse("a; 'x' == os_name"));
    assert!(can_parse("a>=18446744073709551615"));
    assert!(can_parse("x18446744073709551615"));
    assert!(!can_parse("a; python_version > '3.18446744073709551615'"));
    assert!(can_parse("a; python_version > '3.18446744073709551614'"));
    assert!(can_parse("a; os_name == 'é'"));
    assert!(can_parse("a; os_name == 'x' and os_name == \"é é\""));
    assert!(!can_parse("a; é"));
    assert!(!can_parse("a; os_name == 'x' and'éé'"));
    assert!(!can_parse("a; os_name == 'x' 'éé'"));
    assert!(!can_parse("a; os_name == 'x' é"));
    assert!(can_parse("é; é"));
    assert!(!can_parse("a @ file://${PROJECT_ROOT}/a"));
    assert!(can_parse("a @ https://${HOST}/a"));
    assert!(!can_parse(&format!("a; {}", "(".repeat(101))));
    assert!(can_parse(&format!("a; {}", "(".repeat(100))));
}

#[test]
fn requirements_outside_ascii_are_parsed() {
    assert_eq!(requirement_name("a; os_name == 'é'"), Some("a".into()));
    assert_eq!(
        requirement_name("a; os_name == 'éé é' and python_version > 'ü'"),
        Some("a".into())
    );
    assert_eq!(requirement_name("a>=é"), None);
    assert_eq!(
        requirement_name("x18446744073709551615"),
        Some("x18446744073709551615".into())
    );
    assert_eq!(
        requirement_name("a>=18446744073709551615"),
        Some("a".into())
    );
}

#[test]
fn requirements_with_many_comparisons_are_parsed() {
    let marker = |n: usize| {
        let terms: Vec<String> = (0..n).map(|i| format!("extra == 'x{:02}'", n - i)).collect();
        format!("a; {}", terms.join(" and "))
    };
    assert!(can_parse(&marker(32)));
    assert_eq!(requirement_name(&marker(32)), Some("a".into()));
    assert!(!can_parse(&marker(33)));
    let pairs: Vec<String> = (0..16)
        .map(|i| format!("(extra == 'a{i}' and extra == 'b{i}')"))
        .collect();
    let pairs = format!("a; {}", pairs.join(" or "));
    assert!(can_parse(&pairs));
    assert_eq!(requirement_name(&pairs), Some("a".into()));
}

#[test]
fn variables_outside_a_url_change_nothing() {
    assert_eq!(requirement_name("a ${X}"), None);
    assert_eq!(requirement_name("a; os_name == '${X}'"), Some("a".into()));
    assert_eq!(requirement_name("${X}"), None);
}

#[test]
fn requirements_with_many_parentheses_are_parsed() {
    let spec = format!("a; {}os_name == 'x'{}", "(".repeat(100), ")".repeat(100));
    assert!(can_parse(&spec));
    assert_eq!(requirement_name(&spec), Some("a".into()));
}

#[test]
fn tasks_know_their_steps() {
    let one = Task::Command("pytest -s".into());
    assert_eq!(one.steps(), ["pytest -s"]);
    assert!(!one.is_sequence());
    let many = Task::Steps(strings(&["ruff check .", "ty check ."]));
    assert_eq!(many.steps(), ["ruff check .", "ty check ."]);
    assert!(many.is_sequence());
    assert_eq!(many.clone().steps(), many.steps());
    let none = Task::Steps(vec![]);
    assert!(none.is_sequence());
    assert!(none.steps().is_empty());
}

#[test]
fn name_sets_are_sorted_and_hold_no_name_twice() {
    let mut set = NameSet::new();
    assert!(set.is_empty());
    assert!(set.insert("b".into()));
    assert!(set.insert("a".into()));
    assert!(!set.insert("b".into()));
    assert!(set.insert("ab".into()));
    assert_eq!(set.items, ["a", "ab", "b"]);
    assert!(set.contains("ab"));
    assert!(!set.contains("c"));
    let mut other = NameSet::new();
    other.insert("b".into());
    other.insert("z".into());
    assert_eq!(set.intersection(&other).items, ["b"]);
    assert!(set.remove("ab"));
    assert!(!set.remove("ab"));
    assert_eq!(set.clone().items, ["a", "b"]);
    assert_eq!(set.len(), 2);
}

#[test]
fn name_maps_keep_the_last_value() {
    let mut map: NameMap<Task> = NameMap::new();
    map.insert("test".into(), Task::Command("one".into()));
    map.insert("build".into(), Task::Command("two".into()));
    map.insert("test".into(), Task::Command("three".into()));
    assert_eq!(map.name_list(), ["build", "test"]);
    assert_eq!(map.get("test").unwrap().steps(), ["three"]);
    assert!(map.get("lint").is_none());
    assert!(map.contains_key("build"));
    let copy = copy_tasks(&map);
    assert_eq!(copy.name_list(), map.name_list());
    let (name, _) = map.remove_at(0);
    assert_eq!(name, "build");
    assert_eq!(map.len(), 1);
    assert_eq!(copy.len(), 2);
}

#[test]
fn texts_are_ranked_by_code_point() {
    assert_eq!(rank_texts("a", "b"), Rank::Before);
    assert_eq!(rank_texts("b", "a"), Rank::After);
    assert_eq!(rank_texts("a", "ab"), Rank::Before);
    assert_eq!(rank_texts("ab", "ab"), Rank::Same);
    assert_eq!(rank_texts("Z", "a"), Rank::Before);
    assert_eq!(rank_texts("z", "é"), Rank::Before);
    assert!(same_text("x", "x"));
    assert!(!same_text("x", "y"));
}

#[test]
fn texts_are_joined_and_padded() {
    assert_eq!(join(&strings(&[]), ", "), "");
    assert_eq!(join(&strings(&["a"]), ", "), "a");
    assert_eq!(join(&strings(&["a", "b", "c"]), ", "), "a, b, c");
    assert_eq!(pad("ab", 4), "ab  ");
    assert_eq!(pad("abcde", 4), "abcde");
    assert_eq!(pad("é", 2), "é ");
    assert_eq!(widest_of(&strings(&["a", "é", "abc"])), 3);
    assert_eq!(widest_of(&strings(&["éé"])), 4);
    assert_eq!(widest_of(&strings(&[])), 0);
}

#[test]
fn numbers_are_written_in_decimal() {
    assert_eq!(decimal_of(0), "0");
    assert_eq!(decimal_of(127), "127");
    assert_eq!(decimal_of(-9), "-9");
    assert_eq!(decimal_of(i32::MIN), "-2147483648");
    assert_eq!(decimal_of(i32::MAX), "2147483647");
}

#[test]
fn texts_are_quoted() {
    assert_eq!(quoted("zeta"), "\"zeta\"");
    assert_eq!(quoted("it's"), "\"it's\"");
    assert_eq!(quoted("a\"b\n"), "\"a\\\"b\\n\"");
    assert_eq!(quoted_list(&strings(&["a", "b"])), "[\"a\", \"b\"]");
    assert_eq!(quoted_list(&strings(&[])), "[]");
}

#[test]
fn colors_come_with_escape_sequences() {
    assert_eq!(paint("x", Color::Cyan, true), "\u{1b}[36mx\u{1b}[39m");
    assert_eq!(paint("x", Color::Magenta, true), "\u{1b}[35mx\u{1b}[39m");
    assert_eq!(paint("x", Color::Green, true), "\u{1b}[32mx\u{1b}[39m");
    assert_eq!(paint("x", Color::Yellow, true), "\u{1b}[33mx\u{1b}[39m");
    assert_eq!(paint("x", Color::Blue, true), "\u{1b}[34mx\u{1b}[39m");
    assert_eq!(paint("x", Color::Red, true), "\u{1b}[31mx\u{1b}[39m");
    assert_eq!(paint("x", Color::Red, false), "x");
    assert_eq!(echo("pytest", false), "$ pytest");
    assert_eq!(
        echo("pytest", true),
        "\u{1b}[2m$\u{1b}[0m \u{1b}[1mpytest\u{1b}[0m"
    );
    assert_eq!(pick_color(0), Color::Cyan);
    assert_eq!(pick_color(5), Color::Red);
    assert_eq!(pick_color(7), Color::Magenta);
}

#[test]
fn errors_are_reported_with_exit_code_two() {
    assert_eq!(report(Ok(3)), (3, None));
    assert_eq!(
        report(Err(Error::NobodyDefines("lint".into()))),
        (
            2,
            Some("ut: error: no workspace member defines task \"lint\"".to_string())
        )
    );
    assert_eq!(Error::Outside("cannot read x".into()).message(), "cannot read x");
    assert_eq!(
        Error::Cycle(strings(&["a", "b"])).message(),
        "dependency cycle among workspace members: [\"a\", \"b\"]"
    );
    assert_eq!(
        Error::NoTask {
            label: "workspace root".into(),
            task: "nosuch".into()
        }
        .message(),
        "workspace root has no task \"nosuch\" in [tool.ut.tasks]"
    );
    assert_eq!(
        Error::ArgsForSequence("check".into()).message(),
        "task \"check\" is a sequence; passthrough arguments are not supported"
    );
    assert_eq!(
        Error::UnknownFilter("nosuch".into()).message(),
        "--filter \"nosuch\" does not match any workspace member"
    );
    assert_eq!(
        Error::Unrunnable(strings(&["a"])).message(),
        "internal error: unrunnable invocations: [\"a\"]"
    );
}
