use shutton::vars::{parse_vars, parse_vars_until_space};

fn strs(v: &[&str]) -> Vec<String> {
    v.iter().map(|s| s.to_string()).collect()
}

#[test]
fn parse_vars_finds_names_in_order() {
    assert_eq!(parse_vars("cp %src %dst"), strs(&["src", "dst"]));
}

#[test]
fn parse_vars_drops_repeats() {
    assert_eq!(parse_vars("echo %a %b %a %b %c"), strs(&["a", "b", "c"]));
}

#[test]
fn parse_vars_name_stops_at_non_word_char() {
    assert_eq!(parse_vars("ls %dir/%file.txt"), strs(&["dir", "file"]));
    assert_eq!(parse_vars("x%a-b"), strs(&["a"]));
}

#[test]
fn parse_vars_underscores_and_digits() {
    assert_eq!(parse_vars("%my_var1 %_x %2"), strs(&["my_var1", "_x", "2"]));
}

#[test]
fn parse_vars_empty_names_are_ignored() {
    assert_eq!(parse_vars("100% done %"), Vec::<String>::new());
    assert_eq!(parse_vars("%%a"), strs(&["a"]));
    assert_eq!(parse_vars(""), Vec::<String>::new());
}

#[test]
fn parse_vars_adjacent_placeholders() {
    assert_eq!(parse_vars("%a%b"), strs(&["a", "b"]));
}

#[test]
fn parse_vars_unicode_letters() {
    assert_eq!(parse_vars("echo %größe"), strs(&["größe"]));
}

#[test]
fn until_space_takes_everything_up_to_whitespace() {
    assert_eq!(parse_vars_until_space("cp %src/a %dst.b"), strs(&["src/a", "dst.b"]));
    assert_eq!(parse_vars_until_space("%a%b %a%b"), strs(&["a%b"]));
    assert_eq!(parse_vars_until_space("x %\ty %z"), strs(&["z"]));
}

#[test]
fn until_space_no_placeholders() {
    assert_eq!(parse_vars_until_space("ls -la"), Vec::<String>::new());
}

use shutton::vars::placeholders_with_flags;

#[test]
fn flags_decide_the_name_characters() {
    // flags for "a %xy%z": only 'x' and 'z' may stand in a name
    let flags = vec![false, false, false, true, false, false, true];
    assert_eq!(placeholders_with_flags("a %xy%z", &flags), strs(&["x", "z"]));
}

#[test]
fn flags_missing_count_as_unset() {
    assert_eq!(placeholders_with_flags("%ab", &vec![false, true]), strs(&["a"]));
    assert_eq!(placeholders_with_flags("%ab", &Vec::new()), Vec::<String>::new());
}

#[test]
fn joined_texts_keep_first_then_new() {
    let a = "cp %src %dst";
    let b = "%dst %extra %src %more";
    let joined = format!("{} {}", a, b);
    let mut expected = parse_vars(a);
    for v in parse_vars(b) {
        if !expected.contains(&v) {
            expected.push(v);
        }
    }
    assert_eq!(parse_vars(&joined), expected);
    assert_eq!(parse_vars(&joined), strs(&["src", "dst", "extra", "more"]));
}

#[test]
fn joined_texts_until_space() {
    let joined = format!("{} {}", "x %a/b", "%c %a/b");
    assert_eq!(parse_vars_until_space(&joined), strs(&["a/b", "c"]));
}
