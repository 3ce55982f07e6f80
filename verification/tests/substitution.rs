use shutton::subst::{substitute_pairs, substitute_vars};

fn pairs(v: &[(&str, &str)]) -> Vec<(String, String)> {
    v.iter().map(|(a, b)| (a.to_string(), b.to_string())).collect()
}

#[test]
fn substitute_vars_by_position() {
    let values = vec!["a.txt".to_string(), "b.txt".to_string()];
    assert_eq!(substitute_vars("cp %src %dst", &values), "cp a.txt b.txt");
}

#[test]
fn substitute_vars_missing_values_stay() {
    let values = vec!["x".to_string()];
    assert_eq!(substitute_vars("echo %a %b %a", &values), "echo x %b x");
}

#[test]
fn substitute_vars_without_placeholders() {
    let values = vec!["x".to_string()];
    assert_eq!(substitute_vars("ls -la", &values), "ls -la");
}

#[test]
fn substitute_vars_prefix_names_replace_literally() {
    // `%a` also matches the start of `%ab`, as a plain text replacement does.
    let values = vec!["1".to_string(), "2".to_string()];
    assert_eq!(substitute_vars("%a %ab", &values), "1 1b");
}

#[test]
fn substitute_pairs_in_order() {
    let p = pairs(&[("x", "%y"), ("y", "done")]);
    assert_eq!(substitute_pairs("echo %x", &p), "echo done");
    let q = pairs(&[("y", "done"), ("x", "%y")]);
    assert_eq!(substitute_pairs("echo %x", &q), "echo %y");
}

#[test]
fn substitute_pairs_empty_value() {
    assert_eq!(substitute_pairs("rm %f -v", &pairs(&[("f", "")])), "rm  -v");
}

#[test]
fn substitute_pairs_matches_std_replace() {
    let cmd = "%aa %a%a x%a";
    let expected = cmd.replace("%a", "Q");
    assert_eq!(substitute_pairs(cmd, &pairs(&[("a", "Q")])), expected);
}

use shutton::subst::replace_chars;

fn chars(s: &str) -> Vec<char> {
    s.chars().collect()
}

#[test]
fn replace_with_empty_pattern_matches_std() {
    let out: String = replace_chars(&chars("ab"), &Vec::new(), &chars("x")).into_iter().collect();
    assert_eq!(out, "ab".replace("", "x"));
    assert_eq!(out, "xaxbx");
    let empty: String = replace_chars(&Vec::new(), &Vec::new(), &chars("x")).into_iter().collect();
    assert_eq!(empty, "".replace("", "x"));
}

#[test]
fn replace_non_overlapping_from_the_left() {
    let out: String = replace_chars(&chars("aaa"), &chars("aa"), &chars("b")).into_iter().collect();
    assert_eq!(out, "aaa".replace("aa", "b"));
    assert_eq!(out, "ba");
}
