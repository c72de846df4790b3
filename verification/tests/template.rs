use miniutils::inject;

fn args(a: &[&str]) -> Vec<String> {
    a.iter().map(|s| s.to_string()).collect()
}

#[test]
fn inject_fills_placeholders_in_order() {
    assert_eq!(inject("{} and {}", &args(&["a", "b"])), "a and b");
    assert_eq!(inject("x{}y{}z", &args(&["1", "22"])), "x1y22z");
    assert_eq!(inject("no placeholders", &args(&[])), "no placeholders");
    assert_eq!(inject("", &args(&[])), "");
}

#[test]
fn inject_keeps_placeholders_without_argument() {
    assert_eq!(inject("{} {} {}", &args(&["a"])), "a {} {}");
    assert_eq!(inject("{}", &args(&[])), "{}");
}

#[test]
fn inject_appends_arguments_without_placeholder() {
    assert_eq!(inject("{}!", &args(&["a", "b", "c"])), "a!bc");
    assert_eq!(inject("", &args(&["a", "b"])), "ab");
}

#[test]
fn inject_leaves_other_braces() {
    assert_eq!(inject("{x} {}", &args(&["a"])), "{x} a");
    assert_eq!(inject("}{", &args(&["a"])), "}a");
    assert_eq!(inject("{{}", &args(&["a"])), "{{}a");
    assert_eq!(inject("a{", &args(&[])), "a");
    assert_eq!(inject("{ }", &args(&["a"])), "{ }a");
}
