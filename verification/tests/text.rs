use argon_write::text::replace;

#[test]
fn replaces_every_occurrence() {
    assert_eq!(replace("Script.server.luau", "Script", "Main"), "Main.server.luau");
    assert_eq!(replace("a-b-a-b", "a", "xy"), "xy-b-xy-b");
}

#[test]
fn occurrences_do_not_overlap() {
    assert_eq!(replace("aaa", "aa", "b"), "ba");
}

#[test]
fn the_empty_string_occurs_around_every_character() {
    assert_eq!(replace("ab", "", "-"), "-a-b-");
    assert_eq!(replace("", "", "-"), "-");
}

#[test]
fn a_string_that_does_not_occur_changes_nothing() {
    assert_eq!(replace("Main.luau", "Script", "X"), "Main.luau");
    assert_eq!(replace("a", "abc", "X"), "a");
}

#[test]
fn a_string_replaced_by_itself_stays() {
    assert_eq!(replace("Main.luau", "Main", "Main"), "Main.luau");
}

#[test]
fn characters_beyond_ascii_are_whole() {
    assert_eq!(replace("größe-größe", "ö", "oe"), "groeße-groeße");
}
