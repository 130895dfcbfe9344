use electrolysis::mangle::mk_lean_name_from_parts;

fn name(parts: &[&str]) -> String {
    let parts: Vec<String> = parts.iter().map(|p| p.to_string()).collect();
    mk_lean_name_from_parts(&parts)
}

#[test]
fn plain_path_is_joined_by_dots() {
    assert_eq!(name(&["std", "option", "Option"]), "std.option.Option");
}

#[test]
fn constructor_marker_becomes_mk() {
    assert_eq!(name(&["foo", "{{constructor}}"]), "foo.mk");
}

#[test]
fn leading_underscore_is_escaped() {
    assert_eq!(name(&["_bar"]), "$_bar");
}

#[test]
fn reserved_words_are_quoted() {
    assert_eq!(name(&["Type"]), "«Type»");
    for w in ["at", "by", "end", "from", "private"] {
        assert_eq!(name(&[w]), format!("«{}»", w));
    }
}

#[test]
fn non_identifiers_are_quoted() {
    assert_eq!(name(&["std", "[T]"]), "std.«[T]»");
    assert_eq!(name(&["a b"]), "«a b»");
    assert_eq!(name(&["_a-b"]), "«$_a-b»");
    assert_eq!(name(&["x'1"]), "x'1");
    assert_eq!(name(&["1x"]), "«1x»");
}

#[test]
fn scope_separators_become_dots() {
    assert_eq!(name(&["a::b"]), "«a.b»");
    assert_eq!(name(&[":::"]), "«.:»");
}

#[test]
fn existing_guards_do_not_pile_up() {
    assert_eq!(name(&["«[T]»"]), name(&["[T]"]));
    assert_eq!(name(&["«Type»"]), "«Type»");
    assert_eq!(name(&["«foo»"]), "foo");
    assert_eq!(name(&["««x»»"]), "x");
}

#[test]
fn empty_path_gives_empty_name() {
    assert_eq!(name(&[]), "");
    assert_eq!(name(&[""]), "«»");
}
