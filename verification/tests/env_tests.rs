use sketchybar_ipc::env::env_get_value_for_key;

#[test]
fn lookup_finds_value_on_next_line() {
    let blob = "NAME\nfelix";
    assert_eq!(env_get_value_for_key(blob, "NAME"), Some(String::from("felix")));
}

#[test]
fn lookup_absent_key_is_none() {
    let blob = "NAME\nfelix";
    assert_eq!(env_get_value_for_key(blob, "HOME"), None);
}

#[test]
fn lookup_key_on_last_line_is_none() {
    let blob = "NAME\nfelix\nSENDER";
    assert_eq!(env_get_value_for_key(blob, "SENDER"), None);
}

#[test]
fn lookup_trims_the_key_line_not_the_value() {
    let blob = "  NAME \n  felix ";
    assert_eq!(env_get_value_for_key(blob, "NAME"), Some(String::from("  felix ")));
}

#[test]
fn lookup_takes_first_match() {
    let blob = "K\nfirst\nK\nsecond";
    assert_eq!(env_get_value_for_key(blob, "K"), Some(String::from("first")));
}

#[test]
fn lookup_handles_crlf_line_endings() {
    let blob = "NAME\r\nfelix\r\n";
    assert_eq!(env_get_value_for_key(blob, "NAME"), Some(String::from("felix")));
}

#[test]
fn lookup_in_empty_blob_is_none() {
    assert_eq!(env_get_value_for_key("", "NAME"), None);
}

#[test]
fn lookup_value_may_be_empty_line() {
    let blob = "NAME\n\nNEXT\nv";
    assert_eq!(env_get_value_for_key(blob, "NAME"), Some(String::from("")));
}
