use rustdoc_seeker::fix_json;

#[test]
fn test_fix_json() {
    assert_eq!(
        r#"[1,null,"is \" N ", "\N"]"#,
        fix_json(r#"[1,N,"is \" N ", "\N"]"#)
    );
}

#[test]
fn fix_json_leaves_plain_json_alone() {
    let text = r#"{"doc":"a crate","i":[[3,"Vec","std::vec","",null,null]],"p":[]}"#;
    assert_eq!(text, fix_json(text));
}

#[test]
fn fix_json_replaces_each_bare_token() {
    assert_eq!("nullnull", fix_json("NN"));
    assert_eq!("[null,null]", fix_json("[N,N]"));
    assert_eq!("", fix_json(""));
}

#[test]
fn fix_json_keeps_a_token_inside_a_string() {
    assert_eq!(r#""N""#, fix_json(r#""N""#));
    assert_eq!(r#""a\\",null"#, fix_json(r#""a\\",N"#));
}

#[test]
fn fix_json_keeps_an_escaped_token_outside_a_string() {
    assert_eq!(r#"\N,null"#, fix_json(r#"\N,N"#));
    assert_eq!(r#"\\null"#, fix_json(r#"\\N"#));
}

#[test]
fn fix_json_keeps_an_escaped_quote_inside_a_string() {
    assert_eq!(r#""\"N",null"#, fix_json(r#""\"N",N"#));
}

#[test]
fn fix_json_keeps_other_characters() {
    assert_eq!("né null ü", fix_json("né N ü"));
}
