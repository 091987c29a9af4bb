use rad::types::{
    convert_error, convert_error_as, duplicate, ending_token, error, error_eof,
    error_invalid_data, gen_id, is_ending_token, is_map, list_to_map, make_meta_val, make_nil,
    make_node, make_quote_val, map_to_list, quote_word, rtype_as_str, starting_token, ErrorKind,
    IdGen, RadVal,
};

#[test]
fn bracket_helpers() {
    assert_eq!(ending_token("("), Some(")"));
    assert_eq!(ending_token("["), Some("]"));
    assert_eq!(ending_token("{"), Some("}"));
    assert_eq!(ending_token("x"), None);
    assert!(is_map("{"));
    assert!(!is_map("("));
    assert!(is_ending_token(")"));
    assert!(is_ending_token("]"));
    assert!(is_ending_token("}"));
    assert!(!is_ending_token("("));
}

#[test]
fn id_generation() {
    let mut gen = IdGen::new();
    assert_eq!(gen_id(&mut gen), 0);
    assert_eq!(gen_id(&mut gen), 1);
    let n = make_node("x", RadVal::Symbol, &mut gen);
    assert_eq!(n.id, 2);
    assert_eq!(n.text, "x");
    let nil = make_nil(&mut gen);
    assert_eq!(nil.id, 3);
    assert_eq!(nil.text, "");
    assert_eq!(rtype_as_str(&nil), "Nil");
}

#[test]
fn map_pairing_pads_odd_tail() {
    let mut gen = IdGen::new();
    let items = vec![
        make_node("a", RadVal::Symbol, &mut gen),
        make_node("1", RadVal::Symbol, &mut gen),
        make_node("b", RadVal::Symbol, &mut gen),
    ];
    let pairs = list_to_map(items, &mut gen);
    assert_eq!(pairs.len(), 2);
    assert_eq!(pairs[0].0.text, "a");
    assert_eq!(pairs[0].1.text, "1");
    assert_eq!(pairs[1].0.text, "b");
    assert_eq!(rtype_as_str(&pairs[1].1), "Nil");
    let flat = map_to_list(&pairs);
    assert_eq!(flat.len(), 4);
    assert_eq!(flat[0].text, "a");
    assert_eq!(flat[2].text, "b");
}

#[test]
fn quote_values_and_words() {
    let mut gen = IdGen::new();
    let x = make_node("x", RadVal::Symbol, &mut gen);
    let q = make_quote_val("'", x).unwrap();
    assert_eq!(quote_word(&q), Some("quote"));
    let y = make_node("y", RadVal::Symbol, &mut gen);
    let sq = make_quote_val("~@", y).unwrap();
    assert_eq!(quote_word(&sq), Some("splice-unquote"));
    let z = make_node("z", RadVal::Symbol, &mut gen);
    let bad = make_quote_val("%", z);
    let e = bad.unwrap_err();
    assert_eq!(e.kind, ErrorKind::InvalidData);
    assert_eq!(e.msg, "Not a valid quotechar: %");
    assert_eq!(quote_word(&RadVal::Symbol), None);
}

#[test]
fn meta_storage_and_display_order() {
    let mut gen = IdGen::new();
    let meta = make_node("m", RadVal::Symbol, &mut gen);
    let target = make_node("t", RadVal::Symbol, &mut gen);
    let v = make_meta_val(meta, target);
    let node = make_node("^", v, &mut gen);
    // Stored meta-first, displayed target-first.
    assert_eq!(rad::print(node), "(with-meta t m)");
}

#[test]
fn starting_tokens_follow_value_kind() {
    let mut gen = IdGen::new();
    let list = make_node("()", RadVal::List(vec![]), &mut gen);
    assert_eq!(starting_token(&list.rval), Some("("));
    let arr = make_node("[]", RadVal::Array(vec![]), &mut gen);
    assert_eq!(starting_token(&arr.rval), Some("["));
    let map = make_node("{}", RadVal::Table(vec![]), &mut gen);
    assert_eq!(starting_token(&map.rval), Some("{"));
    assert_eq!(starting_token(&RadVal::Symbol), None);
}

#[test]
fn duplicate_preserves_structure_and_ids() {
    let mut gen = IdGen::new();
    let tree = rad::read("(a [10 {k v}] \"s\")", &mut gen).unwrap();
    let copy = duplicate(&tree);
    assert_eq!(copy.id, tree.id);
    assert_eq!(rad::print(copy), rad::print(tree));
}

#[test]
fn error_constructors_carry_kind_and_text() {
    let e = error("boom".to_string(), ErrorKind::MalformedInput);
    assert_eq!(e.kind, ErrorKind::MalformedInput);
    assert_eq!(e.msg, "boom");
    assert_eq!(error_eof("x".to_string()).kind, ErrorKind::EndOfInput);
    assert_eq!(
        error_invalid_data("y".to_string()).kind,
        ErrorKind::InvalidData
    );
    assert_eq!(
        convert_error("parse".to_string()).kind,
        ErrorKind::InvalidData
    );
    let c = convert_error_as("z".to_string(), ErrorKind::EndOfInput);
    assert_eq!(c.kind, ErrorKind::EndOfInput);
    assert_eq!(c.msg, "z");
}
