use rad::reader::{read_str, tokenize};
use rad::types::{ErrorKind, IdGen, RadNode};

fn read_text(input: &str) -> Result<RadNode, rad::types::RadError> {
    let mut gen = IdGen::new();
    read_str(input, &mut gen)
}

fn print_text(node: RadNode) -> String {
    rad::print(node)
}

#[test]
fn tokenize_test() {
    let tests = [
        ("(print \"hello\")", vec!["(", "print", "\"hello\"", ")"]),
        (
            "(list + 2 (list * 3 4))",
            vec!["(", "list", "+", "2", "(", "list", "*", "3", "4", ")", ")"],
        ),
    ];
    for (i, o) in tests.iter() {
        let res = tokenize(i);
        assert_eq!(&res[..], &o[..]);
        println!("tokenize result: {} -> {:?}", i, res);
    }
}

#[test]
fn read_str_identity() {
    let tests = [
        "(print \"hello\")",
        "(print \"hello world\")",
        "123",
        "abc",
        "(123 456)",
        "(+ 2 (* 3 4))",
        "(() ())",
    ];
    for input in tests.iter() {
        let res = read_text(input).unwrap();
        let output = print_text(res);
        assert_eq!(*input, output.as_str());
    }
}

#[test]
// test for explicit outputs or errors
fn read_str_differ() {
    let tests: Vec<(&str, Result<&str, &str>)> = vec![
        ("(   + 1   3 )", Ok("(+ 1 3)")),
        ("\"abc", Err("EOF; No terminating quote on this string.")),
        ("\\", Err("EOF; Expected escaped char.")),
        ("\\\\", Err("EOF; Expected escaped char.")),
        ("\n", Err("EOF; read_form")),
        (r#" "\" "#, Err("EOF; I don't like the cut of your jib.")),
        (r#"'"#, Err("EOF; Quote what?")),
        ("'1", Ok("(quote 1)")),
        ("`1", Ok("(quasiquote 1)")),
        ("^{a 1} [1 2 3]", Ok("(with-meta [1 2 3] {a 1})")),
        ("^{a 1}", Err("EOF; Meta for what?")),
        ("((^) (baz foo))", Err("EOF; Meta for what?")),
    ];
    for (input, expected) in tests.iter() {
        let res = read_text(input);
        match expected {
            Ok(out) => {
                let output = print_text(res.unwrap());
                assert_eq!(*out, output.as_str());
            }
            Err(err) => match &res {
                Err(e) => {
                    assert_eq!(e.msg.as_str(), *err);
                }
                Ok(nodes) => {
                    panic!("Expected error: {:?}, got RadNodes: {:?}.", err, nodes)
                }
            },
        }
    }
}

#[test]
fn tokenize_comments_and_runs() {
    // A comment runs to the line break and stays a token, trimmed.
    let toks = tokenize("abc ; hey you \ndef");
    assert_eq!(&toks[..], &["abc", "; hey you", "def"][..]);
    // Inside a bare run, ~ ^ @ are ordinary characters; at the start they
    // are special.
    assert_eq!(&tokenize("a~b")[..], &["a~b"][..]);
    assert_eq!(&tokenize("~a")[..], &["~", "a"][..]);
    assert_eq!(&tokenize("~@a")[..], &["~@", "a"][..]);
    assert_eq!(&tokenize("^x")[..], &["^", "x"][..]);
    // Commas separate like whitespace.
    assert_eq!(&tokenize("1,2")[..], &["1", "2"][..]);
    // An unterminated string token keeps going to the end, then is trimmed.
    assert_eq!(&tokenize(" \"ab ")[..], &["\"ab"][..]);
    // A trailing lone backslash is left for the next token.
    assert_eq!(&tokenize("\"ab\\")[..], &["\"ab", "\\"][..]);
}

#[test]
fn read_numbers_and_symbols() {
    // Two or more characters of digits and dots read as a number.
    assert_eq!(print_text(read_text("12.5").unwrap()), "12.5");
    assert_eq!(print_text(read_text("-50").unwrap()), "-50");
    // A single bare digit reads as a symbol, not a number.
    let seven = read_text("7").unwrap();
    assert_eq!(rad::types::rtype_as_str(&seven), "Symbol");
    let minus_five = read_text("-5").unwrap();
    assert_eq!(rad::types::rtype_as_str(&minus_five), "Symbol");
    let num = read_text("42").unwrap();
    assert_eq!(rad::types::rtype_as_str(&num), "Number");
    // A numeric-shaped token with two dots is rejected as data.
    let e = read_text("1.2.3").unwrap_err();
    assert_eq!(e.kind, ErrorKind::InvalidData);
    assert_eq!(e.msg, "invalid float literal");
}

#[test]
fn read_strings_and_chars() {
    // The enclosing quotes are stripped and restored on printing.
    assert_eq!(print_text(read_text("\"a\\\"b\"").unwrap()), "\"a\\\"b\"");
    // A char literal keeps its backslash and prints in single quotes.
    let ch = read_text("\\n").unwrap();
    assert_eq!(rad::types::rtype_as_str(&ch), "Char");
    assert_eq!(print_text(ch), "'\\n'");
    // Error classes follow the failure: unterminated input is end-of-input,
    // bad literals are malformed input.
    assert_eq!(
        read_text("(+ 1").unwrap_err().msg,
        "EOF; Unterminated list!"
    );
    assert_eq!(read_text("(+ 1").unwrap_err().kind, ErrorKind::EndOfInput);
    assert_eq!(read_text("'").unwrap_err().kind, ErrorKind::EndOfInput);
    assert_eq!(
        read_text("\"abc").unwrap_err().kind,
        ErrorKind::MalformedInput
    );
    assert_eq!(read_text("\\").unwrap_err().kind, ErrorKind::MalformedInput);
}

#[test]
fn read_map_parity() {
    // An odd map body binds its trailing key to nil.
    let m = read_text("{a 1 b}").unwrap();
    assert_eq!(print_text(m), "{a 1 b nil}");
    let even = read_text("{a 1 b 2}").unwrap();
    assert_eq!(print_text(even), "{a 1 b 2}");
}

#[test]
fn read_quote_family() {
    let tests = [
        ("'x", "(quote x)"),
        ("`x", "(quasiquote x)"),
        ("~x", "(unquote x)"),
        ("~@x", "(splice-unquote x)"),
        ("@x", "(deref x)"),
    ];
    for (input, expected) in tests.iter() {
        assert_eq!(print_text(read_text(input).unwrap()), *expected);
    }
}

#[test]
fn read_ignores_trailing_tokens() {
    // Only the first form of a line is read.
    assert_eq!(print_text(read_text("abc def").unwrap()), "abc");
}

#[test]
fn reader_ids_are_fresh() {
    let mut gen = IdGen::new();
    let a = read_str("(x y)", &mut gen).unwrap();
    let b = read_str("z", &mut gen).unwrap();
    // Ids from one generator never repeat across reads.
    assert!(b.id >= 1);
    assert_ne!(a.id, b.id);
}

#[test]
fn roundtrip_canonical_inputs() {
    // For grammatically valid, canonically spaced input, printing the parse
    // gives the input back.
    let tests = [
        "(+ 1 3)",
        "(print \"hello\")",
        "[10 20]",
        "{a 1}",
        "123",
        "abc",
        "(() ())",
        "[1.5 -20]",
        "nil",
    ];
    for input in tests.iter() {
        assert_eq!(print_text(read_text(input).unwrap()), *input);
    }
}

#[test]
fn roundtrip_idempotence() {
    // Re-reading printed output prints identically, also where the first
    // print rewrites quote sugar or pads a map.
    let tests = [
        "'1",
        "`(+ 2 3)",
        "^{a 1} [1 2 3]",
        "{a 1 b}",
        "(   + 1   3 )",
        "~@x",
        "@ x",
    ];
    for input in tests.iter() {
        let once = print_text(read_text(input).unwrap());
        let twice = print_text(read_text(once.as_str()).unwrap());
        assert_eq!(once, twice);
    }
}
