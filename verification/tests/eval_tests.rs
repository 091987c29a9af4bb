use rad::env::{init, NumOps, Op};
use rad::types::{ErrorKind, IdGen};

/// The host's numeric work: parse the operand texts as floats, combine, and
/// print the result in the default decimal form.
struct FloatOps;

impl NumOps for FloatOps {
    fn combine(&self, op: Op, a: &str, b: &str) -> String {
        let x: f64 = a.parse().unwrap_or(f64::NAN);
        let y: f64 = b.parse().unwrap_or(f64::NAN);
        let r = match op {
            Op::Add => x + y,
            Op::Sub => x - y,
            Op::Mul => x * y,
            Op::Div => x / y,
        };
        r.to_string()
    }

    fn normalize(&self, a: &str) -> String {
        a.parse::<f64>().unwrap_or(f64::NAN).to_string()
    }
}

fn run(input: &str) -> Result<String, rad::types::RadError> {
    let ns = init();
    let mut gen = IdGen::new();
    rad::rep(input, &ns, &FloatOps, &mut gen)
}

#[test]
// test for explicit outputs or errors; single digits read as symbols, so
// every one of these lines reports its first non-numeric argument
fn rep_test() {
    let tests: Vec<(&str, Result<&str, &str>)> = vec![
        ("(+ 1 3)", Err("1 is not a Number, it's a Symbol.")),
        ("(- 4 6)", Err("4 is not a Number, it's a Symbol.")),
        ("(/ 100 3)", Err("3 is not a Number, it's a Symbol.")),
        ("(* 6 4)", Err("6 is not a Number, it's a Symbol.")),
        ("(/ 1 0)", Err("1 is not a Number, it's a Symbol.")),
        ("(+ 5 (* 2 3))", Err("2 is not a Number, it's a Symbol.")),
    ];
    for (input, expected) in tests.iter() {
        let res = run(input);
        println!("result: {:?}", res);
        match expected {
            Ok(out) => {
                let output = res.unwrap();
                assert_eq!(*out, output.as_str());
            }
            Err(err) => match &res {
                Err(e) => {
                    assert_eq!(e.msg.as_str(), *err);
                    assert_eq!(e.kind, ErrorKind::InvalidData);
                }
                Ok(nodes) => {
                    panic!("Expected error: {:?}, got RadNodes: {:?}.", err, nodes)
                }
            },
        }
    }
}

#[test]
fn step3_env_rep_test() {
    let tests: Vec<(&str, Result<&str, &str>)> =
        vec![("(+ 1 3)", Err("1 is not a Number, it's a Symbol."))];
    for (input, expected) in tests.iter() {
        let res = run(input);
        println!("result: {:?}", res);
        match expected {
            Ok(out) => {
                let output = res.unwrap();
                assert_eq!(*out, output.as_str());
            }
            Err(err) => match &res {
                Err(e) => {
                    assert_eq!(e.msg.as_str(), *err);
                }
                Ok(nodes) => {
                    panic!("Expected error: {:?}, got RadNodes: {:?}.", err, nodes)
                }
            },
        }
    }
}

#[test]
// multi-character numeric literals reach the arithmetic builtins
fn rep_arithmetic() {
    let tests = [
        ("(+ 10 30)", "40"),
        ("(- 40 60)", "-20"),
        ("(* 60 40)", "2400"),
        ("(/ 100 3.0)", "33.333333333333336"),
        ("(/ 10 0.0)", "inf"),
        ("(+ 50 (* 20 30))", "650"),
        ("(+ 1.0 3.0)", "4"),
    ];
    for (input, expected) in tests.iter() {
        assert_eq!(run(input).unwrap(), *expected);
    }
}

#[test]
fn rep_arity_edges() {
    // Zero arguments yield numeric zero; one argument is its own value,
    // printed in normal form.
    assert_eq!(run("(+)").unwrap(), "0");
    assert_eq!(run("(+ 10)").unwrap(), "10");
    assert_eq!(run("(+ 1.50)").unwrap(), "1.5");
}

#[test]
fn rep_namespace_miss() {
    let e = run("(foo 1 2)").unwrap_err();
    assert_eq!(e.kind, ErrorKind::InvalidData);
    assert!(e.msg.contains("foo was not found in namespace!"));
    // A computed head is looked up by its text too.
    let e2 = run("((+ 10 20) 30)").unwrap_err();
    assert_eq!(e2.msg, "30 was not found in namespace!");
}

#[test]
fn rep_type_mismatch() {
    // The error names the offending node and its kind.
    let e = run("(+ 10 \"a\")").unwrap_err();
    assert_eq!(e.kind, ErrorKind::InvalidData);
    assert_eq!(e.msg, "\"a\" is not a Number, it's a String.");
    let e2 = run("(+ 10 [20])").unwrap_err();
    assert_eq!(e2.msg, "[20] is not a Number, it's a Array.");
}

#[test]
fn rep_self_evaluating() {
    // Atoms and quote forms come back unchanged.
    let tests = [
        ("abc", "abc"),
        ("123", "123"),
        ("\"hi\"", "\"hi\""),
        ("nil", "nil"),
        ("'(+ 10 20)", "(quote (+ 10 20))"),
        ("()", "()"),
    ];
    for (input, expected) in tests.iter() {
        assert_eq!(run(input).unwrap(), *expected);
    }
}

#[test]
fn rep_collections_evaluate_elements() {
    // Arrays and maps rebuild with every element evaluated, keys included.
    assert_eq!(run("[(+ 10 20) 5]").unwrap(), "[30 5]");
    assert_eq!(run("{a (+ 10 20)}").unwrap(), "{a 30}");
    assert_eq!(run("{(+ 10 20) b}").unwrap(), "{30 b}");
    assert_eq!(run("{a 1 b}").unwrap(), "{a 1 b nil}");
    // The first failing element aborts the walk.
    let e = run("[(bar) 5]").unwrap_err();
    assert_eq!(e.msg, "bar was not found in namespace!");
}

#[test]
fn eval_builds_new_tree() {
    let ns = init();
    let mut gen = IdGen::new();
    let tree = rad::read("(+ 10 20)", &mut gen).unwrap();
    let before = gen.next;
    let out = rad::eval(tree, &ns, &FloatOps, &mut gen).unwrap();
    assert_eq!(rad::types::rtype_as_str(&out), "Number");
    assert!(out.id >= before);
    assert_eq!(rad::print(out), "30");
}
