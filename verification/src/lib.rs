//! A small s-expression reader and tree-walking evaluator: the core of a
//! minimal Lisp-like interpreter.  Text is tokenized, parsed into a tagged
//! tree of nodes, optionally evaluated against a namespace of builtin
//! operators, and printed back to text.
use vstd::prelude::*;

pub mod env;
pub mod eval;
pub mod laws;
pub mod reader;
pub mod types;

use crate::env::{Namespace, NumOps, Op};
use crate::eval::{EvalOut, evals};
use crate::reader::{lemma_form_advances, lemma_tokenize_len, spec_read, spec_tokenize};
use crate::types::{IdGen, NodeV, RadError, RadNode, print_node, size_node};

verus! {

/// A parsed form never holds more nodes than its text has characters.
pub proof fn lemma_read_size(s: Seq<char>)
    ensures
        match spec_read(s) {
            Ok(n) => size_node(n) <= s.len(),
            Err(_) => true,
        },
{
    lemma_tokenize_len(s);
    lemma_form_advances(spec_tokenize(s), 0);
}

/// Reads one form from a line of text.
pub fn read(text: &str, gen: &mut IdGen) -> (r: Result<RadNode, RadError>)
    requires
        old(gen).next + text@.len() <= usize::MAX,
    ensures
        old(gen).next <= final(gen).next <= old(gen).next + text@.len(),
        match r {
            Ok(n) => spec_read(text@) == Ok::<NodeV, (types::ErrorKind, Seq<char>)>(n@),
            Err(e) => spec_read(text@) == Err::<NodeV, (types::ErrorKind, Seq<char>)>((e.kind, e.msg@)),
        },
{
    crate::reader::read_str(text, gen)
}

/// Evaluates a tree against a namespace, with the numeric work done by the
/// host's `NumOps`.
pub fn eval<O: NumOps>(tree: RadNode, ns: &Namespace, ops: &O, gen: &mut IdGen) -> (r: Result<
    RadNode,
    RadError,
>)
    requires
        old(gen).next + 2 * size_node(tree@) <= usize::MAX,
    ensures
        old(gen).next <= final(gen).next <= old(gen).next + 2 * size_node(tree@),
        match r {
            Ok(n) => evals(ns@, tree@, EvalOut::EDone(n@)),
            Err(e) => evals(ns@, tree@, EvalOut::EFail(e.kind, e.msg@)),
        },
{
    crate::eval::eval_ast(&tree, ns, ops, gen)
}

/// Prints a tree back to its textual form.
pub fn print(tree: RadNode) -> (r: String)
    ensures
        r@ == print_node(tree@),
{
    crate::types::node_to_text(&tree)
}

/// What a read-evaluate-print pass may hand back for its input: the printed
/// text of some evaluation of the parsed tree.
pub open spec fn rep_output(ns: Seq<(Seq<char>, Op)>, t: NodeV, s: Seq<char>) -> bool {
    exists|ev: NodeV| #[trigger] evals(ns, t, EvalOut::EDone(ev)) && s == print_node(ev)
}

/// One read-evaluate-print pass over a line of text.
pub fn rep<O: NumOps>(text: &str, ns: &Namespace, ops: &O, gen: &mut IdGen) -> (r: Result<
    String,
    RadError,
>)
    requires
        old(gen).next + 3 * text@.len() <= usize::MAX,
    ensures
        old(gen).next <= final(gen).next <= old(gen).next + 3 * text@.len(),
        match r {
            Ok(s) => spec_read(text@) is Ok && rep_output(
                ns@,
                spec_read(text@)->Ok_0,
                s@,
            ),
            Err(e) => match spec_read(text@) {
                Err((k, m)) => e.kind == k && e.msg@ == m,
                Ok(t) => evals(ns@, t, EvalOut::EFail(e.kind, e.msg@)),
            },
        },
{
    proof {
        lemma_read_size(text@);
    }
    let tree = match read(text, gen) {
        Err(e) => {
            return Err(e);
        },
        Ok(t) => t,
    };
    let results = match eval(tree, ns, ops, gen) {
        Err(e) => {
            return Err(e);
        },
        Ok(n) => n,
    };
    let ghost ev = results@;
    let out = print(results);
    proof {
        assert(evals(ns@, spec_read(text@)->Ok_0, EvalOut::EDone(ev)));
        assert(out@ == print_node(ev));
    }
    Ok(out)
}

} // verus!
