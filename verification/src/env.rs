//! The namespace of builtin operators and the builtin application logic.
//!
//! The numeric work itself — parsing, combining and formatting floats — is
//! behind the `NumOps` trait, supplied by the host: this crate's own code
//! carries no floating point.
use vstd::prelude::*;

use crate::types::{
    ErrorKind, IdGen, NodeV, RadError, RadList, RadNode, RadVal, ValV, error_invalid_data,
    make_node, node_to_text, print_node, rtype_as_str, spec_kind_name, view_nodes,
};

verus! {

/// The four builtin arithmetic operators.
#[derive(PartialEq, Eq, Structural, Clone, Copy, Debug)]
pub enum Op {
    Add,
    Sub,
    Mul,
    Div,
}

/// The floating-point work a host supplies: combining two operand texts
/// under an operator, and normalizing a single operand text, both through
/// the host's float type.  Nothing is assumed of the results.
pub trait NumOps {
    /// The decimal text of `a op b`, where `a` and `b` are numeric texts.
    fn combine(&self, op: Op, a: &str, b: &str) -> String;

    /// The decimal text the numeric text `a` parses and prints back to.
    fn normalize(&self, a: &str) -> String;
}

/// One namespace binding: an operator name and the builtin it names.
pub struct NsEntry {
    pub name: String,
    pub op: Op,
}

/// The fixed name-to-builtin table the evaluator dispatches through.
pub struct Namespace {
    pub entries: Vec<NsEntry>,
}

impl View for Namespace {
    type V = Seq<(Seq<char>, Op)>;

    open spec fn view(&self) -> Seq<(Seq<char>, Op)> {
        Seq::new(
            self.entries@.len(),
            |i: int|
                if 0 <= i < self.entries@.len() {
                    (self.entries@[i].name@, self.entries@[i].op)
                } else {
                    (Seq::empty(), Op::Add)
                },
        )
    }
}

/// First binding under `name`, searched in registration order.
pub open spec fn ns_lookup(ns: Seq<(Seq<char>, Op)>, name: Seq<char>) -> Option<Op>
    decreases ns.len(),
{
    if ns.len() == 0 {
        None
    } else if ns[0].0 == name {
        Some(ns[0].1)
    } else {
        ns_lookup(ns.skip(1), name)
    }
}

impl Namespace {
    /// Looks a name up in the table.
    #[verifier::loop_isolation(false)]
    pub fn lookup(&self, name: &str) -> (r: Option<Op>)
        ensures
            r == ns_lookup(self@, name@),
    {
        let mut i: usize = 0;
        proof {
            assert(self@.skip(0) =~= self@);
        }
        while i < self.entries.len()
            invariant
                i <= self.entries@.len(),
                ns_lookup(self@, name@) == ns_lookup(self@.skip(i as int), name@),
            decreases self.entries@.len() - i,
        {
            proof {
                assert(self@.skip(i as int)[0] == self@[i as int]);
                assert(self@.skip(i as int).skip(1) =~= self@.skip(i + 1));
            }
            if crate::reader::str_equal(self.entries[i].name.as_str(), name) {
                return Some(self.entries[i].op);
            }
            i += 1;
        }
        None
    }
}

/// The table the session starts with: the four arithmetic operators.
pub open spec fn init_ns() -> Seq<(Seq<char>, Op)> {
    seq![("+"@, Op::Add), ("-"@, Op::Sub), ("*"@, Op::Mul), ("/"@, Op::Div)]
}

/// Builds the fixed builtin namespace.
pub fn init() -> (ns: Namespace)
    ensures
        ns@ == init_ns(),
{
    let mut entries: Vec<NsEntry> = Vec::new();
    entries.push(NsEntry { name: "+".to_owned(), op: Op::Add });
    entries.push(NsEntry { name: "-".to_owned(), op: Op::Sub });
    entries.push(NsEntry { name: "*".to_owned(), op: Op::Mul });
    entries.push(NsEntry { name: "/".to_owned(), op: Op::Div });
    let ns = Namespace { entries };
    proof {
        assert(ns@ =~= init_ns());
    }
    ns
}

/// The message a non-numeric argument raises.
pub open spec fn not_a_number_msg(offender: NodeV) -> Seq<char> {
    print_node(offender) + " is not a Number, it's a "@ + spec_kind_name(offender.val) + "."@
}

/// Applies an arithmetic builtin to the evaluated list items after the head.
/// Every argument must be a number, else the first offender is reported;
/// the arguments fold left to right through the host's `NumOps`, zero
/// arguments yield numeric zero, and one argument is its own value.
#[verifier::loop_isolation(false)]
pub fn apply_builtin<O: NumOps>(op: Op, items: &RadList, ops: &O, gen: &mut IdGen) -> (r: Result<
    RadNode,
    RadError,
>)
    requires
        items@.len() >= 1,
        old(gen).next < usize::MAX,
    ensures
        old(gen).next <= final(gen).next <= old(gen).next + 1,
        match r {
            Ok(n) => {
                let args = view_nodes(items@).skip(1);
                (forall|k: int| 0 <= k < args.len() ==> #[trigger] args[k].val == ValV::NumberV)
                    && n@.val == ValV::NumberV && (args.len() == 0 ==> n@.text == "0"@)
            },
            Err(e) => {
                let args = view_nodes(items@).skip(1);
                exists|i: int|
                    0 <= i < args.len() && #[trigger] args[i].val != ValV::NumberV && (forall|
                        k: int,
                    |
                        0 <= k < i ==> #[trigger] args[k].val == ValV::NumberV) && e.kind
                        == ErrorKind::InvalidData && e.msg@ == not_a_number_msg(args[i])
            },
        },
{
    let ghost args = view_nodes(items@).skip(1);
    let mut acc: String = "0".to_owned();
    let mut count: usize = 0;
    let mut i: usize = 1;
    while i < items.len()
        invariant
            1 <= i <= items@.len(),
            count == i - 1,
            count == 0 ==> acc@ == "0"@,
            forall|k: int| 0 <= k < i - 1 ==> #[trigger] args[k].val == ValV::NumberV,
            gen.next == old(gen).next,
        decreases items@.len() - i,
    {
        proof {
            assert(args[i - 1] == view_nodes(items@)[i as int]);
        }
        match &items[i].rval {
            RadVal::Number => {
                if count == 0 {
                    acc = items[i].text.clone();
                } else {
                    acc = ops.combine(op, acc.as_str(), items[i].text.as_str());
                }
                count += 1;
            },
            _ => {
                let mut msg = node_to_text(&items[i]);
                msg.append(" is not a Number, it's a ");
                msg.append(rtype_as_str(&items[i]));
                msg.append(".");
                proof {
                    assert(args[i - 1].val != ValV::NumberV);
                    assert(msg@ == not_a_number_msg(args[i - 1]));
                }
                return Err(error_invalid_data(msg));
            },
        }
        i += 1;
    }
    if count == 1 {
        acc = ops.normalize(acc.as_str());
    }
    let node = make_node(acc.as_str(), RadVal::Number, gen);
    proof {
        if args.len() == 0 {
            assert(node@.text == "0"@);
        }
    }
    Ok(node)
}

} // verus!
