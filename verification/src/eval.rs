//! The evaluator: a structural tree walk.  Atoms and quote forms evaluate
//! to themselves; collections rebuild with every element evaluated in
//! order; a non-empty list dispatches its head's text to the namespace.
use vstd::prelude::*;

use crate::env::{Namespace, NumOps, Op, apply_builtin, not_a_number_msg, ns_lookup};
use crate::types::{
    ErrorKind, IdGen, NodeV, RadError, RadList, RadNode, RadVal, ValV, duplicate,
    error_invalid_data, lemma_flatten_size, make_map_val, make_node, map_to_list, size_all,
    size_node, spec_flatten, spec_pairs, view_nodes, view_pairs,
};

verus! {

/// Outcome of evaluating one node: a result node, or an error class and
/// message.
pub enum EvalOut {
    EDone(NodeV),
    EFail(ErrorKind, Seq<char>),
}

/// How one node relates to an evaluation outcome under a namespace.  The
/// relation leaves open only what the host's numeric work decides: the text
/// of a computed number.
pub open spec fn evals(ns: Seq<(Seq<char>, Op)>, t: NodeV, out: EvalOut) -> bool
    decreases t, 3int,
{
    match t.val {
        ValV::ArrayV(items) => evals_array_case(ns, t.text, items, out),
        ValV::MapV(pairs) => evals_map_case(ns, t.text, pairs, out),
        ValV::ListV(items) => evals_list_case(ns, t.text, items, out),
        _ => evals_atom(t.text, t.val, out),
    }
}

/// A self-evaluating value: the outcome is the value itself, and no error.
pub open spec fn evals_atom(text: Seq<char>, val: ValV, out: EvalOut) -> bool {
    match out {
        EvalOut::EDone(r) => r == (NodeV { text, val }),
        EvalOut::EFail(_, _) => false,
    }
}

/// An array evaluates its elements in order and rebuilds from the results,
/// or fails as its first failing element does.
pub open spec fn evals_array_case(
    ns: Seq<(Seq<char>, Op)>,
    text: Seq<char>,
    items: Seq<NodeV>,
    out: EvalOut,
) -> bool
    decreases items, 2int,
{
    match out {
        EvalOut::EDone(r) => exists|cs: Seq<NodeV>|
            #![trigger cs.len()]
            evals_all(ns, items, cs) && r == (NodeV { text, val: ValV::ArrayV(cs) }),
        EvalOut::EFail(k, m) => fails_first(ns, items, k, m),
    }
}

/// A map evaluates every key and value, in entry order with each key before
/// its value, and rebuilds from the results; it fails as the first failing
/// entry does.
pub open spec fn evals_map_case(
    ns: Seq<(Seq<char>, Op)>,
    text: Seq<char>,
    pairs: Seq<(NodeV, NodeV)>,
    out: EvalOut,
) -> bool
    decreases pairs, 2int,
{
    match out {
        EvalOut::EDone(r) => exists|cs: Seq<NodeV>|
            #![trigger spec_pairs(cs)]
            {
                &&& cs.len() == 2 * pairs.len()
                &&& (forall|j: int|
                    0 <= j < pairs.len() ==> evals(
                        ns,
                        (#[trigger] pairs[j]).0,
                        EvalOut::EDone(cs[2 * j]),
                    ) && evals(ns, pairs[j].1, EvalOut::EDone(cs[2 * j + 1])))
                &&& r == (NodeV { text, val: ValV::MapV(spec_pairs(cs)) })
            },
        EvalOut::EFail(k, m) => exists|j: int|
            #![trigger pairs[j]]
            {
                &&& 0 <= j < pairs.len()
                &&& (forall|q: int|
                    0 <= q < j ==> eval_succeeds(ns, (#[trigger] pairs[q]).0) && eval_succeeds(
                        ns,
                        pairs[q].1,
                    ))
                &&& (evals(ns, pairs[j].0, EvalOut::EFail(k, m)) || (eval_succeeds(ns, pairs[j].0)
                    && evals(ns, pairs[j].1, EvalOut::EFail(k, m))))
            },
    }
}

/// A list evaluates its elements in order; an empty list is itself, and a
/// non-empty one invokes the builtin its evaluated head names on the
/// remaining elements, which must all be numbers.  It fails on the first
/// failing element, on a head the namespace does not know, or on the first
/// non-numeric argument.
pub open spec fn evals_list_case(
    ns: Seq<(Seq<char>, Op)>,
    text: Seq<char>,
    items: Seq<NodeV>,
    out: EvalOut,
) -> bool
    decreases items, 2int,
{
    match out {
        EvalOut::EDone(r) => (items.len() == 0 && r == (NodeV { text, val: ValV::ListV(items) }))
            || (exists|cs: Seq<NodeV>|
            #![trigger cs.len()]
            {
                &&& evals_all(ns, items, cs)
                &&& cs.len() > 0
                &&& ns_lookup(ns, cs[0].text) is Some
                &&& (forall|k: int| 1 <= k < cs.len() ==> #[trigger] cs[k].val == ValV::NumberV)
                &&& r.val == ValV::NumberV
                &&& (cs.len() == 1 ==> r.text == "0"@)
            }),
        EvalOut::EFail(k, m) => fails_first(ns, items, k, m) || (exists|cs: Seq<NodeV>|
            #![trigger cs.len()]
            {
                &&& evals_all(ns, items, cs)
                &&& cs.len() > 0
                &&& k == ErrorKind::InvalidData
                &&& ((ns_lookup(ns, cs[0].text) is None && m == cs[0].text
                    + " was not found in namespace!"@) || (ns_lookup(ns, cs[0].text) is Some
                    && exists|i: int|
                    {
                        &&& 1 <= i < cs.len()
                        &&& #[trigger] cs[i].val != ValV::NumberV
                        &&& (forall|q: int| 1 <= q < i ==> #[trigger] cs[q].val == ValV::NumberV)
                        &&& m == not_a_number_msg(cs[i])
                    }))
            }),
    }
}

/// Every element evaluates to the corresponding result element.
pub open spec fn evals_all(ns: Seq<(Seq<char>, Op)>, ts: Seq<NodeV>, cs: Seq<NodeV>) -> bool
    decreases ts, 1int,
{
    cs.len() == ts.len() && (forall|i: int|
        0 <= i < ts.len() ==> evals(ns, #[trigger] ts[i], EvalOut::EDone(cs[i])))
}

/// Whether a node has at least one successful evaluation.
pub open spec fn eval_succeeds(ns: Seq<(Seq<char>, Op)>, t: NodeV) -> bool
    decreases t, 4int,
{
    exists|cs: Seq<NodeV>| #![trigger cs.len()] cs.len() == 1 && evals(
        ns,
        t,
        EvalOut::EDone(cs[0]),
    )
}

/// Some element fails with this error while everything before it succeeds.
pub open spec fn fails_first(
    ns: Seq<(Seq<char>, Op)>,
    ts: Seq<NodeV>,
    k: ErrorKind,
    m: Seq<char>,
) -> bool
    decreases ts, 1int,
{
    exists|i: int|
        #![trigger ts[i]]
        {
            &&& 0 <= i < ts.len()
            &&& evals(ns, ts[i], EvalOut::EFail(k, m))
            &&& (forall|j: int| 0 <= j < i ==> eval_succeeds(ns, #[trigger] ts[j]))
        }
}

/// A value that is not a collection evaluates to itself.
pub proof fn lemma_self_eval(ns: Seq<(Seq<char>, Op)>, t: NodeV, r: NodeV)
    requires
        match t.val {
            ValV::ListV(_) => false,
            ValV::ArrayV(_) => false,
            ValV::MapV(_) => false,
            _ => true,
        },
        r == (NodeV { text: t.text, val: t.val }),
    ensures
        evals(ns, t, EvalOut::EDone(r)),
{
    assert(evals_atom(t.text, t.val, EvalOut::EDone(r)));
}

/// An array whose elements all evaluate rebuilds from the results.
pub proof fn lemma_array_done(
    ns: Seq<(Seq<char>, Op)>,
    t: NodeV,
    items: Seq<NodeV>,
    cs: Seq<NodeV>,
    r: NodeV,
)
    requires
        t.val == ValV::ArrayV(items),
        evals_all(ns, items, cs),
        r == (NodeV { text: t.text, val: ValV::ArrayV(cs) }),
    ensures
        evals(ns, t, EvalOut::EDone(r)),
{
    assert(evals_array_case(ns, t.text, items, EvalOut::EDone(r)));
}

/// An array fails as its first failing element does.
pub proof fn lemma_array_fail(
    ns: Seq<(Seq<char>, Op)>,
    t: NodeV,
    items: Seq<NodeV>,
    k: ErrorKind,
    m: Seq<char>,
)
    requires
        t.val == ValV::ArrayV(items),
        fails_first(ns, items, k, m),
    ensures
        evals(ns, t, EvalOut::EFail(k, m)),
{
    assert(evals_array_case(ns, t.text, items, EvalOut::EFail(k, m)));
}

/// A map whose flattened entries all evaluate rebuilds from the results.
pub proof fn lemma_map_done(
    ns: Seq<(Seq<char>, Op)>,
    t: NodeV,
    pairs: Seq<(NodeV, NodeV)>,
    cs: Seq<NodeV>,
    r: NodeV,
)
    requires
        t.val == ValV::MapV(pairs),
        evals_all(ns, spec_flatten(pairs), cs),
        r == (NodeV { text: t.text, val: ValV::MapV(spec_pairs(cs)) }),
    ensures
        evals(ns, t, EvalOut::EDone(r)),
{
    let flat = spec_flatten(pairs);
    assert(cs.len() == 2 * pairs.len());
    assert forall|j: int|
        0 <= j < pairs.len() implies evals(ns, (#[trigger] pairs[j]).0, EvalOut::EDone(cs[2 * j]))
        && evals(ns, pairs[j].1, EvalOut::EDone(cs[2 * j + 1])) by {
        assert(flat[2 * j] == pairs[j].0);
        assert(flat[2 * j + 1] == pairs[j].1);
        assert(evals(ns, flat[2 * j], EvalOut::EDone(cs[2 * j])));
        assert(evals(ns, flat[2 * j + 1], EvalOut::EDone(cs[2 * j + 1])));
    }
    assert(evals_map_case(ns, t.text, pairs, EvalOut::EDone(r)));
}

/// A map fails as its first failing flattened entry does.
pub proof fn lemma_map_fail(
    ns: Seq<(Seq<char>, Op)>,
    t: NodeV,
    pairs: Seq<(NodeV, NodeV)>,
    k: ErrorKind,
    m: Seq<char>,
)
    requires
        t.val == ValV::MapV(pairs),
        fails_first(ns, spec_flatten(pairs), k, m),
    ensures
        evals(ns, t, EvalOut::EFail(k, m)),
{
    let flat = spec_flatten(pairs);
    let f = choose|f: int|
        #![trigger flat[f]]
        {
            &&& 0 <= f < flat.len()
            &&& evals(ns, flat[f], EvalOut::EFail(k, m))
            &&& (forall|q: int| 0 <= q < f ==> eval_succeeds(ns, #[trigger] flat[q]))
        };
    let j = f / 2;
    assert(flat[f] == (if f % 2 == 0 {
        pairs[j].0
    } else {
        pairs[j].1
    }));
    assert forall|q: int| 0 <= q < j implies eval_succeeds(ns, (#[trigger] pairs[q]).0)
        && eval_succeeds(ns, pairs[q].1) by {
        assert(flat[2 * q] == pairs[q].0);
        assert(flat[2 * q + 1] == pairs[q].1);
        assert(eval_succeeds(ns, flat[2 * q]));
        assert(eval_succeeds(ns, flat[2 * q + 1]));
    }
    if f % 2 == 1 {
        assert(flat[2 * j] == pairs[j].0);
        assert(eval_succeeds(ns, flat[2 * j]));
    }
    // Mentioning the failing pair puts it in reach of the quantifier above.
    let fail_pair = pairs[j];
    assert(evals_map_case(ns, t.text, pairs, EvalOut::EFail(k, m)));
}

/// A list fails as its first failing element does.
pub proof fn lemma_list_fail_children(
    ns: Seq<(Seq<char>, Op)>,
    t: NodeV,
    items: Seq<NodeV>,
    k: ErrorKind,
    m: Seq<char>,
)
    requires
        t.val == ValV::ListV(items),
        fails_first(ns, items, k, m),
    ensures
        evals(ns, t, EvalOut::EFail(k, m)),
{
    assert(evals_list_case(ns, t.text, items, EvalOut::EFail(k, m)));
}

/// An empty list evaluates to a copy of itself.
pub proof fn lemma_list_empty(ns: Seq<(Seq<char>, Op)>, t: NodeV, items: Seq<NodeV>, r: NodeV)
    requires
        t.val == ValV::ListV(items),
        items.len() == 0,
        r == (NodeV { text: t.text, val: t.val }),
    ensures
        evals(ns, t, EvalOut::EDone(r)),
{
    assert(evals_list_case(ns, t.text, items, EvalOut::EDone(r)));
}

/// A list whose evaluated head names a builtin applies it to all-numeric
/// arguments and yields a number.
pub proof fn lemma_list_apply_ok(
    ns: Seq<(Seq<char>, Op)>,
    t: NodeV,
    items: Seq<NodeV>,
    cs: Seq<NodeV>,
    r: NodeV,
)
    requires
        t.val == ValV::ListV(items),
        evals_all(ns, items, cs),
        cs.len() > 0,
        ns_lookup(ns, cs[0].text) is Some,
        forall|k: int| 1 <= k < cs.len() ==> #[trigger] cs[k].val == ValV::NumberV,
        r.val == ValV::NumberV,
        cs.len() == 1 ==> r.text == "0"@,
    ensures
        evals(ns, t, EvalOut::EDone(r)),
{
    assert(evals_list_case(ns, t.text, items, EvalOut::EDone(r)));
}

/// A list whose evaluated head names nothing in the namespace fails.
pub proof fn lemma_list_miss(
    ns: Seq<(Seq<char>, Op)>,
    t: NodeV,
    items: Seq<NodeV>,
    cs: Seq<NodeV>,
    m: Seq<char>,
)
    requires
        t.val == ValV::ListV(items),
        evals_all(ns, items, cs),
        cs.len() > 0,
        ns_lookup(ns, cs[0].text) is None,
        m == cs[0].text + " was not found in namespace!"@,
    ensures
        evals(ns, t, EvalOut::EFail(ErrorKind::InvalidData, m)),
{
    assert(evals_list_case(ns, t.text, items, EvalOut::EFail(ErrorKind::InvalidData, m)));
}

/// A list whose builtin sees a non-numeric argument fails, naming the first
/// offender.
pub proof fn lemma_list_badarg(
    ns: Seq<(Seq<char>, Op)>,
    t: NodeV,
    items: Seq<NodeV>,
    cs: Seq<NodeV>,
    i: int,
    m: Seq<char>,
)
    requires
        t.val == ValV::ListV(items),
        evals_all(ns, items, cs),
        cs.len() > 0,
        ns_lookup(ns, cs[0].text) is Some,
        1 <= i < cs.len(),
        cs[i].val != ValV::NumberV,
        forall|q: int| 1 <= q < i ==> #[trigger] cs[q].val == ValV::NumberV,
        m == not_a_number_msg(cs[i]),
    ensures
        evals(ns, t, EvalOut::EFail(ErrorKind::InvalidData, m)),
{
    assert(evals_list_case(ns, t.text, items, EvalOut::EFail(ErrorKind::InvalidData, m)));
}

/// An element never outweighs the whole list.
pub proof fn lemma_size_all_elem(ts: Seq<NodeV>, i: int)
    requires
        0 <= i < ts.len(),
    ensures
        size_node(ts[i]) <= size_all(ts),
    decreases ts.len(),
{
    if i == 0 {
        assert(size_all(ts) == size_node(ts[0]) + size_all(ts.skip(1)));
    } else {
        lemma_size_all_elem(ts.skip(1), i - 1);
        assert(ts.skip(1)[i - 1] == ts[i]);
        assert(size_all(ts) == size_node(ts[0]) + size_all(ts.skip(1)));
    }
}

/// Evaluates every element of a list, in order, failing on the first error.
#[verifier::rlimit(60)]
#[verifier::loop_isolation(false)]
pub fn eval_all<O: NumOps>(items: &RadList, ns: &Namespace, ops: &O, gen: &mut IdGen) -> (r:
    Result<RadList, RadError>)
    requires
        old(gen).next + 2 * size_all(view_nodes(items@)) <= usize::MAX,
    ensures
        old(gen).next <= final(gen).next <= old(gen).next + 2 * size_all(view_nodes(items@)),
        match r {
            Ok(out) => evals_all(ns@, view_nodes(items@), view_nodes(out@)),
            Err(e) => fails_first(ns@, view_nodes(items@), e.kind, e.msg@),
        },
    decreases size_all(view_nodes(items@)), 1int,
{
    let ghost tsv = view_nodes(items@);
    let mut evaled: RadList = Vec::new();
    let mut i: usize = 0;
    proof {
        assert(tsv.skip(0) =~= tsv);
    }
    while i < items.len()
        invariant
            i <= items@.len(),
            evaled@.len() == i,
            old(gen).next <= gen.next,
            gen.next + 2 * size_all(tsv.skip(i as int)) <= usize::MAX,
            gen.next - old(gen).next <= 2 * (size_all(tsv) - size_all(tsv.skip(i as int))),
            forall|k: int|
                0 <= k < i ==> evals(ns@, tsv[k], EvalOut::EDone(#[trigger] view_nodes(evaled@)[k])),
        decreases items@.len() - i,
    {
        proof {
            assert(tsv.skip(i as int)[0] == tsv[i as int]);
            assert(tsv.skip(i as int).skip(1) =~= tsv.skip(i + 1));
            assert(size_all(tsv.skip(i as int)) == size_node(tsv[i as int]) + size_all(
                tsv.skip(i + 1),
            ));
        }
        let ghost prev = evaled@;
        proof {
            lemma_size_all_elem(tsv, i as int);
            assert(tsv[i as int] == items@[i as int]@);
        }
        match eval_ast(&items[i], ns, ops, gen) {
            Err(e) => {
                proof {
                    assert(evals(ns@, tsv[i as int], EvalOut::EFail(e.kind, e.msg@)));
                    assert forall|j: int| 0 <= j < i implies eval_succeeds(
                        ns@,
                        #[trigger] tsv[j],
                    ) by {
                        let c = view_nodes(prev)[j];
                        assert(view_nodes(evaled@)[j] == c);
                        assert(evals(ns@, tsv[j], EvalOut::EDone(view_nodes(evaled@)[j])));
                        assert(evals(ns@, tsv[j], EvalOut::EDone(c)));
                        let w = seq![c];
                        assert(w.len() == 1 && w[0] == c);
                        assert(eval_succeeds(ns@, tsv[j]));
                    }
                    assert(fails_first(ns@, tsv, e.kind, e.msg@));
                }
                return Err(e);
            },
            Ok(n) => {
                evaled.push(n);
                proof {
                    assert forall|k: int|
                        0 <= k < i + 1 implies evals(
                        ns@,
                        tsv[k],
                        EvalOut::EDone(#[trigger] view_nodes(evaled@)[k]),
                    ) by {
                        if k < i {
                            assert(evaled@[k] == prev[k]);
                            assert(view_nodes(evaled@)[k] == view_nodes(prev)[k]);
                        } else {
                            assert(evaled@[k] == n);
                        }
                    }
                }
            },
        }
        i += 1;
    }
    proof {
        assert(tsv.skip(items@.len() as int) =~= Seq::<NodeV>::empty());
        assert(evals_all(ns@, tsv, view_nodes(evaled@)));
    }
    Ok(evaled)
}

/// Evaluates one node against a namespace: self-evaluating values come back
/// unchanged, collections rebuild with evaluated elements, and a non-empty
/// list invokes the builtin its evaluated head names, or fails if there is
/// none.
#[verifier::rlimit(60)]
#[verifier::loop_isolation(false)]
pub fn eval_ast<O: NumOps>(tree: &RadNode, ns: &Namespace, ops: &O, gen: &mut IdGen) -> (r: Result<
    RadNode,
    RadError,
>)
    requires
        old(gen).next + 2 * size_node(tree@) <= usize::MAX,
    ensures
        old(gen).next <= final(gen).next <= old(gen).next + 2 * size_node(tree@),
        match r {
            Ok(n) => evals(ns@, tree@, EvalOut::EDone(n@)),
            Err(e) => evals(ns@, tree@, EvalOut::EFail(e.kind, e.msg@)),
        },
    decreases size_node(tree@), 0int,
{
    match &tree.rval {
        RadVal::Symbol => {
            let c = duplicate(tree);
            proof {
                assert(c@ =~= (NodeV { text: tree@.text, val: tree@.val }));
                lemma_self_eval(ns@, tree@, c@);
            }
            Ok(c)
        },
        RadVal::Table(pairs) => {
            let items = map_to_list(pairs);
            proof {
                lemma_flatten_size(view_pairs(pairs@));
            }
            match eval_all(&items, ns, ops, gen) {
                Err(e) => {
                    proof {
                        lemma_map_fail(ns@, tree@, view_pairs(pairs@), e.kind, e.msg@);
                    }
                    Err(e)
                },
                Ok(evaled) => {
                    let ghost cs = view_nodes(evaled@);
                    let v = make_map_val(evaled, gen);
                    let node = make_node(tree.text.as_str(), v, gen);
                    proof {
                        assert(node@ == (NodeV {
                            text: tree@.text,
                            val: ValV::MapV(spec_pairs(cs)),
                        }));
                        lemma_map_done(ns@, tree@, view_pairs(pairs@), cs, node@);
                    }
                    Ok(node)
                },
            }
        },
        RadVal::Array(items) => {
            match eval_all(items, ns, ops, gen) {
                Err(e) => {
                    proof {
                        lemma_array_fail(ns@, tree@, view_nodes(items@), e.kind, e.msg@);
                    }
                    Err(e)
                },
                Ok(evaled) => {
                    let ghost cs = view_nodes(evaled@);
                    let node = make_node(tree.text.as_str(), RadVal::Array(evaled), gen);
                    proof {
                        assert(node@ == (NodeV { text: tree@.text, val: ValV::ArrayV(cs) }));
                        lemma_array_done(ns@, tree@, view_nodes(items@), cs, node@);
                    }
                    Ok(node)
                },
            }
        },
        RadVal::List(items) => {
            match eval_all(items, ns, ops, gen) {
                Err(e) => {
                    proof {
                        lemma_list_fail_children(ns@, tree@, view_nodes(items@), e.kind, e.msg@);
                    }
                    Err(e)
                },
                Ok(evaled) => {
                    let ghost cs = view_nodes(evaled@);
                    if evaled.len() == 0 {
                        let c = duplicate(tree);
                        proof {
                            assert(c@ =~= (NodeV { text: tree@.text, val: tree@.val }));
                            lemma_list_empty(ns@, tree@, view_nodes(items@), c@);
                        }
                        Ok(c)
                    } else {
                        let head_op = ns.lookup(evaled[0].text.as_str());
                        proof {
                            assert(cs[0].text == evaled@[0].text@);
                        }
                        match head_op {
                            Some(op) => {
                                match apply_builtin(op, &evaled, ops, gen) {
                                    Err(e) => {
                                        proof {
                                            let args = view_nodes(evaled@).skip(1);
                                            let i = choose|i: int|
                                                {
                                                    &&& 0 <= i < args.len()
                                                    &&& #[trigger] args[i].val != ValV::NumberV
                                                    &&& (forall|k: int|
                                                        0 <= k < i ==> #[trigger] args[k].val
                                                            == ValV::NumberV)
                                                    &&& e.kind == ErrorKind::InvalidData
                                                    &&& e.msg@ == not_a_number_msg(args[i])
                                                };
                                            assert(args[i] == cs[i + 1]);
                                            assert forall|q: int|
                                                1 <= q < i + 1 implies #[trigger] cs[q].val
                                                == ValV::NumberV by {
                                                assert(cs[q] == args[q - 1]);
                                            }
                                            lemma_list_badarg(
                                                ns@,
                                                tree@,
                                                view_nodes(items@),
                                                cs,
                                                i + 1,
                                                e.msg@,
                                            );
                                        }
                                        Err(e)
                                    },
                                    Ok(n) => {
                                        proof {
                                            let args = view_nodes(evaled@).skip(1);
                                            assert forall|k: int|
                                                1 <= k < cs.len() implies #[trigger] cs[k].val
                                                == ValV::NumberV by {
                                                assert(args[k - 1] == cs[k]);
                                            }
                                            if cs.len() == 1 {
                                                assert(args.len() == 0);
                                            }
                                            lemma_list_apply_ok(
                                                ns@,
                                                tree@,
                                                view_nodes(items@),
                                                cs,
                                                n@,
                                            );
                                        }
                                        Ok(n)
                                    },
                                }
                            },
                            None => {
                                let mut msg = evaled[0].text.clone();
                                msg.append(" was not found in namespace!");
                                proof {
                                    assert(msg@ == cs[0].text + " was not found in namespace!"@);
                                    lemma_list_miss(ns@, tree@, view_nodes(items@), cs, msg@);
                                }
                                Err(error_invalid_data(msg))
                            },
                        }
                    }
                },
            }
        },
        _ => {
            let c = duplicate(tree);
            proof {
                assert(c@ =~= (NodeV { text: tree@.text, val: tree@.val }));
                lemma_self_eval(ns@, tree@, c@);
            }
            Ok(c)
        },
    }
}

} // verus!

