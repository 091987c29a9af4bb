//! The tagged tree node produced by the reader, its ghost model, the
//! structural printer, and the error values every failing path returns.
use vstd::prelude::*;

verus! {

/// A list of sibling nodes.
pub type RadList = Vec<RadNode>;

/// A map is kept as its key/value pairs in insertion order; node identity is
/// a process-unique id, so no two keys ever collapse.
pub type RadMap = Vec<(RadNode, RadNode)>;

/// One parsed form: its surface text, its tagged value, and a unique id.
#[derive(Debug)]
pub struct RadNode {
    pub text: String,
    pub rval: RadVal,
    pub id: usize,
}

/// The value variants a node can take.
#[derive(Debug)]
pub enum RadVal {
    Nil,
    List(RadList),
    Array(RadList),
    Table(RadMap),
    String,
    Symbol,
    Number,
    Char,
    Quote(Box<RadNode>),
    Quasiquote(Box<RadNode>),
    Unquote(Box<RadNode>),
    SpliceUnquote(Box<RadNode>),
    Deref(Box<RadNode>),
    WithMeta(Box<RadNode>, Box<RadNode>),
}

/// Ghost model of a node: its text and value, with ids abstracted away.
#[verifier::ext_equal]
pub struct NodeV {
    pub text: Seq<char>,
    pub val: ValV,
}

/// Ghost model of a node's value.
#[verifier::ext_equal]
pub enum ValV {
    NilV,
    ListV(Seq<NodeV>),
    ArrayV(Seq<NodeV>),
    MapV(Seq<(NodeV, NodeV)>),
    StringV,
    SymbolV,
    NumberV,
    CharV,
    QuoteV(Box<NodeV>),
    QuasiquoteV(Box<NodeV>),
    UnquoteV(Box<NodeV>),
    SpliceUnquoteV(Box<NodeV>),
    DerefV(Box<NodeV>),
    WithMetaV(Box<NodeV>, Box<NodeV>),
}

pub open spec fn view_nodes(s: Seq<RadNode>) -> Seq<NodeV>
    decreases s,
{
    Seq::new(
        s.len(),
        |i: int|
            if 0 <= i < s.len() {
                view_node(s[i])
            } else {
                NodeV { text: Seq::empty(), val: ValV::NilV }
            },
    )
}

pub open spec fn view_pairs(s: Seq<(RadNode, RadNode)>) -> Seq<(NodeV, NodeV)>
    decreases s,
{
    Seq::new(
        s.len(),
        |i: int|
            if 0 <= i < s.len() {
                (view_node(s[i].0), view_node(s[i].1))
            } else {
                (
                    NodeV { text: Seq::empty(), val: ValV::NilV },
                    NodeV { text: Seq::empty(), val: ValV::NilV },
                )
            },
    )
}

pub open spec fn view_val(v: RadVal) -> ValV
    decreases v,
{
    match v {
        RadVal::Nil => ValV::NilV,
        RadVal::List(items) => ValV::ListV(view_nodes(items@)),
        RadVal::Array(items) => ValV::ArrayV(view_nodes(items@)),
        RadVal::Table(pairs) => ValV::MapV(view_pairs(pairs@)),
        RadVal::String => ValV::StringV,
        RadVal::Symbol => ValV::SymbolV,
        RadVal::Number => ValV::NumberV,
        RadVal::Char => ValV::CharV,
        RadVal::Quote(f) => ValV::QuoteV(Box::new(view_node(*f))),
        RadVal::Quasiquote(f) => ValV::QuasiquoteV(Box::new(view_node(*f))),
        RadVal::Unquote(f) => ValV::UnquoteV(Box::new(view_node(*f))),
        RadVal::SpliceUnquote(f) => ValV::SpliceUnquoteV(Box::new(view_node(*f))),
        RadVal::Deref(f) => ValV::DerefV(Box::new(view_node(*f))),
        RadVal::WithMeta(m, f) => ValV::WithMetaV(Box::new(view_node(*m)), Box::new(view_node(*f))),
    }
}

pub open spec fn view_node(n: RadNode) -> NodeV
    decreases n,
{
    NodeV { text: n.text@, val: view_val(n.rval) }
}

impl View for RadNode {
    type V = NodeV;

    open spec fn view(&self) -> NodeV {
        view_node(*self)
    }
}

/// The ghost nil node: what map padding inserts, up to ids.
pub open spec fn nil_v() -> NodeV {
    NodeV { text: Seq::empty(), val: ValV::NilV }
}

// ---------------------------------------------------------------------------
// Errors
// ---------------------------------------------------------------------------

/// The three failure classes the reader and evaluator report.
#[derive(PartialEq, Eq, Structural, Clone, Copy, Debug)]
pub enum ErrorKind {
    EndOfInput,
    MalformedInput,
    InvalidData,
}

/// A failure: its class and a descriptive message.
#[derive(Debug)]
pub struct RadError {
    pub kind: ErrorKind,
    pub msg: String,
}

pub fn error(text: String, kind: ErrorKind) -> (e: RadError)
    ensures
        e.kind == kind,
        e.msg@ == text@,
{
    RadError { kind, msg: text }
}

pub fn error_eof(text: String) -> (e: RadError)
    ensures
        e.kind == ErrorKind::EndOfInput,
        e.msg@ == text@,
{
    error(text, ErrorKind::EndOfInput)
}

pub fn error_invalid_data(text: String) -> (e: RadError)
    ensures
        e.kind == ErrorKind::InvalidData,
        e.msg@ == text@,
{
    error(text, ErrorKind::InvalidData)
}

/// Rewraps a message from elsewhere as an invalid-data error.
pub fn convert_error(text: String) -> (e: RadError)
    ensures
        e.kind == ErrorKind::InvalidData,
        e.msg@ == text@,
{
    convert_error_as(text, ErrorKind::InvalidData)
}

/// Rewraps a message from elsewhere under the given error class.
pub fn convert_error_as(text: String, kind: ErrorKind) -> (e: RadError)
    ensures
        e.kind == kind,
        e.msg@ == text@,
{
    error(text, kind)
}

// ---------------------------------------------------------------------------
// Node identity
// ---------------------------------------------------------------------------

/// Hands out process-unique node ids; threaded explicitly through every call
/// that constructs nodes, so the counter has a single owner.
pub struct IdGen {
    pub next: usize,
}

impl IdGen {
    pub fn new() -> (g: IdGen)
        ensures
            g.next == 0,
    {
        IdGen { next: 0 }
    }
}

/// Returns a fresh id: ids from one generator never repeat.
pub fn gen_id(gen: &mut IdGen) -> (id: usize)
    requires
        old(gen).next < usize::MAX,
    ensures
        id == old(gen).next,
        final(gen).next == old(gen).next + 1,
{
    let id = gen.next;
    gen.next = id + 1;
    id
}

pub fn make_node(text: &str, rval: RadVal, gen: &mut IdGen) -> (n: RadNode)
    requires
        old(gen).next < usize::MAX,
    ensures
        n@ == (NodeV { text: text@, val: view_val(rval) }),
        n.id == old(gen).next,
        final(gen).next == old(gen).next + 1,
{
    let id = gen_id(gen);
    RadNode { text: text.to_owned(), rval, id }
}

pub fn make_nil(gen: &mut IdGen) -> (n: RadNode)
    requires
        old(gen).next < usize::MAX,
    ensures
        n@ == nil_v(),
        n.id == old(gen).next,
        final(gen).next == old(gen).next + 1,
{
    proof {
        reveal_strlit("");
        assert(""@ =~= Seq::<char>::empty());
    }
    make_node("", RadVal::Nil, gen)
}

// ---------------------------------------------------------------------------
// Bracket and quote token helpers
// ---------------------------------------------------------------------------

/// The closing token a given opening token requires, if it is one.
pub open spec fn spec_closer(opening: Seq<char>) -> Option<Seq<char>> {
    if opening == seq!['('] {
        Some(seq![')'])
    } else if opening == seq!['['] {
        Some(seq![']'])
    } else if opening == seq!['{'] {
        Some(seq!['}'])
    } else {
        None
    }
}

/// The opening token of a collection value, if the value is a collection.
pub open spec fn spec_opener_of(v: ValV) -> Option<Seq<char>> {
    match v {
        ValV::ListV(_) => Some(seq!['(']),
        ValV::ArrayV(_) => Some(seq!['[']),
        ValV::MapV(_) => Some(seq!['{']),
        _ => None,
    }
}

/// Whether a token closes some collection.
pub open spec fn spec_is_closer(t: Seq<char>) -> bool {
    t == seq![')'] || t == seq![']'] || t == seq!['}']
}

/// The quote variant a quote token builds, if it is one.
pub open spec fn spec_quote_val(q: Seq<char>, f: NodeV) -> Option<ValV> {
    if q == seq!['`'] {
        Some(ValV::QuasiquoteV(Box::new(f)))
    } else if q == seq!['\''] {
        Some(ValV::QuoteV(Box::new(f)))
    } else if q == seq!['~'] {
        Some(ValV::UnquoteV(Box::new(f)))
    } else if q == seq!['~', '@'] {
        Some(ValV::SpliceUnquoteV(Box::new(f)))
    } else if q == seq!['@'] {
        Some(ValV::DerefV(Box::new(f)))
    } else {
        None
    }
}

/// The word a quote variant prints as, if the value is a quote variant.
pub open spec fn spec_quote_word(v: ValV) -> Option<Seq<char>> {
    match v {
        ValV::QuasiquoteV(_) => Some("quasiquote"@),
        ValV::QuoteV(_) => Some("quote"@),
        ValV::UnquoteV(_) => Some("unquote"@),
        ValV::SpliceUnquoteV(_) => Some("splice-unquote"@),
        ValV::DerefV(_) => Some("deref"@),
        _ => None,
    }
}

/// The kind of a value, as the word error messages use.
pub open spec fn spec_kind_name(v: ValV) -> Seq<char> {
    match v {
        ValV::NilV => "Nil"@,
        ValV::ListV(_) => "List"@,
        ValV::ArrayV(_) => "Array"@,
        ValV::MapV(_) => "Map"@,
        ValV::StringV => "String"@,
        ValV::SymbolV => "Symbol"@,
        ValV::NumberV => "Number"@,
        ValV::CharV => "Char"@,
        ValV::QuoteV(_) => "Quote"@,
        ValV::QuasiquoteV(_) => "Quasiquote"@,
        ValV::UnquoteV(_) => "Unquote"@,
        ValV::SpliceUnquoteV(_) => "SpliceUnquote"@,
        ValV::DerefV(_) => "Deref"@,
        ValV::WithMetaV(_, _) => "WithMeta"@,
    }
}

/// True exactly when the slice is the one-character string `c`.
pub(crate) fn str_eq1(s: &str, c: char) -> (b: bool)
    ensures
        b <==> s@ == seq![c],
{
    let l = s.unicode_len();
    if l != 1 {
        proof {
            assert(s@ != seq![c]) by {
                assert(seq![c].len() == 1);
            }
        }
        false
    } else {
        let ch = s.get_char(0);
        proof {
            if ch == c {
                assert(s@ =~= seq![c]);
            } else {
                assert(s@ != seq![c]) by {
                    assert(seq![c][0] == c);
                }
            }
        }
        ch == c
    }
}

/// True exactly when the slice is the two-character string `c0 c1`.
pub(crate) fn str_eq2(s: &str, c0: char, c1: char) -> (b: bool)
    ensures
        b <==> s@ == seq![c0, c1],
{
    let l = s.unicode_len();
    if l != 2 {
        proof {
            assert(s@ != seq![c0, c1]) by {
                assert(seq![c0, c1].len() == 2);
            }
        }
        false
    } else {
        let a = s.get_char(0);
        let b = s.get_char(1);
        proof {
            if a == c0 && b == c1 {
                assert(s@ =~= seq![c0, c1]);
            } else {
                assert(s@ != seq![c0, c1]) by {
                    assert(seq![c0, c1][0] == c0 && seq![c0, c1][1] == c1);
                }
            }
        }
        a == c0 && b == c1
    }
}

/// Relates each opening bracket token to its closing one.
pub fn ending_token(starting: &str) -> (r: Option<&'static str>)
    ensures
        match r {
            Some(e) => spec_closer(starting@) == Some(e@),
            None => spec_closer(starting@) is None,
        },
{
    proof {
        reveal_strlit(")");
        reveal_strlit("]");
        reveal_strlit("}");
        assert(")"@ =~= seq![')']);
        assert("]"@ =~= seq![']']);
        assert("}"@ =~= seq!['}']);
    }
    if str_eq1(starting, '(') {
        Some(")")
    } else if str_eq1(starting, '[') {
        Some("]")
    } else if str_eq1(starting, '{') {
        Some("}")
    } else {
        None
    }
}

/// Relates each collection value to its opening bracket token.
pub fn starting_token(rval: &RadVal) -> (r: Option<&'static str>)
    ensures
        match r {
            Some(o) => spec_opener_of(view_val(*rval)) == Some(o@),
            None => spec_opener_of(view_val(*rval)) is None,
        },
{
    proof {
        reveal_strlit("(");
        reveal_strlit("[");
        reveal_strlit("{");
        assert("("@ =~= seq!['(']);
        assert("["@ =~= seq!['[']);
        assert("{"@ =~= seq!['{']);
    }
    match rval {
        RadVal::List(_) => Some("("),
        RadVal::Array(_) => Some("["),
        RadVal::Table(_) => Some("{"),
        _ => None,
    }
}

/// Whether an opening bracket token starts a map.
pub fn is_map(listchar: &str) -> (b: bool)
    ensures
        b <==> listchar@ == seq!['{'],
{
    str_eq1(listchar, '{')
}

/// Whether a token closes some collection.
pub fn is_ending_token(token: &str) -> (b: bool)
    ensures
        b <==> spec_is_closer(token@),
{
    if str_eq1(token, ')') {
        true
    } else if str_eq1(token, ']') {
        true
    } else {
        str_eq1(token, '}')
    }
}

// ---------------------------------------------------------------------------
// Value constructors
// ---------------------------------------------------------------------------

/// Builds a list or array value from an opening token; any other token is a
/// defensive invalid-data error, unreachable through the reader's grammar.
pub fn make_list_val(listchar: &str, items: RadList) -> (r: Result<RadVal, RadError>)
    ensures
        match r {
            Ok(v) => (listchar@ == seq!['('] && view_val(v) == ValV::ListV(view_nodes(items@)))
                || (listchar@ == seq!['['] && view_val(v) == ValV::ArrayV(view_nodes(items@))),
            Err(e) => listchar@ != seq!['('] && listchar@ != seq!['['] && e.kind
                == ErrorKind::InvalidData && e.msg@ == "Not a valid listchar: "@ + listchar@,
        },
{
    if str_eq1(listchar, '(') {
        Ok(RadVal::List(items))
    } else if str_eq1(listchar, '[') {
        Ok(RadVal::Array(items))
    } else {
        let mut txt = "Not a valid listchar: ".to_owned();
        txt.append(listchar);
        Err(error_invalid_data(txt))
    }
}

/// Consecutive elements become key/value pairs; an odd tail key gets nil.
pub open spec fn spec_pairs(items: Seq<NodeV>) -> Seq<(NodeV, NodeV)> {
    Seq::new(
        ((items.len() + 1) / 2) as nat,
        |i: int|
            (
                if 0 <= 2 * i < items.len() {
                    items[2 * i]
                } else {
                    nil_v()
                },
                if 0 <= 2 * i + 1 < items.len() {
                    items[2 * i + 1]
                } else {
                    nil_v()
                },
            ),
    )
}

/// A pair list, flattened back to the alternating key/value element list.
pub open spec fn spec_flatten(pairs: Seq<(NodeV, NodeV)>) -> Seq<NodeV> {
    Seq::new(
        (2 * pairs.len()) as nat,
        |j: int|
            if 0 <= j < 2 * pairs.len() {
                if j % 2 == 0 {
                    pairs[j / 2].0
                } else {
                    pairs[j / 2].1
                }
            } else {
                nil_v()
            },
    )
}

/// Builds a map value by pairing up a flat element list.
pub fn make_map_val(items: RadList, gen: &mut IdGen) -> (v: RadVal)
    requires
        old(gen).next < usize::MAX,
    ensures
        view_val(v) == ValV::MapV(spec_pairs(view_nodes(items@))),
        old(gen).next <= final(gen).next <= old(gen).next + 1,
{
    let pairs = list_to_map(items, gen);
    RadVal::Table(pairs)
}

/// Pairs up a flat element list: consecutive elements become key and value,
/// and an odd trailing key is bound to a fresh nil node.
pub fn list_to_map(list: RadList, gen: &mut IdGen) -> (r: RadMap)
    requires
        old(gen).next < usize::MAX,
    ensures
        view_pairs(r@) == spec_pairs(view_nodes(list@)),
        old(gen).next <= final(gen).next <= old(gen).next + 1,
{
    let mut pairs: RadMap = Vec::new();
    let mut i: usize = 0;
    while i < list.len()
        invariant
            old(gen).next < usize::MAX,
            i <= list.len(),
            2 * pairs@.len() == i || (pairs@.len() == (list@.len() + 1) / 2 && i == list.len()),
            forall|k: int|
                0 <= k < pairs@.len() ==> #[trigger] view_pairs(pairs@)[k] == spec_pairs(
                    view_nodes(list@),
                )[k],
            gen.next == old(gen).next || (gen.next == old(gen).next + 1 && i >= list.len()),
        decreases list.len() - i,
    {
        let ghost prev = pairs@;
        let ghost i0 = i as int;
        let key = duplicate(&list[i]);
        if i + 1 >= list.len() {
            let pad = make_nil(gen);
            pairs.push((key, pad));
            i = list.len();
        } else {
            let val = duplicate(&list[i + 1]);
            pairs.push((key, val));
            i = i + 2;
        }
        proof {
            assert forall|k: int|
                0 <= k < pairs@.len() implies #[trigger] view_pairs(pairs@)[k] == spec_pairs(
                view_nodes(list@),
            )[k] by {
                if k < prev.len() {
                    assert(pairs@[k] == prev[k]);
                    assert(view_pairs(prev)[k] == spec_pairs(view_nodes(list@))[k]);
                } else {
                    assert(pairs@[k] == pairs@.last());
                    assert(2 * k == i0);
                    assert(view_nodes(list@)[2 * k] == view_node(list@[2 * k]));
                    if i0 + 1 < list@.len() {
                        assert(view_nodes(list@)[2 * k + 1] == view_node(list@[2 * k + 1]));
                    }
                }
            }
        }
    }
    proof {
        assert(view_pairs(pairs@) =~= spec_pairs(view_nodes(list@)));
    }
    pairs
}

/// Flattens a map back to its alternating key/value element list; the
/// elements are copies.
pub fn map_to_list(map: &RadMap) -> (r: RadList)
    ensures
        view_nodes(r@) == spec_flatten(view_pairs(map@)),
{
    let mut items: RadList = Vec::new();
    let mut i: usize = 0;
    while i < map.len()
        invariant
            i <= map.len(),
            items@.len() == 2 * i,
            forall|j: int|
                0 <= j < 2 * i ==> #[trigger] view_nodes(items@)[j] == spec_flatten(
                    view_pairs(map@),
                )[j],
        decreases map.len() - i,
    {
        let ghost prev = items@;
        let k = duplicate(&map[i].0);
        let v = duplicate(&map[i].1);
        items.push(k);
        items.push(v);
        proof {
            assert forall|j: int|
                0 <= j < 2 * i + 2 implies #[trigger] view_nodes(items@)[j] == spec_flatten(
                view_pairs(map@),
            )[j] by {
                if j < 2 * i {
                    assert(items@[j] == prev[j]);
                    assert(view_nodes(prev)[j] == spec_flatten(view_pairs(map@))[j]);
                } else if j == 2 * i {
                    assert(items@[j] == items@[items@.len() - 2]);
                    assert(view_pairs(map@)[i as int] == (view_node(map@[i as int].0), view_node(map@[i as int].1)));
                } else {
                    assert(items@[j] == items@.last());
                    assert(view_pairs(map@)[i as int] == (view_node(map@[i as int].0), view_node(map@[i as int].1)));
                }
            }
        }
        i += 1;
    }
    proof {
        assert(view_nodes(items@) =~= spec_flatten(view_pairs(map@)));
    }
    items
}

/// Wraps a form in the quote variant its quote token names; any other token
/// is a defensive invalid-data error, unreachable through the reader.
pub fn make_quote_val(quotechar: &str, form: RadNode) -> (r: Result<RadVal, RadError>)
    ensures
        match r {
            Ok(v) => spec_quote_val(quotechar@, form@) == Some(view_val(v)),
            Err(e) => spec_quote_val(quotechar@, form@) is None && e.kind == ErrorKind::InvalidData
                && e.msg@ == "Not a valid quotechar: "@ + quotechar@,
        },
{
    let boxed = Box::new(form);
    if str_eq1(quotechar, '`') {
        let v = RadVal::Quasiquote(boxed);
        proof {
            assert(view_val(v) == ValV::QuasiquoteV(Box::new(form@)));
        }
        Ok(v)
    } else if str_eq1(quotechar, '\'') {
        let v = RadVal::Quote(boxed);
        proof {
            assert(view_val(v) == ValV::QuoteV(Box::new(form@)));
        }
        Ok(v)
    } else if str_eq2(quotechar, '~', '@') {
        let v = RadVal::SpliceUnquote(boxed);
        proof {
            assert(view_val(v) == ValV::SpliceUnquoteV(Box::new(form@)));
            assert(quotechar@ != seq!['~']) by {
                assert(quotechar@.len() == 2 && seq!['~'].len() == 1);
            }
        }
        Ok(v)
    } else if str_eq1(quotechar, '~') {
        let v = RadVal::Unquote(boxed);
        proof {
            assert(view_val(v) == ValV::UnquoteV(Box::new(form@)));
        }
        Ok(v)
    } else if str_eq1(quotechar, '@') {
        let v = RadVal::Deref(boxed);
        proof {
            assert(view_val(v) == ValV::DerefV(Box::new(form@)));
        }
        Ok(v)
    } else {
        let mut txt = "Not a valid quotechar: ".to_owned();
        txt.append(quotechar);
        Err(error_invalid_data(txt))
    }
}

/// Decorates a target form with a metadata form; stored meta first.
pub fn make_meta_val(meta: RadNode, form: RadNode) -> (v: RadVal)
    ensures
        view_val(v) == ValV::WithMetaV(Box::new(meta@), Box::new(form@)),
{
    RadVal::WithMeta(Box::new(meta), Box::new(form))
}

/// The word a quote variant prints as.
pub fn quote_word(starting: &RadVal) -> (r: Option<&'static str>)
    ensures
        match r {
            Some(w) => spec_quote_word(view_val(*starting)) == Some(w@),
            None => spec_quote_word(view_val(*starting)) is None,
        },
{
    match starting {
        RadVal::Quasiquote(_) => Some("quasiquote"),
        RadVal::Quote(_) => Some("quote"),
        RadVal::Unquote(_) => Some("unquote"),
        RadVal::SpliceUnquote(_) => Some("splice-unquote"),
        RadVal::Deref(_) => Some("deref"),
        _ => None,
    }
}

/// The kind of a node, as the word error messages use.
pub fn rtype_as_str(node: &RadNode) -> (r: &'static str)
    ensures
        r@ == spec_kind_name(node@.val),
{
    match &node.rval {
        RadVal::Nil => "Nil",
        RadVal::List(_) => "List",
        RadVal::Array(_) => "Array",
        RadVal::Table(_) => "Map",
        RadVal::String => "String",
        RadVal::Symbol => "Symbol",
        RadVal::Number => "Number",
        RadVal::Char => "Char",
        RadVal::Quote(_) => "Quote",
        RadVal::Quasiquote(_) => "Quasiquote",
        RadVal::Unquote(_) => "Unquote",
        RadVal::SpliceUnquote(_) => "SpliceUnquote",
        RadVal::Deref(_) => "Deref",
        RadVal::WithMeta(_, _) => "WithMeta",
    }
}

// ---------------------------------------------------------------------------
// Deep copy
// ---------------------------------------------------------------------------

/// Structural copy of a node; its clone semantics: the copy keeps ids.
pub fn duplicate(n: &RadNode) -> (r: RadNode)
    ensures
        r@ == n@,
        r.id == n.id,
    decreases n,
{
    let text = n.text.clone();
    let id = n.id;
    match &n.rval {
        RadVal::Nil => RadNode { text, rval: RadVal::Nil, id },
        RadVal::String => RadNode { text, rval: RadVal::String, id },
        RadVal::Symbol => RadNode { text, rval: RadVal::Symbol, id },
        RadVal::Number => RadNode { text, rval: RadVal::Number, id },
        RadVal::Char => RadNode { text, rval: RadVal::Char, id },
        RadVal::List(items) => {
            let copied = duplicate_list(items);
            let r = RadNode { text, rval: RadVal::List(copied), id };
            proof {
                assert(r@ =~~= n@);
            }
            r
        },
        RadVal::Array(items) => {
            let copied = duplicate_list(items);
            let r = RadNode { text, rval: RadVal::Array(copied), id };
            proof {
                assert(r@ =~~= n@);
            }
            r
        },
        RadVal::Table(pairs) => {
            let copied = duplicate_pairs(pairs);
            let r = RadNode { text, rval: RadVal::Table(copied), id };
            proof {
                assert(r@ =~~= n@);
            }
            r
        },
        RadVal::Quote(f) => {
            let r = RadNode { text, rval: RadVal::Quote(Box::new(duplicate(f))), id };
            proof {
                assert(r@ =~~= n@);
            }
            r
        },
        RadVal::Quasiquote(f) => {
            let r = RadNode { text, rval: RadVal::Quasiquote(Box::new(duplicate(f))), id };
            proof {
                assert(r@ =~~= n@);
            }
            r
        },
        RadVal::Unquote(f) => {
            let r = RadNode { text, rval: RadVal::Unquote(Box::new(duplicate(f))), id };
            proof {
                assert(r@ =~~= n@);
            }
            r
        },
        RadVal::SpliceUnquote(f) => {
            let r = RadNode { text, rval: RadVal::SpliceUnquote(Box::new(duplicate(f))), id };
            proof {
                assert(r@ =~~= n@);
            }
            r
        },
        RadVal::Deref(f) => {
            let r = RadNode { text, rval: RadVal::Deref(Box::new(duplicate(f))), id };
            proof {
                assert(r@ =~~= n@);
            }
            r
        },
        RadVal::WithMeta(m, f) => {
            let r = RadNode {
                text,
                rval: RadVal::WithMeta(Box::new(duplicate(m)), Box::new(duplicate(f))),
                id,
            };
            proof {
                assert(r@ =~~= n@);
            }
            r
        },
    }
}

/// Structural copy of a sibling list, in order.
pub fn duplicate_list(items: &RadList) -> (r: RadList)
    ensures
        view_nodes(r@) == view_nodes(items@),
    decreases items,
{
    let mut copied: RadList = Vec::new();
    let mut i: usize = 0;
    while i < items.len()
        invariant
            i <= items.len(),
            copied@.len() == i,
            forall|k: int|
                0 <= k < i ==> #[trigger] view_nodes(copied@)[k] == view_nodes(items@)[k],
        decreases items.len() - i,
    {
        let ghost prev = copied@;
        let c = duplicate(&items[i]);
        copied.push(c);
        proof {
            assert forall|k: int|
                0 <= k < i + 1 implies #[trigger] view_nodes(copied@)[k] == view_nodes(
                items@,
            )[k] by {
                if k < i {
                    assert(copied@[k] == prev[k]);
                    assert(view_nodes(prev)[k] == view_nodes(items@)[k]);
                } else {
                    assert(copied@[k] == c);
                    assert(view_node(c) == view_node(items@[k]));
                }
            }
        }
        i += 1;
    }
    proof {
        assert(view_nodes(copied@) =~= view_nodes(items@));
    }
    copied
}

// ---------------------------------------------------------------------------
// Node counting
// ---------------------------------------------------------------------------

/// How many nodes a tree holds, itself included; bounds the ids a pass over
/// the tree can consume.
pub open spec fn size_node(t: NodeV) -> nat
    decreases t,
{
    match t.val {
        ValV::ListV(items) => 1 + size_all(items),
        ValV::ArrayV(items) => 1 + size_all(items),
        ValV::MapV(pairs) => 1 + size_pairs(pairs),
        ValV::QuoteV(f) => 1 + size_node(*f),
        ValV::QuasiquoteV(f) => 1 + size_node(*f),
        ValV::UnquoteV(f) => 1 + size_node(*f),
        ValV::SpliceUnquoteV(f) => 1 + size_node(*f),
        ValV::DerefV(f) => 1 + size_node(*f),
        ValV::WithMetaV(m, f) => 1 + size_node(*m) + size_node(*f),
        _ => 1,
    }
}

pub open spec fn size_all(ts: Seq<NodeV>) -> nat
    decreases ts,
{
    if ts.len() == 0 {
        0
    } else {
        size_node(ts[0]) + size_all(ts.skip(1))
    }
}

pub open spec fn size_pairs(ps: Seq<(NodeV, NodeV)>) -> nat
    decreases ps,
{
    if ps.len() == 0 {
        0
    } else {
        size_node(ps[0].0) + size_node(ps[0].1) + size_pairs(ps.skip(1))
    }
}

/// Pairing up a flat list adds at most the one nil node an odd tail needs.
pub proof fn lemma_pairs_size(cs: Seq<NodeV>)
    ensures
        size_pairs(spec_pairs(cs)) <= size_all(cs) + 1,
    decreases cs.len(),
{
    let ps = spec_pairs(cs);
    if cs.len() == 0 {
        assert(ps =~= Seq::<(NodeV, NodeV)>::empty());
    } else if cs.len() == 1 {
        assert(ps.len() == 1);
        assert(ps[0] == (cs[0], nil_v()));
        assert(ps.skip(1) =~= Seq::<(NodeV, NodeV)>::empty());
        assert(size_pairs(ps.skip(1)) == 0);
        assert(size_pairs(ps) == size_node(ps[0].0) + size_node(ps[0].1) + size_pairs(ps.skip(1)));
        assert(size_node(nil_v()) == 1);
        assert(size_all(cs) == size_node(cs[0]) + size_all(cs.skip(1)));
    } else {
        lemma_pairs_size(cs.skip(2));
        assert(ps[0] == (cs[0], cs[1]));
        assert(ps.skip(1) =~= spec_pairs(cs.skip(2)));
        assert(size_pairs(ps) == size_node(cs[0]) + size_node(cs[1]) + size_pairs(ps.skip(1)));
        assert(cs.skip(1)[0] == cs[1]);
        assert(cs.skip(1).skip(1) =~= cs.skip(2));
        assert(size_all(cs) == size_node(cs[0]) + size_all(cs.skip(1)));
        assert(size_all(cs.skip(1)) == size_node(cs[1]) + size_all(cs.skip(2)));
    }
}

/// Flattening a pair list preserves the node count.
pub proof fn lemma_flatten_size(ps: Seq<(NodeV, NodeV)>)
    ensures
        size_all(spec_flatten(ps)) == size_pairs(ps),
    decreases ps.len(),
{
    if ps.len() == 0 {
        assert(spec_flatten(ps) =~= Seq::<NodeV>::empty());
    } else {
        lemma_flatten_size(ps.skip(1));
        let flat = spec_flatten(ps);
        assert(flat.skip(1).skip(1) =~= spec_flatten(ps.skip(1)));
        assert(flat[0] == ps[0].0);
        assert(flat.skip(1)[0] == ps[0].1);
        assert(size_all(flat) == size_node(flat[0]) + size_all(flat.skip(1)));
        assert(size_all(flat.skip(1)) == size_node(flat.skip(1)[0]) + size_all(
            flat.skip(1).skip(1),
        ));
    }
}

// ---------------------------------------------------------------------------
// Printer
// ---------------------------------------------------------------------------

/// How a node renders back to text: collections by their bracket pair with
/// space-joined children, atoms by their stored text (strings re-quoted,
/// chars in single quotes), quote forms and metadata as `(word ...)` lists.
pub open spec fn print_node(t: NodeV) -> Seq<char>
    decreases t, 0nat, 0nat,
{
    match t.val {
        ValV::NilV => "nil"@,
        ValV::ListV(items) => seq!['('] + print_items(items, 0) + seq![')'],
        ValV::ArrayV(items) => seq!['['] + print_items(items, 0) + seq![']'],
        ValV::MapV(pairs) => seq!['{'] + print_pairs(pairs, 0) + seq!['}'],
        ValV::StringV => seq!['"'] + t.text + seq!['"'],
        ValV::SymbolV => t.text,
        ValV::NumberV => t.text,
        ValV::CharV => seq!['\''] + t.text + seq!['\''],
        ValV::QuoteV(f) => seq!['('] + "quote"@ + seq![' '] + print_node(*f) + seq![')'],
        ValV::QuasiquoteV(f) => seq!['('] + "quasiquote"@ + seq![' '] + print_node(*f) + seq![')'],
        ValV::UnquoteV(f) => seq!['('] + "unquote"@ + seq![' '] + print_node(*f) + seq![')'],
        ValV::SpliceUnquoteV(f) => seq!['('] + "splice-unquote"@ + seq![' '] + print_node(*f)
            + seq![')'],
        ValV::DerefV(f) => seq!['('] + "deref"@ + seq![' '] + print_node(*f) + seq![')'],
        ValV::WithMetaV(m, f) => seq!['('] + "with-meta"@ + seq![' '] + print_node(*f) + seq![' ']
            + print_node(*m) + seq![')'],
    }
}

/// The space-joined rendering of the items from index `i` on.
pub open spec fn print_items(items: Seq<NodeV>, i: int) -> Seq<char>
    decreases items, 1nat, items.len() - i,
{
    if i < 0 || i >= items.len() {
        Seq::empty()
    } else if i == items.len() - 1 {
        print_node(items[i])
    } else {
        print_node(items[i]) + seq![' '] + print_items(items, i + 1)
    }
}

/// The space-joined rendering of the key/value pairs from index `i` on.
pub open spec fn print_pairs(pairs: Seq<(NodeV, NodeV)>, i: int) -> Seq<char>
    decreases pairs, 1nat, pairs.len() - i,
{
    if i < 0 || i >= pairs.len() {
        Seq::empty()
    } else if i == pairs.len() - 1 {
        print_node(pairs[i].0) + seq![' '] + print_node(pairs[i].1)
    } else {
        print_node(pairs[i].0) + seq![' '] + print_node(pairs[i].1) + seq![' '] + print_pairs(
            pairs,
            i + 1,
        )
    }
}

/// Appends every character of a string slice.
pub fn append_str(out: &mut Vec<char>, s: &str)
    ensures
        final(out)@ == old(out)@ + s@,
{
    let l = s.unicode_len();
    let mut i: usize = 0;
    while i < l
        invariant
            l == s@.len(),
            i <= l,
            out@ == old(out)@ + s@.subrange(0, i as int),
        decreases l - i,
    {
        let c = s.get_char(i);
        out.push(c);
        proof {
            assert(s@.subrange(0, i + 1) =~= s@.subrange(0, i as int).push(s@[i as int]));
        }
        i += 1;
    }
    proof {
        assert(s@.subrange(0, l as int) =~= s@);
    }
}

/// Renders a node onto the end of a character buffer.
pub fn print_into(n: &RadNode, out: &mut Vec<char>)
    ensures
        final(out)@ == old(out)@ + print_node(n@),
    decreases n, 0nat, 0nat,
{
    match &n.rval {
        RadVal::Nil => {
            append_str(out, "nil");
        },
        RadVal::Symbol => {
            append_str(out, n.text.as_str());
        },
        RadVal::Number => {
            append_str(out, n.text.as_str());
        },
        RadVal::String => {
            out.push('"');
            append_str(out, n.text.as_str());
            out.push('"');
        },
        RadVal::Char => {
            out.push('\'');
            append_str(out, n.text.as_str());
            out.push('\'');
        },
        RadVal::List(items) => {
            out.push('(');
            print_items_into(items, 0, out);
            out.push(')');
            proof {
                assert(out@ =~= old(out)@ + print_node(n@));
            }
        },
        RadVal::Array(items) => {
            out.push('[');
            print_items_into(items, 0, out);
            out.push(']');
            proof {
                assert(out@ =~= old(out)@ + print_node(n@));
            }
        },
        RadVal::Table(pairs) => {
            out.push('{');
            print_pairs_into(pairs, 0, out);
            out.push('}');
            proof {
                assert(out@ =~= old(out)@ + print_node(n@));
            }
        },
        RadVal::Quote(f) => {
            out.push('(');
            append_str(out, "quote");
            out.push(' ');
            print_into(f, out);
            out.push(')');
            proof {
                assert(out@ =~= old(out)@ + print_node(n@));
            }
        },
        RadVal::Quasiquote(f) => {
            out.push('(');
            append_str(out, "quasiquote");
            out.push(' ');
            print_into(f, out);
            out.push(')');
            proof {
                assert(out@ =~= old(out)@ + print_node(n@));
            }
        },
        RadVal::Unquote(f) => {
            out.push('(');
            append_str(out, "unquote");
            out.push(' ');
            print_into(f, out);
            out.push(')');
            proof {
                assert(out@ =~= old(out)@ + print_node(n@));
            }
        },
        RadVal::SpliceUnquote(f) => {
            out.push('(');
            append_str(out, "splice-unquote");
            out.push(' ');
            print_into(f, out);
            out.push(')');
            proof {
                assert(out@ =~= old(out)@ + print_node(n@));
            }
        },
        RadVal::Deref(f) => {
            out.push('(');
            append_str(out, "deref");
            out.push(' ');
            print_into(f, out);
            out.push(')');
            proof {
                assert(out@ =~= old(out)@ + print_node(n@));
            }
        },
        RadVal::WithMeta(m, f) => {
            out.push('(');
            append_str(out, "with-meta");
            out.push(' ');
            print_into(f, out);
            out.push(' ');
            print_into(m, out);
            out.push(')');
            proof {
                assert(out@ =~= old(out)@ + print_node(n@));
            }
        },
    }
}

/// Renders the items from index `i` on, space-joined.
pub fn print_items_into(items: &RadList, i: usize, out: &mut Vec<char>)
    requires
        i <= items@.len(),
    ensures
        final(out)@ == old(out)@ + print_items(view_nodes(items@), i as int),
    decreases items, 1nat, items@.len() - i,
{
    if i >= items.len() {
        return ;
    }
    print_into(&items[i], out);
    proof {
        assert(view_nodes(items@)[i as int] == view_node(items@[i as int]));
    }
    if i + 1 < items.len() {
        out.push(' ');
        print_items_into(items, i + 1, out);
        proof {
            assert(out@ =~= old(out)@ + print_items(view_nodes(items@), i as int));
        }
    }
}

/// Renders the key/value pairs from index `i` on, space-joined.
pub fn print_pairs_into(pairs: &RadMap, i: usize, out: &mut Vec<char>)
    requires
        i <= pairs@.len(),
    ensures
        final(out)@ == old(out)@ + print_pairs(view_pairs(pairs@), i as int),
    decreases pairs, 1nat, pairs@.len() - i,
{
    if i >= pairs.len() {
        return ;
    }
    print_into(&pairs[i].0, out);
    out.push(' ');
    print_into(&pairs[i].1, out);
    proof {
        assert(view_pairs(pairs@)[i as int] == (
            view_node(pairs@[i as int].0),
            view_node(pairs@[i as int].1),
        ));
    }
    if i + 1 < pairs.len() {
        out.push(' ');
        print_pairs_into(pairs, i + 1, out);
        proof {
            assert(out@ =~= old(out)@ + print_pairs(view_pairs(pairs@), i as int));
        }
    } else {
        proof {
            assert(out@ =~= old(out)@ + print_pairs(view_pairs(pairs@), i as int));
        }
    }
}

/// Relies on `String`'s `FromIterator` over `char`: collecting characters
/// yields the string of exactly those characters, in order.
#[verifier::external_body]
pub fn string_from_chars(chars: &Vec<char>) -> (r: String)
    ensures
        r@ == chars@,
{
    chars.iter().collect()
}

/// Renders a node to its textual form.
pub fn node_to_text(n: &RadNode) -> (r: String)
    ensures
        r@ == print_node(n@),
{
    let mut out: Vec<char> = Vec::new();
    print_into(n, &mut out);
    string_from_chars(&out)
}

/// Structural copy of a pair list, in order.
pub fn duplicate_pairs(pairs: &RadMap) -> (r: RadMap)
    ensures
        view_pairs(r@) == view_pairs(pairs@),
    decreases pairs,
{
    let mut copied: RadMap = Vec::new();
    let mut i: usize = 0;
    while i < pairs.len()
        invariant
            i <= pairs.len(),
            copied@.len() == i,
            forall|k: int|
                0 <= k < i ==> #[trigger] view_pairs(copied@)[k] == view_pairs(pairs@)[k],
        decreases pairs.len() - i,
    {
        let ghost prev = copied@;
        let k = duplicate(&pairs[i].0);
        let v = duplicate(&pairs[i].1);
        copied.push((k, v));
        proof {
            assert forall|j: int|
                0 <= j < i + 1 implies #[trigger] view_pairs(copied@)[j] == view_pairs(
                pairs@,
            )[j] by {
                if j < i {
                    assert(copied@[j] == prev[j]);
                    assert(view_pairs(prev)[j] == view_pairs(pairs@)[j]);
                } else {
                    assert(copied@[j] == (k, v));
                    assert(view_node(k) == view_node(pairs@[j].0));
                    assert(view_node(v) == view_node(pairs@[j].1));
                }
            }
        }
        i += 1;
    }
    proof {
        assert(view_pairs(copied@) =~= view_pairs(pairs@));
    }
    copied
}

} // verus!
