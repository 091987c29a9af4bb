//! The round-trip laws: reading canonically printed text gives a tree that
//! prints identically.
//!
//! The laws cover every tree the reader can produce except character
//! literals, whose printed form re-reads as a quote form, and symbols
//! holding comment text, which re-tokenize as comments.  Quote and metadata
//! forms print as plain lists that read back as such, printing identically.
use vstd::prelude::*;

use crate::reader::{
    ItemsOut, ParseOut, atom_token_end, dot_count, ends_odd_backslashes, is_atom_char,
    is_number_token, is_sep, is_special, is_ws, raw_token_len, spec_atom, spec_list_items,
    spec_read, spec_read_form, spec_tokenize, string_token_end, trim_end,
};
use crate::types::{
    ErrorKind, NodeV, ValV, print_items, print_node, print_pairs, spec_closer, spec_flatten,
    spec_is_closer, spec_pairs,
};

verus! {

// ---------------------------------------------------------------------------
// Well-formed trees
// ---------------------------------------------------------------------------

/// A string body whose token scan runs to its closing quote: every escape
/// stays inside the body and no unescaped quote cuts it short.
pub open spec fn good_string_body(s: Seq<char>, j: int) -> bool
    decreases s.len() - j,
{
    if j < 0 || j >= s.len() {
        true
    } else if s[j] == '\\' {
        j + 1 < s.len() && good_string_body(s, j + 2)
    } else if s[j] == '"' {
        false
    } else {
        good_string_body(s, j + 1)
    }
}

/// Text that tokenizes back to one string token and reads back unchanged.
pub open spec fn string_text_ok(s: Seq<char>) -> bool {
    good_string_body(s, 0) && !ends_odd_backslashes(s)
}

/// Text that tokenizes back to one bare atom token and reads as a symbol.
pub open spec fn symbol_text_ok(s: Seq<char>) -> bool {
    &&& s.len() > 0
    &&& (forall|i: int| 0 <= i < s.len() ==> is_atom_char(#[trigger] s[i]))
    &&& s[0] != '~'
    &&& s[0] != '^'
    &&& s[0] != '@'
    &&& s[0] != '\\'
    &&& !is_number_token(s)
}

/// Text that tokenizes back to one token and reads as a number.
pub open spec fn number_text_ok(s: Seq<char>) -> bool {
    is_number_token(s) && dot_count(s) <= 1
}

/// The trees the round-trip laws speak of: every text reads back as it
/// prints.  Character literals and quote or metadata forms are excluded, as
/// printing them leaves the image of the canonical grammar.
pub open spec fn wf_node(t: NodeV) -> bool
    decreases t,
{
    match t.val {
        ValV::NilV => true,
        ValV::ListV(items) => forall|i: int|
            0 <= i < items.len() ==> wf_node(#[trigger] items[i]),
        ValV::ArrayV(items) => forall|i: int|
            0 <= i < items.len() ==> wf_node(#[trigger] items[i]),
        ValV::MapV(pairs) => forall|i: int|
            0 <= i < pairs.len() ==> wf_node((#[trigger] pairs[i]).0) && wf_node(pairs[i].1),
        ValV::StringV => string_text_ok(t.text),
        ValV::SymbolV => symbol_text_ok(t.text),
        ValV::NumberV => number_text_ok(t.text),
        ValV::QuoteV(f) => wf_node(*f),
        ValV::QuasiquoteV(f) => wf_node(*f),
        ValV::UnquoteV(f) => wf_node(*f),
        ValV::SpliceUnquoteV(f) => wf_node(*f),
        ValV::DerefV(f) => wf_node(*f),
        ValV::WithMetaV(m, f) => wf_node(*m) && wf_node(*f),
        _ => false,
    }
}

// ---------------------------------------------------------------------------
// Canonical token sequences
// ---------------------------------------------------------------------------

/// The tokens a tree prints to.
pub open spec fn toks_of(t: NodeV) -> Seq<Seq<char>>
    decreases t, 0int,
{
    match t.val {
        ValV::NilV => seq!["nil"@],
        ValV::ListV(items) => seq![seq!['(']] + toks_of_items(items) + seq![seq![')']],
        ValV::ArrayV(items) => seq![seq!['[']] + toks_of_items(items) + seq![seq![']']],
        ValV::MapV(pairs) => seq![seq!['{']] + toks_of_pairs(pairs) + seq![seq!['}']],
        ValV::StringV => seq![seq!['"'] + t.text + seq!['"']],
        ValV::SymbolV => seq![t.text],
        ValV::NumberV => seq![t.text],
        ValV::QuoteV(f) => seq![seq!['(']] + seq!["quote"@] + toks_of(*f) + seq![seq![')']],
        ValV::QuasiquoteV(f) => seq![seq!['(']] + seq!["quasiquote"@] + toks_of(*f) + seq![
            seq![')'],
        ],
        ValV::UnquoteV(f) => seq![seq!['(']] + seq!["unquote"@] + toks_of(*f) + seq![seq![')']],
        ValV::SpliceUnquoteV(f) => seq![seq!['(']] + seq!["splice-unquote"@] + toks_of(*f) + seq![
            seq![')'],
        ],
        ValV::DerefV(f) => seq![seq!['(']] + seq!["deref"@] + toks_of(*f) + seq![seq![')']],
        ValV::WithMetaV(m, f) => seq![seq!['(']] + seq!["with-meta"@] + toks_of(*f) + toks_of(*m)
            + seq![seq![')']],
        _ => seq![t.text],
    }
}

/// The tokens a sibling list prints to, in order.
pub open spec fn toks_of_items(items: Seq<NodeV>) -> Seq<Seq<char>>
    decreases items, 1int,
{
    if items.len() == 0 {
        Seq::empty()
    } else {
        toks_of(items[0]) + toks_of_items(items.skip(1))
    }
}

/// The tokens a pair list prints to: key then value, in entry order.
pub open spec fn toks_of_pairs(pairs: Seq<(NodeV, NodeV)>) -> Seq<Seq<char>>
    decreases pairs, 1int,
{
    if pairs.len() == 0 {
        Seq::empty()
    } else {
        toks_of(pairs[0].0) + toks_of(pairs[0].1) + toks_of_pairs(pairs.skip(1))
    }
}

/// A pair list's tokens are its flattened element list's tokens.
pub proof fn lemma_toks_pairs_flatten(pairs: Seq<(NodeV, NodeV)>)
    ensures
        toks_of_pairs(pairs) == toks_of_items(spec_flatten(pairs)),
    decreases pairs.len(),
{
    let flat = spec_flatten(pairs);
    if pairs.len() == 0 {
        assert(flat =~= Seq::<NodeV>::empty());
    } else {
        lemma_toks_pairs_flatten(pairs.skip(1));
        assert(flat[0] == pairs[0].0);
        assert(flat.skip(1)[0] == pairs[0].1);
        assert(flat.skip(1).skip(1) =~= spec_flatten(pairs.skip(1)));
        assert(toks_of_items(flat) == toks_of(flat[0]) + toks_of_items(flat.skip(1)));
        assert(toks_of_items(flat.skip(1)) == toks_of(flat.skip(1)[0]) + toks_of_items(
            flat.skip(1).skip(1),
        ));
        assert(toks_of_pairs(pairs) =~= toks_of_items(flat));
    }
}


// ---------------------------------------------------------------------------
// A print-footprint measure
// ---------------------------------------------------------------------------

/// Nodes counted as the printer walks them: quote and metadata forms count
/// one extra for the word they print.  Orders the round-trip inductions.
pub open spec fn lsize(t: NodeV) -> nat
    decreases t,
{
    match t.val {
        ValV::ListV(items) => 1 + lsize_all(items),
        ValV::ArrayV(items) => 1 + lsize_all(items),
        ValV::MapV(pairs) => 1 + lsize_pairs(pairs),
        ValV::QuoteV(f) => 2 + lsize(*f),
        ValV::QuasiquoteV(f) => 2 + lsize(*f),
        ValV::UnquoteV(f) => 2 + lsize(*f),
        ValV::SpliceUnquoteV(f) => 2 + lsize(*f),
        ValV::DerefV(f) => 2 + lsize(*f),
        ValV::WithMetaV(m, f) => 2 + lsize(*m) + lsize(*f),
        _ => 1,
    }
}

pub open spec fn lsize_all(ts: Seq<NodeV>) -> nat
    decreases ts,
{
    if ts.len() == 0 {
        0
    } else {
        lsize(ts[0]) + lsize_all(ts.skip(1))
    }
}

pub open spec fn lsize_pairs(ps: Seq<(NodeV, NodeV)>) -> nat
    decreases ps,
{
    if ps.len() == 0 {
        0
    } else {
        lsize(ps[0].0) + lsize(ps[0].1) + lsize_pairs(ps.skip(1))
    }
}

/// An element never outweighs its row.
pub proof fn lemma_lsize_all_elem(ts: Seq<NodeV>, i: int)
    requires
        0 <= i < ts.len(),
    ensures
        lsize(ts[i]) <= lsize_all(ts),
    decreases ts.len(),
{
    if i == 0 {
        assert(lsize_all(ts) == lsize(ts[0]) + lsize_all(ts.skip(1)));
    } else {
        lemma_lsize_all_elem(ts.skip(1), i - 1);
        assert(ts.skip(1)[i - 1] == ts[i]);
        assert(lsize_all(ts) == lsize(ts[0]) + lsize_all(ts.skip(1)));
    }
}

/// Flattening a pair list preserves this count too.
pub proof fn lemma_lsize_flatten(ps: Seq<(NodeV, NodeV)>)
    ensures
        lsize_all(spec_flatten(ps)) == lsize_pairs(ps),
    decreases ps.len(),
{
    let flat = spec_flatten(ps);
    if ps.len() == 0 {
        assert(flat =~= Seq::<NodeV>::empty());
    } else {
        lemma_lsize_flatten(ps.skip(1));
        assert(flat[0] == ps[0].0);
        assert(flat.skip(1)[0] == ps[0].1);
        assert(flat.skip(1).skip(1) =~= spec_flatten(ps.skip(1)));
        assert(lsize_all(flat) == lsize(flat[0]) + lsize_all(flat.skip(1)));
        assert(lsize_all(flat.skip(1)) == lsize(flat.skip(1)[0]) + lsize_all(
            flat.skip(1).skip(1),
        ));
    }
}

/// Every tree has a positive footprint.
pub proof fn lemma_lsize_pos(t: NodeV)
    ensures
        lsize(t) >= 1,
{
}

// ---------------------------------------------------------------------------
// Token-shape helpers
// ---------------------------------------------------------------------------

/// A token that does not start with a special character is neither a
/// bracket, a quote token, nor the meta token.
pub proof fn lemma_plain_first(s: Seq<char>)
    requires
        s.len() > 0,
        !is_special(s[0]),
    ensures
        !crate::reader::is_opener(s),
        !crate::reader::is_quote_token(s),
        s != seq!['^'],
        !spec_is_closer(s),
        spec_closer(s) is None,
{
    assert(seq!['('][0] == '(' && seq!['['][0] == '[' && seq!['{'][0] == '{');
    assert(seq![')'][0] == ')' && seq![']'][0] == ']' && seq!['}'][0] == '}');
    assert(seq!['\''][0] == '\'' && seq!['`'][0] == '`' && seq!['~'][0] == '~');
    assert(seq!['~', '@'][0] == '~' && seq!['@'][0] == '@' && seq!['^'][0] == '^');
}

/// The first token of a well-formed tree is not special, except an opening
/// bracket for collections; in particular it never closes a collection.
pub proof fn lemma_first_tok(t: NodeV)
    requires
        wf_node(t),
    ensures
        toks_of(t).len() >= 1,
        !spec_is_closer(toks_of(t)[0]),
        toks_of(t)[0].len() >= 1,
{
    let first = toks_of(t)[0];
    match t.val {
        ValV::NilV => {
            lemma_nil_chars();
            lemma_plain_first(first);
        },
        ValV::ListV(items) => {
            assert(first == seq!['(']);
            assert(!spec_is_closer(first)) by {
                assert(first[0] == '(');
                assert(seq![')'][0] == ')' && seq![']'][0] == ']' && seq!['}'][0] == '}');
            }
        },
        ValV::ArrayV(items) => {
            assert(first == seq!['[']);
            assert(!spec_is_closer(first)) by {
                assert(first[0] == '[');
                assert(seq![')'][0] == ')' && seq![']'][0] == ']' && seq!['}'][0] == '}');
            }
        },
        ValV::MapV(pairs) => {
            assert(first == seq!['{']);
            assert(!spec_is_closer(first)) by {
                assert(first[0] == '{');
                assert(seq![')'][0] == ')' && seq![']'][0] == ']' && seq!['}'][0] == '}');
            }
        },
        ValV::StringV => {
            assert(first[0] == '"');
            lemma_plain_first(first);
        },
        ValV::SymbolV => {
            assert(!is_special(first[0]));
            lemma_plain_first(first);
        },
        ValV::NumberV => {
            lemma_number_first_char(t.text);
            lemma_plain_first(first);
        },
        ValV::CharV => {},
        _ => {
            assert(first == seq!['(']);
            assert(!spec_is_closer(first)) by {
                assert(first[0] == '(');
                assert(seq![')'][0] == ')' && seq![']'][0] == ']' && seq!['}'][0] == '}');
            }
        },
    }
}

/// The characters of the literal `nil`.
pub proof fn lemma_nil_chars()
    ensures
        "nil"@.len() == 3,
        "nil"@[0] == 'n',
        "nil"@[1] == 'i',
        "nil"@[2] == 'l',
        !is_special("nil"@[0]),
        is_atom_char("nil"@[0]) && is_atom_char("nil"@[1]) && is_atom_char("nil"@[2]),
        !is_number_token("nil"@),
{
    reveal_strlit("nil");
    assert(!is_number_token("nil"@)) by {
        assert(crate::reader::num_body("nil"@) == "nil"@);
    }
}


/// The quote-family and metadata words are well-formed symbol texts.
pub proof fn lemma_form_words()
    ensures
        symbol_text_ok("quote"@),
        symbol_text_ok("quasiquote"@),
        symbol_text_ok("unquote"@),
        symbol_text_ok("splice-unquote"@),
        symbol_text_ok("deref"@),
        symbol_text_ok("with-meta"@),
{
    reveal_strlit("quote");
    reveal_strlit("quasiquote");
    reveal_strlit("unquote");
    reveal_strlit("splice-unquote");
    reveal_strlit("deref");
    reveal_strlit("with-meta");
    lemma_word_ok("quote"@);
    lemma_word_ok("quasiquote"@);
    lemma_word_ok("unquote"@);
    lemma_word_ok("splice-unquote"@);
    lemma_word_ok("deref"@);
    lemma_word_ok("with-meta"@);
}

/// A word of lower-case letters and dashes, led by a letter, is a
/// well-formed symbol text.
pub proof fn lemma_word_ok(w: Seq<char>)
    requires
        w.len() > 0,
        forall|i: int| 0 <= i < w.len() ==> ('a' <= #[trigger] w[i] <= 'z' || w[i] == '-'),
        'a' <= w[0] <= 'z',
    ensures
        symbol_text_ok(w),
{
    assert forall|i: int| 0 <= i < w.len() implies is_atom_char(#[trigger] w[i]) by {
        assert('a' <= w[i] <= 'z' || w[i] == '-');
    }
    assert(!is_number_token(w)) by {
        let b = crate::reader::num_body(w);
        if is_number_token(w) {
            assert(b == w);
            assert(crate::reader::is_digit(w[0]));
        }
    }
}
/// A numeric token starts with a digit or a minus sign, so not with a
/// special character.
pub proof fn lemma_number_first_char(s: Seq<char>)
    requires
        is_number_token(s),
    ensures
        s.len() >= 2,
        !is_special(s[0]),
        s[0] != '"',
        s[0] != '\\',
        s[0] != ';',
        !is_sep(s[0]),
{
    let b = crate::reader::num_body(s);
    if s[0] == '-' {
    } else {
        assert(b == s);
        assert(crate::reader::is_digit(s[0]));
    }
}

// ---------------------------------------------------------------------------
// Print congruences
// ---------------------------------------------------------------------------

/// Element-wise print-equal lists print equal, joined from any start.
pub proof fn lemma_print_items_congr(cs: Seq<NodeV>, items: Seq<NodeV>, i: int)
    requires
        cs.len() == items.len(),
        forall|k: int| 0 <= k < cs.len() ==> print_node(#[trigger] cs[k]) == print_node(items[k]),
    ensures
        print_items(cs, i) == print_items(items, i),
    decreases items.len() - i,
{
    if 0 <= i < items.len() - 1 {
        lemma_print_items_congr(cs, items, i + 1);
    }
}

/// A pair list prints as its flattened element list prints.
pub proof fn lemma_print_pairs_flat(pairs: Seq<(NodeV, NodeV)>, i: int)
    requires
        0 <= i,
    ensures
        print_pairs(pairs, i) == print_items(spec_flatten(pairs), 2 * i),
    decreases pairs.len() - i,
{
    let flat = spec_flatten(pairs);
    if i >= pairs.len() {
        assert(print_items(flat, 2 * i) == Seq::<char>::empty());
    } else if i == pairs.len() - 1 {
        assert(flat[2 * i] == pairs[i].0);
        assert(flat[2 * i + 1] == pairs[i].1);
        assert(print_items(flat, 2 * i + 1) == print_node(flat[2 * i + 1]));
        assert(print_items(flat, 2 * i) == print_node(flat[2 * i]) + seq![' '] + print_items(
            flat,
            2 * i + 1,
        ));
        assert(print_pairs(pairs, i) =~= print_items(flat, 2 * i));
    } else {
        lemma_print_pairs_flat(pairs, i + 1);
        assert(flat[2 * i] == pairs[i].0);
        assert(flat[2 * i + 1] == pairs[i].1);
        assert(print_items(flat, 2 * i) == print_node(flat[2 * i]) + seq![' '] + print_items(
            flat,
            2 * i + 1,
        ));
        assert(print_items(flat, 2 * i + 1) == print_node(flat[2 * i + 1]) + seq![' ']
            + print_items(flat, 2 * i + 2));
        assert(print_pairs(pairs, i) =~= print_items(flat, 2 * i));
    }
}

/// Flattening undoes pairing on an even element list.
pub proof fn lemma_flatten_pairs_id(cs: Seq<NodeV>)
    requires
        cs.len() % 2 == 0,
    ensures
        spec_flatten(spec_pairs(cs)) == cs,
{
    assert(spec_flatten(spec_pairs(cs)) =~= cs);
}

// ---------------------------------------------------------------------------
// The parser inverts the printer, token by token
// ---------------------------------------------------------------------------

/// Parsing a well-formed tree's canonical tokens succeeds, consumes exactly
/// those tokens, and yields a tree that prints identically.
pub proof fn lemma_parse_form(toks: Seq<Seq<char>>, pos: int, t: NodeV)
    requires
        wf_node(t),
        0 <= pos,
        pos + toks_of(t).len() <= toks.len(),
        toks.subrange(pos, pos + toks_of(t).len()) == toks_of(t),
    ensures
        match spec_read_form(toks, pos) {
            ParseOut::Parsed(t2, p2) => p2 == pos + toks_of(t).len() && print_node(t2)
                == print_node(t),
            ParseOut::Failed(_, _) => false,
        },
    decreases lsize(t), 0int, 3int,
{
    let tk = toks_of(t);
    lemma_first_tok(t);
    assert(toks[pos] == tk[0]) by {
        assert(toks.subrange(pos, pos + tk.len())[0] == toks[pos]);
    }
    match t.val {
        ValV::NilV => {
            lemma_nil_chars();
            lemma_plain_first("nil"@);
            assert(spec_atom("nil"@) == Ok::<NodeV, (ErrorKind, Seq<char>)>(
                NodeV { text: "nil"@, val: ValV::SymbolV },
            )) by {
                assert(crate::reader::num_body("nil"@) == "nil"@);
            }
        },
        ValV::SymbolV => {
            assert(!is_special(t.text[0]));
            lemma_plain_first(t.text);
            assert(spec_atom(t.text) == Ok::<NodeV, (ErrorKind, Seq<char>)>(
                NodeV { text: t.text, val: ValV::SymbolV },
            ));
        },
        ValV::NumberV => {
            lemma_number_first_char(t.text);
            lemma_plain_first(t.text);
            assert(spec_atom(t.text) == Ok::<NodeV, (ErrorKind, Seq<char>)>(
                NodeV { text: t.text, val: ValV::NumberV },
            ));
        },
        ValV::StringV => {
            let token = seq!['"'] + t.text + seq!['"'];
            assert(token[0] == '"');
            lemma_plain_first(token);
            assert(token.len() == t.text.len() + 2);
            assert(token.last() == '"');
            let inner = token.subrange(1, token.len() - 1);
            assert(inner =~= t.text);
            assert(spec_atom(token) == Ok::<NodeV, (ErrorKind, Seq<char>)>(
                NodeV { text: t.text, val: ValV::StringV },
            ));
        },
        ValV::ListV(items) => {
            lemma_parse_collection(toks, pos, t, items, seq!['('], seq![')']);
            match spec_list_items(toks, seq![')'], pos + 1) {
                ItemsOut::Items(cs, p3) => {
                    lemma_print_items_congr(cs, items, 0);
                },
                ItemsOut::NoItems(_, _) => {},
            }
        },
        ValV::ArrayV(items) => {
            lemma_parse_collection(toks, pos, t, items, seq!['['], seq![']']);
            match spec_list_items(toks, seq![']'], pos + 1) {
                ItemsOut::Items(cs, p3) => {
                    lemma_print_items_congr(cs, items, 0);
                },
                ItemsOut::NoItems(_, _) => {},
            }
        },
        ValV::MapV(pairs) => {
            let flat = spec_flatten(pairs);
            lemma_toks_pairs_flatten(pairs);
            lemma_lsize_flatten(pairs);
            assert(forall|i: int| 0 <= i < flat.len() ==> wf_node(#[trigger] flat[i])) by {
                assert forall|i: int| 0 <= i < flat.len() implies wf_node(
                    #[trigger] flat[i],
                ) by {
                    assert(flat[i] == (if i % 2 == 0 {
                        pairs[i / 2].0
                    } else {
                        pairs[i / 2].1
                    }));
                }
            }
            lemma_parse_collection(toks, pos, t, flat, seq!['{'], seq!['}']);
            match spec_list_items(toks, seq!['}'], pos + 1) {
                ItemsOut::Items(cs, p3) => {
                    assert(cs.len() == 2 * pairs.len());
                    lemma_print_items_congr(cs, flat, 0);
                    lemma_print_pairs_flat(pairs, 0);
                    lemma_flatten_pairs_id(cs);
                    lemma_print_pairs_flat(spec_pairs(cs), 0);
                    assert(print_pairs(spec_pairs(cs), 0) == print_items(cs, 0));
                    assert(print_pairs(spec_pairs(cs), 0) == print_pairs(pairs, 0));
                },
                ItemsOut::NoItems(_, _) => {},
            }
        },
        ValV::QuoteV(f) => {
            lemma_form_words();
            let elems = lemma_word_elems("quote"@, *f);
            assert(toks_of(t) =~= seq![seq!['(']] + toks_of_items(elems) + seq![seq![')']]);
            assert(print_node(t) =~= seq!['('] + print_items(elems, 0) + seq![')']);
            lemma_parse_as_list(toks, pos, t, elems);
        },
        ValV::QuasiquoteV(f) => {
            lemma_form_words();
            let elems = lemma_word_elems("quasiquote"@, *f);
            assert(toks_of(t) =~= seq![seq!['(']] + toks_of_items(elems) + seq![seq![')']]);
            assert(print_node(t) =~= seq!['('] + print_items(elems, 0) + seq![')']);
            lemma_parse_as_list(toks, pos, t, elems);
        },
        ValV::UnquoteV(f) => {
            lemma_form_words();
            let elems = lemma_word_elems("unquote"@, *f);
            assert(toks_of(t) =~= seq![seq!['(']] + toks_of_items(elems) + seq![seq![')']]);
            assert(print_node(t) =~= seq!['('] + print_items(elems, 0) + seq![')']);
            lemma_parse_as_list(toks, pos, t, elems);
        },
        ValV::SpliceUnquoteV(f) => {
            lemma_form_words();
            let elems = lemma_word_elems("splice-unquote"@, *f);
            assert(toks_of(t) =~= seq![seq!['(']] + toks_of_items(elems) + seq![seq![')']]);
            assert(print_node(t) =~= seq!['('] + print_items(elems, 0) + seq![')']);
            lemma_parse_as_list(toks, pos, t, elems);
        },
        ValV::DerefV(f) => {
            lemma_form_words();
            let elems = lemma_word_elems("deref"@, *f);
            assert(toks_of(t) =~= seq![seq!['(']] + toks_of_items(elems) + seq![seq![')']]);
            assert(print_node(t) =~= seq!['('] + print_items(elems, 0) + seq![')']);
            lemma_parse_as_list(toks, pos, t, elems);
        },
        ValV::WithMetaV(m, f) => {
            lemma_form_words();
            let elems = lemma_meta_elems("with-meta"@, *f, *m);
            assert(toks_of(t) =~= seq![seq!['(']] + toks_of_items(elems) + seq![seq![')']]);
            assert(print_node(t) =~= seq!['('] + print_items(elems, 0) + seq![')']);
            lemma_parse_as_list(toks, pos, t, elems);
        },
        _ => {},
    }
}

/// The synthesized element row `[word symbol, subforms...]` of a form that
/// prints as `(word ...)`: its token and print equations, well-formedness
/// and footprint, for one subform.
pub proof fn lemma_word_elems(word: Seq<char>, f: NodeV) -> (elems: Seq<NodeV>)
    requires
        symbol_text_ok(word),
        wf_node(f),
    ensures
        elems == seq![NodeV { text: word, val: ValV::SymbolV }, f],
        elems.len() == 2,
        toks_of_items(elems) == seq![word] + toks_of(f),
        print_items(elems, 0) == word + seq![' '] + print_node(f),
        forall|i: int| 0 <= i < elems.len() ==> wf_node(#[trigger] elems[i]),
        lsize_all(elems) == 1 + lsize(f),
{
    let wsym = NodeV { text: word, val: ValV::SymbolV };
    let elems = seq![wsym, f];
    assert(elems.skip(1) =~= seq![f]);
    assert(seq![f].skip(1) =~= Seq::<NodeV>::empty());
    assert(toks_of_items(Seq::<NodeV>::empty()) == Seq::<Seq<char>>::empty());
    assert(toks_of_items(seq![f]) =~= toks_of(f));
    assert(elems[0] == wsym);
    assert(toks_of(wsym) == seq![word]);
    assert(toks_of_items(elems) == toks_of(wsym) + toks_of_items(elems.skip(1)));
    assert(toks_of_items(elems) =~= seq![word] + toks_of(f));
    assert(print_items(elems, 1) == print_node(f));
    assert(print_items(elems, 0) == print_node(wsym) + seq![' '] + print_items(elems, 1));
    assert(print_node(wsym) == word);
    assert(lsize_all(seq![f]) == lsize(f) + lsize_all(Seq::<NodeV>::empty()));
    assert(lsize_all(elems) == lsize(wsym) + lsize_all(elems.skip(1)));
    assert(lsize(wsym) == 1);
    elems
}

/// The same, for the metadata form's two subforms: target then meta.
pub proof fn lemma_meta_elems(word: Seq<char>, f: NodeV, m: NodeV) -> (elems: Seq<NodeV>)
    requires
        symbol_text_ok(word),
        wf_node(f),
        wf_node(m),
    ensures
        elems == seq![NodeV { text: word, val: ValV::SymbolV }, f, m],
        elems.len() == 3,
        toks_of_items(elems) == seq![word] + toks_of(f) + toks_of(m),
        print_items(elems, 0) == word + seq![' '] + print_node(f) + seq![' '] + print_node(m),
        forall|i: int| 0 <= i < elems.len() ==> wf_node(#[trigger] elems[i]),
        lsize_all(elems) == 1 + lsize(f) + lsize(m),
{
    let wsym = NodeV { text: word, val: ValV::SymbolV };
    let elems = seq![wsym, f, m];
    assert(elems.skip(1) =~= seq![f, m]);
    assert(seq![f, m].skip(1) =~= seq![m]);
    assert(seq![m].skip(1) =~= Seq::<NodeV>::empty());
    assert(toks_of_items(Seq::<NodeV>::empty()) == Seq::<Seq<char>>::empty());
    assert(toks_of_items(seq![m]) =~= toks_of(m));
    assert(toks_of_items(seq![f, m]) =~= toks_of(f) + toks_of(m));
    assert(elems[0] == wsym);
    assert(toks_of(wsym) == seq![word]);
    assert(toks_of_items(elems) == toks_of(wsym) + toks_of_items(elems.skip(1)));
    assert(toks_of_items(elems) =~= seq![word] + toks_of(f) + toks_of(m));
    assert(print_items(elems, 2) == print_node(m));
    assert(print_items(elems, 1) == print_node(f) + seq![' '] + print_items(elems, 2));
    assert(print_items(elems, 0) == print_node(wsym) + seq![' '] + print_items(elems, 1));
    assert(print_node(wsym) == word);
    assert(print_items(elems, 0) =~= word + seq![' '] + print_node(f) + seq![' '] + print_node(
        m,
    ));
    assert(lsize_all(seq![m]) == lsize(m) + lsize_all(Seq::<NodeV>::empty()));
    assert(lsize_all(seq![f, m]) == lsize(f) + lsize_all(seq![f, m].skip(1)));
    assert(lsize_all(elems) == lsize(wsym) + lsize_all(elems.skip(1)));
    assert(lsize(wsym) == 1);
    elems
}

/// A form whose tokens and text are those of a plain list parses as that
/// list and prints identically.
pub proof fn lemma_parse_as_list(toks: Seq<Seq<char>>, pos: int, t: NodeV, elems: Seq<NodeV>)
    requires
        0 <= pos,
        pos + toks_of(t).len() <= toks.len(),
        toks.subrange(pos, pos + toks_of(t).len()) == toks_of(t),
        toks_of(t) == seq![seq!['(']] + toks_of_items(elems) + seq![seq![')']],
        print_node(t) == seq!['('] + print_items(elems, 0) + seq![')'],
        forall|i: int| 0 <= i < elems.len() ==> wf_node(#[trigger] elems[i]),
        lsize_all(elems) < lsize(t),
    ensures
        match spec_read_form(toks, pos) {
            ParseOut::Parsed(t2, p2) => p2 == pos + toks_of(t).len() && print_node(t2)
                == print_node(t),
            ParseOut::Failed(_, _) => false,
        },
    decreases lsize(t), 0int, 2int,
{
    let tk = toks_of(t);
    assert(toks[pos] == tk[0]) by {
        assert(toks.subrange(pos, pos + tk.len())[0] == toks[pos]);
    }
    assert(tk[0] == seq!['(']);
    assert(seq!['('] != seq!['{'] && seq!['('] != seq!['[']) by {
        assert(seq!['('][0] == '(' && seq!['{'][0] == '{' && seq!['['][0] == '[');
    }
    lemma_parse_collection(toks, pos, t, elems, seq!['('], seq![')']);
    match spec_list_items(toks, seq![')'], pos + 1) {
        ItemsOut::Items(cs, p3) => {
            lemma_print_items_congr(cs, elems, 0);
        },
        ItemsOut::NoItems(_, _) => {},
    }
}

/// Common reasoning for the three collections: the opener is consumed, the
/// element tokens parse as the elements, and the closer ends the walk.
pub proof fn lemma_parse_collection(
    toks: Seq<Seq<char>>,
    pos: int,
    t: NodeV,
    elems: Seq<NodeV>,
    open: Seq<char>,
    close: Seq<char>,
)
    requires
        0 <= pos,
        pos + toks_of(t).len() <= toks.len(),
        toks.subrange(pos, pos + toks_of(t).len()) == toks_of(t),
        toks_of(t) == seq![open] + toks_of_items(elems) + seq![close],
        spec_is_closer(close),
        spec_closer(open) == Some(close),
        forall|i: int| 0 <= i < elems.len() ==> wf_node(#[trigger] elems[i]),
        lsize_all(elems) < lsize(t),
    ensures
        match spec_list_items(toks, close, pos + 1) {
            ItemsOut::Items(cs, p3) => p3 == pos + toks_of(t).len() && cs.len() == elems.len()
                && (forall|i: int|
                0 <= i < cs.len() ==> print_node(#[trigger] cs[i]) == print_node(elems[i])),
            ItemsOut::NoItems(_, _) => false,
        },
    decreases lsize(t), 0int, 0int,
{
    let tk = toks_of(t);
    let inner = toks_of_items(elems);
    assert(tk.len() == inner.len() + 2);
    assert forall|k: int|
        0 <= k < inner.len() implies #[trigger] toks.subrange(pos + 1, pos + 1 + inner.len())[k]
        == inner[k] by {
        assert(toks.subrange(pos, pos + tk.len())[1 + k] == toks[pos + 1 + k]);
        assert(tk[1 + k] == inner[k]);
        assert(toks.subrange(pos + 1, pos + 1 + inner.len())[k] == toks[pos + 1 + k]);
    }
    assert(toks.subrange(pos + 1, pos + 1 + inner.len()) =~= inner);
    assert(toks[pos + 1 + inner.len()] == close) by {
        assert(toks.subrange(pos, pos + tk.len())[tk.len() - 1] == toks[pos + tk.len() - 1]);
        assert(tk[tk.len() - 1] == close);
    }
    lemma_parse_items(toks, close, pos + 1, elems);
}

/// Parsing the canonical tokens of a row of well-formed trees, followed by
/// the closing token, yields print-equal results in order.
pub proof fn lemma_parse_items(toks: Seq<Seq<char>>, close: Seq<char>, pos: int, elems: Seq<NodeV>)
    requires
        0 <= pos,
        pos + toks_of_items(elems).len() < toks.len(),
        toks.subrange(pos, pos + toks_of_items(elems).len()) == toks_of_items(elems),
        toks[pos + toks_of_items(elems).len()] == close,
        spec_is_closer(close),
        forall|i: int| 0 <= i < elems.len() ==> wf_node(#[trigger] elems[i]),
    ensures
        match spec_list_items(toks, close, pos) {
            ItemsOut::Items(cs, p3) => p3 == pos + toks_of_items(elems).len() + 1 && cs.len()
                == elems.len() && (forall|i: int|
                0 <= i < cs.len() ==> print_node(#[trigger] cs[i]) == print_node(elems[i])),
            ItemsOut::NoItems(_, _) => false,
        },
    decreases lsize_all(elems), elems.len(), 2int,
{
    let inner = toks_of_items(elems);
    if elems.len() == 0 {
        assert(inner.len() == 0);
        assert(toks[pos] == close);
        assert(spec_list_items(toks, close, pos) == ItemsOut::Items(
            Seq::<NodeV>::empty(),
            pos + 1,
        ));
    } else {
        let first = elems[0];
        let rest = elems.skip(1);
        let ftk = toks_of(first);
        assert(inner == ftk + toks_of_items(rest));
        lemma_first_tok(first);
        assert forall|k: int| 0 <= k < ftk.len() implies #[trigger] toks.subrange(
            pos,
            pos + ftk.len(),
        )[k] == ftk[k] by {
            assert(toks.subrange(pos, pos + inner.len())[k] == toks[pos + k]);
            assert(toks.subrange(pos, pos + ftk.len())[k] == toks[pos + k]);
            assert(inner[k] == ftk[k]);
        }
        assert(toks.subrange(pos, pos + ftk.len()) =~= ftk);
        assert(toks[pos] == ftk[0]) by {
            assert(toks.subrange(pos, pos + ftk.len())[0] == toks[pos]);
        }
        assert(toks[pos] != close);
        lemma_lsize_all_elem(elems, 0);
        lemma_parse_form(toks, pos, first);
        match spec_read_form(toks, pos) {
            ParseOut::Parsed(f2, p2) => {
                assert(p2 == pos + ftk.len());
                assert(lsize_all(elems) == lsize(first) + lsize_all(rest));
                lemma_lsize_pos(first);
                assert forall|k: int| 0 <= k < toks_of_items(rest).len() implies
                    #[trigger] toks.subrange(p2, p2 + toks_of_items(rest).len())[k]
                    == toks_of_items(rest)[k] by {
                    assert(toks.subrange(pos, pos + inner.len())[ftk.len() + k] == toks[pos
                        + ftk.len() + k]);
                    assert(inner[ftk.len() + k] == toks_of_items(rest)[k]);
                    assert(toks.subrange(p2, p2 + toks_of_items(rest).len())[k] == toks[p2 + k]);
                }
                assert(toks.subrange(p2, p2 + toks_of_items(rest).len()) =~= toks_of_items(rest));
                assert(toks[p2 + toks_of_items(rest).len()] == close);
                lemma_parse_items(toks, close, p2, rest);
                match spec_list_items(toks, close, p2) {
                    ItemsOut::Items(cs2, p3) => {
                        let cs = seq![f2] + cs2;
                        assert(spec_list_items(toks, close, pos) == ItemsOut::Items(cs, p3));
                        assert forall|i: int| 0 <= i < cs.len() implies print_node(
                            #[trigger] cs[i],
                        ) == print_node(elems[i]) by {
                            if i == 0 {
                                assert(cs[0] == f2);
                            } else {
                                assert(cs[i] == cs2[i - 1]);
                                assert(rest[i - 1] == elems[i]);
                            }
                        }
                    },
                    ItemsOut::NoItems(_, _) => {},
                }
            },
            ParseOut::Failed(_, _) => {},
        }
    }
}

// ---------------------------------------------------------------------------
// The tokenizer splits printed text into the canonical tokens
// ---------------------------------------------------------------------------

/// What may follow a printed form: nothing, a separator, or a closing
/// bracket — exactly what the printer ever puts after one.
pub open spec fn boundary(rest: Seq<char>) -> bool {
    rest.len() == 0 || is_sep(rest[0]) || rest[0] == ')' || rest[0] == ']' || rest[0] == '}'
}

/// A boundary character never extends a bare atom run.
pub proof fn lemma_boundary_stops_atom(rest: Seq<char>)
    requires
        boundary(rest),
        rest.len() > 0,
    ensures
        !is_atom_char(rest[0]),
{
}

/// An atom run of exactly the characters `j..e` scans to `e`.
pub proof fn lemma_atom_scan(s: Seq<char>, j: int, e: int)
    requires
        0 <= j <= e <= s.len(),
        forall|i: int| j <= i < e ==> is_atom_char(#[trigger] s[i]),
        e == s.len() || !is_atom_char(s[e]),
    ensures
        atom_token_end(s, j) == e,
    decreases e - j,
{
    if j < e {
        lemma_atom_scan(s, j + 1, e);
    }
}

/// Scanning the body of a well-formed string token reaches the closing
/// quote, whatever follows the token.
pub proof fn lemma_string_scan(body: Seq<char>, rest: Seq<char>, k: int)
    requires
        0 <= k <= body.len(),
        good_string_body(body, k),
    ensures
        string_token_end(seq!['"'] + body + seq!['"'] + rest, 1 + k) == body.len() + 2,
    decreases body.len() - k,
{
    let full = seq!['"'] + body + seq!['"'] + rest;
    assert(full.len() == body.len() + 2 + rest.len());
    if k == body.len() {
        assert(full[1 + k] == '"');
    } else {
        assert(full[1 + k] == body[k]);
        if body[k] == '\\' {
            lemma_string_scan(body, rest, k + 2);
            if k + 2 <= body.len() {
            }
        } else {
            lemma_string_scan(body, rest, k + 1);
        }
    }
}

/// Every character of a numeric token may stand in a bare atom run.
pub proof fn lemma_number_chars_atomic(s: Seq<char>)
    requires
        is_number_token(s),
    ensures
        forall|i: int| 0 <= i < s.len() ==> is_atom_char(#[trigger] s[i]),
{
    let b = crate::reader::num_body(s);
    assert forall|i: int| 0 <= i < s.len() implies is_atom_char(#[trigger] s[i]) by {
        if s[0] == '-' && i == 0 {
            assert(is_atom_char('-'));
        } else {
            let k = if s[0] == '-' {
                i - 1
            } else {
                i
            };
            assert(b[k] == s[i]);
            if k == 0 {
                assert(crate::reader::is_digit(b[0]));
            } else {
                assert(crate::reader::is_digit(b[k]) || b[k] == '.');
            }
        }
    }
}

/// A one-token atom text, followed by a boundary, tokenizes to that token
/// and the rest.
pub proof fn lemma_tokenize_atom(text: Seq<char>, rest: Seq<char>)
    requires
        text.len() > 0,
        forall|i: int| 0 <= i < text.len() ==> is_atom_char(#[trigger] text[i]),
        text[0] != '~',
        !is_special(text[0]),
        boundary(rest),
    ensures
        spec_tokenize(text + rest) == seq![text] + spec_tokenize(rest),
{
    let s = text + rest;
    assert(s[0] == text[0]);
    assert(!is_sep(s[0]));
    assert forall|i: int| 0 <= i < text.len() implies is_atom_char(#[trigger] s[i]) by {
        assert(s[i] == text[i]);
    }
    if rest.len() > 0 {
        assert(s[text.len() as int] == rest[0]);
        lemma_boundary_stops_atom(rest);
    }
    lemma_atom_scan(s, 0, text.len() as int);
    assert(raw_token_len(s) == text.len());
    assert(s.take(text.len() as int) =~= text);
    assert(!is_ws(text.last()));
    assert(trim_end(text) == text);
    assert(s.skip(text.len() as int) =~= rest);
    assert(spec_tokenize(s) == seq![text] + spec_tokenize(rest));
}

/// Printing a well-formed tree before a boundary tokenizes to its canonical
/// tokens followed by the rest's tokens.
pub proof fn lemma_tokenize_print(t: NodeV, rest: Seq<char>)
    requires
        wf_node(t),
        boundary(rest),
    ensures
        spec_tokenize(print_node(t) + rest) == toks_of(t) + spec_tokenize(rest),
    decreases lsize(t), 0int, 3int,
{
    match t.val {
        ValV::NilV => {
            lemma_nil_chars();
            lemma_tokenize_atom("nil"@, rest);
            assert(print_node(t) + rest == "nil"@ + rest);
            assert(seq!["nil"@] + spec_tokenize(rest) =~= toks_of(t) + spec_tokenize(rest));
        },
        ValV::SymbolV => {
            assert(!is_special(t.text[0]));
            lemma_tokenize_atom(t.text, rest);
            assert(seq![t.text] + spec_tokenize(rest) =~= toks_of(t) + spec_tokenize(rest));
        },
        ValV::NumberV => {
            lemma_number_chars_atomic(t.text);
            lemma_number_first_char(t.text);
            lemma_tokenize_atom(t.text, rest);
            assert(seq![t.text] + spec_tokenize(rest) =~= toks_of(t) + spec_tokenize(rest));
        },
        ValV::StringV => {
            let token = seq!['"'] + t.text + seq!['"'];
            let s = print_node(t) + rest;
            assert(s =~= seq!['"'] + t.text + seq!['"'] + rest);
            assert(s[0] == '"');
            assert(!is_sep('"') && !is_special('"'));
            lemma_string_scan(t.text, rest, 0);
            assert(string_token_end(s, 1) == t.text.len() + 2);
            assert(raw_token_len(s) == token.len());
            assert(s.take(token.len() as int) =~= token);
            assert(token.last() == '"');
            assert(trim_end(token) == token);
            assert(s.skip(token.len() as int) =~= rest);
            assert(spec_tokenize(s) == seq![token] + spec_tokenize(rest));
            assert(seq![token] + spec_tokenize(rest) =~= toks_of(t) + spec_tokenize(rest));
        },
        ValV::ListV(items) => {
            lemma_tokenize_collection(t, items, print_items(items, 0), '(', ')', rest);
        },
        ValV::ArrayV(items) => {
            lemma_tokenize_collection(t, items, print_items(items, 0), '[', ']', rest);
        },
        ValV::MapV(pairs) => {
            let flat = spec_flatten(pairs);
            lemma_toks_pairs_flatten(pairs);
            lemma_lsize_flatten(pairs);
            lemma_print_pairs_flat(pairs, 0);
            assert forall|i: int| 0 <= i < flat.len() implies wf_node(#[trigger] flat[i]) by {
                assert(flat[i] == (if i % 2 == 0 {
                    pairs[i / 2].0
                } else {
                    pairs[i / 2].1
                }));
            }
            lemma_tokenize_collection(t, flat, print_items(flat, 0), '{', '}', rest);
        },
        ValV::QuoteV(f) => {
            lemma_form_words();
            let elems = lemma_word_elems("quote"@, *f);
            assert(toks_of(t) =~= seq![seq!['(']] + toks_of_items(elems) + seq![seq![')']]);
            assert(print_node(t) =~= seq!['('] + print_items(elems, 0) + seq![')']);
            lemma_tokenize_collection(t, elems, print_items(elems, 0), '(', ')', rest);
        },
        ValV::QuasiquoteV(f) => {
            lemma_form_words();
            let elems = lemma_word_elems("quasiquote"@, *f);
            assert(toks_of(t) =~= seq![seq!['(']] + toks_of_items(elems) + seq![seq![')']]);
            assert(print_node(t) =~= seq!['('] + print_items(elems, 0) + seq![')']);
            lemma_tokenize_collection(t, elems, print_items(elems, 0), '(', ')', rest);
        },
        ValV::UnquoteV(f) => {
            lemma_form_words();
            let elems = lemma_word_elems("unquote"@, *f);
            assert(toks_of(t) =~= seq![seq!['(']] + toks_of_items(elems) + seq![seq![')']]);
            assert(print_node(t) =~= seq!['('] + print_items(elems, 0) + seq![')']);
            lemma_tokenize_collection(t, elems, print_items(elems, 0), '(', ')', rest);
        },
        ValV::SpliceUnquoteV(f) => {
            lemma_form_words();
            let elems = lemma_word_elems("splice-unquote"@, *f);
            assert(toks_of(t) =~= seq![seq!['(']] + toks_of_items(elems) + seq![seq![')']]);
            assert(print_node(t) =~= seq!['('] + print_items(elems, 0) + seq![')']);
            lemma_tokenize_collection(t, elems, print_items(elems, 0), '(', ')', rest);
        },
        ValV::DerefV(f) => {
            lemma_form_words();
            let elems = lemma_word_elems("deref"@, *f);
            assert(toks_of(t) =~= seq![seq!['(']] + toks_of_items(elems) + seq![seq![')']]);
            assert(print_node(t) =~= seq!['('] + print_items(elems, 0) + seq![')']);
            lemma_tokenize_collection(t, elems, print_items(elems, 0), '(', ')', rest);
        },
        ValV::WithMetaV(m, f) => {
            lemma_form_words();
            let elems = lemma_meta_elems("with-meta"@, *f, *m);
            assert(toks_of(t) =~= seq![seq!['(']] + toks_of_items(elems) + seq![seq![')']]);
            assert(print_node(t) =~= seq!['('] + print_items(elems, 0) + seq![')']);
            lemma_tokenize_collection(t, elems, print_items(elems, 0), '(', ')', rest);
        },
        _ => {},
    }
}

/// The collection step: the opening bracket, the space-joined elements, the
/// closing bracket, then the rest.
#[verifier::rlimit(100)]
pub proof fn lemma_tokenize_collection(
    t: NodeV,
    elems: Seq<NodeV>,
    body: Seq<char>,
    open: char,
    close: char,
    rest: Seq<char>,
)
    requires
        boundary(rest),
        is_special(open),
        close == ')' || close == ']' || close == '}',
        print_node(t) == seq![open] + body + seq![close],
        toks_of(t) == seq![seq![open]] + toks_of_items(elems) + seq![seq![close]],
        body == print_items(elems, 0),
        forall|i: int| 0 <= i < elems.len() ==> wf_node(#[trigger] elems[i]),
        lsize_all(elems) < lsize(t),
        open != '~',
    ensures
        spec_tokenize(print_node(t) + rest) == toks_of(t) + spec_tokenize(rest),
    decreases lsize(t), 0int, 0int,
{
    let s = print_node(t) + rest;
    let inner_rest = seq![close] + rest;
    assert(s[0] == open);
    assert(!is_sep(open));
    assert(raw_token_len(s) == 1);
    assert(s.take(1) =~= seq![open]);
    assert(!is_ws(open));
    assert(trim_end(seq![open]) == seq![open]);
    assert(s.skip(1) =~= body + inner_rest);
    assert(boundary(inner_rest)) by {
        assert(inner_rest[0] == close);
    }
    lemma_tokenize_items(elems, 0, inner_rest);
    assert(print_items(elems, 0) + inner_rest == body + inner_rest);
    assert(toks_of_items(elems.skip(0)) == toks_of_items(elems)) by {
        assert(elems.skip(0) =~= elems);
    }
    // The closer is its own token before the rest.
    assert(inner_rest[0] == close);
    assert(!is_sep(close) && is_special(close) && close != '~');
    assert(raw_token_len(inner_rest) == 1);
    assert(inner_rest.take(1) =~= seq![close]);
    assert(!is_ws(close));
    assert(trim_end(seq![close]) == seq![close]);
    assert(inner_rest.skip(1) =~= rest);
    assert(spec_tokenize(inner_rest) == seq![seq![close]] + spec_tokenize(rest));
    assert(spec_tokenize(s) == seq![seq![open]] + (toks_of_items(elems) + (seq![seq![close]]
        + spec_tokenize(rest))));
    assert(seq![seq![open]] + (toks_of_items(elems) + (seq![seq![close]] + spec_tokenize(rest)))
        =~= toks_of(t) + spec_tokenize(rest));
}

// ---------------------------------------------------------------------------
// The round-trip laws
// ---------------------------------------------------------------------------

/// Reading the printed text of a well-formed tree succeeds and yields a
/// tree that prints the same text.
pub proof fn lemma_print_read_roundtrip(t: NodeV)
    requires
        wf_node(t),
    ensures
        match spec_read(print_node(t)) {
            Ok(t2) => print_node(t2) == print_node(t),
            Err(_) => false,
        },
{
    let s = print_node(t);
    let empty = Seq::<char>::empty();
    lemma_tokenize_print(t, empty);
    assert(s + empty =~= s);
    assert(spec_tokenize(empty) =~= Seq::<Seq<char>>::empty());
    assert(spec_tokenize(s) =~= toks_of(t));
    let toks = spec_tokenize(s);
    assert(toks.subrange(0, toks_of(t).len() as int) =~= toks_of(t));
    lemma_parse_form(toks, 0, t);
}

/// Round trip: for canonically spaced text — text printed from some
/// well-formed tree — reading and printing gives the text back.
pub proof fn theorem_print_read_identity(s: Seq<char>, t: NodeV)
    requires
        wf_node(t),
        s == print_node(t),
    ensures
        match spec_read(s) {
            Ok(t2) => print_node(t2) == s,
            Err(_) => false,
        },
{
    lemma_print_read_roundtrip(t);
}

/// Idempotence: where reading yields a well-formed tree, printing it and
/// reading again prints identically — one print reaches a fixed point.
pub proof fn theorem_read_print_idempotent(s: Seq<char>)
    requires
        match spec_read(s) {
            Ok(t) => wf_node(t),
            Err(_) => false,
        },
    ensures
        match spec_read(s) {
            Ok(t) => match spec_read(print_node(t)) {
                Ok(t2) => print_node(t2) == print_node(t),
                Err(_) => false,
            },
            Err(_) => false,
        },
{
    match spec_read(s) {
        Ok(t) => {
            lemma_print_read_roundtrip(t);
        },
        Err(_) => {},
    }
}

/// The space-joined elements from index `i` on, before a boundary, tokenize
/// to their canonical tokens followed by the rest's tokens.
pub proof fn lemma_tokenize_items(elems: Seq<NodeV>, i: int, rest: Seq<char>)
    requires
        0 <= i <= elems.len(),
        boundary(rest),
        forall|k: int| 0 <= k < elems.len() ==> wf_node(#[trigger] elems[k]),
    ensures
        spec_tokenize(print_items(elems, i) + rest) == toks_of_items(elems.skip(i))
            + spec_tokenize(rest),
    decreases lsize_all(elems), elems.len() - i, 2int,
{
    if i >= elems.len() {
        assert(print_items(elems, i) == Seq::<char>::empty());
        assert(print_items(elems, i) + rest =~= rest);
        let sk = elems.skip(i);
        assert(sk.len() == 0);
        assert(toks_of_items(sk) == Seq::<Seq<char>>::empty());
        assert(toks_of_items(sk) + spec_tokenize(rest) =~= spec_tokenize(rest));
    } else if i == elems.len() - 1 {
        assert(print_items(elems, i) == print_node(elems[i]));
        lemma_lsize_all_elem(elems, i);
        lemma_tokenize_print(elems[i], rest);
        let sk = elems.skip(i);
        assert(sk[0] == elems[i]);
        assert(sk.skip(1) =~= elems.skip(i + 1));
        assert(elems.skip(i + 1).len() == 0);
        assert(toks_of_items(elems.skip(i + 1)) == Seq::<Seq<char>>::empty());
        assert(toks_of_items(sk) =~= toks_of(elems[i]));
        assert(toks_of(elems[i]) + spec_tokenize(rest) =~= toks_of_items(sk) + spec_tokenize(
            rest,
        ));
    } else {
        let tail = seq![' '] + print_items(elems, i + 1) + rest;
        assert(print_items(elems, i) + rest =~= print_node(elems[i]) + tail);
        assert(boundary(tail)) by {
            assert(tail[0] == ' ');
        }
        lemma_lsize_all_elem(elems, i);
        lemma_tokenize_print(elems[i], tail);
        assert(tail.skip(1) =~= print_items(elems, i + 1) + rest);
        assert(is_sep(tail[0]));
        assert(spec_tokenize(tail) == spec_tokenize(print_items(elems, i + 1) + rest));
        lemma_tokenize_items(elems, i + 1, rest);
        let sk = elems.skip(i);
        assert(sk[0] == elems[i]);
        assert(sk.skip(1) =~= elems.skip(i + 1));
        assert(toks_of_items(sk) == toks_of(elems[i]) + toks_of_items(elems.skip(i + 1)));
        assert(toks_of(elems[i]) + (toks_of_items(elems.skip(i + 1)) + spec_tokenize(rest))
            =~= toks_of_items(sk) + spec_tokenize(rest));
    }
}

} // verus!
