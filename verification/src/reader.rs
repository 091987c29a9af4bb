//! Tokenizer and recursive-descent parser: raw text in, one parsed node out.
use vstd::prelude::*;

use crate::types::{
    ErrorKind, IdGen, NodeV, RadError, RadList, RadNode, RadVal, ValV, error, error_eof,
    error_invalid_data, convert_error, ending_token, is_ending_token, is_map, make_node,
    make_list_val, make_map_val, make_meta_val, make_quote_val, string_from_chars, size_all,
    size_node, spec_closer, spec_is_closer, spec_pairs, spec_quote_val, str_eq1, str_eq2,
    view_nodes, view_val,
};

verus! {

// ---------------------------------------------------------------------------
// Character classes
// ---------------------------------------------------------------------------

/// Whitespace, as both the token separators and token trimming see it.
pub open spec fn is_ws(c: char) -> bool {
    c == ' ' || c == '\t' || c == '\n' || c == '\r' || c == '\u{b}' || c == '\u{c}'
}

/// Token separators: whitespace and commas.
pub open spec fn is_sep(c: char) -> bool {
    is_ws(c) || c == ','
}

/// The single-character special tokens.
pub open spec fn is_special(c: char) -> bool {
    c == '[' || c == ']' || c == '{' || c == '}' || c == '(' || c == ')' || c == '\'' || c == '`'
        || c == '~' || c == '^' || c == '@'
}

/// Characters a bare atom run may contain.  Note that `~`, `^` and `@` are
/// special only at the start of a token; inside a run they are kept.
pub open spec fn is_atom_char(c: char) -> bool {
    !is_sep(c) && c != '[' && c != ']' && c != '{' && c != '}' && c != '(' && c != ')' && c != '\''
        && c != '"' && c != '`' && c != ';'
}

fn ws_char(c: char) -> (b: bool)
    ensures
        b == is_ws(c),
{
    c == ' ' || c == '\t' || c == '\n' || c == '\r' || c == '\u{b}' || c == '\u{c}'
}

fn sep_char(c: char) -> (b: bool)
    ensures
        b == is_sep(c),
{
    ws_char(c) || c == ','
}

fn special_char(c: char) -> (b: bool)
    ensures
        b == is_special(c),
{
    c == '[' || c == ']' || c == '{' || c == '}' || c == '(' || c == ')' || c == '\'' || c == '`'
        || c == '~' || c == '^' || c == '@'
}

fn atom_char(c: char) -> (b: bool)
    ensures
        b == is_atom_char(c),
{
    !sep_char(c) && c != '[' && c != ']' && c != '{' && c != '}' && c != '(' && c != ')' && c
        != '\'' && c != '"' && c != '`' && c != ';'
}

// ---------------------------------------------------------------------------
// Token boundaries
// ---------------------------------------------------------------------------

/// End of a double-quoted string token whose body starts at `j`: backslash
/// escapes consume two characters, the first unescaped quote closes the
/// token, and a lone trailing backslash is left for the next token.
pub open spec fn string_token_end(s: Seq<char>, j: int) -> int
    decreases s.len() - j,
{
    if j < 0 || j >= s.len() {
        s.len() as int
    } else if s[j] == '\\' {
        if j + 1 < s.len() {
            string_token_end(s, j + 2)
        } else {
            j
        }
    } else if s[j] == '"' {
        j + 1
    } else {
        string_token_end(s, j + 1)
    }
}

/// End of a comment token: everything up to the next line break.
pub open spec fn comment_token_end(s: Seq<char>, j: int) -> int
    decreases s.len() - j,
{
    if j < 0 || j >= s.len() {
        s.len() as int
    } else if s[j] == '\n' {
        j
    } else {
        comment_token_end(s, j + 1)
    }
}

/// End of a bare atom run starting at `j`.
pub open spec fn atom_token_end(s: Seq<char>, j: int) -> int
    decreases s.len() - j,
{
    if j < 0 || j >= s.len() {
        s.len() as int
    } else if is_atom_char(s[j]) {
        atom_token_end(s, j + 1)
    } else {
        j
    }
}

/// Length of the raw token at the front of `s`, which must start with a
/// non-separator character.  The alternatives are tried in priority order:
/// `~@`, single specials, strings, comments, atom runs.
pub open spec fn raw_token_len(s: Seq<char>) -> int {
    if s.len() == 0 {
        0
    } else if s[0] == '~' && s.len() > 1 && s[1] == '@' {
        2
    } else if is_special(s[0]) {
        1
    } else if s[0] == '"' {
        string_token_end(s, 1)
    } else if s[0] == ';' {
        comment_token_end(s, 1)
    } else {
        atom_token_end(s, 0)
    }
}

/// A token with trailing whitespace removed; only string and comment tokens
/// can carry any.
pub open spec fn trim_end(t: Seq<char>) -> Seq<char>
    decreases t.len(),
{
    if t.len() > 0 && is_ws(t.last()) {
        trim_end(t.drop_last())
    } else {
        t
    }
}

/// The token sequence of a text: separators are discarded, then one raw
/// token is taken, trimmed, and the rest is tokenized in turn.
pub open spec fn spec_tokenize(s: Seq<char>) -> Seq<Seq<char>>
    decreases s.len(),
{
    if s.len() == 0 {
        Seq::empty()
    } else if is_sep(s[0]) {
        spec_tokenize(s.skip(1))
    } else {
        let l = raw_token_len(s);
        let step = if 1 <= l <= s.len() {
            l
        } else {
            1
        };
        seq![trim_end(s.take(step))] + spec_tokenize(s.skip(step))
    }
}

// ---------------------------------------------------------------------------
// Exec tokenizer
// ---------------------------------------------------------------------------

/// The characters of a string slice, in order.
pub fn str_chars(s: &str) -> (r: Vec<char>)
    ensures
        r@ == s@,
{
    let l = s.unicode_len();
    let mut r: Vec<char> = Vec::new();
    let mut i: usize = 0;
    while i < l
        invariant
            l == s@.len(),
            i <= l,
            r@ == s@.subrange(0, i as int),
        decreases l - i,
    {
        r.push(s.get_char(i));
        proof {
            assert(s@.subrange(0, i + 1) =~= s@.subrange(0, i as int).push(s@[i as int]));
        }
        i += 1;
    }
    proof {
        assert(s@.subrange(0, l as int) =~= s@);
    }
    r
}

/// The characters from `a` (inclusive) to `b` (exclusive).
fn subvec(cs: &Vec<char>, a: usize, b: usize) -> (r: Vec<char>)
    requires
        a <= b <= cs@.len(),
    ensures
        r@ == cs@.subrange(a as int, b as int),
{
    let mut r: Vec<char> = Vec::new();
    let mut j = a;
    while j < b
        invariant
            a <= j <= b <= cs@.len(),
            r@ == cs@.subrange(a as int, j as int),
        decreases b - j,
    {
        r.push(cs[j]);
        proof {
            assert(cs@.subrange(a as int, j + 1) =~= cs@.subrange(a as int, j as int).push(
                cs@[j as int],
            ));
        }
        j += 1;
    }
    r
}

fn scan_string(cs: &Vec<char>, j0: usize) -> (e: usize)
    requires
        j0 <= cs@.len(),
    ensures
        e == string_token_end(cs@, j0 as int),
        j0 <= e <= cs@.len(),
{
    let mut j = j0;
    loop
        invariant
            j0 <= j <= cs@.len(),
            string_token_end(cs@, j0 as int) == string_token_end(cs@, j as int),
        decreases cs@.len() - j,
    {
        if j >= cs.len() {
            return cs.len();
        }
        let c = cs[j];
        if c == '\\' {
            if j + 1 < cs.len() {
                j += 2;
            } else {
                return j;
            }
        } else if c == '"' {
            return j + 1;
        } else {
            j += 1;
        }
    }
}

fn scan_comment(cs: &Vec<char>, j0: usize) -> (e: usize)
    requires
        j0 <= cs@.len(),
    ensures
        e == comment_token_end(cs@, j0 as int),
        j0 <= e <= cs@.len(),
{
    let mut j = j0;
    loop
        invariant
            j0 <= j <= cs@.len(),
            comment_token_end(cs@, j0 as int) == comment_token_end(cs@, j as int),
        decreases cs@.len() - j,
    {
        if j >= cs.len() {
            return cs.len();
        }
        if cs[j] == '\n' {
            return j;
        }
        j += 1;
    }
}

fn scan_atom(cs: &Vec<char>, j0: usize) -> (e: usize)
    requires
        j0 <= cs@.len(),
    ensures
        e == atom_token_end(cs@, j0 as int),
        j0 <= e <= cs@.len(),
{
    let mut j = j0;
    loop
        invariant
            j0 <= j <= cs@.len(),
            atom_token_end(cs@, j0 as int) == atom_token_end(cs@, j as int),
        decreases cs@.len() - j,
    {
        if j >= cs.len() {
            return cs.len();
        }
        if !atom_char(cs[j]) {
            return j;
        }
        j += 1;
    }
}

/// Length of the raw token at the front of `cs`.
fn raw_token(cs: &Vec<char>) -> (l: usize)
    requires
        cs@.len() > 0,
        !is_sep(cs@[0]),
    ensures
        l == raw_token_len(cs@),
        1 <= l <= cs@.len(),
{
    let c0 = cs[0];
    if c0 == '~' && cs.len() > 1 && cs[1] == '@' {
        2
    } else if special_char(c0) {
        1
    } else if c0 == '"' {
        let e = scan_string(cs, 1);
        e
    } else if c0 == ';' {
        let e = scan_comment(cs, 1);
        e
    } else {
        proof {
            assert(is_atom_char(cs@[0]));
        }
        let e = scan_atom(cs, 1);
        proof {
            assert(atom_token_end(cs@, 0) == atom_token_end(cs@, 1));
        }
        e
    }
}

/// Removes trailing whitespace from a token.
#[verifier::loop_isolation(false)]
fn trim_end_vec(t: Vec<char>) -> (r: Vec<char>)
    ensures
        r@ == trim_end(t@),
{
    let ghost orig = t@;
    let mut cur = t;
    loop
        invariant
            trim_end(cur@) == trim_end(orig),
        decreases cur@.len(),
    {
        if cur.len() == 0 {
            return cur;
        }
        if !ws_char(cur[cur.len() - 1]) {
            return cur;
        }
        let ghost before = cur@;
        cur.pop();
        proof {
            assert(cur@ =~= before.drop_last());
        }
    }
}

/// Splits raw text, given as characters, into its raw token list.
#[verifier::loop_isolation(false)]
fn tokenize_chars(cs: &Vec<char>) -> (toks: Vec<Vec<char>>)
    ensures
        toks.deep_view() == spec_tokenize(cs@),
{
    let mut toks: Vec<Vec<char>> = Vec::new();
    let mut i: usize = 0;
    proof {
        assert(cs@.skip(0) =~= cs@);
        assert(toks.deep_view() =~= Seq::<Seq<char>>::empty());
        assert(spec_tokenize(cs@) =~= toks.deep_view() + spec_tokenize(cs@.skip(0)));
    }
    while i < cs.len()
        invariant
            i <= cs@.len(),
            spec_tokenize(cs@) == toks.deep_view() + spec_tokenize(cs@.skip(i as int)),
        decreases cs@.len() - i,
    {
        if sep_char(cs[i]) {
            proof {
                assert(cs@.skip(i as int)[0] == cs@[i as int]);
                assert(cs@.skip(i as int).skip(1) =~= cs@.skip(i + 1));
                assert(spec_tokenize(cs@) =~= toks.deep_view() + spec_tokenize(cs@.skip(i + 1)));
            }
            i += 1;
        } else {
            let rest = subvec(cs, i, cs.len());
            proof {
                assert(rest@ =~= cs@.skip(i as int));
            }
            let l = raw_token(&rest);
            let tokraw = subvec(&rest, 0, l);
            proof {
                assert(tokraw@ =~= rest@.take(l as int));
            }
            let tok = trim_end_vec(tokraw);
            let ghost prevdeep = toks.deep_view();
            toks.push(tok);
            proof {
                assert(tok.deep_view() =~= tok@);
                assert(toks.deep_view() =~= prevdeep.push(tok@));
                assert(rest@.skip(l as int) =~= cs@.skip(i + l));
                assert(spec_tokenize(cs@.skip(i as int)) == seq![tok@] + spec_tokenize(
                    cs@.skip(i + l),
                ));
                assert(spec_tokenize(cs@) =~= toks.deep_view() + spec_tokenize(cs@.skip(i + l)));
            }
            i += l;
        }
    }
    proof {
        assert(cs@.skip(cs@.len() as int) =~= Seq::<char>::empty());
        assert(spec_tokenize(cs@) =~= toks.deep_view());
    }
    toks
}

/// Splits raw text into its lexical tokens: whitespace and commas separate,
/// `~@` and the single specials stand alone, strings and comments extend to
/// their natural end, and anything else is a maximal bare-atom run.
pub fn tokenize(input: &str) -> (r: Vec<String>)
    ensures
        r.deep_view() == spec_tokenize(input@),
{
    let cs = str_chars(input);
    let toks = tokenize_chars(&cs);
    let mut r: Vec<String> = Vec::new();
    let mut i: usize = 0;
    while i < toks.len()
        invariant
            i <= toks@.len(),
            r@.len() == i,
            toks.deep_view() == spec_tokenize(input@),
            forall|k: int| 0 <= k < i ==> #[trigger] r.deep_view()[k] == toks.deep_view()[k],
        decreases toks@.len() - i,
    {
        let ghost prevr = r@;
        let ghost prevdeep = r.deep_view();
        let s = string_from_chars(&toks[i]);
        r.push(s);
        proof {
            assert(toks@[i as int].deep_view() =~= toks@[i as int]@);
            assert forall|k: int| 0 <= k < i + 1 implies #[trigger] r.deep_view()[k]
                == toks.deep_view()[k] by {
                assert(r.deep_view()[k] == r@[k].deep_view());
                if k < i {
                    assert(r@[k] == prevr[k]);
                    assert(prevdeep[k] == toks.deep_view()[k]);
                } else {
                    assert(r@[k] == s);
                }
            }
        }
        i += 1;
    }
    proof {
        assert(r.deep_view() =~= toks.deep_view());
    }
    r
}

// ---------------------------------------------------------------------------
// Atom classification
// ---------------------------------------------------------------------------

pub open spec fn is_digit(c: char) -> bool {
    '0' <= c <= '9'
}

/// The token without its optional leading minus sign.
pub open spec fn num_body(t: Seq<char>) -> Seq<char> {
    if t.len() > 0 && t[0] == '-' {
        t.skip(1)
    } else {
        t
    }
}

/// The numeric literal shape: an optional minus, one digit, then at least
/// one more digit or dot.  A single bare digit deliberately does not match
/// and reads as a symbol instead.
pub open spec fn is_number_token(t: Seq<char>) -> bool {
    let b = num_body(t);
    b.len() >= 2 && is_digit(b[0]) && (forall|i: int|
        1 <= i < b.len() ==> is_digit(#[trigger] b[i]) || b[i] == '.')
}

/// How many dots a token holds.  A numeric token parses as a float exactly
/// when it has at most one.
pub open spec fn dot_count(t: Seq<char>) -> int
    decreases t.len(),
{
    if t.len() == 0 {
        0
    } else {
        dot_count(t.drop_last()) + if t.last() == '.' {
            1int
        } else {
            0int
        }
    }
}

pub open spec fn all_backslashes(t: Seq<char>) -> bool {
    forall|i: int| 0 <= i < t.len() ==> #[trigger] t[i] == '\\'
}

/// Length of the backslash run a token ends with.
pub open spec fn trailing_backslashes(t: Seq<char>) -> int
    decreases t.len(),
{
    if t.len() > 0 && t.last() == '\\' {
        1 + trailing_backslashes(t.drop_last())
    } else {
        0
    }
}

/// A string body ending in an odd backslash run has its closing quote
/// escaped away: the reader rejects it.
pub open spec fn ends_odd_backslashes(t: Seq<char>) -> bool {
    trailing_backslashes(t) % 2 == 1
}

/// What one atom token reads as: a string (quotes stripped), a number, a
/// character literal, or a bare symbol — or the error it raises.
pub open spec fn spec_atom(t: Seq<char>) -> Result<NodeV, (ErrorKind, Seq<char>)> {
    if t.len() > 0 && t[0] == '"' {
        if t.len() == 1 || t.last() != '"' {
            Err((ErrorKind::MalformedInput, "EOF; No terminating quote on this string."@))
        } else {
            let inner = t.subrange(1, t.len() - 1);
            if ends_odd_backslashes(inner) {
                Err((ErrorKind::MalformedInput, "EOF; I don't like the cut of your jib."@))
            } else {
                Ok(NodeV { text: inner, val: ValV::StringV })
            }
        }
    } else if is_number_token(t) {
        if dot_count(t) <= 1 {
            Ok(NodeV { text: t, val: ValV::NumberV })
        } else {
            Err((ErrorKind::InvalidData, "invalid float literal"@))
        }
    } else if t.len() > 0 && t[0] == '\\' {
        if t.len() == 1 || all_backslashes(t) {
            Err((ErrorKind::MalformedInput, "EOF; Expected escaped char."@))
        } else {
            Ok(NodeV { text: t, val: ValV::CharV })
        }
    } else {
        Ok(NodeV { text: t, val: ValV::SymbolV })
    }
}

// ---------------------------------------------------------------------------
// The grammar, as a ghost recursive-descent parser over the token list
// ---------------------------------------------------------------------------

/// Outcome of parsing one form: the node and the cursor after it, or the
/// error class and message the attempt raises.
pub enum ParseOut {
    Parsed(NodeV, int),
    Failed(ErrorKind, Seq<char>),
}

/// Outcome of parsing a run of forms up to a closing token.
pub enum ItemsOut {
    Items(Seq<NodeV>, int),
    NoItems(ErrorKind, Seq<char>),
}

pub open spec fn is_opener(t: Seq<char>) -> bool {
    t == seq!['('] || t == seq!['['] || t == seq!['{']
}

pub open spec fn is_quote_token(t: Seq<char>) -> bool {
    t == seq!['\''] || t == seq!['`'] || t == seq!['~'] || t == seq!['~', '@'] || t == seq!['@']
}

/// One form: a bracketed collection, a quote form, a meta form, or an atom.
pub open spec fn spec_read_form(toks: Seq<Seq<char>>, pos: int) -> ParseOut
    decreases toks.len() - pos, 1int,
{
    if pos < 0 || pos >= toks.len() {
        ParseOut::Failed(ErrorKind::EndOfInput, "EOF; read_form"@)
    } else {
        let t = toks[pos];
        if is_opener(t) {
            spec_read_list(toks, pos)
        } else if is_quote_token(t) {
            spec_read_quote(toks, pos)
        } else if t == seq!['^'] {
            spec_read_meta(toks, pos)
        } else {
            match spec_atom(t) {
                Ok(n) => ParseOut::Parsed(n, pos + 1),
                Err((k, m)) => ParseOut::Failed(k, m),
            }
        }
    }
}

/// A bracketed collection: forms until the matching closer, then the
/// collection the opening bracket names.
pub open spec fn spec_read_list(toks: Seq<Seq<char>>, pos: int) -> ParseOut
    decreases toks.len() - pos, 0int,
{
    if pos < 0 || pos >= toks.len() {
        ParseOut::Failed(ErrorKind::EndOfInput, "EOF; read_form"@)
    } else {
        let open = toks[pos];
        match spec_closer(open) {
            None => ParseOut::Failed(ErrorKind::InvalidData, "Not a valid listchar: "@ + open),
            Some(close) => match spec_list_items(toks, close, pos + 1) {
                ItemsOut::NoItems(k, m) => ParseOut::Failed(k, m),
                ItemsOut::Items(items, p2) => {
                    let text = open + close;
                    if open == seq!['{'] {
                        ParseOut::Parsed(
                            NodeV { text, val: ValV::MapV(spec_pairs(items)) },
                            p2,
                        )
                    } else if open == seq!['('] {
                        ParseOut::Parsed(NodeV { text, val: ValV::ListV(items) }, p2)
                    } else {
                        ParseOut::Parsed(NodeV { text, val: ValV::ArrayV(items) }, p2)
                    }
                },
            },
        }
    }
}

/// The forms before the closing token `close`, from `pos` on.
pub open spec fn spec_list_items(toks: Seq<Seq<char>>, close: Seq<char>, pos: int) -> ItemsOut
    decreases toks.len() - pos, 3int,
{
    if pos < 0 || pos >= toks.len() {
        ItemsOut::NoItems(ErrorKind::EndOfInput, "EOF; Unterminated list!"@)
    } else if toks[pos] == close {
        ItemsOut::Items(Seq::empty(), pos + 1)
    } else {
        match spec_read_form(toks, pos) {
            ParseOut::Failed(k, m) => ItemsOut::NoItems(k, m),
            ParseOut::Parsed(n, p2) => if pos < p2 <= toks.len() {
                match spec_list_items(toks, close, p2) {
                    ItemsOut::NoItems(k, m) => ItemsOut::NoItems(k, m),
                    ItemsOut::Items(rest, p3) => ItemsOut::Items(seq![n] + rest, p3),
                }
            } else {
                ItemsOut::NoItems(ErrorKind::EndOfInput, "EOF; Unterminated list!"@)
            },
        }
    }
}

/// A quote form: the quote token, then the single form it wraps.
pub open spec fn spec_read_quote(toks: Seq<Seq<char>>, pos: int) -> ParseOut
    decreases toks.len() - pos, 0int,
{
    if pos < 0 || pos >= toks.len() {
        ParseOut::Failed(ErrorKind::EndOfInput, "EOF; read_form"@)
    } else {
        let q = toks[pos];
        if pos + 1 >= toks.len() || spec_is_closer(toks[pos + 1]) {
            ParseOut::Failed(ErrorKind::EndOfInput, "EOF; Quote what?"@)
        } else {
            match spec_read_form(toks, pos + 1) {
                ParseOut::Failed(k, m) => ParseOut::Failed(k, m),
                ParseOut::Parsed(n, p2) => match spec_quote_val(q, n) {
                    Some(v) => ParseOut::Parsed(NodeV { text: q, val: v }, p2),
                    None => ParseOut::Failed(
                        ErrorKind::InvalidData,
                        "Not a valid quotechar: "@ + q,
                    ),
                },
            }
        }
    }
}

/// A meta form: `^`, a metadata form, then the decorated target form.
pub open spec fn spec_read_meta(toks: Seq<Seq<char>>, pos: int) -> ParseOut
    decreases toks.len() - pos, 0int,
{
    if pos < 0 || pos >= toks.len() {
        ParseOut::Failed(ErrorKind::EndOfInput, "EOF; read_form"@)
    } else if pos + 1 >= toks.len() || spec_is_closer(toks[pos + 1]) {
        ParseOut::Failed(ErrorKind::EndOfInput, "EOF; Meta for what?"@)
    } else {
        match spec_read_form(toks, pos + 1) {
            ParseOut::Failed(k, m) => ParseOut::Failed(k, m),
            ParseOut::Parsed(meta, p2) => if pos + 1 < p2 <= toks.len() {
                if p2 >= toks.len() || spec_is_closer(toks[p2]) {
                    ParseOut::Failed(ErrorKind::EndOfInput, "EOF; Meta for what?"@)
                } else {
                    match spec_read_form(toks, p2) {
                        ParseOut::Failed(k, m) => ParseOut::Failed(k, m),
                        ParseOut::Parsed(form, p3) => ParseOut::Parsed(
                            NodeV {
                                text: seq!['^'],
                                val: ValV::WithMetaV(Box::new(meta), Box::new(form)),
                            },
                            p3,
                        ),
                    }
                }
            } else {
                ParseOut::Failed(ErrorKind::EndOfInput, "EOF; Meta for what?"@)
            },
        }
    }
}

/// Parsing one form always consumes at least one token, never runs past the
/// end of the token list, and yields no more nodes than tokens consumed.
pub proof fn lemma_form_advances(toks: Seq<Seq<char>>, pos: int)
    ensures
        match spec_read_form(toks, pos) {
            ParseOut::Parsed(n, p2) => pos < p2 <= toks.len() && size_node(n) <= p2 - pos,
            ParseOut::Failed(_, _) => true,
        },
    decreases toks.len() - pos, 1int,
{
    if 0 <= pos < toks.len() {
        let t = toks[pos];
        if is_opener(t) {
            lemma_list_advances(toks, pos);
        } else if is_quote_token(t) {
            lemma_quote_advances(toks, pos);
        } else if t == seq!['^'] {
            lemma_meta_advances(toks, pos);
        }
    }
}

pub proof fn lemma_list_advances(toks: Seq<Seq<char>>, pos: int)
    ensures
        match spec_read_list(toks, pos) {
            ParseOut::Parsed(n, p2) => pos < p2 <= toks.len() && size_node(n) <= p2 - pos,
            ParseOut::Failed(_, _) => true,
        },
    decreases toks.len() - pos, 0int,
{
    if 0 <= pos < toks.len() {
        if spec_closer(toks[pos]) is Some {
            let close = spec_closer(toks[pos]).unwrap();
            lemma_items_advance(toks, close, pos + 1);
            match spec_list_items(toks, close, pos + 1) {
                ItemsOut::Items(cs, p3) => {
                    crate::types::lemma_pairs_size(cs);
                },
                ItemsOut::NoItems(_, _) => {},
            }
        }
    }
}

pub proof fn lemma_items_advance(toks: Seq<Seq<char>>, close: Seq<char>, pos: int)
    ensures
        match spec_list_items(toks, close, pos) {
            ItemsOut::Items(cs, p3) => pos < p3 <= toks.len() && size_all(cs) <= p3 - 1 - pos,
            ItemsOut::NoItems(_, _) => true,
        },
    decreases toks.len() - pos, 3int,
{
    if 0 <= pos < toks.len() && toks[pos] == close {
        assert(size_all(Seq::<NodeV>::empty()) == 0);
    }
    if 0 <= pos < toks.len() && toks[pos] != close {
        lemma_form_advances(toks, pos);
        match spec_read_form(toks, pos) {
            ParseOut::Parsed(n, p2) => {
                if pos < p2 <= toks.len() {
                    lemma_items_advance(toks, close, p2);
                    match spec_list_items(toks, close, p2) {
                        ItemsOut::Items(rest, p3) => {
                            let whole = seq![n] + rest;
                            assert(whole[0] == n);
                            assert(whole.skip(1) =~= rest);
                            assert(size_all(whole) == size_node(n) + size_all(rest));
                        },
                        ItemsOut::NoItems(_, _) => {},
                    }
                }
            },
            ParseOut::Failed(_, _) => {},
        }
    }
}

pub proof fn lemma_quote_advances(toks: Seq<Seq<char>>, pos: int)
    ensures
        match spec_read_quote(toks, pos) {
            ParseOut::Parsed(n, p2) => pos < p2 <= toks.len() && size_node(n) <= p2 - pos,
            ParseOut::Failed(_, _) => true,
        },
    decreases toks.len() - pos, 0int,
{
    if 0 <= pos < toks.len() && pos + 1 < toks.len() && !spec_is_closer(toks[pos + 1]) {
        lemma_form_advances(toks, pos + 1);
    }
}

// ---------------------------------------------------------------------------
// Exec parser
// ---------------------------------------------------------------------------

/// Character-for-character string equality.
pub(crate) fn str_equal(a: &str, b: &str) -> (r: bool)
    ensures
        r <==> a@ == b@,
{
    let la = a.unicode_len();
    let lb = b.unicode_len();
    if la != lb {
        proof {
            assert(a@ != b@) by {
                assert(a@.len() != b@.len());
            }
        }
        return false;
    }
    let mut i: usize = 0;
    while i < la
        invariant
            la == a@.len() && la == b@.len(),
            i <= la,
            forall|k: int| 0 <= k < i ==> a@[k] == #[trigger] b@[k],
        decreases la - i,
    {
        let ca = a.get_char(i);
        let cb = b.get_char(i);
        if ca != cb {
            proof {
                assert(a@[i as int] != b@[i as int]);
            }
            return false;
        }
        i += 1;
    }
    proof {
        assert(a@ =~= b@);
    }
    true
}

/// Whether the token has the numeric literal shape.
fn number_token(tc: &Vec<char>) -> (b: bool)
    ensures
        b == is_number_token(tc@),
{
    let off: usize = if tc.len() > 0 && tc[0] == '-' {
        1
    } else {
        0
    };
    proof {
        assert(num_body(tc@) =~= tc@.skip(off as int));
    }
    if tc.len() - off < 2 {
        return false;
    }
    let first = tc[off];
    if !('0' <= first && first <= '9') {
        return false;
    }
    let mut i: usize = off + 1;
    while i < tc.len()
        invariant
            off + 1 <= i <= tc@.len(),
            off == 0 || off == 1,
            off == 1 ==> tc@.len() > 0 && tc@[0] == '-',
            off == 0 ==> !(tc@.len() > 0 && tc@[0] == '-'),
            num_body(tc@) == tc@.skip(off as int),
            forall|k: int|
                1 <= k < i - off ==> is_digit(#[trigger] num_body(tc@)[k]) || num_body(tc@)[k]
                    == '.',
        decreases tc@.len() - i,
    {
        let c = tc[i];
        if !(('0' <= c && c <= '9') || c == '.') {
            proof {
                assert(num_body(tc@)[i - off] == tc@[i as int]);
            }
            return false;
        }
        proof {
            assert(num_body(tc@)[i - off] == tc@[i as int]);
        }
        i += 1;
    }
    proof {
        assert(num_body(tc@)[0] == tc@[off as int]);
        assert(is_number_token(tc@));
    }
    true
}

/// Whether the token holds at most one dot.
fn at_most_one_dot(tc: &Vec<char>) -> (b: bool)
    ensures
        b == (dot_count(tc@) <= 1),
{
    let mut cnt: usize = 0;
    let mut j: usize = 0;
    proof {
        assert(tc@.take(0) =~= Seq::<char>::empty());
    }
    while j < tc.len()
        invariant
            j <= tc@.len(),
            cnt <= j,
            cnt == dot_count(tc@.take(j as int)),
        decreases tc@.len() - j,
    {
        proof {
            assert(tc@.take(j + 1).drop_last() =~= tc@.take(j as int));
            assert(tc@.take(j + 1).last() == tc@[j as int]);
        }
        if tc[j] == '.' {
            cnt += 1;
        }
        j += 1;
    }
    proof {
        assert(tc@.take(tc@.len() as int) =~= tc@);
    }
    cnt <= 1
}

/// Whether the token is nothing but backslashes.
fn all_backslash_chars(tc: &Vec<char>) -> (b: bool)
    ensures
        b == all_backslashes(tc@),
{
    let mut j: usize = 0;
    while j < tc.len()
        invariant
            j <= tc@.len(),
            forall|k: int| 0 <= k < j ==> #[trigger] tc@[k] == '\\',
        decreases tc@.len() - j,
    {
        if tc[j] != '\\' {
            return false;
        }
        j += 1;
    }
    true
}

/// Whether the token ends in an odd run of backslashes.
#[verifier::loop_isolation(false)]
fn ends_odd_backslash_chars(tc: &Vec<char>) -> (b: bool)
    ensures
        b == ends_odd_backslashes(tc@),
{
    let mut cnt: usize = 0;
    let mut j: usize = tc.len();
    proof {
        assert(tc@.take(tc@.len() as int) =~= tc@);
    }
    while j > 0 && tc[j - 1] == '\\'
        invariant
            j <= tc@.len(),
            cnt + j == tc@.len(),
            trailing_backslashes(tc@) == cnt + trailing_backslashes(tc@.take(j as int)),
        decreases j,
    {
        proof {
            assert(tc@.take(j as int).drop_last() =~= tc@.take(j - 1));
            assert(tc@.take(j as int).last() == tc@[j - 1]);
        }
        cnt += 1;
        j -= 1;
    }
    proof {
        if j > 0 {
            assert(tc@.take(j as int).last() == tc@[j - 1]);
            assert(trailing_backslashes(tc@.take(j as int)) == 0);
        } else {
            assert(tc@.take(0) =~= Seq::<char>::empty());
        }
    }
    cnt % 2 == 1
}

/// Peeks at the token at `pos`: a closing token or a missing one raises an
/// end-of-input error carrying `message`.
fn next_token_or_err(toks: &Vec<String>, pos: usize, message: &str) -> (r: Result<(), RadError>)
    ensures
        match r {
            Ok(_) => pos < toks@.len() && !spec_is_closer(toks.deep_view()[pos as int]),
            Err(e) => (pos >= toks@.len() || spec_is_closer(toks.deep_view()[pos as int]))
                && e.kind == ErrorKind::EndOfInput && e.msg@ == message@,
        },
{
    if pos >= toks.len() {
        return Err(error_eof(message.to_owned()));
    }
    if is_ending_token(toks[pos].as_str()) {
        return Err(error_eof(message.to_owned()));
    }
    Ok(())
}

/// Reads one atom token: string, number, char, or symbol.
#[verifier::loop_isolation(false)]
pub fn read_atom(toks: &Vec<String>, pos: usize, gen: &mut IdGen) -> (r: Result<
    (RadNode, usize),
    RadError,
>)
    requires
        pos < toks@.len(),
        old(gen).next < usize::MAX,
    ensures
        old(gen).next <= final(gen).next <= old(gen).next + 1,
        match r {
            Ok((n, p2)) => spec_atom(toks.deep_view()[pos as int]) == Ok::<
                NodeV,
                (ErrorKind, Seq<char>),
            >(n@) && p2 == pos + 1,
            Err(e) => spec_atom(toks.deep_view()[pos as int]) == Err::<
                NodeV,
                (ErrorKind, Seq<char>),
            >((e.kind, e.msg@)),
        },
{
    let n: usize = toks.len();
    proof {
        assert(pos < n);
    }
    let text = &toks[pos];
    let tc = str_chars(text.as_str());
    proof {
        assert(toks.deep_view()[pos as int] == text@);
    }
    if tc.len() > 0 && tc[0] == '"' {
        if tc.len() == 1 || tc[tc.len() - 1] != '"' {
            return Err(error(
                "EOF; No terminating quote on this string.".to_owned(),
                ErrorKind::MalformedInput,
            ));
        }
        let inner = subvec(&tc, 1, tc.len() - 1);
        if ends_odd_backslash_chars(&inner) {
            return Err(error(
                "EOF; I don't like the cut of your jib.".to_owned(),
                ErrorKind::MalformedInput,
            ));
        }
        let inner_text = string_from_chars(&inner);
        let node = make_node(inner_text.as_str(), RadVal::String, gen);
        Ok((node, pos + 1))
    } else if number_token(&tc) {
        if at_most_one_dot(&tc) {
            let node = make_node(text.as_str(), RadVal::Number, gen);
            Ok((node, pos + 1))
        } else {
            Err(convert_error("invalid float literal".to_owned()))
        }
    } else if tc.len() > 0 && tc[0] == '\\' {
        if tc.len() == 1 || all_backslash_chars(&tc) {
            Err(error("EOF; Expected escaped char.".to_owned(), ErrorKind::MalformedInput))
        } else {
            let node = make_node(text.as_str(), RadVal::Char, gen);
            Ok((node, pos + 1))
        }
    } else {
        let node = make_node(text.as_str(), RadVal::Symbol, gen);
        Ok((node, pos + 1))
    }
}

/// Reads a quote form: the quote token and the form it wraps.
#[verifier::loop_isolation(false)]
pub fn read_quote(toks: &Vec<String>, pos: usize, gen: &mut IdGen) -> (r: Result<
    (RadNode, usize),
    RadError,
>)
    requires
        pos < toks@.len(),
        old(gen).next + toks@.len() - pos <= usize::MAX,
    ensures
        old(gen).next <= final(gen).next <= old(gen).next + (toks@.len() - pos),
        match r {
            Ok((n, p2)) => spec_read_quote(toks.deep_view(), pos as int) == ParseOut::Parsed(
                n@,
                p2 as int,
            ) && pos < p2 <= toks@.len() && final(gen).next <= old(gen).next + (p2 - pos),
            Err(e) => spec_read_quote(toks.deep_view(), pos as int) == ParseOut::Failed(
                e.kind,
                e.msg@,
            ),
        },
    decreases toks@.len() - pos, 0int,
{
    let n: usize = toks.len();
    proof {
        assert(pos < n);
    }
    let text = &toks[pos];
    match next_token_or_err(toks, pos + 1, "EOF; Quote what?") {
        Err(e) => {
            return Err(e);
        },
        Ok(_) => {},
    }
    let (q, p2) = match read_form(toks, pos + 1, gen) {
        Err(e) => {
            return Err(e);
        },
        Ok(x) => x,
    };
    let lval = match make_quote_val(text.as_str(), q) {
        Err(e) => {
            return Err(e);
        },
        Ok(v) => v,
    };
    let node = make_node(text.as_str(), lval, gen);
    Ok((node, p2))
}

/// Reads a meta form: `^`, the metadata form, then the target form.
#[verifier::loop_isolation(false)]
pub fn read_meta(toks: &Vec<String>, pos: usize, gen: &mut IdGen) -> (r: Result<
    (RadNode, usize),
    RadError,
>)
    requires
        pos < toks@.len(),
        old(gen).next + toks@.len() - pos <= usize::MAX,
    ensures
        old(gen).next <= final(gen).next <= old(gen).next + (toks@.len() - pos),
        match r {
            Ok((n, p2)) => spec_read_meta(toks.deep_view(), pos as int) == ParseOut::Parsed(
                n@,
                p2 as int,
            ) && pos < p2 <= toks@.len() && final(gen).next <= old(gen).next + (p2 - pos),
            Err(e) => spec_read_meta(toks.deep_view(), pos as int) == ParseOut::Failed(
                e.kind,
                e.msg@,
            ),
        },
    decreases toks@.len() - pos, 0int,
{
    let n: usize = toks.len();
    proof {
        assert(pos < n);
    }
    match next_token_or_err(toks, pos + 1, "EOF; Meta for what?") {
        Err(e) => {
            return Err(e);
        },
        Ok(_) => {},
    }
    let (meta, p2) = match read_form(toks, pos + 1, gen) {
        Err(e) => {
            return Err(e);
        },
        Ok(x) => x,
    };
    match next_token_or_err(toks, p2, "EOF; Meta for what?") {
        Err(e) => {
            return Err(e);
        },
        Ok(_) => {},
    }
    let (form, p3) = match read_form(toks, p2, gen) {
        Err(e) => {
            return Err(e);
        },
        Ok(x) => x,
    };
    let lval = make_meta_val(meta, form);
    proof {
        reveal_strlit("^");
        assert("^"@ =~= seq!['^']);
    }
    let node = make_node("^", lval, gen);
    Ok((node, p3))
}

/// Reads a bracketed collection: forms until the matching closer.
#[verifier::loop_isolation(false)]
pub fn read_list(toks: &Vec<String>, pos: usize, gen: &mut IdGen) -> (r: Result<
    (RadNode, usize),
    RadError,
>)
    requires
        pos < toks@.len(),
        old(gen).next + toks@.len() - pos <= usize::MAX,
    ensures
        old(gen).next <= final(gen).next <= old(gen).next + (toks@.len() - pos),
        match r {
            Ok((n, p2)) => spec_read_list(toks.deep_view(), pos as int) == ParseOut::Parsed(
                n@,
                p2 as int,
            ) && pos < p2 <= toks@.len() && final(gen).next <= old(gen).next + (p2 - pos),
            Err(e) => spec_read_list(toks.deep_view(), pos as int) == ParseOut::Failed(
                e.kind,
                e.msg@,
            ),
        },
    decreases toks@.len() - pos, 0int,
{
    let n: usize = toks.len();
    proof {
        assert(pos < n);
    }
    let ghost tv = toks.deep_view();
    let start_token = &toks[pos];
    let end_token = match ending_token(start_token.as_str()) {
        None => {
            let mut txt = "Not a valid listchar: ".to_owned();
            txt.append(start_token.as_str());
            return Err(error_invalid_data(txt));
        },
        Some(e) => e,
    };
    let ghost close = end_token@;
    let mut items: RadList = Vec::new();
    let mut p = pos + 1;
    proof {
        assert(view_nodes(items@) =~= Seq::<NodeV>::empty());
        assert(match spec_list_items(tv, close, p as int) {
            ItemsOut::Items(rest, q) => spec_list_items(tv, close, pos + 1) == ItemsOut::Items(
                view_nodes(items@) + rest,
                q,
            ),
            ItemsOut::NoItems(k, m) => spec_list_items(tv, close, pos + 1) == ItemsOut::NoItems(
                k,
                m,
            ),
        }) by {
            match spec_list_items(tv, close, pos + 1) {
                ItemsOut::Items(rest, q) => {
                    assert(view_nodes(items@) + rest =~= rest);
                },
                ItemsOut::NoItems(k, m) => {},
            }
        }
    }
    loop
        invariant
            pos + 1 <= p <= tv.len(),
            old(gen).next <= gen.next,
            gen.next + tv.len() - p <= usize::MAX,
            gen.next - old(gen).next <= p - pos - 1,
            match spec_list_items(tv, close, p as int) {
                ItemsOut::Items(rest, q) => spec_list_items(tv, close, pos + 1)
                    == ItemsOut::Items(view_nodes(items@) + rest, q),
                ItemsOut::NoItems(k, m) => spec_list_items(tv, close, pos + 1)
                    == ItemsOut::NoItems(k, m),
            },
        decreases tv.len() - p,
    {
        if p >= toks.len() {
            return Err(error_eof("EOF; Unterminated list!".to_owned()));
        }
        if str_equal(toks[p].as_str(), end_token) {
            let ghost itemsv = view_nodes(items@);
            proof {
                assert(tv[p as int] == close);
                assert(spec_list_items(tv, close, p as int) == ItemsOut::Items(
                    Seq::<NodeV>::empty(),
                    p + 1,
                ));
                assert(itemsv + Seq::<NodeV>::empty() =~= itemsv);
                assert(spec_list_items(tv, close, pos + 1) == ItemsOut::Items(itemsv, p + 1));
            }
            let lval = if is_map(start_token.as_str()) {
                let v = make_map_val(items, gen);
                proof {
                    assert(view_val(v) == ValV::MapV(spec_pairs(itemsv)));
                }
                v
            } else {
                match make_list_val(start_token.as_str(), items) {
                    Ok(v) => {
                        proof {
                            assert((start_token@ == seq!['('] && view_val(v) == ValV::ListV(
                                itemsv,
                            )) || (start_token@ == seq!['['] && view_val(v) == ValV::ArrayV(
                                itemsv,
                            )));
                        }
                        v
                    },
                    Err(e) => {
                        proof {
                            assert(false);
                        }
                        return Err(e);
                    },
                }
            };
            let mut txt = start_token.as_str().to_owned();
            txt.append(end_token);
            let node = make_node(txt.as_str(), lval, gen);
            proof {
                assert(tv[pos as int] == start_token@);
                assert(spec_closer(tv[pos as int]) == Some(close));
                assert(node@.text == start_token@ + close);
                assert(node@.val == view_val(lval));
                assert(node@ =~= (NodeV { text: tv[pos as int] + close, val: view_val(lval) }));
                assert(seq!['('] != seq!['{'] && seq!['['] != seq!['{'] && seq!['('] != seq![
                    '[',
                ]) by {
                    assert(seq!['('][0] == '(' && seq!['['][0] == '[' && seq!['{'][0] == '{');
                }
                assert(spec_read_list(tv, pos as int) == ParseOut::Parsed(node@, p + 1));
            }
            return Ok((node, p + 1));
        }
        let ghost prev_items = items@;
        let (f, p2) = match read_form(toks, p, gen) {
            Err(e) => {
                return Err(e);
            },
            Ok(x) => x,
        };
        items.push(f);
        proof {
            assert(view_nodes(items@) =~= view_nodes(prev_items).push(f@));
            let sli = spec_list_items(tv, close, p2 as int);
            match sli {
                ItemsOut::Items(rest, q) => {
                    assert(spec_list_items(tv, close, p as int) == ItemsOut::Items(
                        seq![f@] + rest,
                        q,
                    ));
                    assert(view_nodes(prev_items) + (seq![f@] + rest) =~= view_nodes(items@)
                        + rest);
                },
                ItemsOut::NoItems(k, m) => {
                    assert(spec_list_items(tv, close, p as int) == ItemsOut::NoItems(k, m));
                },
            }
        }
        p = p2;
    }
}

/// Reads one form at `pos`: a collection, a quote form, a meta form, or an
/// atom, reporting end of input if no token is left.
#[verifier::loop_isolation(false)]
pub fn read_form(toks: &Vec<String>, pos: usize, gen: &mut IdGen) -> (r: Result<
    (RadNode, usize),
    RadError,
>)
    requires
        pos <= toks@.len(),
        old(gen).next + toks@.len() - pos <= usize::MAX,
    ensures
        old(gen).next <= final(gen).next <= old(gen).next + (toks@.len() - pos),
        match r {
            Ok((n, p2)) => spec_read_form(toks.deep_view(), pos as int) == ParseOut::Parsed(
                n@,
                p2 as int,
            ) && pos < p2 <= toks@.len() && final(gen).next <= old(gen).next + (p2 - pos),
            Err(e) => spec_read_form(toks.deep_view(), pos as int) == ParseOut::Failed(
                e.kind,
                e.msg@,
            ),
        },
    decreases toks@.len() - pos, 1int,
{
    if pos >= toks.len() {
        return Err(error_eof("EOF; read_form".to_owned()));
    }
    let ts = toks[pos].as_str();
    proof {
        assert(toks.deep_view()[pos as int] == ts@);
    }
    if str_eq1(ts, '(') || str_eq1(ts, '[') || str_eq1(ts, '{') {
        read_list(toks, pos, gen)
    } else if str_eq1(ts, '\'') || str_eq1(ts, '`') || str_eq2(ts, '~', '@') || str_eq1(ts, '~')
        || str_eq1(ts, '@') {
        read_quote(toks, pos, gen)
    } else if str_eq1(ts, '^') {
        read_meta(toks, pos, gen)
    } else {
        read_atom(toks, pos, gen)
    }
}

/// What reading a whole text yields: the first form of its token list.
pub open spec fn spec_read(s: Seq<char>) -> Result<NodeV, (ErrorKind, Seq<char>)> {
    match spec_read_form(spec_tokenize(s), 0) {
        ParseOut::Parsed(n, _) => Ok(n),
        ParseOut::Failed(k, m) => Err((k, m)),
    }
}

/// A text never has more tokens than characters.
pub proof fn lemma_tokenize_len(s: Seq<char>)
    ensures
        spec_tokenize(s).len() <= s.len(),
    decreases s.len(),
{
    if s.len() == 0 {
    } else if is_sep(s[0]) {
        lemma_tokenize_len(s.skip(1));
    } else {
        let l = raw_token_len(s);
        let step: int = if 1 <= l <= s.len() {
            l
        } else {
            1
        };
        lemma_tokenize_len(s.skip(step));
    }
}

/// Reads a text: tokenizes it and parses its first form.  Tokens after that
/// form are ignored.
#[verifier::loop_isolation(false)]
pub fn read_str(input: &str, gen: &mut IdGen) -> (r: Result<RadNode, RadError>)
    requires
        old(gen).next + input@.len() <= usize::MAX,
    ensures
        old(gen).next <= final(gen).next <= old(gen).next + input@.len(),
        match r {
            Ok(n) => spec_read(input@) == Ok::<NodeV, (ErrorKind, Seq<char>)>(n@),
            Err(e) => spec_read(input@) == Err::<NodeV, (ErrorKind, Seq<char>)>((e.kind, e.msg@)),
        },
{
    let tokens = tokenize(input);
    proof {
        lemma_tokenize_len(input@);
    }
    match read_form(&tokens, 0, gen) {
        Ok((n, _)) => Ok(n),
        Err(e) => Err(e),
    }
}

pub proof fn lemma_meta_advances(toks: Seq<Seq<char>>, pos: int)
    ensures
        match spec_read_meta(toks, pos) {
            ParseOut::Parsed(n, p2) => pos < p2 <= toks.len() && size_node(n) <= p2 - pos,
            ParseOut::Failed(_, _) => true,
        },
    decreases toks.len() - pos, 0int,
{
    if 0 <= pos < toks.len() && pos + 1 < toks.len() && !spec_is_closer(toks[pos + 1]) {
        lemma_form_advances(toks, pos + 1);
        match spec_read_form(toks, pos + 1) {
            ParseOut::Parsed(_, p2) => {
                if pos + 1 < p2 <= toks.len() {
                    lemma_form_advances(toks, p2);
                }
            },
            ParseOut::Failed(_, _) => {},
        }
    }
}

} // verus!
