//! Expression trees and the recursive-descent parser.
//!
//! A group `( ... )` parses to `Empty` when it holds nothing, to a literal
//! `List` when its first value is the symbol `list`, and otherwise to an
//! `Operation` whose operator position carries the first value. Atoms parse
//! to the matching leaf. A close parenthesis where a value was expected, or
//! text that ends inside a group, aborts the whole parse.

use vstd::prelude::*;

use crate::num::{render_spec, Num};
use crate::tokenizer::{SpecToken, Token};

verus! {

broadcast use vstd::std_specs::vec::axiom_vec_index_decreases;

/// An expression tree.
#[derive(Debug)]
pub enum Ast {
    /// The empty group, doubling as the "no value" sentinel.
    Empty,
    Number(Num),
    Boolean(bool),
    Str(String),
    Symbol(String),
    List(Vec<Ast>),
    Operation { operator: Box<Ast>, operands: Vec<Ast> },
}

/// The mathematical shape of an expression tree.
pub enum SpecAst {
    Empty,
    Number(Num),
    Boolean(bool),
    Str(Seq<char>),
    Symbol(Seq<char>),
    List(Seq<SpecAst>),
    Operation { operator: Box<SpecAst>, operands: Seq<SpecAst> },
}

impl View for Ast {
    type V = SpecAst;

    open spec fn view(&self) -> SpecAst
        decreases self, 0int,
    {
        match self {
            Ast::Empty => SpecAst::Empty,
            Ast::Number(n) => SpecAst::Number(*n),
            Ast::Boolean(b) => SpecAst::Boolean(*b),
            Ast::Str(s) => SpecAst::Str(s@),
            Ast::Symbol(s) => SpecAst::Symbol(s@),
            Ast::List(items) => SpecAst::List(asts_view(*items, 0)),
            Ast::Operation { operator, operands } => SpecAst::Operation {
                operator: Box::new((**operator)@),
                operands: asts_view(*operands, 0),
            },
        }
    }
}

/// The views of the elements of `items` from position `i` on.
pub open spec fn asts_view(items: Vec<Ast>, i: int) -> Seq<SpecAst>
    decreases items, items@.len() - i,
{
    if i < 0 || i >= items@.len() {
        Seq::empty()
    } else {
        seq![items[i]@] + asts_view(items, i + 1)
    }
}

impl DeepView for Ast {
    type V = SpecAst;

    open spec fn deep_view(&self) -> SpecAst {
        self.view()
    }
}

/// The element views make up `asts_view`, which is the deep view of the
/// vector.
pub broadcast proof fn lemma_asts_view(items: Vec<Ast>)
    ensures
        #[trigger] asts_view(items, 0) == items.deep_view(),
{
    lemma_asts_view_from(items, 0);
    assert(asts_view(items, 0) =~= items.deep_view());
}

proof fn lemma_asts_view_from(items: Vec<Ast>, i: int)
    requires
        0 <= i <= items@.len(),
    ensures
        asts_view(items, i).len() == items@.len() - i,
        forall|j: int|
            i <= j < items@.len() ==> asts_view(items, i)[j - i] == #[trigger] items@[j]@,
    decreases items@.len() - i,
{
    if i < items@.len() {
        lemma_asts_view_from(items, i + 1);
        assert(asts_view(items, i) =~= seq![items[i]@] + asts_view(items, i + 1));
    } else {
        assert(asts_view(items, i) =~= Seq::<SpecAst>::empty());
    }
}

/// A structural copy; the copy has the same shape as the original.
#[verifier::loop_isolation(false)]
pub fn deep_copy(a: &Ast) -> (r: Ast)
    ensures
        r@ == a@,
    decreases a,
{
    match a {
        Ast::Empty => Ast::Empty,
        Ast::Number(n) => Ast::Number(*n),
        Ast::Boolean(b) => Ast::Boolean(*b),
        Ast::Str(s) => Ast::Str(s.clone()),
        Ast::Symbol(s) => Ast::Symbol(s.clone()),
        Ast::List(items) => {
            let mut out: Vec<Ast> = Vec::new();
            let n = items.len();
            let mut i: usize = 0;
            while i < n
                invariant
                    i <= n,
                    n == items@.len(),
                    out@.len() == i,
                    forall|j: int| 0 <= j < i ==> out@[j]@ == #[trigger] items@[j]@,
                decreases n - i,
            {
                let c = deep_copy(&items[i]);
                out.push(c);
                i = i + 1;
            }
            let r = Ast::List(out);
            proof {
                lemma_asts_view_from(out, 0);
                lemma_asts_view_from(*items, 0);
                assert forall|j: int| 0 <= j < out@.len() implies asts_view(out, 0)[j]
                    == asts_view(*items, 0)[j] by {
                    assert(out@[j]@ == items@[j]@);
                }
                assert(asts_view(out, 0) =~= asts_view(*items, 0));
            }
            r
        },
        Ast::Operation { operator, operands } => {
            let op = deep_copy(operator);
            let mut out: Vec<Ast> = Vec::new();
            let n = operands.len();
            let mut i: usize = 0;
            while i < n
                invariant
                    i <= n,
                    n == operands@.len(),
                    out@.len() == i,
                    forall|j: int| 0 <= j < i ==> out@[j]@ == #[trigger] operands@[j]@,
                decreases n - i,
            {
                let c = deep_copy(&operands[i]);
                out.push(c);
                i = i + 1;
            }
            let r = Ast::Operation { operator: Box::new(op), operands: out };
            proof {
                lemma_asts_view_from(out, 0);
                lemma_asts_view_from(*operands, 0);
                assert forall|j: int| 0 <= j < out@.len() implies asts_view(out, 0)[j]
                    == asts_view(*operands, 0)[j] by {
                    assert(out@[j]@ == operands@[j]@);
                }
                assert(asts_view(out, 0) =~= asts_view(*operands, 0));
            }
            r
        },
    }
}

// ---------------------------------------------------------------------------
// Rendering values for output.
// ---------------------------------------------------------------------------
/// What printing a value emits: numbers and booleans as their literals, a
/// string as its bare text, a list bracketed with comma-separated elements,
/// the sentinel as `None`, and the forms that have no printed shape as a
/// fixed placeholder.
pub open spec fn render_ast(a: SpecAst) -> Seq<char>
    decreases a, 0int,
{
    match a {
        SpecAst::Empty => "None"@,
        SpecAst::Number(n) => render_spec(n),
        SpecAst::Boolean(b) => if b {
            "true"@
        } else {
            "false"@
        },
        SpecAst::Str(s) => s,
        SpecAst::Symbol(_) => "[UNSERIALIZABLE]"@,
        SpecAst::List(items) => seq!['['] + render_items(items, items.len() as int) + seq![']'],
        SpecAst::Operation { .. } => "[UNSERIALIZABLE]"@,
    }
}

/// The rendering of the first `i` list elements, comma-separated.
pub open spec fn render_items(items: Seq<SpecAst>, i: int) -> Seq<char>
    decreases items, i,
{
    if i <= 0 || i > items.len() {
        Seq::empty()
    } else if i == 1 {
        render_ast(items[0])
    } else {
        render_items(items, i - 1) + seq![',', ' '] + render_ast(items[i - 1])
    }
}

/// Append the printed shape of `a` to `out`.
#[verifier::loop_isolation(false)]
pub fn render_into(a: &Ast, out: &mut Vec<char>)
    ensures
        final(out)@ == old(out)@ + render_ast(a@),
    decreases a,
{
    match a {
        Ast::Empty => {
            push_str_chars(out, "None");
        },
        Ast::Number(n) => {
            let mut cs = n.to_chars();
            out.append(&mut cs);
        },
        Ast::Boolean(b) => {
            if *b {
                push_str_chars(out, "true");
            } else {
                push_str_chars(out, "false");
            }
        },
        Ast::Str(s) => {
            let mut cs = crate::tokenizer::str_to_chars(s.as_str());
            out.append(&mut cs);
        },
        Ast::Symbol(_) => {
            push_str_chars(out, "[UNSERIALIZABLE]");
        },
        Ast::List(items) => {
            out.push('[');
            let n = items.len();
            let mut i: usize = 0;
            let ghost iv = a@->List_0;
            proof {
                lemma_asts_view_from(*items, 0);
            }
            while i < n
                invariant
                    i <= n,
                    n == items@.len(),
                    iv.len() == n,
                    forall|j: int| 0 <= j < n ==> iv[j] == #[trigger] items@[j]@,
                    out@ == old(out)@ + seq!['['] + render_items(iv, i as int),
                decreases n - i,
            {
                if i > 0 {
                    out.push(',');
                    out.push(' ');
                }
                render_into(&items[i], out);
                proof {
                    assert(out@ =~= old(out)@ + seq!['['] + render_items(iv, i + 1));
                }
                i = i + 1;
            }
            out.push(']');
            proof {
                assert(out@ =~= old(out)@ + render_ast(a@));
            }
        },
        Ast::Operation { .. } => {
            push_str_chars(out, "[UNSERIALIZABLE]");
        },
    }
}

/// The printed shape of `a` as a fresh character vector.
pub fn render_chars(a: &Ast) -> (r: Vec<char>)
    ensures
        r@ == render_ast(a@),
{
    let mut out: Vec<char> = Vec::new();
    render_into(a, &mut out);
    out
}

/// Append the characters of a literal to `out`.
pub fn push_str_chars(out: &mut Vec<char>, s: &str)
    ensures
        final(out)@ == old(out)@ + s@,
{
    let mut cs = crate::tokenizer::str_to_chars(s);
    out.append(&mut cs);
}

// ---------------------------------------------------------------------------
// Parsing.
// ---------------------------------------------------------------------------
/// A syntactic failure; either one aborts the whole parse.
#[derive(Debug, Clone, Copy, PartialEq, Eq, Structural)]
pub enum ParseError {
    /// A close parenthesis stood where a value was expected.
    UnexpectedCloseParenthesis,
    /// The tokens ended inside a group.
    UnexpectedEndOfInput,
}

/// What a finished group means: nothing is `Empty`; a group led by the
/// symbol `list` is a literal `List` of the remaining values; any other
/// group is an `Operation` led by its first value.
pub open spec fn finish_group(vals: Seq<SpecAst>) -> SpecAst {
    if vals.len() == 0 {
        SpecAst::Empty
    } else if vals[0] == SpecAst::Symbol("list"@) {
        SpecAst::List(vals.drop_first())
    } else {
        SpecAst::Operation { operator: Box::new(vals[0]), operands: vals.drop_first() }
    }
}

/// A group-element position moved at least one token on and stayed within
/// bounds; the parser's results always do, so this only shapes the
/// recursion.
pub open spec fn clamp_pos(p2: int, pos: int, len: int) -> int {
    if p2 <= pos {
        pos + 1
    } else if p2 > len {
        len
    } else {
        p2
    }
}

/// Parse one value at `pos`: the value and the position after it, or the
/// first syntactic failure.
pub open spec fn parse_from(ts: Seq<SpecToken>, pos: int) -> Result<(SpecAst, int), ParseError>
    decreases ts.len() - pos, 0int,
{
    if pos < 0 || pos >= ts.len() {
        Err(ParseError::UnexpectedEndOfInput)
    } else {
        match ts[pos] {
            SpecToken::Number(n) => Ok((SpecAst::Number(n), pos + 1)),
            SpecToken::StringLiteral(s) => Ok((SpecAst::Str(s), pos + 1)),
            SpecToken::Symbol(s) => Ok((SpecAst::Symbol(s), pos + 1)),
            SpecToken::Boolean(b) => Ok((SpecAst::Boolean(b), pos + 1)),
            SpecToken::CloseParenthesis => Err(ParseError::UnexpectedCloseParenthesis),
            SpecToken::OpenParenthesis => parse_group(ts, pos + 1, Seq::empty()),
        }
    }
}

/// Parse the rest of an open group, the values seen so far in `acc`.
pub open spec fn parse_group(ts: Seq<SpecToken>, pos: int, acc: Seq<SpecAst>) -> Result<
    (SpecAst, int),
    ParseError,
>
    decreases ts.len() - pos, 1int,
{
    if pos < 0 || pos >= ts.len() {
        Err(ParseError::UnexpectedEndOfInput)
    } else if ts[pos] is CloseParenthesis {
        Ok((finish_group(acc), pos + 1))
    } else {
        match parse_from(ts, pos) {
            Err(e) => Err(e),
            Ok((a, p2)) => parse_group(ts, clamp_pos(p2, pos, ts.len() as int), acc.push(a)),
        }
    }
}

/// Parse every top-level form in order.
pub open spec fn gen_from(ts: Seq<SpecToken>, pos: int) -> Result<Seq<SpecAst>, ParseError>
    decreases ts.len() - pos, 2int,
{
    if pos < 0 || pos >= ts.len() {
        Ok(Seq::empty())
    } else {
        match parse_from(ts, pos) {
            Err(e) => Err(e),
            Ok((a, p2)) => match gen_from(ts, clamp_pos(p2, pos, ts.len() as int)) {
                Err(e) => Err(e),
                Ok(rest) => Ok(seq![a] + rest),
            },
        }
    }
}

/// What a whole token sequence parses to.
pub open spec fn parse_all(ts: Seq<SpecToken>) -> Result<Seq<SpecAst>, ParseError> {
    gen_from(ts, 0)
}

/// Forms already parsed, joined with the outcome of parsing the rest.
pub open spec fn gen_join(done: Seq<SpecAst>, rest: Result<Seq<SpecAst>, ParseError>) -> Result<
    Seq<SpecAst>,
    ParseError,
> {
    match rest {
        Ok(asts) => Ok(done + asts),
        Err(e) => Err(e),
    }
}

fn is_list_symbol(s: &String) -> (b: bool)
    ensures
        b == (s@ == "list"@),
{
    let cs = crate::tokenizer::str_to_chars(s.as_str());
    let r = cs.len() == 4 && cs[0] == 'l' && cs[1] == 'i' && cs[2] == 's' && cs[3] == 't';
    proof {
        reveal_strlit("list");
        if r {
            assert(s@ =~= "list"@);
        } else {
            if s@ == "list"@ {
                assert(cs@[0] == 'l' && cs@[1] == 'i' && cs@[2] == 's' && cs@[3] == 't'
                    && cs@.len() == 4);
            }
        }
    }
    r
}

/// Parse one value from `pos` on. On success the consumed range is
/// `pos..p2`; on failure the error is the one `parse_from` names.
#[verifier::loop_isolation(false)]
fn parse_at(tokens: &Vec<Token>, pos: usize) -> (r: (Result<Ast, ParseError>, usize))
    requires
        pos <= tokens@.len(),
    ensures
        ({
            let (res, p2) = r;
            match res {
                Ok(a) => parse_from(tokens.deep_view(), pos as int) == Ok::<
                    (SpecAst, int),
                    ParseError,
                >((a@, p2 as int)) && pos < p2 && p2 <= tokens@.len(),
                Err(e) => parse_from(tokens.deep_view(), pos as int) == Err::<
                    (SpecAst, int),
                    ParseError,
                >(e),
            }
        }),
    decreases tokens@.len() - pos,
{
    let ghost tsv = tokens.deep_view();
    proof {
        assert(tsv.len() == tokens@.len());
    }
    if pos >= tokens.len() {
        return (Err(ParseError::UnexpectedEndOfInput), pos);
    }
    proof {
        assert(tsv[pos as int] == tokens@[pos as int]@);
    }
    match &tokens[pos] {
        Token::Number(n) => (Ok(Ast::Number(*n)), pos + 1),
        Token::StringLiteral(s) => (Ok(Ast::Str(s.clone())), pos + 1),
        Token::Symbol(s) => (Ok(Ast::Symbol(s.clone())), pos + 1),
        Token::Boolean(b) => (Ok(Ast::Boolean(*b)), pos + 1),
        Token::CloseParenthesis => (Err(ParseError::UnexpectedCloseParenthesis), pos),
        Token::OpenParenthesis => {
            let mut vals: Vec<Ast> = Vec::new();
            let mut p = pos + 1;
            proof {
                assert(vals.deep_view() =~= Seq::<SpecAst>::empty());
            }
            while p < tokens.len()
                invariant
                    pos + 1 <= p <= tokens@.len(),
                    parse_group(tsv, pos + 1, Seq::empty()) == parse_group(
                        tsv,
                        p as int,
                        vals.deep_view(),
                    ),
                decreases tokens@.len() - p,
            {
                proof {
                    assert(tsv[p as int] == tokens@[p as int]@);
                }
                let is_close = match &tokens[p] {
                    Token::CloseParenthesis => true,
                    _ => false,
                };
                if is_close {
                    let ghost gvals = vals.deep_view();
                    proof {
                        assert(parse_group(tsv, p as int, gvals) == Ok::<
                            (SpecAst, int),
                            ParseError,
                        >((finish_group(gvals), p + 1)));
                    }
                    if vals.len() == 0 {
                        return (Ok(Ast::Empty), p + 1);
                    }
                    let ghost prev_exec = vals@;
                    let first = vals.remove(0);
                    proof {
                        assert(vals@ =~= prev_exec.drop_first());
                        assert(vals.deep_view() =~= gvals.drop_first()) by {
                            assert(forall|j: int|
                                0 <= j < vals@.len() ==> vals@[j] == #[trigger] prev_exec[j + 1]);
                        }
                        assert(first@ == gvals[0]);
                    }
                    let take_list = match &first {
                        Ast::Symbol(s) => is_list_symbol(s),
                        _ => false,
                    };
                    proof {
                        lemma_asts_view(vals);
                        assert(take_list == (gvals[0] == SpecAst::Symbol("list"@)));
                    }
                    if take_list {
                        let r = Ast::List(vals);
                        proof {
                            assert(r@ == finish_group(gvals));
                        }
                        return (Ok(r), p + 1);
                    }
                    let r = Ast::Operation { operator: Box::new(first), operands: vals };
                    proof {
                        assert(r@ == finish_group(gvals));
                    }
                    return (Ok(r), p + 1);
                }
                let (r2, p2) = parse_at(tokens, p);
                match r2 {
                    Err(e) => {
                        return (Err(e), p2);
                    },
                    Ok(a) => {
                        let ghost prevv = vals.deep_view();
                        vals.push(a);
                        proof {
                            assert(vals.deep_view() =~= prevv.push(a@));
                            assert(clamp_pos(p2 as int, p as int, tsv.len() as int) == p2 as int);
                        }
                        p = p2;
                    },
                }
            }
            (Err(ParseError::UnexpectedEndOfInput), p)
        },
    }
}

/// Turn a token sequence into the expression trees of its top-level forms,
/// in order, or report the first syntactic failure. The result is exactly
/// what `parse_all` says of the tokens.
#[verifier::loop_isolation(false)]
pub fn generate(tokens: &Vec<Token>) -> (r: Result<Vec<Ast>, ParseError>)
    ensures
        match r {
            Ok(asts) => parse_all(tokens.deep_view()) == Ok::<Seq<SpecAst>, ParseError>(
                asts.deep_view(),
            ),
            Err(e) => parse_all(tokens.deep_view()) == Err::<Seq<SpecAst>, ParseError>(e),
        },
{
    let ghost tsv = tokens.deep_view();
    proof {
        assert(tsv.len() == tokens@.len());
    }
    let mut asts: Vec<Ast> = Vec::new();
    let mut pos: usize = 0;
    proof {
        if gen_from(tsv, 0) is Ok {
            assert(asts.deep_view() + gen_from(tsv, 0)->Ok_0 =~= gen_from(tsv, 0)->Ok_0);
        }
    }
    while pos < tokens.len()
        invariant
            pos <= tokens@.len(),
            gen_join(asts.deep_view(), gen_from(tsv, pos as int)) == gen_from(tsv, 0),
        decreases tokens@.len() - pos,
    {
        let (r2, p2) = parse_at(tokens, pos);
        match r2 {
            Err(e) => {
                return Err(e);
            },
            Ok(a) => {
                let ghost prevv = asts.deep_view();
                asts.push(a);
                proof {
                    assert(clamp_pos(p2 as int, pos as int, tsv.len() as int) == p2 as int);
                    assert(asts.deep_view() =~= prevv.push(a@));
                    lemma_gen_join_step(tsv, prevv, asts.deep_view(), pos as int, p2 as int, a@);
                }
                pos = p2;
            },
        }
    }
    proof {
        assert(gen_from(tsv, pos as int) == Ok::<Seq<SpecAst>, ParseError>(Seq::empty()));
        if gen_from(tsv, 0) is Ok {
            assert(asts.deep_view() + Seq::<SpecAst>::empty() =~= asts.deep_view());
        }
    }
    Ok(asts)
}

/// One parsed form keeps the running join equal to the whole parse.
proof fn lemma_gen_join_step(
    ts: Seq<SpecToken>,
    prev: Seq<SpecAst>,
    cur: Seq<SpecAst>,
    pos: int,
    p2: int,
    a: SpecAst,
)
    requires
        0 <= pos < ts.len(),
        parse_from(ts, pos) == Ok::<(SpecAst, int), ParseError>((a, p2)),
        clamp_pos(p2, pos, ts.len() as int) == p2,
        cur == prev.push(a),
        gen_join(prev, gen_from(ts, pos)) == gen_from(ts, 0),
    ensures
        gen_join(cur, gen_from(ts, p2)) == gen_from(ts, 0),
{
    match gen_from(ts, p2) {
        Ok(rest) => {
            assert(prev + (seq![a] + rest) =~= cur + rest);
        },
        Err(e) => {},
    }
}

} // verus!
