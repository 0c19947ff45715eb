//! The canonical source formatter.
//!
//! Atoms print as their literals, a list as `(list ...)`, and an operation
//! either on one line or, when the one-line form grows past forty
//! characters, spread over lines indented with tabs; a `while` keeps its
//! condition beside the keyword. The formatter only reads trees; it has no
//! evaluation semantics.

use vstd::prelude::*;

use crate::ast::{finish_group, gen_from, parse_all, parse_from, parse_group, Ast, ParseError, SpecAst};
use crate::num::{is_digit, render_spec};
use crate::tokenizer::{
    is_delim, is_space, lemma_quote_len_at, lex_cons, lex_from, lex_join, lex_spec, min_nat,
    quote_len, token_len, LexError, SpecToken,
};

verus! {

broadcast use vstd::std_specs::vec::axiom_vec_index_decreases;

/// `d` tab characters.
pub open spec fn tabs(d: nat) -> Seq<char> {
    Seq::new(d, |i: int| '\t')
}

/// The canonical text of an expression at nesting depth `depth`.
pub open spec fn format_spec(a: SpecAst, depth: nat) -> Seq<char>
    decreases a, 0int,
{
    match a {
        SpecAst::Empty => "None"@,
        SpecAst::Number(n) => render_spec(n),
        SpecAst::Boolean(b) => if b {
            "true"@
        } else {
            "false"@
        },
        SpecAst::Str(s) => seq!['"'] + s + seq!['"'],
        SpecAst::Symbol(s) => s,
        SpecAst::List(items) => "(list"@ + fmt_items(items, 0, depth + 1) + seq![
            ')',
        ],
        SpecAst::Operation { operator, operands } => {
            let op = format_spec(*operator, (depth + 1) as nat);
            let inline = seq!['('] + op + fmt_items(operands, 0, (depth + 1) as nat) + seq![
                ')',
            ];
            if inline.len() > 40 {
                seq!['('] + op + fmt_multi(
                    operands,
                    0,
                    (depth + 1) as nat,
                    op == "while"@,
                ) + seq!['\n'] + tabs(depth) + seq![')']
            } else {
                inline
            }
        },
    }
}

/// The elements from position `i` on, each after one space; the one-line
/// shape of list elements and inline operands.
pub open spec fn fmt_items(items: Seq<SpecAst>, i: int, depth: nat) -> Seq<char>
    decreases items, items.len() - i,
{
    if i < 0 || i >= items.len() {
        Seq::empty()
    } else {
        seq![' '] + format_spec(items[i], depth) + fmt_items(items, i + 1, depth)
    }
}

/// The operands from position `i` on in spread form: each on its own
/// indented line, except a `while` condition, which stays on the keyword's
/// line.
pub open spec fn fmt_multi(ops: Seq<SpecAst>, i: int, depth: nat, opwhile: bool) -> Seq<char>
    decreases ops, ops.len() - i,
{
    if i < 0 || i >= ops.len() {
        Seq::empty()
    } else {
        (if opwhile && i == 0 {
            seq![' ']
        } else {
            seq!['\n'] + tabs(depth)
        }) + format_spec(ops[i], depth) + fmt_multi(ops, i + 1, depth, opwhile)
    }
}

fn copy_chars(v: &Vec<char>) -> (r: Vec<char>)
    ensures
        r@ == v@,
{
    let mut r: Vec<char> = Vec::new();
    let mut i: usize = 0;
    while i < v.len()
        invariant
            i <= v@.len(),
            r@ == v@.take(i as int),
        decreases v@.len() - i,
    {
        r.push(v[i]);
        proof {
            assert(r@ =~= v@.take(i + 1));
        }
        i = i + 1;
    }
    proof {
        assert(r@ =~= v@);
    }
    r
}

/// Format one expression; `indent` holds one tab per nesting level.
#[verifier::loop_isolation(false)]
#[verifier::rlimit(40)]
fn format_part(a: &Ast, indent: &Vec<char>) -> (r: Vec<char>)
    requires
        indent@ == tabs(indent@.len()),
    ensures
        r@ == format_spec(a@, indent@.len()),
    decreases a,
{
    let ghost depth = indent@.len();
    match a {
        Ast::Empty => {
            let mut out: Vec<char> = Vec::new();
            crate::ast::push_str_chars(&mut out, "None");
            proof {
                assert(out@ =~= format_spec(a@, depth));
            }
            out
        },
        Ast::Number(n) => n.to_chars(),
        Ast::Boolean(b) => {
            let mut out: Vec<char> = Vec::new();
            if *b {
                crate::ast::push_str_chars(&mut out, "true");
            } else {
                crate::ast::push_str_chars(&mut out, "false");
            }
            proof {
                assert(out@ =~= format_spec(a@, depth));
            }
            out
        },
        Ast::Str(s) => {
            let mut out: Vec<char> = Vec::new();
            out.push('"');
            let mut cs = crate::tokenizer::str_to_chars(s.as_str());
            out.append(&mut cs);
            out.push('"');
            proof {
                assert(out@ =~= format_spec(a@, depth));
            }
            out
        },
        Ast::Symbol(s) => crate::tokenizer::str_to_chars(s.as_str()),
        Ast::List(items) => {
            let ghost itemsv = a@->List_0;
            proof {
                crate::ast::lemma_asts_view(*items);
            }
            let mut deeper = copy_chars(indent);
            deeper.push('\t');
            proof {
                assert(deeper@ =~= tabs(depth + 1));
            }
            let mut out: Vec<char> = Vec::new();
            crate::ast::push_str_chars(&mut out, "(list");
            let mut i: usize = 0;
            while i < items.len()
                invariant
                    i <= items@.len(),
                    out@ + fmt_items(itemsv, i as int, depth + 1) == "(list"@ + fmt_items(
                        itemsv,
                        0,
                        depth + 1,
                    ),
                decreases items@.len() - i,
            {
                proof {
                    assert(itemsv[i as int] == items@[i as int]@);
                }
                let ghost before = out@;
                out.push(' ');
                let mut part = format_part(&items[i], &deeper);
                out.append(&mut part);
                proof {
                    assert(out@ + fmt_items(itemsv, i + 1, depth + 1) =~= before + fmt_items(
                        itemsv,
                        i as int,
                        depth + 1,
                    ));
                }
                i = i + 1;
            }
            proof {
                assert(fmt_items(itemsv, items@.len() as int, depth + 1) =~= Seq::<
                    char,
                >::empty());
                assert(out@ =~= "(list"@ + fmt_items(itemsv, 0, depth + 1));
            }
            out.push(')');
            proof {
                assert(out@ =~= format_spec(a@, depth));
            }
            out
        },
        Ast::Operation { operator, operands } => {
            let ghost opsv = a@->Operation_operands;
            proof {
                crate::ast::lemma_asts_view(*operands);
            }
            let mut deeper = copy_chars(indent);
            deeper.push('\t');
            proof {
                assert(deeper@ =~= tabs(depth + 1));
            }
            let opf = format_part(operator, &deeper);
            let opwhile = opf.len() == 5 && opf[0] == 'w' && opf[1] == 'h' && opf[2] == 'i'
                && opf[3] == 'l' && opf[4] == 'e';
            let ghost opv = format_spec(*a@->Operation_operator, depth + 1);
            proof {
                reveal_strlit("while");
                assert(opwhile == (opv == "while"@)) by {
                    if opwhile {
                        assert(opf@ =~= "while"@);
                    } else {
                        if opv == "while"@ {
                            assert(opf@[0] == 'w' && opf@[1] == 'h' && opf@[2] == 'i' && opf@[3]
                                == 'l' && opf@[4] == 'e' && opf@.len() == 5);
                        }
                    }
                }
            }
            let mut inline: Vec<char> = Vec::new();
            inline.push('(');
            let mut opc = copy_chars(&opf);
            inline.append(&mut opc);
            let mut multi: Vec<char> = Vec::new();
            multi.push('(');
            let mut opc2 = copy_chars(&opf);
            multi.append(&mut opc2);
            let mut i: usize = 0;
            while i < operands.len()
                invariant
                    i <= operands@.len(),
                    inline@ + fmt_items(opsv, i as int, depth + 1) == seq!['('] + opv
                        + fmt_items(opsv, 0, depth + 1),
                    multi@ + fmt_multi(opsv, i as int, depth + 1, opwhile) == seq!['('] + opv
                        + fmt_multi(opsv, 0, depth + 1, opwhile),
                decreases operands@.len() - i,
            {
                proof {
                    assert(opsv[i as int] == operands@[i as int]@);
                }
                let ghost inline0 = inline@;
                let ghost multi0 = multi@;
                let mut part = format_part(&operands[i], &deeper);
                inline.push(' ');
                let mut pc = copy_chars(&part);
                inline.append(&mut pc);
                if opwhile && i == 0 {
                    multi.push(' ');
                } else {
                    multi.push('\n');
                    let mut tc = copy_chars(&deeper);
                    multi.append(&mut tc);
                }
                multi.append(&mut part);
                proof {
                    assert(inline@ + fmt_items(opsv, i + 1, depth + 1) =~= inline0 + fmt_items(
                        opsv,
                        i as int,
                        depth + 1,
                    ));
                    assert(multi@ + fmt_multi(opsv, i + 1, depth + 1, opwhile) =~= multi0
                        + fmt_multi(opsv, i as int, depth + 1, opwhile));
                }
                i = i + 1;
            }
            proof {
                assert(fmt_items(opsv, operands@.len() as int, depth + 1) =~= Seq::<
                    char,
                >::empty());
                assert(fmt_multi(opsv, operands@.len() as int, depth + 1, opwhile) =~= Seq::<
                    char,
                >::empty());
                assert(inline@ =~= seq!['('] + opv + fmt_items(opsv, 0, depth + 1));
                assert(multi@ =~= seq!['('] + opv + fmt_multi(opsv, 0, depth + 1, opwhile));
            }
            inline.push(')');
            if inline.len() > 40 {
                multi.push('\n');
                let mut tc = copy_chars(indent);
                multi.append(&mut tc);
                multi.push(')');
                proof {
                    assert(multi@ =~= format_spec(a@, depth));
                }
                multi
            } else {
                proof {
                    assert(inline@ =~= format_spec(a@, depth));
                }
                inline
            }
        },
    }
}

/// The token sequence the canonical text of an expression lexes to.
pub open spec fn toks_of(e: SpecAst) -> Seq<SpecToken>
    decreases e, 0int,
{
    match e {
        SpecAst::Number(n) => seq![SpecToken::Number(n)],
        SpecAst::Boolean(b) => seq![SpecToken::Boolean(b)],
        SpecAst::Str(s) => seq![SpecToken::StringLiteral(s)],
        SpecAst::Symbol(s) => seq![SpecToken::Symbol(s)],
        SpecAst::List(items) => seq![
            SpecToken::OpenParenthesis,
            SpecToken::Symbol("list"@),
        ] + toks_list(items, 0) + seq![SpecToken::CloseParenthesis],
        SpecAst::Operation { operator, operands } => seq![SpecToken::OpenParenthesis] + toks_of(
            *operator,
        ) + toks_list(operands, 0) + seq![SpecToken::CloseParenthesis],
        SpecAst::Empty => Seq::empty(),
    }
}

/// The tokens of the elements from position `i` on.
pub open spec fn toks_list(items: Seq<SpecAst>, i: int) -> Seq<SpecToken>
    decreases items, items.len() - i,
{
    if i < 0 || i >= items.len() {
        Seq::empty()
    } else {
        toks_of(items[i]) + toks_list(items, i + 1)
    }
}

/// Whether an expression survives the trip through its canonical text: a
/// non-negative number, a boolean, a string with no quote in it, a symbol
/// shaped as the lexer would produce one, or a list or operation of such
/// expressions whose operator is not the reserved symbol `list`. The empty
/// group does not survive: its text reads back as a symbol.
pub open spec fn reparsable(e: SpecAst) -> bool
    decreases e, 0int,
{
    match e {
        SpecAst::Number(n) => n.normalized() && n.mantissa() >= 0,
        SpecAst::Boolean(_) => true,
        SpecAst::Str(s) => forall|j: int| 0 <= j < s.len() ==> s[j] != '"',
        SpecAst::Symbol(s) => {
            &&& s.len() > 0
            &&& !is_digit(s[0])
            &&& s != "true"@
            &&& s != "false"@
            &&& forall|j: int| 0 <= j < s.len() ==> !is_delim(#[trigger] s[j]) && s[j] != '"'
        },
        SpecAst::List(items) => reparsable_list(items, 0),
        SpecAst::Operation { operator, operands } => {
            &&& reparsable(*operator)
            &&& *operator != SpecAst::Symbol("list"@)
            &&& reparsable_list(operands, 0)
        },
        SpecAst::Empty => false,
    }
}

/// Whether every element from position `i` on is reparsable.
pub open spec fn reparsable_list(items: Seq<SpecAst>, i: int) -> bool
    decreases items, items.len() - i,
{
    if i < 0 || i >= items.len() {
        true
    } else {
        reparsable(items[i]) && reparsable_list(items, i + 1)
    }
}

/// A reparsable expression has tokens, and never opens with a close
/// parenthesis.
proof fn lemma_toks_first(e: SpecAst)
    requires
        reparsable(e),
    ensures
        toks_of(e).len() >= 1,
        toks_of(e)[0] != SpecToken::CloseParenthesis,
{
}

/// One token parses as one atom.
proof fn lemma_parse_atom(ts: Seq<SpecToken>, i: int, e: SpecAst)
    requires
        0 <= i < ts.len(),
        reparsable(e),
        !(e is List),
        !(e is Operation),
        ts[i] == toks_of(e)[0],
    ensures
        parse_from(ts, i) == Ok::<(SpecAst, int), ParseError>((e, i + 1)),
{
}

/// The tokens of an expression parse back to the expression.
proof fn lemma_parse_piece(ts: Seq<SpecToken>, i: int, j: int, e: SpecAst)
    requires
        0 <= i <= j <= ts.len(),
        ts.subrange(i, j) == toks_of(e),
        reparsable(e),
    ensures
        parse_from(ts, i) == Ok::<(SpecAst, int), ParseError>((e, j)),
    decreases e, 0int,
{
    let tks = toks_of(e);
    assert(tks.len() == j - i);
    assert(forall|p: int| #![trigger ts[p]] i <= p < j ==> ts[p] == tks[p - i]);
    match e {
        SpecAst::Number(_) => {
            assert(tks.len() == 1);
            assert(ts[i] == tks[0]);
            lemma_parse_atom(ts, i, e);
        },
        SpecAst::Boolean(_) => {
            assert(tks.len() == 1);
            assert(ts[i] == tks[0]);
            lemma_parse_atom(ts, i, e);
        },
        SpecAst::Str(_) => {
            assert(tks.len() == 1);
            assert(ts[i] == tks[0]);
            lemma_parse_atom(ts, i, e);
        },
        SpecAst::Symbol(_) => {
            assert(tks.len() == 1);
            assert(ts[i] == tks[0]);
            lemma_parse_atom(ts, i, e);
        },
        SpecAst::List(items) => {
            assert(tks[0] == SpecToken::OpenParenthesis);
            assert(tks[1] == SpecToken::Symbol("list"@));
            assert(tks[j - i - 1] == SpecToken::CloseParenthesis);
            assert(ts[i] == SpecToken::OpenParenthesis);
            assert(ts[i + 1] == SpecToken::Symbol("list"@));
            assert(ts[j - 1] == SpecToken::CloseParenthesis);
            assert(ts.subrange(i + 2, j - 1) =~= toks_list(items, 0));
            assert(parse_from(ts, i + 1) == Ok::<(SpecAst, int), ParseError>((
                SpecAst::Symbol("list"@),
                i + 2,
            )));
            assert(crate::ast::clamp_pos(i + 2, i + 1, ts.len() as int) == i + 2);
            assert(parse_group(ts, i + 1, Seq::empty()) == parse_group(ts, i + 2,
                Seq::empty().push(SpecAst::Symbol("list"@))));
            lemma_parse_run(ts, i + 2, j - 1, items, 0, Seq::empty().push(
                SpecAst::Symbol("list"@),
            ));
            let vals = Seq::empty().push(SpecAst::Symbol("list"@)) + items.skip(0);
            assert(vals[0] == SpecAst::Symbol("list"@));
            assert(vals.drop_first() =~= items);
            assert(finish_group(vals) == SpecAst::List(items));
            assert(parse_from(ts, i) == parse_group(ts, i + 1, Seq::empty()));
        },
        SpecAst::Operation { operator, operands } => {
            assert(tks[0] == SpecToken::OpenParenthesis);
            assert(tks[j - i - 1] == SpecToken::CloseParenthesis);
            assert(ts[i] == SpecToken::OpenParenthesis);
            assert(ts[j - 1] == SpecToken::CloseParenthesis);
            lemma_toks_first(*operator);
            lemma_toks_first(e);
            let m = i + 1 + toks_of(*operator).len();
            assert(ts.subrange(i + 1, m) =~= toks_of(*operator));
            assert(ts.subrange(m, j - 1) =~= toks_list(operands, 0));
            assert(decreases_to!(e, 0int => *operator, 0int)) by {
                assert(decreases_to!(e => e->Operation_operator));
            }
            lemma_parse_piece(ts, i + 1, m, *operator);
            assert(ts[i + 1] == toks_of(*operator)[0]);
            assert(!(ts[i + 1] is CloseParenthesis));
            assert(crate::ast::clamp_pos(m, i + 1, ts.len() as int) == m);
            assert(parse_group(ts, i + 1, Seq::empty()) == parse_group(ts, m,
                Seq::empty().push(*operator)));
            lemma_parse_run(ts, m, j - 1, operands, 0, Seq::empty().push(*operator));
            let vals = Seq::empty().push(*operator) + operands.skip(0);
            assert(vals[0] == *operator);
            assert(vals[0] != SpecAst::Symbol("list"@));
            assert(vals.drop_first() =~= operands);
            assert(finish_group(vals) == e);
            assert(parse_from(ts, i) == parse_group(ts, i + 1, Seq::empty()));
        },
        SpecAst::Empty => {},
    }
}

/// The tokens of the elements from `k` on, followed by a close parenthesis,
/// finish the open group whose earlier values stand in `acc`.
proof fn lemma_parse_run(
    ts: Seq<SpecToken>,
    p: int,
    q: int,
    items: Seq<SpecAst>,
    k: int,
    acc: Seq<SpecAst>,
)
    requires
        0 <= p <= q < ts.len(),
        0 <= k <= items.len(),
        ts.subrange(p, q) == toks_list(items, k),
        reparsable_list(items, k),
        ts[q] == SpecToken::CloseParenthesis,
    ensures
        parse_group(ts, p, acc) == Ok::<(SpecAst, int), ParseError>((
            finish_group(acc + items.skip(k)),
            q + 1,
        )),
    decreases items, items.len() - k,
{
    let tl = toks_list(items, k);
    assert(tl.len() == q - p);
    assert(forall|r: int| #![trigger ts[r]] p <= r < q ==> ts[r] == tl[r - p]);
    if k >= items.len() {
        assert(tl =~= Seq::<SpecToken>::empty());
        assert(p == q);
        assert(acc + items.skip(k) =~= acc);
    } else {
        lemma_toks_first(items[k]);
        assert(tl == toks_of(items[k]) + toks_list(items, k + 1));
        let m = p + toks_of(items[k]).len();
        assert(p < m <= q);
        assert(ts[p] == tl[0]);
        assert(tl[0] == toks_of(items[k])[0]);
        assert(!(ts[p] is CloseParenthesis));
        assert(ts.subrange(p, m) =~= toks_of(items[k]));
        assert(ts.subrange(m, q) =~= toks_list(items, k + 1));
        lemma_parse_piece(ts, p, m, items[k]);
        assert(crate::ast::clamp_pos(m, p, ts.len() as int) == m);
        lemma_parse_run(ts, m, q, items, k + 1, acc.push(items[k]));
        assert(acc.push(items[k]) + items.skip(k + 1) =~= acc + items.skip(k));
    }
}

// ---------------------------------------------------------------------------
// The round trip: canonical text lexes and parses back to the tree.
// ---------------------------------------------------------------------------
proof fn lemma_cons_join(t: SpecToken, r: Result<Seq<SpecToken>, LexError>)
    ensures
        lex_cons(t, r) == lex_join(seq![t], r),
{
}

proof fn lemma_join_assoc(a: Seq<SpecToken>, b: Seq<SpecToken>, r: Result<Seq<SpecToken>, LexError>)
    ensures
        lex_join(a, lex_join(b, r)) == lex_join(a + b, r),
{
    match r {
        Ok(ts) => {
            assert(a + (b + ts) =~= (a + b) + ts);
        },
        Err(_) => {},
    }
}

/// Lexing skips a stretch of whitespace.
proof fn lemma_ws_run(s: Seq<char>, i: nat, j: nat)
    requires
        i <= j <= s.len(),
        forall|r: int| i <= r < j ==> is_space(#[trigger] s[r]),
    ensures
        lex_from(s, i) == lex_from(s, j),
    decreases j - i,
{
    if i < j {
        lemma_ws_run(s, (i + 1) as nat, j);
    }
}

/// A bare token ends exactly at the next delimiter or at the end.
proof fn lemma_token_len_until(s: Seq<char>, i: nat, j: int)
    requires
        i <= j <= s.len(),
        forall|r: int| i <= r < j ==> !is_delim(#[trigger] s[r]),
        j == s.len() || is_delim(s[j]),
    ensures
        token_len(s, i) == j - i,
    decreases j - i,
{
    if i < j {
        lemma_token_len_until(s, (i + 1) as nat, j);
    }
}

/// The canonical text of a reparsable expression, standing in `s` between
/// `i` and `j` with a delimiter or the end right after it, lexes to its
/// tokens and hands the lexer on to `j`.
#[verifier::rlimit(100)]
proof fn lemma_lex_piece(s: Seq<char>, i: nat, j: nat, e: SpecAst, d: nat)
    requires
        i <= j <= s.len(),
        s.subrange(i as int, j as int) == format_spec(e, d),
        reparsable(e),
        j == s.len() || is_delim(s[j as int]),
    ensures
        lex_from(s, i) == lex_join(toks_of(e), lex_from(s, j)),
    decreases e, 0int,
{
    reveal_strlit("true");
    reveal_strlit("false");
    reveal_strlit("list");
    reveal_strlit("(list");
    let t = format_spec(e, d);
    assert(t.len() == j - i);
    assert(forall|r: int| #![trigger s[r]] i <= r < j ==> s[r] == t[r - i]);
    match e {
        SpecAst::Number(n) => {
            crate::num::lemma_render_char_classes(n);
            assert(t == render_spec(n));
            assert(i < j);
            assert(s[i as int] == t[0]);
            assert(is_digit(s[i as int]));
            assert(forall|r: int| i <= r < j ==> !is_delim(#[trigger] s[r]));
            lemma_token_len_until(s, (i + 1) as nat, j as int);
            assert(s.subrange(i as int, i as int + (j - i)) =~= t);
            crate::num::lemma_render_parse_id(n);
            assert(crate::num::parse_num_spec(t) == Some(n));
            assert(min_nat((i + (j - i)) as nat, s.len()) == j);
            assert(lex_from(s, i) == lex_cons(SpecToken::Number(n), lex_from(s, j)));
            lemma_cons_join(SpecToken::Number(n), lex_from(s, j));
        },
        SpecAst::Boolean(b) => {
            assert(i < j);
            assert(forall|r: int| i <= r < j ==> !is_delim(#[trigger] s[r]));
            assert(!is_digit(s[i as int]));
            lemma_token_len_until(s, (i + 1) as nat, j as int);
            assert(s.subrange(i as int, i as int + (j - i)) =~= t);
            assert(t != "false"@ || b == false);
            assert(min_nat((i + (j - i)) as nat, s.len()) == j);
            assert(lex_from(s, i) == lex_cons(SpecToken::Boolean(b), lex_from(s, j)));
            lemma_cons_join(SpecToken::Boolean(b), lex_from(s, j));
        },
        SpecAst::Symbol(sym) => {
            assert(t == sym);
            assert(i < j);
            assert(forall|r: int| i <= r < j ==> !is_delim(#[trigger] s[r]));
            assert(!is_digit(s[i as int]));
            assert(s[i as int] != '"');
            lemma_token_len_until(s, (i + 1) as nat, j as int);
            assert(s.subrange(i as int, i as int + (j - i)) =~= sym);
            assert(lex_from(s, i) == lex_cons(SpecToken::Symbol(sym), lex_from(s, min_nat(
                (i + (j - i)) as nat,
                s.len(),
            ))));
            assert(min_nat((i + (j - i)) as nat, s.len()) == j);
            lemma_cons_join(SpecToken::Symbol(sym), lex_from(s, j));
        },
        SpecAst::Str(content) => {
            assert(t =~= seq!['"'] + content + seq!['"']);
            assert(s[i as int] == '"');
            assert(s[j as int - 1] == '"');
            assert(forall|r: int| i as int + 1 <= r < j as int - 1 ==> s[r] == content[r - i - 1]);
            lemma_quote_len_at(s, (i + 1) as nat, j - 1);
            assert(quote_len(s, (i + 1) as nat) == Some((j - i - 2) as nat));
            assert(s.subrange(i as int + 1, i as int + 1 + (j - i - 2)) =~= content);
            assert(min_nat((i + (j - i - 2) + 2) as nat, s.len()) == j);
            assert(lex_from(s, i) == lex_cons(SpecToken::StringLiteral(content), lex_from(s, j)));
            lemma_cons_join(SpecToken::StringLiteral(content), lex_from(s, j));
        },
        SpecAst::List(items) => {
            let run = fmt_items(items, 0, (d + 1) as nat);
            assert(t == "(list"@ + run + seq![')']);
            assert(t.len() == 6 + run.len());
            assert(s[i as int] == '(');
            assert(lex_from(s, i) == lex_cons(SpecToken::OpenParenthesis, lex_from(s, (i
                + 1) as nat)));
            // The symbol `list`.
            assert(s[i as int + 1] == 'l' && s[i as int + 2] == 'i' && s[i as int + 3] == 's' && s[i as int + 4] == 't');
            assert(i as int + 5 < j);
            if items.len() > 0 {
                assert(run[0] == ' ');
                assert(s[i as int + 5] == ' ');
            } else {
                assert(run =~= Seq::<char>::empty());
                assert(s[i as int + 5] == ')');
            }
            assert(is_delim(s[i as int + 5]));
            assert(forall|r: int| i as int + 1 <= r < i as int + 5 ==> !is_delim(#[trigger] s[r]));
            lemma_token_len_until(s, (i + 2) as nat, i as int + 5);
            let txt = s.subrange(i as int + 1, i as int + 1 + (1 + token_len(s, (i + 2) as nat)));
            assert(txt =~= "list"@);
            assert(txt != "true"@ && txt != "false"@);
            assert(lex_from(s, (i + 1) as nat) == lex_cons(SpecToken::Symbol("list"@), lex_from(
                s,
                min_nat((i + 5) as nat, s.len()),
            )));
            assert(min_nat((i + 5) as nat, s.len()) == (i + 5) as nat);
            // The elements.
            assert(s.subrange(i as int + 5, j - 1) =~= run);
            assert(s[j as int - 1] == ')');
            lemma_lex_run(s, (i + 5) as nat, (j - 1) as nat, items, 0, (d + 1) as nat);
            // The close parenthesis.
            assert(lex_from(s, (j - 1) as nat) == lex_cons(SpecToken::CloseParenthesis, lex_from(
                s,
                j,
            )));
            // Assembly.
            let rst = lex_from(s, j);
            lemma_cons_join(SpecToken::CloseParenthesis, rst);
            lemma_join_assoc(toks_list(items, 0), seq![SpecToken::CloseParenthesis], rst);
            lemma_cons_join(SpecToken::Symbol("list"@), lex_from(s, (i + 5) as nat));
            lemma_join_assoc(
                seq![SpecToken::Symbol("list"@)],
                toks_list(items, 0) + seq![SpecToken::CloseParenthesis],
                rst,
            );
            lemma_cons_join(SpecToken::OpenParenthesis, lex_from(s, (i + 1) as nat));
            lemma_join_assoc(
                seq![SpecToken::OpenParenthesis],
                seq![SpecToken::Symbol("list"@)] + (toks_list(items, 0) + seq![
                    SpecToken::CloseParenthesis,
                ]),
                rst,
            );
            assert(seq![SpecToken::OpenParenthesis] + (seq![SpecToken::Symbol("list"@)] + (
            toks_list(items, 0) + seq![SpecToken::CloseParenthesis])) =~= toks_of(e));
        },
        SpecAst::Operation { operator, operands } => {
            let opf = format_spec(*operator, (d + 1) as nat);
            let inline = seq!['('] + opf + fmt_items(operands, 0, (d + 1) as nat) + seq![')'];
            let opwhile = opf == "while"@;
            assert(decreases_to!(e, 0int => *operator, 0int)) by {
                assert(decreases_to!(e => e->Operation_operator));
            }
            lemma_toks_first(*operator);
            let m = (i + 1 + opf.len()) as nat;
            assert(s[i as int] == '(');
            assert(lex_from(s, i) == lex_cons(SpecToken::OpenParenthesis, lex_from(s, (i
                + 1) as nat)));
            if inline.len() <= 40 {
                let run = fmt_items(operands, 0, (d + 1) as nat);
                assert(t == inline);
                assert(t.len() == 2 + opf.len() + run.len());
                assert(s.subrange(i as int + 1, m as int) =~= opf);
                if operands.len() > 0 {
                    assert(run[0] == ' ');
                    assert(s[m as int] == ' ');
                } else {
                    assert(run =~= Seq::<char>::empty());
                    assert(s[m as int] == ')');
                }
                assert(is_delim(s[m as int]));
                lemma_lex_piece(s, (i + 1) as nat, m, *operator, (d + 1) as nat);
                assert(s.subrange(m as int, j - 1) =~= run);
                assert(s[j as int - 1] == ')');
                lemma_lex_run(s, m, (j - 1) as nat, operands, 0, (d + 1) as nat);
                assert(lex_from(s, (j - 1) as nat) == lex_cons(SpecToken::CloseParenthesis,
                    lex_from(s, j)));
                let rst = lex_from(s, j);
                lemma_cons_join(SpecToken::CloseParenthesis, rst);
                lemma_join_assoc(toks_list(operands, 0), seq![SpecToken::CloseParenthesis], rst);
                lemma_join_assoc(
                    toks_of(*operator),
                    toks_list(operands, 0) + seq![SpecToken::CloseParenthesis],
                    rst,
                );
                lemma_cons_join(SpecToken::OpenParenthesis, lex_from(s, (i + 1) as nat));
                lemma_join_assoc(
                    seq![SpecToken::OpenParenthesis],
                    toks_of(*operator) + (toks_list(operands, 0) + seq![
                        SpecToken::CloseParenthesis,
                    ]),
                    rst,
                );
                assert(seq![SpecToken::OpenParenthesis] + (toks_of(*operator) + (toks_list(
                    operands,
                    0,
                ) + seq![SpecToken::CloseParenthesis])) =~= toks_of(e));
            } else {
                let run = fmt_multi(operands, 0, (d + 1) as nat, opwhile);
                assert(t == seq!['('] + opf + run + seq!['\n'] + tabs(d) + seq![')']);
                assert(t.len() == 3 + opf.len() + run.len() + d);
                let q = (m + run.len()) as nat;
                assert(s.subrange(i as int + 1, m as int) =~= opf);
                if operands.len() > 0 {
                    if opwhile {
                        assert(run[0] == ' ');
                        assert(s[m as int] == ' ');
                    } else {
                        assert(run[0] == '\n');
                        assert(s[m as int] == '\n');
                    }
                } else {
                    assert(run =~= Seq::<char>::empty());
                    assert(s[m as int] == '\n');
                }
                assert(is_delim(s[m as int]));
                lemma_lex_piece(s, (i + 1) as nat, m, *operator, (d + 1) as nat);
                assert(s.subrange(m as int, q as int) =~= run);
                assert(s[q as int] == '\n');
                assert(is_delim(s[q as int]));
                lemma_lex_multi(s, m, q, operands, 0, (d + 1) as nat, opwhile);
                assert(forall|r: int| q as int <= r < q as int + 1 + d ==> is_space(#[trigger] s[r]));
                lemma_ws_run(s, q, (q + 1 + d) as nat);
                assert(q + 1 + d == j as int - 1);
                assert(s[j as int - 1] == ')');
                assert(lex_from(s, (j - 1) as nat) == lex_cons(SpecToken::CloseParenthesis,
                    lex_from(s, j)));
                let rst = lex_from(s, j);
                lemma_cons_join(SpecToken::CloseParenthesis, rst);
                lemma_join_assoc(toks_list(operands, 0), seq![SpecToken::CloseParenthesis], rst);
                lemma_join_assoc(
                    toks_of(*operator),
                    toks_list(operands, 0) + seq![SpecToken::CloseParenthesis],
                    rst,
                );
                lemma_cons_join(SpecToken::OpenParenthesis, lex_from(s, (i + 1) as nat));
                lemma_join_assoc(
                    seq![SpecToken::OpenParenthesis],
                    toks_of(*operator) + (toks_list(operands, 0) + seq![
                        SpecToken::CloseParenthesis,
                    ]),
                    rst,
                );
                assert(seq![SpecToken::OpenParenthesis] + (toks_of(*operator) + (toks_list(
                    operands,
                    0,
                ) + seq![SpecToken::CloseParenthesis])) =~= toks_of(e));
            }
        },
        SpecAst::Empty => {},
    }
}

/// A run of one-line elements lexes to their tokens in order.
#[verifier::rlimit(60)]
proof fn lemma_lex_run(s: Seq<char>, i: nat, j: nat, items: Seq<SpecAst>, k: int, d: nat)
    requires
        i <= j <= s.len(),
        0 <= k <= items.len(),
        s.subrange(i as int, j as int) == fmt_items(items, k, d),
        reparsable_list(items, k),
        j == s.len() || is_delim(s[j as int]),
    ensures
        lex_from(s, i) == lex_join(toks_list(items, k), lex_from(s, j)),
    decreases items, items.len() - k,
{
    let t = fmt_items(items, k, d);
    assert(t.len() == j - i);
    assert(forall|r: int| #![trigger s[r]] i <= r < j ==> s[r] == t[r - i]);
    if k >= items.len() {
        assert(t =~= Seq::<char>::empty());
        assert(i == j);
        match lex_from(s, j) {
            Ok(ts) => {
                assert(toks_list(items, k) + ts =~= ts);
            },
            Err(_) => {},
        }
    } else {
        let piece = format_spec(items[k], d);
        assert(t == seq![' '] + piece + fmt_items(items, k + 1, d));
        assert(s[i as int] == ' ');
        assert(lex_from(s, i) == lex_from(s, (i + 1) as nat));
        let m = (i + 1 + piece.len()) as nat;
        assert(s.subrange(i as int + 1, m as int) =~= piece);
        if k + 1 < items.len() {
            assert(fmt_items(items, k + 1, d)[0] == ' ');
            assert(s[m as int] == ' ');
            assert(is_delim(s[m as int]));
        } else {
            assert(fmt_items(items, k + 1, d) =~= Seq::<char>::empty());
            assert(m == j);
        }
        lemma_lex_piece(s, (i + 1) as nat, m, items[k], d);
        assert(s.subrange(m as int, j as int) =~= fmt_items(items, k + 1, d));
        lemma_lex_run(s, m, j, items, k + 1, d);
        lemma_join_assoc(toks_of(items[k]), toks_list(items, k + 1), lex_from(s, j));
    }
}

/// A run of spread operands lexes to their tokens in order.
#[verifier::rlimit(60)]
proof fn lemma_lex_multi(
    s: Seq<char>,
    i: nat,
    j: nat,
    ops: Seq<SpecAst>,
    k: int,
    d: nat,
    opwhile: bool,
)
    requires
        i <= j <= s.len(),
        0 <= k <= ops.len(),
        d >= 1,
        s.subrange(i as int, j as int) == fmt_multi(ops, k, d, opwhile),
        reparsable_list(ops, k),
        j == s.len() || is_delim(s[j as int]),
    ensures
        lex_from(s, i) == lex_join(toks_list(ops, k), lex_from(s, j)),
    decreases ops, ops.len() - k,
{
    let t = fmt_multi(ops, k, d, opwhile);
    assert(t.len() == j - i);
    assert(forall|r: int| #![trigger s[r]] i <= r < j ==> s[r] == t[r - i]);
    if k >= ops.len() {
        assert(t =~= Seq::<char>::empty());
        assert(i == j);
        match lex_from(s, j) {
            Ok(ts) => {
                assert(toks_list(ops, k) + ts =~= ts);
            },
            Err(_) => {},
        }
    } else {
        let sep: Seq<char> = if opwhile && k == 0 {
            seq![' ']
        } else {
            seq!['\n'] + tabs(d)
        };
        let piece = format_spec(ops[k], d);
        assert(t == sep + piece + fmt_multi(ops, k + 1, d, opwhile));
        assert(forall|r: int| 0 <= r < sep.len() ==> is_space(#[trigger] sep[r]));
        assert(forall|r: int| i as int <= r < i as int + sep.len() ==> is_space(#[trigger] s[r]));
        lemma_ws_run(s, i, (i + sep.len()) as nat);
        let p0 = (i + sep.len()) as nat;
        let m = (p0 + piece.len()) as nat;
        assert(s.subrange(p0 as int, m as int) =~= piece);
        if k + 1 < ops.len() {
            assert(fmt_multi(ops, k + 1, d, opwhile)[0] == '\n');
            assert(s[m as int] == '\n');
            assert(is_delim(s[m as int]));
        } else {
            assert(fmt_multi(ops, k + 1, d, opwhile) =~= Seq::<char>::empty());
            assert(m == j);
        }
        lemma_lex_piece(s, p0, m, ops[k], d);
        assert(s.subrange(m as int, j as int) =~= fmt_multi(ops, k + 1, d, opwhile));
        lemma_lex_multi(s, m, j, ops, k + 1, d, opwhile);
        lemma_join_assoc(toks_of(ops[k]), toks_list(ops, k + 1), lex_from(s, j));
    }
}

/// Formatting a parsed expression and re-parsing the formatted text yields
/// the expression back: idempotent normalization. It holds of every
/// expression whose shape the reader could have written down in source
/// text; the empty group is the one parseable shape it excludes, since its
/// canonical text reads back as a symbol.
pub proof fn lemma_format_reparse(e: SpecAst)
    requires
        reparsable(e),
    ensures
        ({
            let lexed = lex_spec(format_spec(e, 0));
            &&& lexed is Ok
            &&& parse_all(lexed->Ok_0) == Ok::<Seq<SpecAst>, ParseError>(seq![e])
        }),
{
    let t = format_spec(e, 0);
    assert(t.subrange(0, t.len() as int) =~= t);
    lemma_lex_piece(t, 0, t.len(), e, 0);
    assert(lex_from(t, t.len()) == Ok::<Seq<SpecToken>, LexError>(Seq::empty()));
    let tks = toks_of(e);
    assert(tks + Seq::<SpecToken>::empty() =~= tks);
    assert(lex_spec(t) == Ok::<Seq<SpecToken>, LexError>(tks));
    lemma_toks_first(e);
    assert(tks.subrange(0, tks.len() as int) =~= tks);
    lemma_parse_piece(tks, 0, tks.len() as int, e);
    assert(crate::ast::clamp_pos(tks.len() as int, 0, tks.len() as int) == tks.len() as int);
    assert(gen_from(tks, tks.len() as int) == Ok::<Seq<SpecAst>, ParseError>(Seq::empty()));
    assert(gen_from(tks, 0) == Ok::<Seq<SpecAst>, ParseError>(seq![e] + Seq::empty()));
    assert(seq![e] + Seq::<SpecAst>::empty() =~= seq![e]);
}

/// The canonical text of a parsed expression: one line when short, spread
/// and tab-indented when long. The result is exactly `format_spec` of the
/// tree at depth zero.
pub fn format(ast: Ast) -> (r: String)
    ensures
        r@ == format_spec(ast@, 0),
{
    let indent: Vec<char> = Vec::new();
    proof {
        assert(indent@ =~= tabs(0));
    }
    let cs = format_part(&ast, &indent);
    crate::tokenizer::string_from_chars(&cs)
}

} // verus!
