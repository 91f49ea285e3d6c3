use vstd::prelude::*;

use crate::ast::{Assignment, BinaryOp, Block, Call, CEntry, CEntryS, Collection, Expr, ExprS,
    FieldAccess, If, Import, IndexAccess, MethodCall, UnaryOp, VarDecl};
use crate::lexer::{Lexer, Token, TokenType, spec_tokens, spec_next, lemma_next_progress,
    token_name, token_text};
use crate::num::number_of_literal;

verus! {

/// A token stream: each token's kind and text.
pub type Toks = Seq<(TokenType, Seq<char>)>;

/// The kind of the token at `pos`, end of input counting as `Eof`.
pub open spec fn tt(toks: Toks, pos: nat) -> TokenType {
    if pos < toks.len() {
        toks[pos as int].0
    } else {
        TokenType::Eof
    }
}

/// The text of the token at `pos`.
pub open spec fn lx(toks: Toks, pos: nat) -> Seq<char> {
    if pos < toks.len() {
        toks[pos as int].1
    } else {
        Seq::empty()
    }
}

/// The operator-precedence tier: comparisons lowest, then additive, then
/// multiplicative; everything else has no tier.
pub open spec fn spec_precedence(t: TokenType) -> u8 {
    match t {
        TokenType::DblEquals | TokenType::Lt | TokenType::Gt | TokenType::Lte | TokenType::Gte
            | TokenType::Neq => 1,
        TokenType::Add | TokenType::Sub => 2,
        TokenType::Mul | TokenType::Div | TokenType::Mod => 3,
        _ => 0,
    }
}

/// The binary operators.
pub open spec fn spec_is_binop(t: TokenType) -> bool {
    match t {
        TokenType::Add | TokenType::Sub | TokenType::Mul | TokenType::Div | TokenType::Mod
            | TokenType::DblEquals | TokenType::Lt | TokenType::Gt | TokenType::Lte
            | TokenType::Gte | TokenType::Neq => true,
        _ => false,
    }
}

/// The error text when a required token is missing.
pub open spec fn consume_msg(expect: TokenType, toks: Toks, pos: nat) -> Seq<char> {
    "expected "@ + token_name(expect) + " but found "@ + (if pos < toks.len() {
        "Some("@ + token_name(tt(toks, pos)) + ")"@
    } else {
        "None"@
    })
}

/// The error text at an unexpected token: its debug form, kind and text.
pub open spec fn unexpected_msg(toks: Toks, pos: nat) -> Seq<char> {
    "unexpected token Token { token_type: "@ + token_name(tt(toks, pos)) + ", lexeme: \""@ + lx(
        toks,
        pos,
    ) + "\" }"@
}

/// One parse result: an expression or an error, and the position after.
pub struct PE {
    pub out: Result<ExprS, Seq<char>>,
    pub pos: nat,
}

/// A parsed list result.
pub struct PL {
    pub out: Result<Seq<ExprS>, Seq<char>>,
    pub pos: nat,
}

/// A parsed collection-entry list result.
pub struct PC {
    pub out: Result<Seq<CEntryS>, Seq<char>>,
    pub pos: nat,
}

/// Clamp a position into `[lo, n]`.
pub open spec fn clamp(n: nat, lo: nat, p: nat) -> nat {
    if p < lo {
        lo
    } else if p > n {
        n
    } else {
        p
    }
}

/// Normalize a parse result: success consumes at least one token, and no
/// result leaves the token stream.
pub open spec fn seal(n: nat, pos: nat, r: PE) -> PE {
    PE {
        out: r.out,
        pos: clamp(
            n,
            if r.out is Ok {
                pos + 1
            } else {
                pos
            },
            r.pos,
        ),
    }
}

/// What `consume(expect)` does: the token at `pos` when it has the
/// expected kind, an error otherwise.
pub open spec fn spec_consume(toks: Toks, pos: nat, expect: TokenType) -> (Result<
    (TokenType, Seq<char>),
    Seq<char>,
>, nat) {
    if tt(toks, pos) == expect {
        if pos < toks.len() {
            (Ok(toks[pos as int]), pos + 1)
        } else {
            (Err("unexpected eof"@), pos)
        }
    } else {
        (Err(consume_msg(expect, toks, pos)), pos)
    }
}

} // verus!

verus! {

/// The top level: expressions until the end of input, with optional
/// semicolons between them.
pub open spec fn sp_parse_all(toks: Toks, pos: nat) -> PL
    decreases toks.len() - pos, 14int,
{
    if tt(toks, pos) == TokenType::Eof {
        PL { out: Ok(Seq::empty()), pos }
    } else {
        let e = sp_parse_expr(toks, pos);
        match e.out {
            Err(m) => PL { out: Err(m), pos: e.pos },
            Ok(x) => {
                let p2 = if tt(toks, e.pos) == TokenType::Semi {
                    e.pos + 1
                } else {
                    e.pos
                };
                let rest = sp_parse_all(toks, clamp(toks.len(), pos + 1, p2));
                match rest.out {
                    Err(m) => PL { out: Err(m), pos: rest.pos },
                    Ok(xs) => PL { out: Ok(seq![x] + xs), pos: rest.pos },
                }
            },
        }
    }
}

/// An expression: binary parsing from the lowest tier.
pub open spec fn sp_parse_expr(toks: Toks, pos: nat) -> PE
    decreases toks.len() - pos, 12int,
{
    if pos >= toks.len() {
        PE { out: Err("unexpected eof"@), pos }
    } else {
        sp_parse_bin(toks, pos, 0)
    }
}

/// Precedence-climbing binary parsing above a minimum tier.
pub open spec fn sp_parse_bin(toks: Toks, pos: nat, prec: u8) -> PE
    decreases toks.len() - pos, 11int,
{
    if pos >= toks.len() {
        PE { out: Err("unexpected eof"@), pos }
    } else {
    let left = sp_parse_postfix(toks, pos);
    match left.out {
        Err(m) => left,
        Ok(l) => sp_bin_loop(toks, clamp(toks.len(), pos + 1, left.pos), l, prec),
    }
    }
}

/// The operator loop of binary parsing.
pub open spec fn sp_bin_loop(toks: Toks, pos: nat, left: ExprS, prec: u8) -> PE
    decreases toks.len() - pos, 13int,
{
    if pos < toks.len() && spec_is_binop(tt(toks, pos)) && spec_precedence(tt(toks, pos))
        >= prec {
        let op = tt(toks, pos);
        let rhs = sp_parse_bin(toks, pos + 1, (spec_precedence(op) + 1) as u8);
        match rhs.out {
            Err(m) => rhs,
            Ok(r) => sp_bin_loop(
                toks,
                clamp(toks.len(), pos + 1, rhs.pos),
                ExprS::BinaryOp(Box::new(left), Box::new(r), op),
                prec,
            ),
        }
    } else {
        PE { out: Ok(left), pos }
    }
}

/// A primary expression followed by index, call and field postfixes.
pub open spec fn sp_parse_postfix(toks: Toks, pos: nat) -> PE
    decreases toks.len() - pos, 10int,
{
    if pos >= toks.len() {
        PE { out: Err("unexpected eof"@), pos }
    } else {
    let p = sp_parse_prim(toks, pos);
    match p.out {
        Err(m) => p,
        Ok(e) => sp_postfix_loop(toks, clamp(toks.len(), pos + 1, p.pos), e),
    }
    }
}

/// The postfix loop: `[index]`, `.method(args)` and `.field` chains.
pub open spec fn sp_postfix_loop(toks: Toks, pos: nat, e: ExprS) -> PE
    decreases toks.len() - pos, 13int,
{
    if tt(toks, pos) == TokenType::LBracket {
        let idx = sp_parse_expr(toks, pos + 1);
        match idx.out {
            Err(m) => idx,
            Ok(ix) => {
                let (c, p2) = spec_consume(toks, idx.pos, TokenType::RBracket);
                match c {
                    Err(m) => PE { out: Err(m), pos: p2 },
                    Ok(_) => sp_postfix_loop(
                        toks,
                        clamp(toks.len(), pos + 1, p2),
                        ExprS::IndexAccess(Box::new(e), Box::new(ix)),
                    ),
                }
            },
        }
    } else if tt(toks, pos) == TokenType::Dot {
        let (c, p1) = spec_consume(toks, pos, TokenType::Dot);
        let (c2, p2) = spec_consume(toks, p1, TokenType::Ident);
        match c2 {
            Err(m) => PE { out: Err(m), pos: p2 },
            Ok(meth) => {
                if tt(toks, p2) == TokenType::LParen {
                    let (c3, p3) = spec_consume(toks, p2, TokenType::LParen);
                    let args = if tt(toks, p3) == TokenType::RParen {
                        PL { out: Ok(Seq::empty()), pos: p3 }
                    } else {
                        sp_parse_args(toks, p3)
                    };
                    match args.out {
                        Err(m) => PE { out: Err(m), pos: args.pos },
                        Ok(ar) => {
                            let (c4, p4) = spec_consume(toks, args.pos, TokenType::RParen);
                            match c4 {
                                Err(m) => PE { out: Err(m), pos: p4 },
                                Ok(_) => sp_postfix_loop(
                                    toks,
                                    clamp(toks.len(), pos + 1, p4),
                                    ExprS::MethodCall(Box::new(e), meth.1, ar),
                                ),
                            }
                        },
                    }
                } else {
                    sp_postfix_loop(toks, p2, ExprS::FieldAccess(Box::new(e), meth.1))
                }
            },
        }
    } else {
        PE { out: Ok(e), pos }
    }
}

/// A comma-separated argument list, trailing comma tolerated.
pub open spec fn sp_parse_args(toks: Toks, pos: nat) -> PL
    decreases toks.len() - pos, 13int,
{
    if pos >= toks.len() {
        PL { out: Err("unexpected eof"@), pos }
    } else {
    let first = sp_parse_bin(toks, pos, 0);
    match first.out {
        Err(m) => PL { out: Err(m), pos: first.pos },
        Ok(x) => {
            let rest = sp_args_more(toks, clamp(toks.len(), pos + 1, first.pos));
            match rest.out {
                Err(m) => PL { out: Err(m), pos: rest.pos },
                Ok(xs) => PL { out: Ok(seq![x] + xs), pos: rest.pos },
            }
        },
    }
    }
}

/// The arguments after the first, each behind a comma.
pub open spec fn sp_args_more(toks: Toks, pos: nat) -> PL
    decreases toks.len() - pos, 13int,
{
    if tt(toks, pos) == TokenType::Comma {
        if tt(toks, pos + 1) == TokenType::RParen {
            PL { out: Ok(Seq::empty()), pos: pos + 1 }
        } else {
            let nxt = sp_parse_bin(toks, pos + 1, 0);
            match nxt.out {
                Err(m) => PL { out: Err(m), pos: nxt.pos },
                Ok(x) => {
                    let rest = sp_args_more(toks, clamp(toks.len(), pos + 1, nxt.pos));
                    match rest.out {
                        Err(m) => PL { out: Err(m), pos: rest.pos },
                        Ok(xs) => PL { out: Ok(seq![x] + xs), pos: rest.pos },
                    }
                },
            }
        }
    } else {
        PL { out: Ok(Seq::empty()), pos }
    }
}

/// A primary expression, dispatched on the leading token.
pub open spec fn sp_parse_prim(toks: Toks, pos: nat) -> PE
    decreases toks.len() - pos, 9int,
{
    match tt(toks, pos) {
        TokenType::Import => sp_parse_import(toks, pos),
        TokenType::Sub => sp_parse_unary(toks, pos),
        TokenType::Val => sp_parse_var_decl(toks, pos),
        TokenType::Ident => sp_parse_identifier(toks, pos),
        TokenType::String => PE {
            out: Ok(ExprS::String(lx(toks, pos))),
            pos: pos + 1,
        },
        TokenType::Number => PE {
            out: Ok(ExprS::Number(number_of_literal(lx(toks, pos)))),
            pos: pos + 1,
        },
        TokenType::LParen => sp_parse_grouped(toks, pos),
        TokenType::LBracket => sp_parse_collection(toks, pos),
        TokenType::LBrace => {
            let b = sp_parse_block(toks, pos);
            match b.out {
                Err(m) => PE { out: Err(m), pos: b.pos },
                Ok(xs) => PE { out: Ok(ExprS::Block(xs)), pos: b.pos },
            }
        },
        TokenType::If => sp_parse_if(toks, pos),
        TokenType::Eof => if pos >= toks.len() {
            PE { out: Err("unexpected eof"@), pos }
        } else {
            PE { out: Err(unexpected_msg(toks, pos)), pos }
        },
        _ => PE { out: Err(unexpected_msg(toks, pos)), pos },
    }
}

/// `include IDENT`: loading of an optional module.
pub open spec fn sp_parse_import(toks: Toks, pos: nat) -> PE
    decreases toks.len() - pos, 8int,
{
    let (c, p1) = spec_consume(toks, pos, TokenType::Import);
    match c {
        Err(m) => PE { out: Err(m), pos: p1 },
        Ok(_) => {
            if tt(toks, p1) == TokenType::Ident {
                PE { out: Ok(ExprS::Import(lx(toks, p1))), pos: p1 + 1 }
            } else {
                PE {
                    out: Err("expected identifier after '"@ + "incl"@ + "ude"@ + "'"@),
                    pos: p1,
                }
            }
        },
    }
}

/// Unary minus.
pub open spec fn sp_parse_unary(toks: Toks, pos: nat) -> PE
    decreases toks.len() - pos, 8int,
{
    if pos >= toks.len() {
        PE { out: Err("unexpected eof"@), pos }
    } else {
        let op = tt(toks, pos);
        let operand = sp_parse_postfix(toks, pos + 1);
        match operand.out {
            Err(m) => operand,
            Ok(o) => PE {
                out: Ok(ExprS::UnaryOp(Box::new(o), op)),
                pos: operand.pos,
            },
        }
    }
}

/// A parenthesized expression.
pub open spec fn sp_parse_grouped(toks: Toks, pos: nat) -> PE
    decreases toks.len() - pos, 8int,
{
    let (c, p1) = spec_consume(toks, pos, TokenType::LParen);
    match c {
        Err(m) => PE { out: Err(m), pos: p1 },
        Ok(_) => {
            let e = sp_parse_bin(toks, p1, 0);
            match e.out {
                Err(m) => e,
                Ok(x) => {
                    let (c2, p2) = spec_consume(toks, e.pos, TokenType::RParen);
                    match c2 {
                        Err(m) => PE { out: Err(m), pos: p2 },
                        Ok(_) => PE { out: Ok(x), pos: p2 },
                    }
                },
            }
        },
    }
}

/// `val IDENT = expr`.
pub open spec fn sp_parse_var_decl(toks: Toks, pos: nat) -> PE
    decreases toks.len() - pos, 8int,
{
    let (c, p1) = spec_consume(toks, pos, TokenType::Val);
    match c {
        Err(m) => PE { out: Err(m), pos: p1 },
        Ok(_) => {
            let (c2, p2) = spec_consume(toks, p1, TokenType::Ident);
            match c2 {
                Err(m) => PE { out: Err(m), pos: p2 },
                Ok(name) => {
                    let (c3, p3) = spec_consume(toks, p2, TokenType::Equals);
                    match c3 {
                        Err(m) => PE { out: Err(m), pos: p3 },
                        Ok(_) => {
                            let v = sp_parse_expr(toks, p3);
                            match v.out {
                                Err(m) => v,
                                Ok(x) => PE {
                                    out: Ok(ExprS::VarDecl(name.1, Box::new(x))),
                                    pos: v.pos,
                                },
                            }
                        },
                    }
                },
            }
        },
    }
}

/// A leading identifier: a qualified call or reference, a call, an
/// assignment, or a plain reference — decided by one token of lookahead.
pub open spec fn sp_parse_identifier(toks: Toks, pos: nat) -> PE
    decreases toks.len() - pos, 8int,
{
    let name = lx(toks, pos);
    let p1 = pos + 1;
    if tt(toks, p1) == TokenType::DblColon {
        let (c2, p2) = spec_consume(toks, p1, TokenType::DblColon);
        let (c3, p3) = spec_consume(toks, p2, TokenType::Ident);
        match c3 {
            Err(m) => PE { out: Err(m), pos: p3 },
            Ok(fname) => {
                if tt(toks, p3) == TokenType::LParen {
                    sp_parse_mod_call(toks, p3, name, fname.1)
                } else {
                    PE {
                        out: Ok(ExprS::Identifier(name + "::"@ + fname.1)),
                        pos: p3,
                    }
                }
            },
        }
    } else if tt(toks, p1) == TokenType::LParen {
        sp_parse_call(toks, p1, name)
    } else if tt(toks, p1) == TokenType::Equals {
        sp_parse_assignment(toks, p1, name)
    } else {
        PE { out: Ok(ExprS::Identifier(name)), pos: p1 }
    }
}

/// An unqualified call, after its name.
pub open spec fn sp_parse_call(toks: Toks, pos: nat, name: Seq<char>) -> PE
    decreases toks.len() - pos, 13int,
{
    let (c, p1) = spec_consume(toks, pos, TokenType::LParen);
    match c {
        Err(m) => PE { out: Err(m), pos: p1 },
        Ok(_) => {
            let args = if tt(toks, p1) == TokenType::RParen {
                PL { out: Ok(Seq::empty()), pos: p1 }
            } else {
                sp_parse_args(toks, p1)
            };
            match args.out {
                Err(m) => PE { out: Err(m), pos: args.pos },
                Ok(ar) => {
                    let (c2, p2) = spec_consume(toks, args.pos, TokenType::RParen);
                    match c2 {
                        Err(m) => PE { out: Err(m), pos: p2 },
                        Ok(_) => PE {
                            out: Ok(ExprS::Call(None, name, ar)),
                            pos: p2,
                        },
                    }
                },
            }
        },
    }
}

/// A module-qualified call, after `module :: name`.
pub open spec fn sp_parse_mod_call(toks: Toks, pos: nat, module: Seq<char>, name: Seq<char>) -> PE
    decreases toks.len() - pos, 13int,
{
    let (c, p1) = spec_consume(toks, pos, TokenType::LParen);
    match c {
        Err(m) => PE { out: Err(m), pos: p1 },
        Ok(_) => {
            let args = if tt(toks, p1) == TokenType::RParen {
                PL { out: Ok(Seq::empty()), pos: p1 }
            } else {
                sp_parse_args(toks, p1)
            };
            match args.out {
                Err(m) => PE { out: Err(m), pos: args.pos },
                Ok(ar) => {
                    let (c2, p2) = spec_consume(toks, args.pos, TokenType::RParen);
                    match c2 {
                        Err(m) => PE { out: Err(m), pos: p2 },
                        Ok(_) => PE {
                            out: Ok(ExprS::Call(Some(module), name, ar)),
                            pos: p2,
                        },
                    }
                },
            }
        },
    }
}

/// An assignment, after its target name.
pub open spec fn sp_parse_assignment(toks: Toks, pos: nat, name: Seq<char>) -> PE
    decreases toks.len() - pos, 13int,
{
    let (c, p1) = spec_consume(toks, pos, TokenType::Equals);
    match c {
        Err(m) => PE { out: Err(m), pos: p1 },
        Ok(_) => {
            let v = sp_parse_bin(toks, p1, 0);
            match v.out {
                Err(m) => v,
                Ok(x) => PE {
                    out: Ok(ExprS::Assignment(name, Box::new(x))),
                    pos: v.pos,
                },
            }
        },
    }
}

/// A brace-delimited block; the result is its expression list.
pub open spec fn sp_parse_block(toks: Toks, pos: nat) -> PL
    decreases toks.len() - pos, 8int,
{
    let (c, p1) = spec_consume(toks, pos, TokenType::LBrace);
    match c {
        Err(m) => PL { out: Err(m), pos: p1 },
        Ok(_) => {
            let stmts = sp_block_stmts(toks, p1);
            match stmts.out {
                Err(m) => PL { out: Err(m), pos: stmts.pos },
                Ok(xs) => {
                    let (c2, p2) = spec_consume(toks, stmts.pos, TokenType::RBrace);
                    match c2 {
                        Err(m) => PL { out: Err(m), pos: p2 },
                        Ok(_) => PL { out: Ok(xs), pos: p2 },
                    }
                },
            }
        },
    }
}

/// The statements of a block, up to its closing brace.
pub open spec fn sp_block_stmts(toks: Toks, pos: nat) -> PL
    decreases toks.len() - pos, 13int,
{
    if tt(toks, pos) == TokenType::RBrace || tt(toks, pos) == TokenType::Eof {
        PL { out: Ok(Seq::empty()), pos }
    } else {
        let e = sp_parse_expr(toks, pos);
        match e.out {
            Err(m) => PL { out: Err(m), pos: e.pos },
            Ok(x) => {
                let p2 = if tt(toks, e.pos) == TokenType::Semi {
                    e.pos + 1
                } else {
                    e.pos
                };
                let rest = sp_block_stmts(toks, clamp(toks.len(), pos + 1, p2));
                match rest.out {
                    Err(m) => PL { out: Err(m), pos: rest.pos },
                    Ok(xs) => PL { out: Ok(seq![x] + xs), pos: rest.pos },
                }
            },
        }
    }
}

/// `if cond { .. }` with an optional `else` or chained `else if`.
pub open spec fn sp_parse_if(toks: Toks, pos: nat) -> PE
    decreases toks.len() - pos, 8int,
{
    let (c, p1) = spec_consume(toks, pos, TokenType::If);
    match c {
        Err(m) => PE { out: Err(m), pos: p1 },
        Ok(_) => {
            let cond = sp_parse_expr(toks, p1);
            match cond.out {
                Err(m) => cond,
                Ok(cx) => {
                    let blk = sp_parse_block(toks, clamp(toks.len(), pos + 1, cond.pos));
                    match blk.out {
                        Err(m) => PE { out: Err(m), pos: blk.pos },
                        Ok(bx) => {
                            if tt(toks, blk.pos) == TokenType::Else {
                                let (c2, p2) = spec_consume(toks, blk.pos, TokenType::Else);
                                if tt(toks, p2) == TokenType::If {
                                    let nested = sp_parse_if(toks, clamp(toks.len(), pos + 1, p2));
                                    match nested.out {
                                        Err(m) => nested,
                                        Ok(nx) => PE {
                                            out: Ok(
                                                ExprS::If(
                                                    Box::new(cx),
                                                    bx,
                                                    Some(seq![nx]),
                                                ),
                                            ),
                                            pos: nested.pos,
                                        },
                                    }
                                } else {
                                    let eb = sp_parse_block(toks, clamp(toks.len(), pos + 1, p2));
                                    match eb.out {
                                        Err(m) => PE { out: Err(m), pos: eb.pos },
                                        Ok(ex) => PE {
                                            out: Ok(
                                                ExprS::If(Box::new(cx), bx, Some(ex)),
                                            ),
                                            pos: eb.pos,
                                        },
                                    }
                                }
                            } else {
                                PE {
                                    out: Ok(ExprS::If(Box::new(cx), bx, None)),
                                    pos: blk.pos,
                                }
                            }
                        },
                    }
                },
            }
        },
    }
}

/// A collection literal.
pub open spec fn sp_parse_collection(toks: Toks, pos: nat) -> PE
    decreases toks.len() - pos, 8int,
{
    let (c, p1) = spec_consume(toks, pos, TokenType::LBracket);
    match c {
        Err(m) => PE { out: Err(m), pos: p1 },
        Ok(_) => {
            if tt(toks, p1) == TokenType::RBracket {
                PE { out: Ok(ExprS::Collection(Seq::empty())), pos: p1 + 1 }
            } else {
                let entries = sp_coll_entries(toks, p1);
                match entries.out {
                    Err(m) => PE { out: Err(m), pos: entries.pos },
                    Ok(es) => {
                        let (c2, p2) = spec_consume(toks, entries.pos, TokenType::RBracket);
                        match c2 {
                            Err(m) => PE { out: Err(m), pos: p2 },
                            Ok(_) => PE { out: Ok(ExprS::Collection(es)), pos: p2 },
                        }
                    },
                }
            }
        },
    }
}

/// After one entry: continue at a comma, stop before the closing bracket.
pub open spec fn sp_coll_sep(toks: Toks, pos: nat) -> (Result<(bool, nat), Seq<char>>) {
    if tt(toks, pos) == TokenType::Comma {
        if tt(toks, pos + 1) == TokenType::RBracket {
            Ok((false, pos + 1))
        } else {
            Ok((true, pos + 1))
        }
    } else if tt(toks, pos) == TokenType::RBracket {
        Ok((false, pos))
    } else {
        Err("expected ',' or ']' to terminate collection definition."@)
    }
}

/// The entries of a nonempty collection literal, ending just before the
/// closing bracket.
pub open spec fn sp_coll_entries(toks: Toks, pos: nat) -> PC
    decreases toks.len() - pos, 13int,
{
    if pos >= toks.len() {
        PC { out: Err("unexpected eof"@), pos }
    } else if tt(toks, pos) == TokenType::Ident && tt(toks, pos + 1) == TokenType::Equals {
        let v = sp_parse_expr(toks, pos + 2);
        match v.out {
            Err(m) => PC { out: Err(m), pos: v.pos },
            Ok(x) => {
                let entry = CEntryS::Keyed(lx(toks, pos), x);
                sp_coll_cont(toks, clamp(toks.len(), pos, v.pos), entry)
            },
        }
    } else if tt(toks, pos) == TokenType::Ident {
        let entry = CEntryS::Indexed(ExprS::Identifier(lx(toks, pos)));
        sp_coll_cont(toks, pos + 1, entry)
    } else {
        let first = sp_parse_expr(toks, pos);
        match first.out {
            Err(m) => PC { out: Err(m), pos: first.pos },
            Ok(fx) => {
                if tt(toks, first.pos) == TokenType::Equals {
                    let v = sp_parse_expr(toks, clamp(toks.len(), pos + 1, first.pos + 1));
                    match v.out {
                        Err(m) => PC { out: Err(m), pos: v.pos },
                        Ok(x) => match fx {
                            ExprS::String(sk) => sp_coll_cont(
                                toks,
                                clamp(toks.len(), pos, v.pos),
                                CEntryS::Keyed(sk, x),
                            ),
                            ExprS::Number(nk) => sp_coll_cont(
                                toks,
                                clamp(toks.len(), pos, v.pos),
                                CEntryS::NumKeyed(nk, x),
                            ),
                            _ => PC {
                                out: Err(
                                    "invalid key usage type for collection structure entry."@,
                                ),
                                pos: v.pos,
                            },
                        },
                    }
                } else {
                    sp_coll_cont(toks, clamp(toks.len(), pos, first.pos), CEntryS::Indexed(fx))
                }
            },
        }
    }
}

/// Prepend one parsed entry and continue after the separator.
pub open spec fn sp_coll_cont(toks: Toks, pos: nat, entry: CEntryS) -> PC
    decreases toks.len() - pos, 12int,
{
    match sp_coll_sep(toks, pos) {
        Err(m) => PC { out: Err(m), pos },
        Ok((more, p2)) => {
            if more {
                let rest = sp_coll_entries(toks, p2);
                match rest.out {
                    Err(m) => PC { out: Err(m), pos: rest.pos },
                    Ok(es) => PC { out: Ok(seq![entry] + es), pos: rest.pos },
                }
            } else {
                PC { out: Ok(seq![entry]), pos: p2 }
            }
        },
    }
}

} // verus!

verus! {

use vstd::string::StringExecFns;

/// The stream view of a token list.
pub open spec fn tokens_view(s: Seq<Token>) -> Toks {
    s.map_values(|t: Token| (t.token_type, t.lexeme@))
}

/// The recursive-descent parser: the token stream of one source, and a
/// cursor.
pub struct Parser {
    toks: Vec<Token>,
    pos: usize,
}

impl Parser {
    /// The token stream.
    pub closed spec fn tview(&self) -> Toks {
        tokens_view(self.toks@)
    }

    /// The cursor.
    pub closed spec fn at(&self) -> nat {
        self.pos as nat
    }

    /// The cursor never leaves the stream.
    pub closed spec fn wf(&self) -> bool {
        self.pos <= self.toks@.len()
    }

    /// Drain the lexer and stand ready to parse its token stream.
    pub fn new(lexer: Lexer<'_>) -> (r: Parser)
        requires
            lexer.wf(),
        ensures
            r.wf(),
            r.at() == 0,
            r.tview() == spec_tokens(lexer.src(), lexer.at()),
    {
        let ghost src0 = lexer.src();
        let ghost a0 = lexer.at();
        let mut lx = lexer;
        let mut toks: Vec<Token> = Vec::new();
        proof {
            assert(tokens_view(toks@) =~= Seq::empty());
            assert(Seq::empty() + spec_tokens(src0, a0) =~= spec_tokens(src0, a0));
        }
        loop
            invariant
                lx.wf(),
                lx.src() == src0,
                a0 <= lx.at(),
                tokens_view(toks@) + spec_tokens(src0, lx.at()) == spec_tokens(src0, a0),
            ensures
                tokens_view(toks@) == spec_tokens(src0, a0),
            decreases src0.len() - lx.at(),
        {
            let ghost before = lx.at();
            let ghost acc = toks@;
            proof {
                lx.lemma_wf();
            }
            match lx.next() {
                Some(t) => {
                    proof {
                        lemma_next_progress(src0, before);
                    }
                    toks.push(t);
                    proof {
                        let o = spec_next(src0, before);
                        assert(spec_tokens(src0, before) == seq![o.tok->Some_0] + spec_tokens(
                            src0,
                            o.pos,
                        ));
                        assert(tokens_view(toks@) =~= tokens_view(acc) + seq![
                            (t.token_type, t.lexeme@),
                        ]);
                        assert((t.token_type, t.lexeme@) == o.tok->Some_0);
                        assert(tokens_view(toks@) + spec_tokens(src0, lx.at())
                            =~= tokens_view(acc) + spec_tokens(src0, before));
                    }
                },
                None => {
                    proof {
                        lemma_next_progress(src0, before);
                        assert(spec_tokens(src0, before) =~= Seq::<(TokenType, Seq<char>)>::empty());
                        assert(tokens_view(toks@) + spec_tokens(src0, before) =~= tokens_view(
                            toks@,
                        ));
                    }
                    break ;
                },
            }
        }
        Parser { toks, pos: 0 }
    }

    fn check(&self, target_type: &TokenType) -> (r: bool)
        ensures
            r == (tt(self.tview(), self.at()) == *target_type),
    {
        if self.pos < self.toks.len() {
            proof {
                assert(self.tview()[self.pos as int].0 == self.toks@[self.pos as int].token_type);
            }
            self.toks[self.pos].token_type == *target_type
        } else {
            *target_type == TokenType::Eof
        }
    }

    fn advance(&mut self)
        requires
            old(self).wf(),
        ensures
            final(self).wf(),
            final(self).tview() == old(self).tview(),
            final(self).at() == (if old(self).at() < old(self).tview().len() {
                old(self).at() + 1
            } else {
                old(self).at()
            }),
    {
        if self.pos < self.toks.len() {
            self.pos = self.pos + 1;
        }
    }

    fn consume(&mut self, expect: TokenType) -> (r: Result<Token, String>)
        requires
            old(self).wf(),
        ensures
            final(self).wf(),
            final(self).tview() == old(self).tview(),
            ({
                let (o, p) = spec_consume(old(self).tview(), old(self).at(), expect);
                &&& final(self).at() == p
                &&& match (r, o) {
                    (Ok(t), Ok(st)) => t.token_type == st.0 && t.lexeme@ == st.1,
                    (Err(m), Err(sm)) => m@ == sm,
                    _ => false,
                }
            }),
    {
        if self.check(&expect) {
            if self.pos < self.toks.len() {
                let t = self.toks[self.pos].duplicate();
                proof {
                    assert(self.tview()[self.pos as int] == (
                        self.toks@[self.pos as int].token_type,
                        self.toks@[self.pos as int].lexeme@,
                    ));
                }
                self.advance();
                Ok(t)
            } else {
                self.advance();
                Err(String::from_str("unexpected eof"))
            }
        } else {
            let found = if self.pos < self.toks.len() {
                proof {
                    assert(self.tview()[self.pos as int].0 == self.toks@[self.pos as int]
                        .token_type);
                }
                String::from_str("Some(").concat(token_text(self.toks[self.pos].token_type))
                    .concat(")")
            } else {
                String::from_str("None")
            };
            Err(
                String::from_str("expected ").concat(token_text(expect)).concat(
                    " but found ",
                ).concat(found.as_str()),
            )
        }
    }

    fn precedence(&self, token_type: TokenType) -> (r: u8)
        ensures
            r == spec_precedence(token_type),
    {
        match token_type {
            TokenType::DblEquals | TokenType::Lt | TokenType::Gt | TokenType::Lte
                | TokenType::Gte | TokenType::Neq => 1,
            TokenType::Add | TokenType::Sub => 2,
            TokenType::Mul | TokenType::Div | TokenType::Mod => 3,
            _ => 0,
        }
    }

    fn is_binop(&self, token_type: TokenType) -> (r: bool)
        ensures
            r == spec_is_binop(token_type),
    {
        match token_type {
            TokenType::Add | TokenType::Sub | TokenType::Mul | TokenType::Div | TokenType::Mod
                | TokenType::DblEquals | TokenType::Lt | TokenType::Gt | TokenType::Lte
                | TokenType::Gte | TokenType::Neq => true,
            _ => false,
        }
    }

    fn current_lex(&self) -> (r: Option<&String>)
        ensures
            match r {
                Some(s) => self.at() < self.tview().len() && s@ == lx(self.tview(), self.at()),
                None => self.at() >= self.tview().len(),
            },
    {
        if self.pos < self.toks.len() {
            proof {
                assert(self.tview()[self.pos as int].1 == self.toks@[self.pos as int].lexeme@);
            }
            Some(&self.toks[self.pos].lexeme)
        } else {
            None
        }
    }

    /// Normalize the cursor as the grammar's meaning function does: not
    /// before `lo`, not past the end. A completed parse never moves it,
    /// but it ties the cursor to the stream for every caller.
    fn norm(&mut self, lo: usize)
        requires
            old(self).wf(),
            lo as nat <= old(self).tview().len(),
        ensures
            final(self).wf(),
            final(self).tview() == old(self).tview(),
            final(self).at() == clamp(old(self).tview().len(), lo as nat, old(self).at()),
    {
        if self.pos < lo {
            proof {
                assert(self.toks@.len() == self.tview().len());
            }
            self.pos = lo;
        }
    }
}

} // verus!

verus! {

impl Parser {
    /// Parse the whole stream: the top-level expressions in order, with
    /// optional semicolons between them.
    #[verifier::rlimit(100)]
    pub fn parse(&mut self) -> (r: Result<Vec<Expr>, String>)
        requires
            old(self).wf(),
        ensures
            final(self).wf(),
            final(self).tview() == old(self).tview(),
            ({
                let o = sp_parse_all(old(self).tview(), old(self).at());
                &&& final(self).at() == o.pos
                &&& match (r, o.out) {
                    (Ok(es), Ok(ss)) => crate::ast::exprs_view(es@) == ss,
                    (Err(m), Err(ms)) => m@ == ms,
                    _ => false,
                }
            }),
        decreases self.tview().len() - self.at(), 14int,
    {
        let ghost toks = self.tview();
        let mut exprs: Vec<Expr> = Vec::new();
        let ghost target = sp_parse_all(toks, self.at());
        proof {
            assert(crate::ast::exprs_view(exprs@) =~= Seq::<ExprS>::empty());
        }
        loop
            invariant
                self.wf(),
                self.tview() == toks,
                toks == old(self).tview(),
                target == sp_parse_all(toks, old(self).at()),
                ({
                    let rest = sp_parse_all(toks, self.at());
                    &&& (rest.out is Ok ==> target.out == Ok::<Seq<ExprS>, Seq<char>>(
                        crate::ast::exprs_view(exprs@) + rest.out->Ok_0,
                    ) && target.pos == rest.pos)
                    &&& (rest.out is Err ==> target.out == rest.out && target.pos == rest.pos)
                }),
            ensures
                self.wf(),
                self.tview() == toks,
                target.out == Ok::<Seq<ExprS>, Seq<char>>(crate::ast::exprs_view(exprs@)),
                target.pos == self.at(),
            decreases toks.len() - self.at(),
        {
            let ghost p_it = self.at();
            if self.check(&TokenType::Eof) {
                proof {
                    assert(sp_parse_all(toks, p_it) == (PL {
                        out: Ok(Seq::<ExprS>::empty()),
                        pos: p_it,
                    }));
                    assert(crate::ast::exprs_view(exprs@) + Seq::<ExprS>::empty()
                        =~= crate::ast::exprs_view(exprs@));
                }
                break ;
            }
            let start = self.pos;
            let ghost acc = exprs@;
            let e = match self.parse_expr() {
                Ok(e) => e,
                Err(m) => {
                    proof {
                        let eo = sp_parse_expr(toks, p_it);
                        assert(sp_parse_all(toks, p_it) == (PL { out: Err(eo.out->Err_0), pos: eo.pos }));
                    }
                    return Err(m);
                },
            };
            if self.check(&TokenType::Semi) {
                self.advance();
            }
            let nv = self.toks.len();
            proof {
                assert(self.toks@.len() == self.tview().len());
                assert(start as nat == p_it && p_it < toks.len());
                assert(start < nv);
            }
            self.norm(start + 1);
            exprs.push(e);
            proof {
                let eo = sp_parse_expr(toks, p_it);
                let p2: nat = if tt(toks, eo.pos) == TokenType::Semi {
                    eo.pos + 1
                } else {
                    eo.pos
                };
                assert(self.at() == clamp(toks.len(), p_it + 1, p2));
                assert(exprs@.drop_last() =~= acc);
                assert(crate::ast::exprs_view(exprs@) == crate::ast::exprs_view(acc).push(e@));
                let rest2 = sp_parse_all(toks, self.at());
                assert(sp_parse_all(toks, p_it) == (match rest2.out {
                    Err(m2) => PL { out: Err(m2), pos: rest2.pos },
                    Ok(xs) => PL { out: Ok(seq![eo.out->Ok_0] + xs), pos: rest2.pos },
                }));
                if rest2.out is Ok {
                    assert(crate::ast::exprs_view(acc) + (seq![e@] + rest2.out->Ok_0)
                        =~= crate::ast::exprs_view(exprs@) + rest2.out->Ok_0);
                }
            }
        }
        Ok(exprs)
    }

    /// One expression at the lowest precedence tier.
    pub fn parse_expr(&mut self) -> (r: Result<Expr, String>)
        requires
            old(self).wf(),
        ensures
            final(self).wf(),
            final(self).tview() == old(self).tview(),
            ({
                let o = sp_parse_expr(old(self).tview(), old(self).at());
                &&& final(self).at() == o.pos
                &&& match (r, o.out) {
                    (Ok(e), Ok(es)) => e@ == es,
                    (Err(m), Err(ms)) => m@ == ms,
                    _ => false,
                }
            }),
        decreases self.tview().len() - self.at(), 12int,
    {
        proof {
            assert(self.toks@.len() == self.tview().len());
        }
        if self.pos >= self.toks.len() {
            return Err(String::from_str("unexpected eof"));
        }
        self.parse_bin_expr(0)
    }

    /// Precedence-climbing binary parsing above a minimum tier.
    #[verifier::rlimit(100)]
    fn parse_bin_expr(&mut self, precedence: u8) -> (r: Result<Expr, String>)
        requires
            old(self).wf(),
        ensures
            final(self).wf(),
            final(self).tview() == old(self).tview(),
            ({
                let o = sp_parse_bin(old(self).tview(), old(self).at(), precedence);
                &&& final(self).at() == o.pos
                &&& match (r, o.out) {
                    (Ok(e), Ok(es)) => e@ == es,
                    (Err(m), Err(ms)) => m@ == ms,
                    _ => false,
                }
            }),
        decreases self.tview().len() - self.at(), 11int,
    {
        proof {
            assert(self.toks@.len() == self.tview().len());
        }
        if self.pos >= self.toks.len() {
            return Err(String::from_str("unexpected eof"));
        }
        let ghost toks = self.tview();
        let ghost p0 = self.at();
        let start0 = self.pos;
        let mut left = match self.parse_postfix() {
            Ok(e) => e,
            Err(m) => {
                return Err(m);
            },
        };
        self.norm(start0 + 1);
        let ghost target = sp_parse_bin(toks, p0, precedence);
        proof {
            assert(target == sp_bin_loop(toks, self.at(), left@, precedence));
        }
        loop
            invariant
                self.wf(),
                self.tview() == toks,
                toks == old(self).tview(),
                old(self).at() < toks.len(),
                old(self).at() < self.at(),
                target == sp_parse_bin(toks, old(self).at(), precedence),
                target == sp_bin_loop(toks, self.at(), left@, precedence),
            ensures
                self.wf(),
                self.tview() == toks,
                target.out == Ok::<ExprS, Seq<char>>(left@),
                target.pos == self.at(),
            decreases toks.len() - self.at(),
        {
            let ghost p_it = self.at();
            let cont = if self.pos < self.toks.len() {
                proof {
                    assert(self.tview()[self.pos as int].0 == self.toks@[self.pos as int]
                        .token_type);
                }
                let t = self.toks[self.pos].token_type;
                self.is_binop(t) && self.precedence(t) >= precedence
            } else {
                proof {
                    assert(self.toks@.len() == self.tview().len());
                }
                false
            };
            if !cont {
                proof {
                    assert(sp_bin_loop(toks, p_it, left@, precedence) == (PE {
                        out: Ok(left@),
                        pos: p_it,
                    }));
                }
                break ;
            }
            let start = self.pos;
            let op = self.toks[self.pos].token_type;
            let prec = self.precedence(op);
            self.advance();
            proof {
                assert(self.toks@.len() == self.tview().len());
                assert(op == tt(toks, p_it));
            }
            let right = match self.parse_bin_expr(prec + 1) {
                Ok(e) => e,
                Err(m) => {
                    return Err(m);
                },
            };
            self.norm(start + 1);
            left = Expr::BinaryOp(BinaryOp::new(left, right, op));
        }
        Ok(left)
    }
}

} // verus!

verus! {

impl Parser {
    /// A primary expression with its postfix chain.
    #[verifier::rlimit(100)]
    fn parse_postfix(&mut self) -> (r: Result<Expr, String>)
        requires
            old(self).wf(),
        ensures
            final(self).wf(),
            final(self).tview() == old(self).tview(),
            ({
                let o = sp_parse_postfix(old(self).tview(), old(self).at());
                &&& final(self).at() == o.pos
                &&& match (r, o.out) {
                    (Ok(e), Ok(es)) => e@ == es,
                    (Err(m), Err(ms)) => m@ == ms,
                    _ => false,
                }
            }),
        decreases self.tview().len() - self.at(), 10int,
    {
        proof {
            assert(self.toks@.len() == self.tview().len());
        }
        if self.pos >= self.toks.len() {
            return Err(String::from_str("unexpected eof"));
        }
        let ghost toks = self.tview();
        let ghost p0 = self.at();
        let start0 = self.pos;
        let mut e = match self.parse_prim() {
            Ok(e) => e,
            Err(m) => {
                return Err(m);
            },
        };
        self.norm(start0 + 1);
        let ghost target = sp_parse_postfix(toks, p0);
        proof {
            assert(target == sp_postfix_loop(toks, self.at(), e@));
        }
        loop
            invariant
                self.wf(),
                self.tview() == toks,
                toks == old(self).tview(),
                old(self).at() < toks.len(),
                old(self).at() < self.at(),
                target == sp_parse_postfix(toks, old(self).at()),
                target == sp_postfix_loop(toks, self.at(), e@),
            ensures
                self.wf(),
                self.tview() == toks,
                target.out == Ok::<ExprS, Seq<char>>(e@),
                target.pos == self.at(),
            decreases toks.len() - self.at(),
        {
            let ghost p_it = self.at();
            if self.check(&TokenType::LBracket) {
                let start = self.pos;
                proof {
                    assert(self.toks@.len() == self.tview().len());
                }
                self.advance();
                let idx = match self.parse_expr() {
                    Ok(x) => x,
                    Err(m) => {
                        proof {
                            assert(sp_parse_expr(toks, p_it + 1) == sp_parse_expr(
                                toks,
                                p_it + 1,
                            ));
                        }
                        return Err(m);
                    },
                };
                match self.consume(TokenType::RBracket) {
                    Ok(_) => {},
                    Err(m) => {
                        return Err(m);
                    },
                }
                self.norm(start + 1);
                e = Expr::IndexAccess(IndexAccess::new(e, idx));
            } else if self.check(&TokenType::Dot) {
                let start = self.pos;
                match self.consume(TokenType::Dot) {
                    Ok(_) => {},
                    Err(m) => {
                        return Err(m);
                    },
                }
                let meth = match self.consume(TokenType::Ident) {
                    Ok(t) => t.lexeme,
                    Err(m) => {
                        return Err(m);
                    },
                };
                if self.check(&TokenType::LParen) {
                    match self.consume(TokenType::LParen) {
                        Ok(_) => {},
                        Err(m) => {
                            return Err(m);
                        },
                    }
                    let args = if self.check(&TokenType::RParen) {
                        Vec::new()
                    } else {
                        proof {
                            assert(self.toks@.len() == self.tview().len());
                        }
                        match self.parse_args() {
                            Ok(a) => a,
                            Err(m) => {
                                return Err(m);
                            },
                        }
                    };
                    proof {
                        crate::ast::lemma_exprs_view(args@);
                    }
                    match self.consume(TokenType::RParen) {
                        Ok(_) => {},
                        Err(m) => {
                            return Err(m);
                        },
                    }
                    self.norm(start + 1);
                    e = Expr::MethodCall(MethodCall::new(e, meth, args));
                } else {
                    self.norm(start + 1);
                    e = Expr::FieldAccess(FieldAccess::new(e, meth));
                }
            } else {
                proof {
                    assert(sp_postfix_loop(toks, p_it, e@) == (PE { out: Ok(e@), pos: p_it }));
                }
                break ;
            }
        }
        Ok(e)
    }

    /// A primary expression, by its leading token.
    fn parse_prim(&mut self) -> (r: Result<Expr, String>)
        requires
            old(self).wf(),
        ensures
            final(self).wf(),
            final(self).tview() == old(self).tview(),
            ({
                let o = sp_parse_prim(old(self).tview(), old(self).at());
                &&& final(self).at() == o.pos
                &&& match (r, o.out) {
                    (Ok(e), Ok(es)) => e@ == es,
                    (Err(m), Err(ms)) => m@ == ms,
                    _ => false,
                }
            }),
        decreases self.tview().len() - self.at(), 9int,
    {
        proof {
            assert(self.toks@.len() == self.tview().len());
        }
        if self.pos >= self.toks.len() {
            return Err(String::from_str("unexpected eof"));
        }
        proof {
            assert(self.tview()[self.pos as int].0 == self.toks@[self.pos as int].token_type);
        }
        let t = self.toks[self.pos].token_type;
        match t {
            TokenType::Import => self.parse_import(),
            TokenType::Sub => self.parse_unary(),
            TokenType::Val => self.parse_var_decl(),
            TokenType::Ident => self.parse_identifier(),
            TokenType::String => self.parse_string(),
            TokenType::Number => self.parse_number(),
            TokenType::LParen => self.parse_grouped(),
            TokenType::LBracket => self.parse_collection(),
            TokenType::LBrace => {
                match self.parse_block() {
                    Ok(b) => {
                        proof {
                            crate::ast::lemma_exprs_view(b.exprs@);
                        }
                        Ok(Expr::Block(b))
                    },
                    Err(m) => Err(m),
                }
            },
            TokenType::If => self.parse_if(),
            _ => {
                let lexeme = self.toks[self.pos].lexeme.clone();
                proof {
                    assert(self.tview()[self.pos as int].1 == self.toks@[self.pos as int]
                        .lexeme@);
                }
                Err(
                    String::from_str("unexpected token Token { token_type: ").concat(
                        token_text(t),
                    ).concat(", lexeme: \"").concat(lexeme.as_str()).concat("\" }"),
                )
            },
        }
    }

    /// A number literal: the lexeme denotes the value.
    fn parse_number(&mut self) -> (r: Result<Expr, String>)
        requires
            old(self).wf(),
            tt(old(self).tview(), old(self).at()) == TokenType::Number,
        ensures
            final(self).wf(),
            final(self).tview() == old(self).tview(),
            ({
                let o = sp_parse_prim(old(self).tview(), old(self).at());
                &&& final(self).at() == o.pos
                &&& match (r, o.out) {
                    (Ok(e), Ok(es)) => e@ == es,
                    (Err(m), Err(ms)) => m@ == ms,
                    _ => false,
                }
            }),
        decreases self.tview().len() - self.at(), 8int,
    {
        proof {
            assert(self.toks@.len() == self.tview().len());
            assert(self.tview()[self.pos as int].1 == self.toks@[self.pos as int].lexeme@);
        }
        let num = self.toks[self.pos].lexeme.clone();
        self.advance();
        Ok(Expr::Number(crate::num::parse_number(num.as_str())))
    }

    /// A string literal: its text is the lexeme, taken verbatim.
    fn parse_string(&mut self) -> (r: Result<Expr, String>)
        requires
            old(self).wf(),
            tt(old(self).tview(), old(self).at()) == TokenType::String,
        ensures
            final(self).wf(),
            final(self).tview() == old(self).tview(),
            ({
                let o = sp_parse_prim(old(self).tview(), old(self).at());
                &&& final(self).at() == o.pos
                &&& match (r, o.out) {
                    (Ok(e), Ok(es)) => e@ == es,
                    (Err(m), Err(ms)) => m@ == ms,
                    _ => false,
                }
            }),
        decreases self.tview().len() - self.at(), 8int,
    {
        proof {
            assert(self.toks@.len() == self.tview().len());
            assert(self.tview()[self.pos as int].1 == self.toks@[self.pos as int].lexeme@);
        }
        let strr = self.toks[self.pos].lexeme.clone();
        self.advance();
        Ok(Expr::String(strr))
    }

    /// `include IDENT`.
    fn parse_import(&mut self) -> (r: Result<Expr, String>)
        requires
            old(self).wf(),
        ensures
            final(self).wf(),
            final(self).tview() == old(self).tview(),
            ({
                let o = sp_parse_import(old(self).tview(), old(self).at());
                &&& final(self).at() == o.pos
                &&& match (r, o.out) {
                    (Ok(e), Ok(es)) => e@ == es,
                    (Err(m), Err(ms)) => m@ == ms,
                    _ => false,
                }
            }),
        decreases self.tview().len() - self.at(), 8int,
    {
        match self.consume(TokenType::Import) {
            Ok(_) => {},
            Err(m) => {
                return Err(m);
            },
        }
        if self.check(&TokenType::Ident) {
            proof {
                assert(self.toks@.len() == self.tview().len());
                assert(self.tview()[self.pos as int].1 == self.toks@[self.pos as int].lexeme@);
            }
            let name = self.toks[self.pos].lexeme.clone();
            self.advance();
            Ok(Expr::Import(Import::new(name)))
        } else {
            Err(
                String::from_str("expected identifier after '").concat("incl").concat(
                    "ude",
                ).concat("'"),
            )
        }
    }

    /// Unary minus.
    fn parse_unary(&mut self) -> (r: Result<Expr, String>)
        requires
            old(self).wf(),
            old(self).at() < old(self).tview().len(),
        ensures
            final(self).wf(),
            final(self).tview() == old(self).tview(),
            ({
                let o = sp_parse_unary(old(self).tview(), old(self).at());
                &&& final(self).at() == o.pos
                &&& match (r, o.out) {
                    (Ok(e), Ok(es)) => e@ == es,
                    (Err(m), Err(ms)) => m@ == ms,
                    _ => false,
                }
            }),
        decreases self.tview().len() - self.at(), 8int,
    {
        proof {
            assert(self.toks@.len() == self.tview().len());
            assert(self.tview()[self.pos as int].0 == self.toks@[self.pos as int].token_type);
        }
        let op = self.toks[self.pos].token_type;
        self.advance();
        let operand = match self.parse_postfix() {
            Ok(e) => e,
            Err(m) => {
                return Err(m);
            },
        };
        Ok(Expr::UnaryOp(UnaryOp::new(operand, op)))
    }

    /// A parenthesized expression.
    fn parse_grouped(&mut self) -> (r: Result<Expr, String>)
        requires
            old(self).wf(),
        ensures
            final(self).wf(),
            final(self).tview() == old(self).tview(),
            ({
                let o = sp_parse_grouped(old(self).tview(), old(self).at());
                &&& final(self).at() == o.pos
                &&& match (r, o.out) {
                    (Ok(e), Ok(es)) => e@ == es,
                    (Err(m), Err(ms)) => m@ == ms,
                    _ => false,
                }
            }),
        decreases self.tview().len() - self.at(), 8int,
    {
        match self.consume(TokenType::LParen) {
            Ok(_) => {},
            Err(m) => {
                return Err(m);
            },
        }
        proof {
            assert(self.toks@.len() == self.tview().len());
        }
        let expr = match self.parse_bin_expr(0) {
            Ok(e) => e,
            Err(m) => {
                return Err(m);
            },
        };
        match self.consume(TokenType::RParen) {
            Ok(_) => {},
            Err(m) => {
                return Err(m);
            },
        }
        Ok(expr)
    }
}

} // verus!

verus! {

impl Parser {
    /// `val IDENT = expr`.
    fn parse_var_decl(&mut self) -> (r: Result<Expr, String>)
        requires
            old(self).wf(),
        ensures
            final(self).wf(),
            final(self).tview() == old(self).tview(),
            ({
                let o = sp_parse_var_decl(old(self).tview(), old(self).at());
                &&& final(self).at() == o.pos
                &&& match (r, o.out) {
                    (Ok(e), Ok(es)) => e@ == es,
                    (Err(m), Err(ms)) => m@ == ms,
                    _ => false,
                }
            }),
        decreases self.tview().len() - self.at(), 8int,
    {
        match self.consume(TokenType::Val) {
            Ok(_) => {},
            Err(m) => {
                return Err(m);
            },
        }
        let name = match self.consume(TokenType::Ident) {
            Ok(t) => t.lexeme,
            Err(m) => {
                return Err(m);
            },
        };
        match self.consume(TokenType::Equals) {
            Ok(_) => {},
            Err(m) => {
                return Err(m);
            },
        }
        let value = match self.parse_expr() {
            Ok(e) => e,
            Err(m) => {
                return Err(m);
            },
        };
        Ok(Expr::VarDecl(VarDecl::new(name, value)))
    }

    /// A leading identifier: qualified call or reference, call,
    /// assignment, or a plain reference.
    #[verifier::rlimit(100)]
    fn parse_identifier(&mut self) -> (r: Result<Expr, String>)
        requires
            old(self).wf(),
            old(self).at() < old(self).tview().len(),
        ensures
            final(self).wf(),
            final(self).tview() == old(self).tview(),
            ({
                let o = sp_parse_identifier(old(self).tview(), old(self).at());
                &&& final(self).at() == o.pos
                &&& match (r, o.out) {
                    (Ok(e), Ok(es)) => e@ == es,
                    (Err(m), Err(ms)) => m@ == ms,
                    _ => false,
                }
            }),
        decreases self.tview().len() - self.at(), 8int,
    {
        proof {
            assert(self.toks@.len() == self.tview().len());
            assert(self.tview()[self.pos as int].1 == self.toks@[self.pos as int].lexeme@);
        }
        let name = self.toks[self.pos].lexeme.clone();
        self.advance();
        if self.check(&TokenType::DblColon) {
            match self.consume(TokenType::DblColon) {
                Ok(_) => {},
                Err(m) => {
                    return Err(m);
                },
            }
            let fn_name = match self.consume(TokenType::Ident) {
                Ok(t) => t.lexeme,
                Err(m) => {
                    return Err(m);
                },
            };
            if self.check(&TokenType::LParen) {
                self.parse_mod_call(name, fn_name)
            } else {
                Ok(Expr::Identifier(name.concat("::").concat(fn_name.as_str())))
            }
        } else if self.check(&TokenType::LParen) {
            self.parse_call(name)
        } else if self.check(&TokenType::Equals) {
            self.parse_assignment(name)
        } else {
            Ok(Expr::Identifier(name))
        }
    }

    /// An unqualified call, after its name.
    fn parse_call(&mut self, name: String) -> (r: Result<Expr, String>)
        requires
            old(self).wf(),
        ensures
            final(self).wf(),
            final(self).tview() == old(self).tview(),
            ({
                let o = sp_parse_call(old(self).tview(), old(self).at(), name@);
                &&& final(self).at() == o.pos
                &&& match (r, o.out) {
                    (Ok(e), Ok(es)) => e@ == es,
                    (Err(m), Err(ms)) => m@ == ms,
                    _ => false,
                }
            }),
        decreases self.tview().len() - self.at(), 13int,
    {
        match self.consume(TokenType::LParen) {
            Ok(_) => {},
            Err(m) => {
                return Err(m);
            },
        }
        let args = if self.check(&TokenType::RParen) {
            Vec::new()
        } else {
            proof {
                assert(self.toks@.len() == self.tview().len());
            }
            match self.parse_args() {
                Ok(a) => a,
                Err(m) => {
                    return Err(m);
                },
            }
        };
        proof {
            crate::ast::lemma_exprs_view(args@);
        }
        match self.consume(TokenType::RParen) {
            Ok(_) => {},
            Err(m) => {
                return Err(m);
            },
        }
        Ok(Expr::Call(Call::new(name, args)))
    }

    /// A module-qualified call, after `module :: name`.
    fn parse_mod_call(&mut self, module: String, name: String) -> (r: Result<Expr, String>)
        requires
            old(self).wf(),
        ensures
            final(self).wf(),
            final(self).tview() == old(self).tview(),
            ({
                let o = sp_parse_mod_call(old(self).tview(), old(self).at(), module@, name@);
                &&& final(self).at() == o.pos
                &&& match (r, o.out) {
                    (Ok(e), Ok(es)) => e@ == es,
                    (Err(m), Err(ms)) => m@ == ms,
                    _ => false,
                }
            }),
        decreases self.tview().len() - self.at(), 13int,
    {
        match self.consume(TokenType::LParen) {
            Ok(_) => {},
            Err(m) => {
                return Err(m);
            },
        }
        let args = if self.check(&TokenType::RParen) {
            Vec::new()
        } else {
            proof {
                assert(self.toks@.len() == self.tview().len());
            }
            match self.parse_args() {
                Ok(a) => a,
                Err(m) => {
                    return Err(m);
                },
            }
        };
        proof {
            crate::ast::lemma_exprs_view(args@);
        }
        match self.consume(TokenType::RParen) {
            Ok(_) => {},
            Err(m) => {
                return Err(m);
            },
        }
        Ok(Expr::Call(Call::new_from_module(module, name, args)))
    }

    /// An assignment, after its target name.
    fn parse_assignment(&mut self, name: String) -> (r: Result<Expr, String>)
        requires
            old(self).wf(),
        ensures
            final(self).wf(),
            final(self).tview() == old(self).tview(),
            ({
                let o = sp_parse_assignment(old(self).tview(), old(self).at(), name@);
                &&& final(self).at() == o.pos
                &&& match (r, o.out) {
                    (Ok(e), Ok(es)) => e@ == es,
                    (Err(m), Err(ms)) => m@ == ms,
                    _ => false,
                }
            }),
        decreases self.tview().len() - self.at(), 13int,
    {
        match self.consume(TokenType::Equals) {
            Ok(_) => {},
            Err(m) => {
                return Err(m);
            },
        }
        let assignee = match self.parse_bin_expr(0) {
            Ok(e) => e,
            Err(m) => {
                return Err(m);
            },
        };
        Ok(Expr::Assignment(Assignment::new(name, assignee)))
    }

    /// A comma-separated argument list, trailing comma tolerated.
    #[verifier::rlimit(100)]
    fn parse_args(&mut self) -> (r: Result<Vec<Expr>, String>)
        requires
            old(self).wf(),
        ensures
            final(self).wf(),
            final(self).tview() == old(self).tview(),
            ({
                let o = sp_parse_args(old(self).tview(), old(self).at());
                &&& final(self).at() == o.pos
                &&& match (r, o.out) {
                    (Ok(es), Ok(ss)) => crate::ast::exprs_view(es@) == ss,
                    (Err(m), Err(ms)) => m@ == ms,
                    _ => false,
                }
            }),
        decreases self.tview().len() - self.at(), 13int,
    {
        proof {
            assert(self.toks@.len() == self.tview().len());
        }
        if self.pos >= self.toks.len() {
            return Err(String::from_str("unexpected eof"));
        }
        let ghost toks = self.tview();
        let ghost p0 = self.at();
        let start0 = self.pos;
        let mut args: Vec<Expr> = Vec::new();
        let first = match self.parse_bin_expr(0) {
            Ok(e) => e,
            Err(m) => {
                return Err(m);
            },
        };
        args.push(first);
        self.norm(start0 + 1);
        let ghost target = sp_parse_args(toks, p0);
        proof {
            let fo = sp_parse_bin(toks, p0, 0);
            assert(self.at() == clamp(toks.len(), p0 + 1, fo.pos));
            crate::ast::lemma_exprs_view(args@);
            assert(args@.drop_last() =~= Seq::<Expr>::empty());
            assert(crate::ast::exprs_view(Seq::<Expr>::empty()) =~= Seq::<ExprS>::empty());
            assert(crate::ast::exprs_view(args@) =~= Seq::<ExprS>::empty().push(args@[0]@));
        }
        loop
            invariant
                self.wf(),
                self.tview() == toks,
                toks == old(self).tview(),
                p0 == old(self).at(),
                p0 < toks.len(),
                old(self).at() < self.at(),
                args@.len() >= 1,
                target == sp_parse_args(toks, p0),
                ({
                    let rest = sp_args_more(toks, self.at());
                    &&& (rest.out is Ok ==> target.out == Ok::<Seq<ExprS>, Seq<char>>(
                        crate::ast::exprs_view(args@) + rest.out->Ok_0,
                    ) && target.pos == rest.pos)
                    &&& (rest.out is Err ==> target.out == rest.out && target.pos == rest.pos)
                }),
            ensures
                self.wf(),
                self.tview() == toks,
                target.out == Ok::<Seq<ExprS>, Seq<char>>(crate::ast::exprs_view(args@)),
                target.pos == self.at(),
            decreases toks.len() - self.at(),
        {
            let ghost p_it = self.at();
            let ghost acc = args@;
            if !self.check(&TokenType::Comma) {
                proof {
                    assert(sp_args_more(toks, p_it) == (PL {
                        out: Ok(Seq::<ExprS>::empty()),
                        pos: p_it,
                    }));
                    assert(crate::ast::exprs_view(args@) + Seq::<ExprS>::empty()
                        =~= crate::ast::exprs_view(args@));
                }
                break ;
            }
            let start = self.pos;
            self.advance();
            if self.check(&TokenType::RParen) {
                proof {
                    assert(sp_args_more(toks, p_it) == (PL {
                        out: Ok(Seq::<ExprS>::empty()),
                        pos: p_it + 1,
                    }));
                    assert(crate::ast::exprs_view(args@) + Seq::<ExprS>::empty()
                        =~= crate::ast::exprs_view(args@));
                }
                break ;
            }
            proof {
                assert(self.toks@.len() == self.tview().len());
            }
            let nxt = match self.parse_bin_expr(0) {
                Ok(e) => e,
                Err(m) => {
                    return Err(m);
                },
            };
            args.push(nxt);
            self.norm(start + 1);
            proof {
                crate::ast::lemma_exprs_view(args@);
                crate::ast::lemma_exprs_view(acc);
                assert(args@.drop_last() =~= acc);
                assert(crate::ast::exprs_view(args@) == crate::ast::exprs_view(acc).push(
                    args@.last()@,
                ));
                let no = sp_parse_bin(toks, p_it + 1, 0);
                let rest2 = sp_args_more(toks, self.at());
                if rest2.out is Ok {
                    assert(crate::ast::exprs_view(acc) + (seq![no.out->Ok_0] + rest2.out->Ok_0)
                        =~= crate::ast::exprs_view(args@) + rest2.out->Ok_0);
                }
            }
        }
        Ok(args)
    }

    /// A brace-delimited block.
    #[verifier::rlimit(100)]
    fn parse_block(&mut self) -> (r: Result<Block, String>)
        requires
            old(self).wf(),
        ensures
            final(self).wf(),
            final(self).tview() == old(self).tview(),
            ({
                let o = sp_parse_block(old(self).tview(), old(self).at());
                &&& final(self).at() == o.pos
                &&& match (r, o.out) {
                    (Ok(b), Ok(ss)) => crate::ast::exprs_view(b.exprs@) == ss,
                    (Err(m), Err(ms)) => m@ == ms,
                    _ => false,
                }
            }),
        decreases self.tview().len() - self.at(), 8int,
    {
        let ghost toks = self.tview();
        match self.consume(TokenType::LBrace) {
            Ok(_) => {},
            Err(m) => {
                return Err(m);
            },
        }
        let ghost p1 = self.at();
        let mut exprs: Vec<Expr> = Vec::new();
        let ghost target = sp_block_stmts(toks, p1);
        proof {
            assert(crate::ast::exprs_view(exprs@) =~= Seq::<ExprS>::empty());
        }
        loop
            invariant
                self.wf(),
                self.tview() == toks,
                toks == old(self).tview(),
                old(self).at() < toks.len(),
                tt(toks, old(self).at()) == TokenType::LBrace,
                p1 == old(self).at() + 1,
                p1 <= self.at(),
                target == sp_block_stmts(toks, p1),
                ({
                    let rest = sp_block_stmts(toks, self.at());
                    &&& (rest.out is Ok ==> target.out == Ok::<Seq<ExprS>, Seq<char>>(
                        crate::ast::exprs_view(exprs@) + rest.out->Ok_0,
                    ) && target.pos == rest.pos)
                    &&& (rest.out is Err ==> target.out == rest.out && target.pos == rest.pos)
                }),
            ensures
                self.wf(),
                self.tview() == toks,
                target.out == Ok::<Seq<ExprS>, Seq<char>>(crate::ast::exprs_view(exprs@)),
                target.pos == self.at(),
            decreases toks.len() - self.at(),
        {
            let ghost p_it = self.at();
            if self.check(&TokenType::RBrace) || self.check(&TokenType::Eof) {
                proof {
                    assert(sp_block_stmts(toks, p_it) == (PL {
                        out: Ok(Seq::<ExprS>::empty()),
                        pos: p_it,
                    }));
                    assert(crate::ast::exprs_view(exprs@) + Seq::<ExprS>::empty()
                        =~= crate::ast::exprs_view(exprs@));
                }
                break ;
            }
            let start = self.pos;
            let ghost acc = exprs@;
            let e = match self.parse_expr() {
                Ok(e) => e,
                Err(m) => {
                    return Err(m);
                },
            };
            if self.check(&TokenType::Semi) {
                self.advance();
            }
            let nv = self.toks.len();
            proof {
                assert(self.toks@.len() == self.tview().len());
                assert(start as nat == p_it && p_it < toks.len());
                assert(start < nv);
            }
            self.norm(start + 1);
            exprs.push(e);
            proof {
                crate::ast::lemma_exprs_view(exprs@);
                crate::ast::lemma_exprs_view(acc);
                assert(exprs@.drop_last() =~= acc);
                assert(crate::ast::exprs_view(exprs@) == crate::ast::exprs_view(acc).push(e@));
                let eo = sp_parse_expr(toks, p_it);
                let rest2 = sp_block_stmts(toks, self.at());
                if rest2.out is Ok {
                    assert(crate::ast::exprs_view(acc) + (seq![e@] + rest2.out->Ok_0)
                        =~= crate::ast::exprs_view(exprs@) + rest2.out->Ok_0);
                }
            }
        }
        match self.consume(TokenType::RBrace) {
            Ok(_) => {},
            Err(m) => {
                return Err(m);
            },
        }
        Ok(Block::new(exprs))
    }

    /// `if cond { .. }` with an optional `else` or chained `else if`.
    #[verifier::rlimit(100)]
    fn parse_if(&mut self) -> (r: Result<Expr, String>)
        requires
            old(self).wf(),
        ensures
            final(self).wf(),
            final(self).tview() == old(self).tview(),
            ({
                let o = sp_parse_if(old(self).tview(), old(self).at());
                &&& final(self).at() == o.pos
                &&& match (r, o.out) {
                    (Ok(e), Ok(es)) => e@ == es,
                    (Err(m), Err(ms)) => m@ == ms,
                    _ => false,
                }
            }),
        decreases self.tview().len() - self.at(), 8int,
    {
        let ghost toks = self.tview();
        let ghost p0 = self.at();
        let start0 = self.pos;
        match self.consume(TokenType::If) {
            Ok(_) => {},
            Err(m) => {
                return Err(m);
            },
        }
        let cond = match self.parse_expr() {
            Ok(e) => e,
            Err(m) => {
                return Err(m);
            },
        };
        proof {
            assert(start0 as nat == p0 && p0 < toks.len());
        }
        self.norm(start0 + 1);
        let block = match self.parse_block() {
            Ok(b) => b,
            Err(m) => {
                return Err(m);
            },
        };
        proof {
            crate::ast::lemma_exprs_view(block.exprs@);
        }
        let else_block = if self.check(&TokenType::Else) {
            match self.consume(TokenType::Else) {
                Ok(_) => {},
                Err(m) => {
                    return Err(m);
                },
            }
            if self.check(&TokenType::If) {
                self.norm(start0 + 1);
                let nested = match self.parse_if() {
                    Ok(e) => e,
                    Err(m) => {
                        return Err(m);
                    },
                };
                let mut inner: Vec<Expr> = Vec::new();
                inner.push(nested);
                proof {
                    crate::ast::lemma_exprs_view(inner@);
                    assert(crate::ast::exprs_view(inner@) =~= seq![inner@[0]@]);
                }
                Some(Block::new(inner))
            } else {
                self.norm(start0 + 1);
                let eb = match self.parse_block() {
                    Ok(b) => b,
                    Err(m) => {
                        return Err(m);
                    },
                };
                proof {
                    crate::ast::lemma_exprs_view(eb.exprs@);
                }
                Some(eb)
            }
        } else {
            None
        };
        Ok(Expr::If(If::new(cond, block, else_block)))
    }

    /// A collection literal.
    #[verifier::rlimit(100)]
    fn parse_collection(&mut self) -> (r: Result<Expr, String>)
        requires
            old(self).wf(),
        ensures
            final(self).wf(),
            final(self).tview() == old(self).tview(),
            ({
                let o = sp_parse_collection(old(self).tview(), old(self).at());
                &&& final(self).at() == o.pos
                &&& match (r, o.out) {
                    (Ok(e), Ok(es)) => e@ == es,
                    (Err(m), Err(ms)) => m@ == ms,
                    _ => false,
                }
            }),
        decreases self.tview().len() - self.at(), 8int,
    {
        let ghost toks = self.tview();
        match self.consume(TokenType::LBracket) {
            Ok(_) => {},
            Err(m) => {
                return Err(m);
            },
        }
        if self.check(&TokenType::RBracket) {
            match self.consume(TokenType::RBracket) {
                Ok(_) => {},
                Err(m) => {
                    return Err(m);
                },
            }
            let empty_col = Collection::empty();
            let ghost ev = empty_col.entries@;
            let result = Expr::Collection(empty_col);
            proof {
                assert(result@ == ExprS::Collection(crate::ast::entries_view(ev)));
                assert(crate::ast::entries_view(ev) == Seq::<CEntryS>::empty());
            }
            return Ok(result);
        }
        let ghost p1 = self.at();
        let mut entries: Vec<CEntry> = Vec::new();
        let ghost target = sp_coll_entries(toks, p1);
        proof {
            assert(crate::ast::entries_view(entries@) =~= Seq::<CEntryS>::empty());
        }
        loop
            invariant_except_break
                ({
                    let rest = sp_coll_entries(toks, self.at());
                    &&& (rest.out is Ok ==> target.out == Ok::<Seq<CEntryS>, Seq<char>>(
                        crate::ast::entries_view(entries@) + rest.out->Ok_0,
                    ) && target.pos == rest.pos)
                    &&& (rest.out is Err ==> target.out == rest.out && target.pos == rest.pos)
                }),
            invariant
                self.wf(),
                self.tview() == toks,
                toks == old(self).tview(),
                old(self).at() < toks.len(),
                tt(toks, old(self).at()) == TokenType::LBracket,
                p1 == old(self).at() + 1,
                p1 <= self.at(),
                tt(toks, p1) != TokenType::RBracket,
                target == sp_coll_entries(toks, p1),
            ensures
                self.wf(),
                self.tview() == toks,
                target.out == Ok::<Seq<CEntryS>, Seq<char>>(crate::ast::entries_view(entries@)),
                target.pos == self.at(),
            decreases toks.len() - self.at(),
        {
            let ghost p_it = self.at();
            let ghost acc = entries@;
            let start = self.pos;
            proof {
                assert(self.toks@.len() == self.tview().len());
            }
            if self.pos >= self.toks.len() {
                return Err(String::from_str("unexpected eof"));
            }
            proof {
                assert(self.tview()[self.pos as int].0 == self.toks@[self.pos as int]
                    .token_type);
                assert(self.tview()[self.pos as int].1 == self.toks@[self.pos as int].lexeme@);
            }
            let is_keyed_ident = self.toks[self.pos].token_type == TokenType::Ident && ({
                let here = self.pos;
                if here < usize::MAX && here + 1 < self.toks.len() {
                    proof {
                        assert(self.tview()[here + 1].0 == self.toks@[here as int + 1]
                            .token_type);
                    }
                    self.toks[here + 1].token_type == TokenType::Equals
                } else {
                    false
                }
            });
            let entry: CEntry = if is_keyed_ident {
                let key = self.toks[self.pos].lexeme.clone();
                self.advance();
                self.advance();
                let val = match self.parse_expr() {
                    Ok(e) => e,
                    Err(m) => {
                        return Err(m);
                    },
                };
                CEntry::Keyed(key, val)
            } else if self.toks[self.pos].token_type == TokenType::Ident {
                let key = self.toks[self.pos].lexeme.clone();
                self.advance();
                CEntry::Indexed(Expr::Identifier(key))
            } else {
                let first = match self.parse_expr() {
                    Ok(e) => e,
                    Err(m) => {
                        return Err(m);
                    },
                };
                if self.check(&TokenType::Equals) {
                    self.advance();
                    proof {
                        assert(self.toks@.len() == self.tview().len());
                    }
                    let ghost fo = sp_parse_expr(toks, p_it);
                    self.norm(start + 1);
                    let value = match self.parse_expr() {
                        Ok(e) => e,
                        Err(m) => {
                            return Err(m);
                        },
                    };
                    match first {
                        Expr::String(sk) => CEntry::Keyed(sk, value),
                        Expr::Number(nk) => CEntry::NumKeyed(nk, value),
                        _ => {
                            return Err(
                                String::from_str(
                                    "invalid key usage type for collection structure entry.",
                                ),
                            );
                        },
                    }
                } else {
                    CEntry::Indexed(first)
                }
            };
            self.norm(start);
            let ghost v_pos = self.at();
            if self.check(&TokenType::Comma) {
                self.advance();
                if self.check(&TokenType::RBracket) {
                    entries.push(entry);
                    proof {
                        crate::ast::lemma_entries_view(entries@);
                        crate::ast::lemma_entries_view(acc);
                        assert(entries@.drop_last() =~= acc);
                        assert(crate::ast::entries_view(entries@) == crate::ast::entries_view(
                            acc,
                        ).push(entry@));
                        assert(sp_coll_cont(toks, v_pos, entry@) == (PC {
                            out: Ok(seq![entry@]),
                            pos: v_pos + 1,
                        }));
                        assert(crate::ast::entries_view(acc) + seq![entry@]
                            =~= crate::ast::entries_view(entries@));
                        assert(crate::ast::entries_view(entries@) + Seq::<CEntryS>::empty()
                            =~= crate::ast::entries_view(entries@));
                    }
                    break ;
                }
                entries.push(entry);
                self.norm(start + 1);
                proof {
                    crate::ast::lemma_entries_view(entries@);
                    crate::ast::lemma_entries_view(acc);
                    assert(entries@.drop_last() =~= acc);
                    assert(crate::ast::entries_view(entries@) == crate::ast::entries_view(
                        acc,
                    ).push(entry@));
                    let rest2 = sp_coll_entries(toks, self.at());
                    if rest2.out is Ok {
                        assert(crate::ast::entries_view(acc) + (seq![entry@] + rest2.out->Ok_0)
                            =~= crate::ast::entries_view(entries@) + rest2.out->Ok_0);
                    }
                }
            } else if self.check(&TokenType::RBracket) {
                entries.push(entry);
                proof {
                    crate::ast::lemma_entries_view(entries@);
                    crate::ast::lemma_entries_view(acc);
                    assert(entries@.drop_last() =~= acc);
                    assert(crate::ast::entries_view(entries@) == crate::ast::entries_view(
                        acc,
                    ).push(entry@));
                    assert(sp_coll_cont(toks, v_pos, entry@) == (PC {
                        out: Ok(seq![entry@]),
                        pos: v_pos,
                    }));
                    assert(crate::ast::entries_view(acc) + seq![entry@]
                        =~= crate::ast::entries_view(entries@));
                    assert(crate::ast::entries_view(entries@) + Seq::<CEntryS>::empty()
                        =~= crate::ast::entries_view(entries@));
                }
                break ;
            } else {
                return Err(
                    String::from_str("expected ',' or ']' to terminate collection definition."),
                );
            }
        }
        match self.consume(TokenType::RBracket) {
            Ok(_) => {},
            Err(m) => {
                return Err(m);
            },
        }
        Ok(Expr::Collection(Collection::new(entries)))
    }
}

} // verus!
