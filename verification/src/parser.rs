use vstd::prelude::*;

use crate::expr::Expr;
use crate::token::{Token, TokenStream};

verus! {

/// Errors of the expression parser.
#[derive(Debug, Clone, Copy, PartialEq, Eq, Structural)]
pub enum ParseError {
    UnexpectedEndOfInput,
    UnexpectedToken { found: Token },
}

/// True when the front of `t` reads as the single atom `e`: an integer
/// literal, or a parenthesized operator expression.
pub open spec fn atom_ok(t: Seq<Token>, e: Expr) -> bool
    decreases e, 1int,
{
    match e {
        Expr::Int(v) => t.len() > 0 && t[0] == Token::Int(v),
        _ => t.len() > 0 && t[0] == Token::LeftParen && expr_ok(t.drop_first(), e) && {
            let m = expr_rest(t.drop_first(), e);
            m.len() > 0 && m[0] == Token::RightParen
        },
    }
}

/// The tokens that remain after reading the atom `e` from the front of `t`.
pub open spec fn atom_rest(t: Seq<Token>, e: Expr) -> Seq<Token>
    decreases e, 1int,
{
    match e {
        Expr::Int(_) => t.drop_first(),
        _ => expr_rest(t.drop_first(), e).drop_first(),
    }
}

/// True when the front of `t` reads as the expression `e`: an atom, an
/// operator matching the kind of `e`, and an atom. The parser yields an
/// operator expression at this level, never a bare integer.
pub open spec fn expr_ok(t: Seq<Token>, e: Expr) -> bool
    decreases e, 0int,
{
    match e {
        Expr::Int(_) => false,
        Expr::Add { left, right } => atom_ok(t, *left) && {
            let m = atom_rest(t, *left);
            m.len() > 0 && m[0] == Token::Plus && atom_ok(m.drop_first(), *right)
        },
        Expr::Sub { left, right } => atom_ok(t, *left) && {
            let m = atom_rest(t, *left);
            m.len() > 0 && m[0] == Token::Minus && atom_ok(m.drop_first(), *right)
        },
    }
}

/// The tokens that remain after reading the expression `e` from the front
/// of `t`.
pub open spec fn expr_rest(t: Seq<Token>, e: Expr) -> Seq<Token>
    decreases e, 0int,
{
    match e {
        Expr::Int(_) => t,
        Expr::Add { left, right } => atom_rest(atom_rest(t, *left).drop_first(), *right),
        Expr::Sub { left, right } => atom_rest(atom_rest(t, *left).drop_first(), *right),
    }
}

/// The tokens `t` parse as the single atom `e`, leaving exactly `rest`.
pub open spec fn atom_parses(t: Seq<Token>, e: Expr, rest: Seq<Token>) -> bool {
    atom_ok(t, e) && rest == atom_rest(t, e)
}

/// The tokens `t` parse as the expression `e`, leaving exactly `rest`.
pub open spec fn parses_to(t: Seq<Token>, e: Expr, rest: Seq<Token>) -> bool {
    expr_ok(t, e) && rest == expr_rest(t, e)
}

/// Two atoms read from the same tokens are the same atom: the first token
/// decides between an integer and a parenthesized expression, so the
/// grammar is unambiguous at the atom level.
proof fn lemma_atom_unique(t: Seq<Token>, e1: Expr, e2: Expr)
    requires
        atom_ok(t, e1),
        atom_ok(t, e2),
    ensures
        e1 == e2,
    decreases e1, 1int,
{
    if !(e1 is Int) && !(e2 is Int) {
        lemma_expr_unique(t.drop_first(), e1, e2);
    }
}

/// Two expressions read from the same tokens are the same expression: the
/// grammar is unambiguous, so the parse contract pins the parsed value.
pub proof fn lemma_expr_unique(t: Seq<Token>, e1: Expr, e2: Expr)
    requires
        expr_ok(t, e1),
        expr_ok(t, e2),
    ensures
        e1 == e2,
        expr_rest(t, e1) == expr_rest(t, e2),
    decreases e1, 0int,
{
    match (e1, e2) {
        (
            Expr::Add { left: l1, right: r1 },
            Expr::Add { left: l2, right: r2 },
        ) => {
            lemma_atom_unique(t, *l1, *l2);
            lemma_atom_unique(atom_rest(t, *l1).drop_first(), *r1, *r2);
        },
        (
            Expr::Add { left: l1, right: r1 },
            Expr::Sub { left: l2, right: r2 },
        ) => {
            lemma_atom_unique(t, *l1, *l2);
        },
        (
            Expr::Sub { left: l1, right: r1 },
            Expr::Add { left: l2, right: r2 },
        ) => {
            lemma_atom_unique(t, *l1, *l2);
        },
        (
            Expr::Sub { left: l1, right: r1 },
            Expr::Sub { left: l2, right: r2 },
        ) => {
            lemma_atom_unique(t, *l1, *l2);
            lemma_atom_unique(atom_rest(t, *l1).drop_first(), *r1, *r2);
        },
        _ => {},
    }
}

/// The outcome of parsing one atom from `t`: the remaining tokens on
/// success, or, on failure, the error the parser reports together with the
/// tokens that remain after it (consumed tokens are not restored). `fuel`
/// bounds the nesting of parentheses; any fuel larger than the number of
/// tokens gives the same outcome.
pub open spec fn atom_outcome(t: Seq<Token>, fuel: nat) -> Result<
    Seq<Token>,
    (ParseError, Seq<Token>),
>
    decreases fuel, 0int,
{
    if t.len() == 0 {
        Err((ParseError::UnexpectedEndOfInput, t))
    } else {
        match t[0] {
            Token::Int(_) => Ok(t.drop_first()),
            Token::LeftParen => if fuel == 0 {
                Err((ParseError::UnexpectedEndOfInput, t))
            } else {
                match expr_outcome(t.drop_first(), (fuel - 1) as nat) {
                    Ok(mid) => if mid.len() == 0 {
                        Err((ParseError::UnexpectedEndOfInput, mid))
                    } else if mid[0] == Token::RightParen {
                        Ok(mid.drop_first())
                    } else {
                        Err((ParseError::UnexpectedToken { found: mid[0] }, mid.drop_first()))
                    },
                    Err(e) => Err(e),
                }
            },
            tok => Err((ParseError::UnexpectedToken { found: tok }, t.drop_first())),
        }
    }
}

/// The outcome of parsing a full expression (atom, operator, atom) from
/// `t`.
pub open spec fn expr_outcome(t: Seq<Token>, fuel: nat) -> Result<
    Seq<Token>,
    (ParseError, Seq<Token>),
>
    decreases fuel, 1int,
{
    match atom_outcome(t, fuel) {
        Err(e) => Err(e),
        Ok(rest1) => if rest1.len() == 0 {
            Err((ParseError::UnexpectedEndOfInput, rest1))
        } else if rest1[0] == Token::Plus || rest1[0] == Token::Minus {
            atom_outcome(rest1.drop_first(), fuel)
        } else {
            Err((ParseError::UnexpectedToken { found: rest1[0] }, rest1.drop_first()))
        },
    }
}

/// A successful atom parse consumes at least one token.
proof fn lemma_atom_shrinks(t: Seq<Token>, fuel: nat)
    ensures
        atom_outcome(t, fuel) matches Ok(rest) ==> rest.len() < t.len(),
    decreases fuel, 0int,
{
    if t.len() > 0 && t[0] is LeftParen && fuel > 0 {
        lemma_expr_shrinks(t.drop_first(), (fuel - 1) as nat);
    }
}

/// A successful expression parse consumes at least one token.
proof fn lemma_expr_shrinks(t: Seq<Token>, fuel: nat)
    ensures
        expr_outcome(t, fuel) matches Ok(rest) ==> rest.len() < t.len(),
    decreases fuel, 1int,
{
    lemma_atom_shrinks(t, fuel);
    match atom_outcome(t, fuel) {
        Ok(rest1) => {
            if rest1.len() > 0 && (rest1[0] == Token::Plus || rest1[0] == Token::Minus) {
                lemma_atom_shrinks(rest1.drop_first(), fuel);
            }
        },
        Err(_) => {},
    }
}

/// The atom outcome does not depend on the fuel, as long as the fuel
/// exceeds the number of tokens.
proof fn lemma_atom_fuel(t: Seq<Token>, f1: nat, f2: nat)
    requires
        f1 > t.len(),
        f2 > t.len(),
    ensures
        atom_outcome(t, f1) == atom_outcome(t, f2),
    decreases f1, 0int,
{
    if t.len() > 0 && t[0] is LeftParen {
        lemma_expr_fuel(t.drop_first(), (f1 - 1) as nat, (f2 - 1) as nat);
    }
}

/// The expression outcome does not depend on the fuel, as long as the fuel
/// exceeds the number of tokens.
proof fn lemma_expr_fuel(t: Seq<Token>, f1: nat, f2: nat)
    requires
        f1 > t.len(),
        f2 > t.len(),
    ensures
        expr_outcome(t, f1) == expr_outcome(t, f2),
    decreases f1, 1int,
{
    lemma_atom_fuel(t, f1, f2);
    match atom_outcome(t, f1) {
        Ok(rest1) => {
            lemma_atom_shrinks(t, f1);
            if rest1.len() > 0 && (rest1[0] == Token::Plus || rest1[0] == Token::Minus) {
                lemma_atom_fuel(rest1.drop_first(), f1, f2);
            }
        },
        Err(_) => {},
    }
}

impl Expr {
    /// Parses a set of tokens into an expression: an atom, a `+` or `-`,
    /// and an atom, where an atom is an integer or a parenthesized
    /// expression. On success the parsed expression is related to the
    /// consumed tokens by `parses_to` and the stream holds the rest; on
    /// failure the reported error and the state the stream is left in are
    /// exactly what `expr_outcome` gives for the input (consumed tokens are
    /// not restored).
    pub fn parse(tokens: &mut TokenStream) -> (r: Result<Expr, ParseError>)
        ensures
            r matches Ok(e) ==> parses_to(old(tokens)@, e, final(tokens)@) && expr_outcome(
                old(tokens)@,
                old(tokens)@.len() + 1,
            ) == Ok::<Seq<Token>, (ParseError, Seq<Token>)>(final(tokens)@),
            r matches Err(err) ==> expr_outcome(old(tokens)@, old(tokens)@.len() + 1) == Err::<
                Seq<Token>,
                (ParseError, Seq<Token>),
            >((err, final(tokens)@)),
        decreases old(tokens)@.len(),
    {
        let ghost t0 = tokens@;
        let ghost fuel = (t0.len() + 1) as nat;

        // Left atom
        let left = match tokens.next() {
            Err(e) => {
                return Err(e);
            },
            Ok(Token::Int(value)) => Expr::Int(value),
            Ok(Token::LeftParen) => {
                let ghost t1 = tokens@;
                let inner_result = Expr::parse(tokens);
                let ghost x1 = tokens@;
                let inner_expr = match inner_result {
                    Ok(e) => e,
                    Err(e) => {
                        proof {
                            assert(atom_outcome(t0, fuel) == Err::<Seq<Token>, (ParseError, Seq<Token>)>((e, tokens@)));
                        }
                        return Err(e);
                    },
                };
                proof {
                    assert(parses_to(t1, inner_expr, x1));
                    assert(t1 == t0.drop_first());
                }
                // Expect to get a right paren
                match tokens.next() {
                    Ok(Token::RightParen) => {},
                    Ok(found) => {
                        return Err(ParseError::UnexpectedToken { found });
                    },
                    Err(e) => {
                        return Err(e);
                    },
                }
                proof {
                    lemma_expr_shrinks(t1, (t1.len() + 1) as nat);
                    assert(tokens@ == x1.drop_first());
                    assert(atom_parses(t0, inner_expr, tokens@));
                    assert(tokens@.len() + 2 <= t0.len());
                }
                inner_expr
            },
            Ok(found) => {
                return Err(ParseError::UnexpectedToken { found });
            },
        };
        let ghost mid1 = tokens@;
        proof {
            assert(mid1.len() < t0.len());
            assert(atom_parses(t0, left, mid1));
            assert(atom_outcome(t0, fuel) == Ok::<Seq<Token>, (ParseError, Seq<Token>)>(mid1));
        }

        // Operator
        let is_add = match tokens.next() {
            Ok(Token::Plus) => true,
            Ok(Token::Minus) => false,
            Ok(found) => {
                return Err(ParseError::UnexpectedToken { found });
            },
            Err(e) => {
                return Err(e);
            },
        };
        let ghost t2 = tokens@;
        proof {
            assert(t2 == mid1.drop_first());
        }

        // Right atom
        let right = match tokens.next() {
            Err(e) => {
                proof {
                    assert(atom_outcome(t2, fuel) == Err::<Seq<Token>, (ParseError, Seq<Token>)>((e, tokens@)));
                }
                return Err(e);
            },
            Ok(Token::Int(value)) => Expr::Int(value),
            Ok(Token::LeftParen) => {
                let ghost t3 = tokens@;
                proof {
                    assert(t3.len() < t0.len());
                }
                let inner_expr = match Expr::parse(tokens) {
                    Ok(e) => e,
                    Err(e) => {
                        proof {
                            lemma_expr_fuel(t3, (t3.len() + 1) as nat, (fuel - 1) as nat);
                            assert(atom_outcome(t2, fuel) == Err::<Seq<Token>, (ParseError, Seq<Token>)>((e, tokens@)));
                        }
                        return Err(e);
                    },
                };
                proof {
                    lemma_expr_fuel(t3, (t3.len() + 1) as nat, (fuel - 1) as nat);
                }
                // Expect to get a right paren
                match tokens.next() {
                    Ok(Token::RightParen) => {},
                    Ok(found) => {
                        return Err(ParseError::UnexpectedToken { found });
                    },
                    Err(e) => {
                        return Err(e);
                    },
                }
                proof {
                    assert(atom_parses(t2, inner_expr, tokens@));
                }
                inner_expr
            },
            Ok(found) => {
                return Err(ParseError::UnexpectedToken { found });
            },
        };
        let ghost rest2 = tokens@;
        proof {
            assert(atom_parses(t2, right, rest2));
            assert(atom_outcome(t2, fuel) == Ok::<Seq<Token>, (ParseError, Seq<Token>)>(rest2));
            assert(expr_outcome(t0, fuel) == Ok::<Seq<Token>, (ParseError, Seq<Token>)>(rest2));
        }

        let e = if is_add {
            Expr::Add { left: Box::new(left), right: Box::new(right) }
        } else {
            Expr::Sub { left: Box::new(left), right: Box::new(right) }
        };
        proof {
            assert(parses_to(t0, e, rest2));
        }
        Ok(e)
    }
}

} // verus!
