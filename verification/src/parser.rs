//! The SQL parser: dispatches on the leading token, builds tables and
//! insert statements, and translates `WHERE` predicates through postfix
//! form into a tree.

use vstd::prelude::*;
use crate::datatype::DataType;
use crate::field::Field;
use crate::table::Table;
use crate::lexer::{Scanner, LexerError, spec_scan, syms_model};
use crate::symbol::{Symbol, Token, Group};
use crate::query::{Node, PredTree, QueryData, tree_in_order};
use crate::worker::{SQL, SQLError};
use crate::numtext::{spec_parse_u8, parse_u8};
use crate::strutil::str_eq;

verus! {

/// A lexed symbol reduced to name, token, and group.
pub open spec fn sym_of(s: Symbol) -> (Seq<char>, Token, Group) {
    (s.name@, s.token, s.group)
}

#[derive(Debug)]
pub struct Parser {
    pub tokens: Vec<Symbol>,
}

#[derive(Debug)]
pub enum ParserError {
    CauseByLexer(LexerError),
    TokenLengthZero,
    SyntaxError(String),
    SQLError(SQLError),
}

impl ParserError {
    /// The message shown to clients for this error.
    pub fn message(&self) -> (r: String)
        ensures
            (match self {
                ParserError::CauseByLexer(_) => r@ == "error caused by lexer: "@
                    + "please use ascii character."@,
                ParserError::TokenLengthZero => r@ == "error caused by a zero length tokens"@,
                ParserError::SyntaxError(s) => r@ == "error caused by wrong syntax `"@ + s@
                    + "`"@,
                ParserError::SQLError(e) => (match e {
                    SQLError::SemanticError(s) => r@ == "error caused by semantic: "@
                        + "semantic error: "@ + s@,
                }),
            }),
    {
        match self {
            ParserError::CauseByLexer(e) => String::from_str("error caused by lexer: ").concat(
                e.message().as_str(),
            ),
            ParserError::TokenLengthZero => String::from_str(
                "error caused by a zero length tokens",
            ),
            ParserError::SyntaxError(s) => String::from_str("error caused by wrong syntax `")
                .concat(s.as_str()).concat("`"),
            ParserError::SQLError(e) => String::from_str("error caused by semantic: ").concat(
                e.message().as_str(),
            ),
        }
    }
}

impl Parser {
    /// Scans the message; an empty token stream is rejected.
    pub fn new(message: &str) -> (r: Result<Parser, ParserError>)
        ensures
            (match spec_scan(message@) {
                None => r is Err && r->Err_0 is CauseByLexer,
                Some(ms) => {
                    if ms.len() == 0 {
                        r is Err && r->Err_0 is TokenLengthZero
                    } else {
                        r is Ok && syms_model(r->Ok_0.tokens@) == ms
                    }
                },
            }),
    {
        let mut s = Scanner::new(message);
        match s.scan_tokens() {
            Ok(tokens) => {
                if tokens.len() == 0 {
                    return Err(ParserError::TokenLengthZero);
                }
                Ok(Parser { tokens })
            },
            Err(e) => Err(ParserError::CauseByLexer(e)),
        }
    }
}

/// Whether a symbol at the position is an identifier; the parser's
/// id-or-error check.
pub fn check_id(sym: &Symbol) -> (r: Result<(), ParserError>)
    ensures
        r is Ok <==> sym.group == Group::Identifier,
        r is Err ==> r->Err_0 is SyntaxError,
{
    if matches!(sym.group, Group::Identifier) {
        Ok(())
    } else {
        Err(
            ParserError::SyntaxError(
                sym.name.clone().concat(" is not an"),
            ),
        )
    }
}

/// Whether the symbol is present and carries the expected token.
pub fn assert_token(sym: Option<&Symbol>, token: Token) -> (r: Result<(), ParserError>)
    ensures
        r is Ok <==> (sym is Some && sym->Some_0.token == token),
        r is Err ==> r->Err_0 is SyntaxError,
{
    match sym {
        Some(s) => {
            if s.token == token {
                Ok(())
            } else {
                Err(ParserError::SyntaxError(String::from_str("invalid syntax")))
            }
        },
        None => Err(ParserError::SyntaxError(String::from_str("invalid syntax"))),
    }
}

/// Comma-separated identifiers starting at `i`: the names and the
/// position just past them.
pub open spec fn spec_id_items(ms: Seq<(Seq<char>, Token, Group)>, i: int) -> Option<
    (Seq<Seq<char>>, int),
>
    decreases ms.len() - i,
{
    if !(0 <= i < ms.len()) || ms[i].1 != Token::Identifier {
        None
    } else if i + 1 < ms.len() && ms[i + 1].1 == Token::Comma {
        match spec_id_items(ms, i + 2) {
            Some((v, j)) => Some((seq![ms[i].0] + v, j)),
            None => None,
        }
    } else {
        Some((seq![ms[i].0], i + 1))
    }
}

/// The same list wrapped in parentheses when `is_parent` holds.
pub open spec fn spec_id_list(ms: Seq<(Seq<char>, Token, Group)>, i: int, is_parent: bool) -> Option<
    (Seq<Seq<char>>, int),
> {
    if is_parent {
        if 0 <= i < ms.len() && ms[i].1 == Token::ParentLeft {
            match spec_id_items(ms, i + 1) {
                Some((v, j)) => {
                    if j < ms.len() && ms[j].1 == Token::ParentRight {
                        Some((v, j + 1))
                    } else {
                        None
                    }
                },
                None => None,
            }
        } else {
            None
        }
    } else {
        spec_id_items(ms, i)
    }
}

/// Reads a list of identifiers, optionally parenthesized, advancing the
/// cursor past it.
#[verifier::loop_isolation(false)]
pub fn get_id_list(tokens: &Vec<Symbol>, pos: &mut usize, is_parent: bool) -> (r: Result<
    Vec<String>,
    ParserError,
>)
    ensures
        (match spec_id_list(syms_model(tokens@), *old(pos) as int, is_parent) {
            Some((v, j)) => {
                &&& r is Ok
                &&& r->Ok_0.deep_view() == v
                &&& *final(pos) == j
                &&& *final(pos) > *old(pos)
            },
            None => r is Err && r->Err_0 is SyntaxError,
        }),
{
    let ghost ms = syms_model(tokens@);
    let n = tokens.len();
    proof {
        assert(ms.len() == tokens@.len());
        assert(forall|k: int| 0 <= k < ms.len() ==> ms[k] == sym_of(tokens@[k]));
    }
    if is_parent {
        if !(*pos < n && matches!(tokens[*pos].token, Token::ParentLeft)) {
            return Err(ParserError::SyntaxError(String::from_str("invalid syntax")));
        }
        *pos += 1;
    }
    if *pos > n {
        proof {
            assert(spec_id_items(ms, *pos as int) is None);
        }
        return Err(ParserError::SyntaxError(String::from_str("invalid syntax")));
    }
    let mut v: Vec<String> = Vec::new();
    let ghost p0 = *pos as int;
    proof {
        assert(v.deep_view() =~= Seq::<Seq<char>>::empty());
        match spec_id_items(ms, p0) {
            Some((full, _)) => {
                assert(v.deep_view() + full =~= full);
            },
            None => {},
        }
    }
    loop
        invariant
            *pos <= n,
            *pos >= p0,
            p0 >= *old(pos),
            n == ms.len(),
            forall|k: int| 0 <= k < ms.len() ==> ms[k] == sym_of(tokens@[k]),
            (match spec_id_items(ms, p0) {
                Some((full, j)) => match spec_id_items(ms, *pos as int) {
                    Some((rest, j2)) => full == v.deep_view() + rest && j == j2,
                    None => false,
                },
                None => spec_id_items(ms, *pos as int) is None,
            }),
        decreases n - *pos,
    {
        if !(*pos < n && matches!(tokens[*pos].token, Token::Identifier)) {
            proof {
                assert(spec_id_items(ms, *pos as int) is None);
            }
            return Err(ParserError::SyntaxError(String::from_str("invalid syntax")));
        }
        let ghost before = v.deep_view();
        v.push(tokens[*pos].name.clone());
        proof {
            assert(v.deep_view() =~= before.push(ms[*pos as int].0));
        }
        if *pos + 1 < n && matches!(tokens[*pos + 1].token, Token::Comma) {
            proof {
                match spec_id_items(ms, *pos as int + 2) {
                    Some((rest, _)) => {
                        assert(before + (seq![ms[*pos as int].0] + rest) =~= v.deep_view() + rest);
                    },
                    None => {},
                }
            }
            *pos += 2;
        } else {
            proof {
                assert(before + seq![ms[*pos as int].0] =~= v.deep_view());
                assert(v.deep_view() + Seq::<Seq<char>>::empty() =~= v.deep_view());
                match spec_id_items(ms, p0) {
                    Some((full, j)) => {
                        assert(full == v.deep_view());
                    },
                    None => {},
                }
            }
            *pos += 1;
            break;
        }
    }
    if is_parent {
        if !(*pos < n && matches!(tokens[*pos].token, Token::ParentRight)) {
            return Err(ParserError::SyntaxError(String::from_str("invalid syntax")));
        }
        *pos += 1;
    }
    Ok(v)
}

/// The operator precedence of the shunting algorithm.
pub open spec fn spec_priority(t: Token) -> u32 {
    match t {
        Token::NOT => 2,
        Token::AND => 1,
        Token::OR => 1,
        _ => 3,
    }
}

pub fn operator_priority(t: &Token) -> (r: u32)
    ensures
        r == spec_priority(*t),
{
    match t {
        Token::NOT => 2,
        Token::AND => 1,
        Token::OR => 1,
        _ => 3,
    }
}

/// Pops operators of no lower precedence onto the output.
pub open spec fn pop_ge(stack: Seq<(Seq<char>, Token, Group)>, out: Seq<(Seq<char>, Token, Group)>, p: u32) -> (
    Seq<(Seq<char>, Token, Group)>,
    Seq<(Seq<char>, Token, Group)>,
)
    decreases stack.len(),
{
    if stack.len() > 0 && stack.last().2 == Group::Operator && spec_priority(stack.last().1) >= p {
        pop_ge(stack.drop_last(), out.push(stack.last()), p)
    } else {
        (stack, out)
    }
}

/// Pops up to and including the opening parenthesis; the flag says
/// whether one was found.
pub open spec fn pop_paren(stack: Seq<(Seq<char>, Token, Group)>, out: Seq<(Seq<char>, Token, Group)>) -> (
    Seq<(Seq<char>, Token, Group)>,
    Seq<(Seq<char>, Token, Group)>,
    bool,
)
    decreases stack.len(),
{
    if stack.len() == 0 {
        (stack, out, false)
    } else if stack.last().1 == Token::ParentLeft {
        (stack.drop_last(), out, true)
    } else {
        pop_paren(stack.drop_last(), out.push(stack.last()))
    }
}

/// An opening parenthesis is still on the stack.
pub open spec fn has_paren(stack: Seq<(Seq<char>, Token, Group)>) -> bool {
    exists|k: int| 0 <= k < stack.len() && (#[trigger] stack[k]).1 == Token::ParentLeft
}

/// The infix-to-postfix translation (a shunting yard over the symbol
/// models); unmatched parentheses fail.
pub open spec fn spec_postfix(
    ms: Seq<(Seq<char>, Token, Group)>,
    i: int,
    stack: Seq<(Seq<char>, Token, Group)>,
    out: Seq<(Seq<char>, Token, Group)>,
) -> Option<Seq<(Seq<char>, Token, Group)>>
    decreases ms.len() - i,
{
    if !(0 <= i < ms.len()) {
        if has_paren(stack) {
            None
        } else {
            Some(out + stack.reverse())
        }
    } else {
        let s = ms[i];
        if s.1 == Token::ParentLeft {
            spec_postfix(ms, i + 1, stack.push(s), out)
        } else if s.1 == Token::ParentRight {
            let (st, ot, found) = pop_paren(stack, out);
            if found {
                spec_postfix(ms, i + 1, st, ot)
            } else {
                None
            }
        } else if s.2 == Group::Operator {
            let (st, ot) = pop_ge(stack, out, spec_priority(s.1));
            spec_postfix(ms, i + 1, st.push(s), ot)
        } else {
            spec_postfix(ms, i + 1, stack, out.push(s))
        }
    }
}

/// Translates predicate tokens from infix to postfix order; an
/// unmatched parenthesis on either side is a syntax error.
#[verifier::loop_isolation(false)]
pub fn parse_infix_postfix(symbols: Vec<Symbol>) -> (r: Result<Vec<Symbol>, ParserError>)
    ensures
        (match spec_postfix(syms_model(symbols@), 0, Seq::empty(), Seq::empty()) {
            Some(pf) => r is Ok && syms_model(r->Ok_0@) == pf,
            None => r is Err && r->Err_0 is SyntaxError,
        }),
{
    let ghost ms = syms_model(symbols@);
    proof {
        assert(ms.len() == symbols@.len());
        assert(forall|k: int| 0 <= k < ms.len() ==> ms[k] == sym_of(symbols@[k]));
    }
    let n = symbols.len();
    let mut stack: Vec<Symbol> = Vec::new();
    let mut out: Vec<Symbol> = Vec::new();
    let mut i: usize = 0;
    proof {
        assert(syms_model(stack@) =~= Seq::<(Seq<char>, Token, Group)>::empty());
        assert(syms_model(out@) =~= Seq::<(Seq<char>, Token, Group)>::empty());
    }
    while i < n
        invariant
            i <= n,
            n == ms.len(),
            forall|k: int| 0 <= k < ms.len() ==> ms[k] == sym_of(symbols@[k]),
            spec_postfix(ms, 0, Seq::empty(), Seq::empty()) == spec_postfix(
                ms,
                i as int,
                syms_model(stack@),
                syms_model(out@),
            ),
        decreases n - i,
    {
        let s = &symbols[i];
        if matches!(s.token, Token::ParentLeft) {
            let ghost bs = stack@;
            stack.push(s.clone_symbol());
            proof {
                assert(syms_model(stack@) =~= syms_model(bs).push(ms[i as int]));
            }
        } else if matches!(s.token, Token::ParentRight) {
            let ghost es = syms_model(stack@);
            let ghost eo = syms_model(out@);
            loop
                invariant
                    pop_paren(syms_model(stack@), syms_model(out@)) == pop_paren(es, eo),
                decreases stack@.len(),
            {
                let ghost cs = syms_model(stack@);
                let ghost co = syms_model(out@);
                let top = stack.pop();
                match top {
                    Some(t) => {
                        proof {
                            assert(cs.last() == sym_of(t));
                            assert(syms_model(stack@) =~= cs.drop_last());
                        }
                        if matches!(t.token, Token::ParentLeft) {
                            proof {
                                assert(pop_paren(cs, co) == (syms_model(stack@), syms_model(
                                    out@,
                                ), true));
                            }
                            break;
                        }
                        let ghost bo = out@;
                        out.push(t);
                        proof {
                            assert(syms_model(out@) =~= syms_model(bo).push(sym_of(t)));
                        }
                    },
                    None => {
                        proof {
                            assert(cs.len() == 0);
                            assert(!pop_paren(es, eo).2);
                            assert(spec_postfix(ms, 0, Seq::empty(), Seq::empty()) is None);
                        }
                        return Err(
                            ParserError::SyntaxError(
                                String::from_str("invalid predicate syntax"),
                            ),
                        );
                    },
                }
            }
            proof {
                assert((syms_model(stack@), syms_model(out@), true) == pop_paren(es, eo));
            }
        } else if matches!(s.group, Group::Operator) {
            let p = operator_priority(&s.token);
            let ghost es = syms_model(stack@);
            let ghost eo = syms_model(out@);
            loop
                invariant
                    p == spec_priority(ms[i as int].1),
                    pop_ge(syms_model(stack@), syms_model(out@), p) == pop_ge(es, eo, p),
                decreases stack@.len(),
            {
                let ghost cs = syms_model(stack@);
                let ghost co = syms_model(out@);
                let do_pop = if stack.len() > 0 {
                    let t = &stack[stack.len() - 1];
                    matches!(t.group, Group::Operator) && operator_priority(&t.token) >= p
                } else {
                    false
                };
                proof {
                    if stack@.len() > 0 {
                        assert(cs.last() == sym_of(stack@.last()));
                    }
                }
                if do_pop {
                    let t = match stack.pop() {
                        Some(t) => t,
                        None => {
                            proof {
                                assert(false);
                            }
                            break;
                        },
                    };
                    proof {
                        assert(syms_model(stack@) =~= cs.drop_last());
                    }
                    let ghost bo = out@;
                    out.push(t);
                    proof {
                        assert(syms_model(out@) =~= syms_model(bo).push(sym_of(t)));
                    }
                } else {
                    proof {
                        assert(pop_ge(cs, co, p) == (cs, co));
                    }
                    break;
                }
            }
            proof {
                assert((syms_model(stack@), syms_model(out@)) == pop_ge(es, eo, p));
            }
            let ghost bs = stack@;
            stack.push(s.clone_symbol());
            proof {
                assert(syms_model(stack@) =~= syms_model(bs).push(ms[i as int]));
            }
        } else {
            let ghost bo = out@;
            out.push(s.clone_symbol());
            proof {
                assert(syms_model(out@) =~= syms_model(bo).push(ms[i as int]));
            }
        }
        i += 1;
    }
    // drain the stack; a leftover opening parenthesis is unmatched
    loop
        invariant
            spec_postfix(ms, 0, Seq::empty(), Seq::empty()) == (if has_paren(syms_model(stack@)) {
                None
            } else {
                Some(syms_model(out@) + syms_model(stack@).reverse())
            }),
        decreases stack@.len(),
    {
        let ghost cs = syms_model(stack@);
        match stack.pop() {
            Some(t) => {
                proof {
                    assert(cs.last() == sym_of(t));
                    assert(syms_model(stack@) =~= cs.drop_last());
                }
                if matches!(t.token, Token::ParentLeft) {
                    proof {
                        assert(has_paren(cs));
                    }
                    return Err(
                        ParserError::SyntaxError(
                            String::from_str("invalid predicate syntax"),
                        ),
                    );
                }
                let ghost bo = out@;
                out.push(t);
                proof {
                    assert(syms_model(out@) =~= syms_model(bo).push(sym_of(t)));
                    assert(cs.reverse() =~= seq![sym_of(t)] + cs.drop_last().reverse());
                    assert(syms_model(bo) + (seq![sym_of(t)] + cs.drop_last().reverse())
                        =~= syms_model(out@) + cs.drop_last().reverse());
                    assert(has_paren(cs) == has_paren(cs.drop_last())) by {
                        if has_paren(cs) {
                            let k = choose|k: int|
                                0 <= k < cs.len() && (#[trigger] cs[k]).1 == Token::ParentLeft;
                            assert(k < cs.len() - 1);
                            assert(cs.drop_last()[k].1 == Token::ParentLeft);
                        }
                        if has_paren(cs.drop_last()) {
                            let k = choose|k: int|
                                0 <= k < cs.drop_last().len() && (#[trigger] cs.drop_last()[
                                k]).1 == Token::ParentLeft;
                            assert(cs[k].1 == Token::ParentLeft);
                        }
                    }
                }
            },
            None => {
                proof {
                    assert(!has_paren(cs));
                    assert(cs.reverse() =~= Seq::<(Seq<char>, Token, Group)>::empty());
                    assert(syms_model(out@) + cs.reverse() =~= syms_model(out@));
                }
                break;
            },
        }
    }
    Ok(out)
}

impl Symbol {
    /// A value-equal copy.
    pub fn clone_symbol(&self) -> (r: Symbol)
        ensures
            r.name@ == self.name@,
            r.len == self.len,
            r.token == self.token,
            r.group == self.group,
            sym_of(r) == sym_of(*self),
    {
        Symbol {
            name: self.name.clone(),
            len: self.len,
            token: self.token,
            group: self.group,
        }
    }
}

/// Building a tree from postfix symbols with an explicit stack.
pub open spec fn spec_tree(
    ms: Seq<(Seq<char>, Token, Group)>,
    i: int,
    stack: Seq<PredTree>,
) -> Option<PredTree>
    decreases ms.len() - i,
{
    if !(0 <= i < ms.len()) {
        if stack.len() == 1 {
            Some(stack[0])
        } else {
            None
        }
    } else {
        let s = ms[i];
        if s.2 == Group::Identifier {
            spec_tree(ms, i + 1, stack.push(PredTree::Leaf(s.0)))
        } else if s.2 == Group::Operator {
            if s.1 == Token::NOT {
                if stack.len() >= 1 {
                    spec_tree(
                        ms,
                        i + 1,
                        stack.drop_last().push(
                            PredTree::Unary(s.0, Box::new(stack.last())),
                        ),
                    )
                } else {
                    None
                }
            } else if s.1 == Token::AND || s.1 == Token::OR || s.1 == Token::LT || s.1
                == Token::LE || s.1 == Token::EQ || s.1 == Token::NE || s.1 == Token::GT || s.1
                == Token::GE {
                if stack.len() >= 2 {
                    spec_tree(
                        ms,
                        i + 1,
                        stack.drop_last().drop_last().push(
                            PredTree::Binary(
                                s.0,
                                Box::new(stack[stack.len() - 2]),
                                Box::new(stack.last()),
                            ),
                        ),
                    )
                } else {
                    None
                }
            } else {
                spec_tree(ms, i + 1, stack)
            }
        } else {
            None
        }
    }
}

pub open spec fn node_models(v: Seq<Node>) -> Seq<PredTree> {
    v.map(|i: int, n: Node| n.model())
}

/// Builds the predicate tree out of postfix symbols; a malformed
/// sequence is a syntax error.
#[verifier::loop_isolation(false)]
pub fn parse_postfix_tree(symbols: Vec<Symbol>) -> (r: Result<Box<Node>, ParserError>)
    ensures
        (match spec_tree(syms_model(symbols@), 0, Seq::empty()) {
            Some(t) => r is Ok && (*r->Ok_0).model() == t,
            None => r is Err && r->Err_0 is SyntaxError,
        }),
{
    let ghost ms = syms_model(symbols@);
    proof {
        assert(ms.len() == symbols@.len());
        assert(forall|k: int| 0 <= k < ms.len() ==> ms[k] == sym_of(symbols@[k]));
    }
    let n = symbols.len();
    let mut stack: Vec<Node> = Vec::new();
    let mut i: usize = 0;
    proof {
        assert(node_models(stack@) =~= Seq::<PredTree>::empty());
    }
    while i < n
        invariant
            i <= n,
            n == ms.len(),
            forall|k: int| 0 <= k < ms.len() ==> ms[k] == sym_of(symbols@[k]),
            spec_tree(ms, 0, Seq::empty()) == spec_tree(ms, i as int, node_models(stack@)),
        decreases n - i,
    {
        let ghost entry = stack@;
        let s = &symbols[i];
        if matches!(s.group, Group::Identifier) {
            let ghost bs = stack@;
            stack.push(Node::new(s.name.clone()));
            proof {
                assert(node_models(stack@) =~= node_models(bs).push(
                    PredTree::Leaf(ms[i as int].0),
                ));
                assert(spec_tree(ms, i as int, node_models(bs)) == spec_tree(
                    ms,
                    i as int + 1,
                    node_models(stack@),
                ));
            }
        } else if matches!(s.group, Group::Operator) {
            if !matches!(s.token, Token::NOT | Token::AND | Token::OR | Token::LT | Token::LE
                | Token::EQ | Token::NE | Token::GT | Token::GE) {
                // tokens outside the predicate grammar are skipped
                proof {
                    assert(ms[i as int].1 != Token::NOT && ms[i as int].1 != Token::AND
                        && ms[i as int].1 != Token::OR && ms[i as int].1 != Token::LT
                        && ms[i as int].1 != Token::LE && ms[i as int].1 != Token::EQ
                        && ms[i as int].1 != Token::NE && ms[i as int].1 != Token::GT
                        && ms[i as int].1 != Token::GE);
                    assert(spec_tree(ms, i as int, node_models(stack@)) == spec_tree(
                        ms,
                        i as int + 1,
                        node_models(stack@),
                    ));
                }
            } else if matches!(s.token, Token::NOT) {
                let right = match stack.pop() {
                    Some(x) => x,
                    None => {
                        proof {
                            assert(spec_tree(ms, 0, Seq::empty()) is None);
                        }
                        return Err(
                            ParserError::SyntaxError(
                                String::from_str("invalid predicate syntax"),
                            ),
                        );
                    },
                };
                let ghost bs = stack@;
                let ghost rm = right.model();
                let tree = Node::new(s.name.clone()).right(right);
                proof {
                    assert(entry =~= bs.push(right));
                    assert(tree.model() == PredTree::Unary(ms[i as int].0, Box::new(rm)));
                }
                stack.push(tree);
                proof {
                    assert(node_models(stack@) =~= node_models(bs).push(tree.model()));
                    assert(node_models(bs.push(right)).drop_last() =~= node_models(bs));
                    assert(node_models(bs.push(right)).last() == rm);
                    assert(spec_tree(ms, i as int, node_models(bs.push(right))) == spec_tree(
                        ms,
                        i as int + 1,
                        node_models(stack@),
                    ));
                }
            } else {
                let right = match stack.pop() {
                    Some(x) => x,
                    None => {
                        proof {
                            assert(spec_tree(ms, 0, Seq::empty()) is None);
                        }
                        return Err(
                            ParserError::SyntaxError(
                                String::from_str("invalid predicate syntax"),
                            ),
                        );
                    },
                };
                let left = match stack.pop() {
                    Some(x) => x,
                    None => {
                        proof {
                            assert(node_models(stack@.push(right)).len() == 1);
                            assert(spec_tree(ms, 0, Seq::empty()) is None);
                        }
                        return Err(
                            ParserError::SyntaxError(
                                String::from_str("invalid predicate syntax"),
                            ),
                        );
                    },
                };
                let ghost bs = stack@;
                let ghost rm = right.model();
                let ghost lm = left.model();
                let tree = Node::new(s.name.clone()).right(right).left(left);
                proof {
                    assert(entry =~= bs.push(left).push(right));
                    assert(tree.model() == PredTree::Binary(ms[i as int].0, Box::new(lm),
                        Box::new(rm)));
                }
                stack.push(tree);
                proof {
                    let orig = bs.push(left).push(right);
                    assert(node_models(orig).drop_last().drop_last() =~= node_models(bs));
                    assert(node_models(orig).last() == rm);
                    assert(node_models(orig)[node_models(orig).len() - 2] == lm);
                    assert(node_models(stack@) =~= node_models(bs).push(tree.model()));
                    assert(spec_tree(ms, i as int, node_models(orig)) == spec_tree(
                        ms,
                        i as int + 1,
                        node_models(stack@),
                    ));
                }
            }
        } else {
            proof {
                assert(spec_tree(ms, 0, Seq::empty()) is None);
            }
            return Err(
                ParserError::SyntaxError(String::from_str("invalid predicate syntax")),
            );
        }
        i += 1;
    }
    let tree = match stack.pop() {
        Some(t) => t,
        None => {
            proof {
                assert(spec_tree(ms, 0, Seq::empty()) is None);
            }
            return Err(ParserError::SyntaxError(String::from_str("invalid predicate syntax")));
        },
    };
    if stack.len() != 0 {
        proof {
            let all = node_models(stack@.push(tree));
            assert(all.len() >= 2);
            assert(spec_tree(ms, 0, Seq::empty()) is None);
        }
        return Err(ParserError::SyntaxError(String::from_str("invalid predicate syntax")));
    }
    proof {
        let all = node_models(stack@.push(tree));
        assert(all.len() == 1);
        assert(all[0] == tree.model());
    }
    Ok(Box::new(tree))
}

/// The in-order walk of a node, by its children.
pub open spec fn node_in_order(n: Node) -> Seq<Seq<char>>
    decreases n,
{
    let mid = seq![n.root@];
    let l = match n.left {
        Some(b) => node_in_order(*b),
        None => Seq::empty(),
    };
    let r = match n.right {
        Some(b) => node_in_order(*b),
        None => Seq::empty(),
    };
    l + mid + r
}

/// Appends the in-order walk of the tree to `vec`.
pub fn in_order(node: Box<Node>, vec: &mut Vec<String>)
    ensures
        final(vec).deep_view() == old(vec).deep_view() + node_in_order(*node),
    decreases *node,
{
    let ghost whole = node_in_order(*node);
    let Node { root, left, right, set } = *node;
    let ghost lpart = if left is Some {
        node_in_order(*left->Some_0)
    } else {
        Seq::<Seq<char>>::empty()
    };
    let ghost rpart = if right is Some {
        node_in_order(*right->Some_0)
    } else {
        Seq::<Seq<char>>::empty()
    };
    proof {
        assert(whole == lpart + seq![root@] + rpart);
    }
    match left {
        Some(l) => {
            in_order(l, vec);
        },
        None => {
            proof {
                assert(vec.deep_view() + lpart =~= vec.deep_view());
            }
        },
    }
    let ghost mid0 = vec.deep_view();
    vec.push(root);
    proof {
        assert(vec.deep_view() =~= mid0.push(whole[lpart.len() as int]));
    }
    match right {
        Some(r) => {
            in_order(r, vec);
        },
        None => {
            proof {
                assert(vec.deep_view() + rpart =~= vec.deep_view());
            }
        },
    }
    proof {
        assert(old(vec).deep_view() + (lpart + seq![whole[lpart.len() as int]] + rpart)
            =~= ((old(vec).deep_view() + lpart).push(whole[lpart.len() as int])) + rpart);
    }
}

/// The predicate tree a token span parses to, if any: infix to
/// postfix, then postfix to a tree.
pub open spec fn spec_predicate(ms: Seq<(Seq<char>, Token, Group)>) -> Option<PredTree> {
    match spec_postfix(ms, 0, Seq::empty(), Seq::empty()) {
        None => None,
        Some(pf) => spec_tree(pf, 0, Seq::empty()),
    }
}

/// Parses a predicate: infix to postfix, then postfix to a tree.
pub fn parse_predicate(symbols: Vec<Symbol>) -> (r: Result<Box<Node>, ParserError>)
    ensures
        (match spec_predicate(syms_model(symbols@)) {
            Some(t) => r is Ok && (*r->Ok_0).model() == t,
            None => r is Err && r->Err_0 is SyntaxError,
        }),
{
    let postfix = match parse_infix_postfix(symbols) {
        Ok(v) => v,
        Err(e) => {
            return Err(e);
        },
    };
    parse_postfix_tree(postfix)
}

/// Rows of an `INSERT`: parenthesized value lists separated by commas,
/// each as long as the attribute list.
pub open spec fn spec_value_rows(
    ms: Seq<(Seq<char>, Token, Group)>,
    j: int,
    alen: int,
) -> Option<(Seq<Seq<Seq<char>>>, int)>
    decreases ms.len() - j,
{
    if 0 <= j < ms.len() && ms[j].1 == Token::ParentLeft {
        match spec_id_list(ms, j, true) {
            Some((row, j2)) => {
                if row.len() == alen {
                    let jn = if j2 > j { j2 } else { j + 1 };
                    match spec_value_rows(ms, jn, alen) {
                        Some((rs, j3)) => Some((seq![row] + rs, j3)),
                        None => None,
                    }
                } else {
                    None
                }
            },
            None => None,
        }
    } else if 0 <= j < ms.len() && ms[j].1 == Token::Comma {
        spec_value_rows(ms, j + 1, alen)
    } else {
        Some((Seq::empty(), j))
    }
}

/// An `INSERT INTO` statement: table name, attribute list, value rows,
/// ending at a semicolon.
pub open spec fn spec_insert_stmt(ms: Seq<(Seq<char>, Token, Group)>, i: int) -> Option<
    (Seq<char>, Seq<Seq<char>>, Seq<Seq<Seq<char>>>),
> {
    if i + 1 < ms.len() && ms[i + 1].2 == Group::Identifier {
        match spec_id_list(ms, i + 2, true) {
            Some((attrs, j)) => {
                if j < ms.len() && ms[j].1 == Token::Values {
                    match spec_value_rows(ms, j + 1, attrs.len() as int) {
                        Some((rows, j2)) => {
                            if j2 < ms.len() && ms[j2].1 == Token::Semicolon {
                                Some((ms[i + 1].0, attrs, rows))
                            } else {
                                None
                            }
                        },
                        None => None,
                    }
                } else {
                    None
                }
            },
            None => None,
        }
    } else {
        None
    }
}

/// Parses an `INSERT INTO` statement starting at the keyword.
#[verifier::loop_isolation(false)]
#[verifier::rlimit(100)]
pub fn parser_insert_into_table(tokens: &Vec<Symbol>, pos: &mut usize) -> (r: Result<
    (String, Vec<String>, Vec<Vec<String>>),
    ParserError,
>)
    ensures
        (match spec_insert_stmt(syms_model(tokens@), *old(pos) as int) {
            Some((nm, attrs, rows)) => {
                &&& r is Ok
                &&& r->Ok_0.0@ == nm
                &&& r->Ok_0.1.deep_view() == attrs
                &&& r->Ok_0.2.deep_view() == rows
                &&& forall|k: int| 0 <= k < r->Ok_0.2@.len()
                    ==> (#[trigger] r->Ok_0.2@[k])@.len() == r->Ok_0.1@.len()
            },
            None => r is Err && r->Err_0 is SyntaxError,
        }),
{
    let ghost ms = syms_model(tokens@);
    let n = tokens.len();
    proof {
        assert(ms.len() == tokens@.len());
        assert(forall|k: int| 0 <= k < ms.len() ==> ms[k] == sym_of(tokens@[k]));
    }
    let i0 = *pos;
    if !(i0 < n && i0 + 1 < n && matches!(tokens[i0 + 1].group, Group::Identifier)) {
        if i0 < n && i0 + 1 < n {
            match check_id(&tokens[i0 + 1]) {
                Ok(_) => {
                    proof {
                        assert(false);
                    }
                },
                Err(e) => {
                    return Err(e);
                },
            }
        }
        return Err(ParserError::SyntaxError(String::from_str("miss table name")));
    }
    let table_name = tokens[i0 + 1].name.clone();
    *pos = i0 + 2;
    let attrs = match get_id_list(tokens, pos, true) {
        Ok(v) => v,
        Err(e) => {
            return Err(e);
        },
    };
    let ghost sattrs = attrs.deep_view();
    if !(*pos < n && matches!(tokens[*pos].token, Token::Values)) {
        return Err(ParserError::SyntaxError(String::from_str("invalid syntax")));
    }
    *pos += 1;
    let alen = attrs.len();
    let mut rows: Vec<Vec<String>> = Vec::new();
    let ghost r0 = *pos as int;
    proof {
        assert(rows.deep_view() =~= Seq::<Seq<Seq<char>>>::empty());
        match spec_value_rows(ms, r0, alen as int) {
            Some((full, _)) => {
                assert(rows.deep_view() + full =~= full);
            },
            None => {},
        }
    }
    loop
        invariant
            *pos <= n,
            n == ms.len(),
            alen == attrs@.len(),
            sattrs == attrs.deep_view(),
            forall|k: int| 0 <= k < ms.len() ==> ms[k] == sym_of(tokens@[k]),
            forall|k: int| 0 <= k < rows@.len() ==> (#[trigger] rows@[k])@.len() == alen,
            (match spec_value_rows(ms, r0, alen as int) {
                Some((full, j)) => match spec_value_rows(ms, *pos as int, alen as int) {
                    Some((rest, j2)) => full == rows.deep_view() + rest && j == j2,
                    None => false,
                },
                None => spec_value_rows(ms, *pos as int, alen as int) is None,
            }),
        decreases n - *pos, (if 0 <= (*pos as int) < ms.len() && ms[*pos as int].1
            == Token::ParentLeft { 1int } else { 0int }),
    {
        if *pos < n && matches!(tokens[*pos].token, Token::ParentLeft) {
            let ghost pp = *pos as int;
            let row = match get_id_list(tokens, pos, true) {
                Ok(v) => v,
                Err(e) => {
                    return Err(e);
                },
            };
            proof {
                assert(*pos as int > pp);
            }
            if row.len() != alen {
                return Err(
                    ParserError::SyntaxError(
                        String::from_str("tuple length mismatch definition"),
                    ),
                );
            }
            let ghost before = rows.deep_view();
            let ghost rowd = row.deep_view();
            rows.push(row);
            proof {
                assert(rows.deep_view() =~= before.push(rowd));
                match spec_value_rows(ms, *pos as int, alen as int) {
                    Some((rest, _)) => {
                        assert(before + (seq![rowd] + rest) =~= rows.deep_view() + rest);
                    },
                    None => {},
                }
            }
        } else if *pos < n && matches!(tokens[*pos].token, Token::Comma) {
            *pos += 1;
        } else {
            proof {
                assert(rows.deep_view() + Seq::<Seq<Seq<char>>>::empty() =~= rows.deep_view());
            }
            break;
        }
    }
    if !(*pos < n && matches!(tokens[*pos].token, Token::Semicolon)) {
        return Err(ParserError::SyntaxError(String::from_str("invalid syntax")));
    }
    *pos += 1;
    Ok((table_name, attrs, rows))
}

/// One column's properties after its type: `NOT NULL`, `DEFAULT v`,
/// `ENCRYPT`; a comma moves to the next column, a closing parenthesis
/// ends the block, `CHECK` is reserved and rejected.
pub open spec fn spec_col_props(
    ms: Seq<(Seq<char>, Token, Group)>,
    j: int,
    fd: (Seq<char>, DataType, bool, Option<Seq<char>>, bool),
) -> Option<((Seq<char>, DataType, bool, Option<Seq<char>>, bool), int, bool)>
    decreases ms.len() - j,
{
    if !(0 <= j < ms.len()) {
        None
    } else {
        let t = ms[j];
        if t.1 == Token::Comma {
            Some((fd, j + 1, false))
        } else if t.1 == Token::NotNull {
            spec_col_props(ms, j + 1, (fd.0, fd.1, true, fd.3, fd.4))
        } else if t.1 == Token::Default {
            if j + 1 < ms.len() {
                spec_col_props(ms, j + 2, (fd.0, fd.1, fd.2, Some(ms[j + 1].0), fd.4))
            } else {
                None
            }
        } else if t.1 == Token::Check {
            None
        } else if t.1 == Token::Encrypt {
            spec_col_props(ms, j + 1, (fd.0, fd.1, fd.2, fd.3, true))
        } else if t.1 == Token::ParentRight {
            Some((fd, j, true))
        } else {
            None
        }
    }
}

/// The column definitions of a `CREATE TABLE` block, in parse order.
pub open spec fn spec_create_cols(ms: Seq<(Seq<char>, Token, Group)>, i: int) -> Option<
    Seq<(Seq<char>, DataType, bool, Option<Seq<char>>, bool)>,
>
    decreases ms.len() - i,
{
    if !(0 <= i < ms.len()) {
        None
    } else {
        let s = ms[i];
        if s.2 == Group::Identifier {
            let name = s.0;
            if !(i + 1 < ms.len()) {
                None
            } else {
                let ty = ms[i + 1];
                let parsed: Option<(DataType, int)> = if ty.1 == Token::Varchar || ty.1
                    == Token::Char {
                    if i + 4 < ms.len() && ms[i + 2].1 == Token::ParentLeft
                        && crate::numtext::spec_parse_u8(ms[i + 3].0) is Some && ms[i + 4].1
                        == Token::ParentRight {
                        match DataType::spec_get(
                            ty.0,
                            Some(crate::numtext::spec_parse_u8(ms[i + 3].0)->Some_0),
                        ) {
                            Some(dt) => Some((dt, i + 5)),
                            None => None,
                        }
                    } else {
                        None
                    }
                } else {
                    match DataType::spec_get(ty.0, None) {
                        Some(dt) => Some((dt, i + 2)),
                        None => None,
                    }
                };
                match parsed {
                    None => None,
                    Some((dt, jp)) => {
                        match spec_col_props(ms, jp, (name, dt, false, None, false)) {
                            None => None,
                            Some((fd, j2, done)) => {
                                if done {
                                    Some(seq![fd])
                                } else {
                                    let jn0 = if j2 > i { j2 } else { i + 1 };
                                    let jn = if jn0 > ms.len() { ms.len() as int } else { jn0 };
                                    match spec_create_cols(ms, jn) {
                                        Some(rest) => Some(seq![fd] + rest),
                                        None => None,
                                    }
                                }
                            },
                        }
                    },
                }
            }
        } else if s.2 == Group::Keyword {
            None
        } else if s.1 == Token::ParentRight {
            Some(Seq::empty())
        } else {
            None
        }
    }
}

/// A whole `CREATE TABLE` statement: the table name and its columns.
pub open spec fn spec_create_table(ms: Seq<(Seq<char>, Token, Group)>, i: int) -> Option<
    (Seq<char>, Seq<(Seq<char>, DataType, bool, Option<Seq<char>>, bool)>),
> {
    if i + 1 < ms.len() && ms[i + 1].2 == Group::Identifier && i + 2 < ms.len() && ms[i + 2].1
        == Token::ParentLeft {
        match spec_create_cols(ms, i + 3) {
            Some(ds) => Some((ms[i + 1].0, ds)),
            None => None,
        }
    } else {
        None
    }
}

/// The last column definition with the given name: a repeated name
/// replaces the earlier definition.
pub open spec fn last_desc(
    ds: Seq<(Seq<char>, DataType, bool, Option<Seq<char>>, bool)>,
    name: Seq<char>,
) -> Option<(Seq<char>, DataType, bool, Option<Seq<char>>, bool)>
    decreases ds.len(),
{
    if ds.len() == 0 {
        None
    } else if ds.last().0 == name {
        Some(ds.last())
    } else {
        last_desc(ds.drop_last(), name)
    }
}

/// A field carries exactly what a column definition asked for.
pub open spec fn field_matches(
    f: Field,
    d: (Seq<char>, DataType, bool, Option<Seq<char>>, bool),
) -> bool {
    &&& f.name@ == d.0
    &&& f.datatype == d.1
    &&& f.not_null == d.2
    &&& (match (f.default, d.3) {
        (Some(a), Some(b)) => a@ == b,
        (None, None) => true,
        _ => false,
    })
    &&& f.encrypt == d.4
}

pub proof fn lemma_last_desc_push(
    ds: Seq<(Seq<char>, DataType, bool, Option<Seq<char>>, bool)>,
    d: (Seq<char>, DataType, bool, Option<Seq<char>>, bool),
    n: Seq<char>,
)
    ensures
        last_desc(ds.push(d), n) == (if n == d.0 {
            Some(d)
        } else {
            last_desc(ds, n)
        }),
{
    assert(ds.push(d).drop_last() =~= ds);
    assert(ds.push(d).last() == d);
}

/// Parses a `CREATE TABLE` statement into a fresh table whose fields
/// are the parsed column definitions, later definitions replacing
/// earlier ones of the same name.
#[verifier::loop_isolation(false)]
#[verifier::rlimit(100)]
#[verifier::spinoff_prover]
pub fn parser_create_table(tokens: &Vec<Symbol>, pos: &mut usize) -> (r: Result<
    Table,
    ParserError,
>)
    ensures
        (match spec_create_table(syms_model(tokens@), *old(pos) as int) {
            Some((nm, ds)) => {
                &&& r is Ok
                &&& r->Ok_0.name@ == nm
                &&& r->Ok_0.fields_wf()
                &&& r->Ok_0.rows@.len() == 0
                &&& r->Ok_0.primary_key@.len() == 0
                &&& r->Ok_0.is_dirty
                &&& !r->Ok_0.is_delete
                &&& !r->Ok_0.is_predicate_init
                &&& r->Ok_0.row_set_wf()
                &&& r->Ok_0.rows_keyed()
                &&& (forall|n: Seq<char>|
                    (match last_desc(ds, n) {
                        Some(d) => {
                            &&& #[trigger] crate::table::spec_field(r->Ok_0.fields@, n) is Some
                            &&& field_matches(
                                crate::table::spec_field(r->Ok_0.fields@, n)->Some_0,
                                d,
                            )
                        },
                        None => crate::table::spec_field(r->Ok_0.fields@, n) is None,
                    }))
            },
            None => r is Err,
        }),
{
    let ghost ms = syms_model(tokens@);
    let n = tokens.len();
    proof {
        assert(ms.len() == tokens@.len());
        assert(forall|k: int| 0 <= k < ms.len() ==> ms[k] == sym_of(tokens@[k]));
    }
    let i0 = *pos;
    if !(i0 < n && i0 + 1 < n && matches!(tokens[i0 + 1].group, Group::Identifier)) {
        if i0 < n && i0 + 1 < n {
            match check_id(&tokens[i0 + 1]) {
                Ok(_) => {
                    proof {
                        assert(false);
                    }
                },
                Err(e) => {
                    return Err(e);
                },
            }
        }
        return Err(ParserError::SyntaxError(String::from_str("no table name")));
    }
    let table_name = tokens[i0 + 1].name.clone();
    if !(i0 + 2 < n && matches!(tokens[i0 + 2].token, Token::ParentLeft)) {
        return Err(ParserError::SyntaxError(String::from_str("invalid syntax")));
    }
    let mut table = Table::new(table_name.as_str());
    *pos = i0 + 3;
    let ghost c0 = *pos as int;
    let ghost mut seen: Seq<(Seq<char>, DataType, bool, Option<Seq<char>>, bool)> = Seq::empty();
    proof {
        match spec_create_cols(ms, c0) {
            Some(full) => {
                assert(seen + full =~= full);
            },
            None => {},
        }
    }
    loop
        invariant
            *pos <= n,
            n == ms.len(),
            forall|k: int| 0 <= k < ms.len() ==> ms[k] == sym_of(tokens@[k]),
            table.fields_wf(),
            table.name@ == syms_model(tokens@)[i0 as int + 1].0,
            table.rows@.len() == 0,
            table.primary_key@.len() == 0,
            table.is_dirty,
            !table.is_delete,
            !table.is_predicate_init,
            table.row_set_wf(),
            table.rows_keyed(),
            (forall|nm2: Seq<char>|
                (match last_desc(seen, nm2) {
                    Some(d) => {
                        &&& #[trigger] crate::table::spec_field(table.fields@, nm2) is Some
                        &&& field_matches(
                            crate::table::spec_field(table.fields@, nm2)->Some_0,
                            d,
                        )
                    },
                    None => crate::table::spec_field(table.fields@, nm2) is None,
                })),
            (match spec_create_cols(ms, c0) {
                Some(full) => match spec_create_cols(ms, *pos as int) {
                    Some(rest) => full == seen + rest,
                    None => false,
                },
                None => spec_create_cols(ms, *pos as int) is None,
            }),
        decreases n - *pos,
    {
        let ghost outer_entry = *pos as int;
        if !(*pos < n) {
            return Err(ParserError::SyntaxError(String::from_str("")));
        }
        let s = &tokens[*pos];
        if matches!(s.group, Group::Identifier) {
            let ghost ci = *pos as int;
            let var_name = s.name.clone();
            if !(*pos + 1 < n) {
                return Err(ParserError::SyntaxError(String::from_str("miss column type")));
            }
            let tysym = &tokens[*pos + 1];
            let mut field: Field;
            let istextual = matches!(tysym.token, Token::Varchar | Token::Char);
            if istextual {
                if !(n - *pos > 4 && matches!(tokens[*pos + 2].token, Token::ParentLeft)) {
                    return Err(ParserError::SyntaxError(String::from_str("invalid syntax")));
                }
                let lensym = &tokens[*pos + 3];
                let length = match parse_u8(lensym.name.as_str()) {
                    Some(l) => l,
                    None => {
                        return Err(
                            ParserError::SyntaxError(String::from_str("type length invalid")),
                        );
                    },
                };
                let dt = match DataType::get(tysym.name.as_str(), Some(length)) {
                    Some(d) => d,
                    None => {
                        return Err(ParserError::SyntaxError(String::from_str("invalid type")));
                    },
                };
                if !matches!(tokens[*pos + 4].token, Token::ParentRight) {
                    return Err(ParserError::SyntaxError(String::from_str("invalid syntax")));
                }
                field = Field::new(var_name.as_str(), dt);
                *pos += 5;
            } else {
                let dt = match DataType::get(tysym.name.as_str(), None) {
                    Some(d) => d,
                    None => {
                        return Err(ParserError::SyntaxError(String::from_str("invalid type")));
                    },
                };
                field = Field::new(var_name.as_str(), dt);
                *pos += 2;
            }
            let ghost fd0 = (field.name@, field.datatype, field.not_null,
                (if field.default is Some { Some(field.default->Some_0@) } else { None }),
                field.encrypt);
            let ghost jp = *pos as int;
            let mut done = false;
            let mut advanced = false;
            loop
                invariant
                    *pos <= n,
                    n == ms.len(),
                    *pos >= jp,
                    *pos > ci,
                    jp > ci,
                    !done ==> !advanced,
                    forall|k: int| 0 <= k < ms.len() ==> ms[k] == sym_of(tokens@[k]),
                    !done ==> spec_col_props(ms, jp, fd0) == spec_col_props(
                        ms,
                        *pos as int,
                        (field.name@, field.datatype, field.not_null, (if field.default
                            is Some {
                            Some(field.default->Some_0@)
                        } else {
                            None
                        }), field.encrypt),
                    ),
                    done ==> spec_col_props(ms, jp, fd0) == (Some(
                        ((field.name@, field.datatype, field.not_null, (if field.default
                            is Some {
                            Some(field.default->Some_0@)
                        } else {
                            None
                        }), field.encrypt), *pos as int, !advanced),
                    )),
                    field.name@ == fd0.0,
                    field.datatype == fd0.1,
                decreases n - *pos, (if done { 0int } else { 1int }),
            {
                if done {
                    break;
                }
                if !(*pos < n) {
                    return Err(ParserError::SyntaxError(String::from_str("")));
                }
                let t = &tokens[*pos];
                if matches!(t.token, Token::Comma) {
                    *pos += 1;
                    done = true;
                    advanced = true;
                } else if matches!(t.token, Token::NotNull) {
                    field.not_null = true;
                    *pos += 1;
                } else if matches!(t.token, Token::Default) {
                    if !(*pos + 1 < n) {
                        return Err(
                            ParserError::SyntaxError(String::from_str("miss default value")),
                        );
                    }
                    field.default = Some(tokens[*pos + 1].name.clone());
                    *pos += 2;
                } else if matches!(t.token, Token::Check) {
                    return Err(ParserError::SyntaxError(String::from_str("check syntax error")));
                } else if matches!(t.token, Token::Encrypt) {
                    field.encrypt = true;
                    *pos += 1;
                } else if matches!(t.token, Token::ParentRight) {
                    done = true;
                } else {
                    return Err(ParserError::SyntaxError(String::from_str("")));
                }
            }
            let ghost fdf = (field.name@, field.datatype, field.not_null, (if field.default
                is Some {
                Some(field.default->Some_0@)
            } else {
                None
            }), field.encrypt);
            let ghost before_seen = seen;
            let ghost before_fields = table.fields@;
            table.insert_new_field(field);
            proof {
                seen = before_seen.push(fdf);
                assert forall|nm2: Seq<char>|
                    (match last_desc(seen, nm2) {
                        Some(d) => {
                            &&& #[trigger] crate::table::spec_field(table.fields@, nm2) is Some
                            &&& field_matches(
                                crate::table::spec_field(table.fields@, nm2)->Some_0,
                                d,
                            )
                        },
                        None => crate::table::spec_field(table.fields@, nm2) is None,
                    }) by {
                    lemma_last_desc_push(before_seen, fdf, nm2);
                }
                match spec_create_cols(ms, c0) {
                    Some(full) => {
                        match spec_create_cols(ms, *pos as int) {
                            Some(rest) => {
                                assert(before_seen + (seq![fdf] + rest) =~= seen + rest);
                            },
                            None => {},
                        }
                    },
                    None => {},
                }
            }
            if !advanced {
                // the block ended on `)`; fields are done
                proof {
                    match spec_create_cols(ms, c0) {
                        Some(full) => {
                            assert(seen + Seq::<(Seq<char>, DataType, bool, Option<Seq<char>>,
                                bool)>::empty() =~= seen);
                            assert(full == seen);
                        },
                        None => {},
                    }
                }
                return Ok(table);
            }
        } else if matches!(s.group, Group::Keyword) {
            return Err(ParserError::SyntaxError(String::from_str("")));
        } else if matches!(s.token, Token::ParentRight) {
            proof {
                match spec_create_cols(ms, c0) {
                    Some(full) => {
                        assert(seen + Seq::<(Seq<char>, DataType, bool, Option<Seq<char>>,
                            bool)>::empty() =~= seen);
                        assert(full == seen);
                    },
                    None => {},
                }
            }
            return Ok(table);
        } else {
            return Err(ParserError::SyntaxError(String::from_str("")));
        }
    }
}

/// The first position at or after `j` that ends a `WHERE` clause.
pub open spec fn where_end(ms: Seq<(Seq<char>, Token, Group)>, j: int) -> int
    decreases ms.len() - j,
{
    if !(0 <= j < ms.len()) {
        j
    } else if ms[j].1 == Token::GroupBy || ms[j].1 == Token::OrderBy || ms[j].1
        == Token::Semicolon {
        j
    } else {
        where_end(ms, j + 1)
    }
}

/// A `SELECT` statement: fields, tables, and the `WHERE` token span.
pub open spec fn spec_select_stmt(ms: Seq<(Seq<char>, Token, Group)>, i: int) -> Option<
    (Seq<Seq<char>>, Seq<Seq<char>>, Option<Seq<(Seq<char>, Token, Group)>>),
> {
    match spec_id_list(ms, i + 1, false) {
        Some((fs, j)) => {
            if j < ms.len() && ms[j].1 == Token::From {
                match spec_id_list(ms, j + 1, false) {
                    Some((ts, j2)) => {
                        if j2 < ms.len() && ms[j2].1 == Token::Where {
                            let e = where_end(ms, j2 + 1);
                            Some((fs, ts, Some(ms.subrange(j2 + 1, e))))
                        } else {
                            Some((fs, ts, None))
                        }
                    },
                    None => None,
                }
            } else {
                None
            }
        },
        None => None,
    }
}

/// Parses a `SELECT` statement into query data; the `WHERE` tokens are
/// translated into a predicate tree.
#[verifier::loop_isolation(false)]
pub fn parse_select(tokens: &Vec<Symbol>, pos: &mut usize) -> (r: Result<QueryData, ParserError>)
    ensures
        (match spec_select_stmt(syms_model(tokens@), *old(pos) as int) {
            Some((fs, ts, po)) => {
                match po {
                    None => {
                        &&& r is Ok
                        &&& r->Ok_0.fields.deep_view() == fs
                        &&& r->Ok_0.tables.deep_view() == ts
                        &&& r->Ok_0.predicate is None
                        &&& r->Ok_0.joins@.len() == 0
                    },
                    Some(ptoks) => {
                        match spec_predicate(ptoks) {
                            Some(t) => {
                                &&& r is Ok
                                &&& r->Ok_0.fields.deep_view() == fs
                                &&& r->Ok_0.tables.deep_view() == ts
                                &&& r->Ok_0.predicate is Some
                                &&& (*r->Ok_0.predicate->Some_0).model() == t
                                &&& r->Ok_0.joins@.len() == 0
                            },
                            None => r is Err,
                        }
                    },
                }
            },
            None => r is Err,
        }),
{
    let ghost ms = syms_model(tokens@);
    let n = tokens.len();
    proof {
        assert(ms.len() == tokens@.len());
        assert(forall|k: int| 0 <= k < ms.len() ==> ms[k] == sym_of(tokens@[k]));
    }
    if *pos >= n {
        proof {
            assert(spec_id_items(ms, *pos as int + 1) is None);
        }
        return Err(ParserError::SyntaxError(String::from_str("invalid syntax")));
    }
    *pos += 1;
    let mut qd = QueryData::new();
    let fields = match get_id_list(tokens, pos, false) {
        Ok(v) => v,
        Err(e) => {
            return Err(e);
        },
    };
    qd.fields = fields;
    if !(*pos < n && matches!(tokens[*pos].token, Token::From)) {
        return Err(ParserError::SyntaxError(String::from_str("invalid syntax")));
    }
    *pos += 1;
    let tables = match get_id_list(tokens, pos, false) {
        Ok(v) => v,
        Err(e) => {
            return Err(e);
        },
    };
    qd.tables = tables;
    if *pos < n && matches!(tokens[*pos].token, Token::Where) {
        *pos += 1;
        let ghost w0 = *pos as int;
        let mut collected: Vec<Symbol> = Vec::new();
        proof {
            assert(syms_model(collected@) =~= ms.subrange(w0, w0));
        }
        while *pos < n && !matches!(
            tokens[*pos].token,
            Token::GroupBy | Token::OrderBy | Token::Semicolon,
        )
            invariant
                w0 <= *pos <= n,
                n == ms.len(),
                forall|k: int| 0 <= k < ms.len() ==> ms[k] == sym_of(tokens@[k]),
                syms_model(collected@) == ms.subrange(w0, *pos as int),
                forall|k: int| w0 <= k < *pos ==> ms[k].1 != Token::GroupBy && ms[k].1
                    != Token::OrderBy && ms[k].1 != Token::Semicolon,
            decreases n - *pos,
        {
            let ghost bc = collected@;
            collected.push(tokens[*pos].clone_symbol());
            proof {
                assert(syms_model(collected@) =~= syms_model(bc).push(ms[*pos as int]));
                assert(syms_model(bc).push(ms[*pos as int]) =~= ms.subrange(w0, *pos + 1));
            }
            *pos += 1;
        }
        proof {
            lemma_where_end(ms, w0, *pos as int);
        }
        let tree = match parse_predicate(collected) {
            Ok(t) => t,
            Err(e) => {
                return Err(e);
            },
        };
        qd.predicate = Some(tree);
    }
    Ok(qd)
}

/// The scan for the end of a `WHERE` span stops exactly where the
/// collection loop stopped.
pub proof fn lemma_where_end(ms: Seq<(Seq<char>, Token, Group)>, j: int, e: int)
    requires
        0 <= j <= e <= ms.len(),
        forall|k: int| j <= k < e ==> ms[k].1 != Token::GroupBy && ms[k].1 != Token::OrderBy
            && ms[k].1 != Token::Semicolon,
        e < ms.len() ==> (ms[e].1 == Token::GroupBy || ms[e].1 == Token::OrderBy || ms[e].1
            == Token::Semicolon),
    ensures
        where_end(ms, j) == e,
    decreases e - j,
{
    if j < e {
        lemma_where_end(ms, j + 1, e);
    }
}

/// Tables a worker may hold: well-formed schemas and rows, no latched
/// predicate state.
pub open spec fn sql_wf(s: SQL) -> bool {
    forall|i: int| 0 <= i < s.database.tables@.len() ==> {
        let t = #[trigger] s.database.tables@[i];
        &&& t.fields_wf()
        &&& t.rows_keyed()
        &&& t.row_set_wf()
        &&& !t.is_predicate_init
    }
}

impl Parser {
    /// Applies the parsed statement to the session: `CREATE DATABASE`,
    /// `CREATE TABLE`, `INSERT INTO`, and `SELECT` are dispatched on the
    /// first token; anything else is a syntax error.
    #[verifier::rlimit(100)]
    pub fn parse(&self, sql: &mut SQL) -> (r: Result<(), ParserError>)
        requires
            sql_wf(*old(sql)),
        ensures
            sql_wf(*final(sql)),
            ({
                let ms = syms_model(self.tokens@);
                if ms.len() == 0 {
                    r is Err && *final(sql) == *old(sql)
                } else if ms[0].1 == Token::CreateDatabase {
                    if ms.len() >= 2 && ms[1].2 == Group::Identifier {
                        &&& r is Ok
                        &&& final(sql).database.name@ == ms[1].0
                        &&& final(sql).database.tables@.len() == 0
                        &&& final(sql).database.is_dirty
                        &&& !final(sql).database.is_delete
                        &&& *final(sql) == (SQL { database: final(sql).database, ..*old(sql) })
                    } else {
                        r is Err && *final(sql) == *old(sql)
                    }
                } else if ms[0].1 == Token::CreateTable {
                    match spec_create_table(ms, 0) {
                        Some((nm, ds)) => {
                            &&& r is Ok
                            &&& (match crate::database::spec_table_index(
                                final(sql).database.tables@,
                                nm,
                            ) {
                                Some(ti) => {
                                    let t = final(sql).database.tables@[ti];
                                    &&& t.rows@.len() == 0
                                    &&& t.fields_wf()
                                    &&& (forall|n2: Seq<char>|
                                        (match last_desc(ds, n2) {
                                            Some(d) => {
                                                &&& #[trigger] crate::table::spec_field(
                                                    t.fields@,
                                                    n2,
                                                ) is Some
                                                &&& field_matches(
                                                    crate::table::spec_field(
                                                        t.fields@,
                                                        n2,
                                                    )->Some_0,
                                                    d,
                                                )
                                            },
                                            None => crate::table::spec_field(t.fields@, n2)
                                                is None,
                                        }))
                                },
                                None => false,
                            })
                        },
                        None => r is Err,
                    }
                } else if ms[0].1 == Token::InsertInto {
                    match spec_insert_stmt(ms, 0) {
                        Some((nm, attrs, rows)) => {
                            match crate::database::spec_table_index(
                                old(sql).database.tables@,
                                nm,
                            ) {
                                None => r is Err && *final(sql) == *old(sql),
                                Some(ti) => {
                                    let t0 = old(sql).database.tables@[ti];
                                    let pk = if t0.public_key == 0 {
                                        old(sql).user.key
                                    } else {
                                        t0.public_key
                                    };
                                    let outcome = crate::worker::insert_many(
                                        t0.fields@,
                                        pk as int,
                                        attrs,
                                        rows,
                                    );
                                    let t1 = final(sql).database.tables@[ti];
                                    &&& final(sql).database.tables@ == old(
                                        sql,
                                    ).database.tables@.update(ti, t1)
                                    &&& t1 == (Table { rows: t1.rows, public_key: pk, ..t0 })
                                    &&& t1.rows@.len() == t0.rows@.len() + outcome.0.len()
                                    &&& t1.rows@.take(t0.rows@.len() as int) == t0.rows@
                                    &&& (forall|k: int| 0 <= k < outcome.0.len() ==> {
                                        let nr = #[trigger] t1.rows@[t0.rows@.len() + k];
                                        nr@ == outcome.0[k] && nr.is_dirty && !nr.is_delete
                                    })
                                    &&& (r is Ok <==> outcome.1 is None)
                                },
                            }
                        },
                        None => r is Err,
                    }
                } else if ms[0].1 == Token::Select {
                    match spec_select_stmt(ms, 0) {
                        Some((fs, ts, po)) => {
                            let tree = match po {
                                Some(ptoks) => spec_predicate(ptoks),
                                None => None,
                            };
                            if po is Some && tree is None {
                                r is Err
                            } else {
                                &&& final(sql).querydata.fields.deep_view() == fs
                                &&& final(sql).querydata.tables.deep_view() == ts
                                &&& final(sql).database == old(sql).database
                                &&& (r is Ok ==> ts.len() >= 1)
                                &&& (r is Ok && ts.len() == 1 ==> (match
                                    crate::database::spec_table_index(
                                    old(sql).database.tables@,
                                    ts[0],
                                ) {
                                    Some(ti) => {
                                        let t = old(sql).database.tables@[ti];
                                        let sel = match tree {
                                            Some(tr) => crate::worker::eval_tree(
                                                crate::table::row_maps(t.rows@),
                                                t.fields@,
                                                tr,
                                            ),
                                            None => crate::rowset::full_index_set(
                                                t.rows@.len(),
                                            ),
                                        };
                                        let idxs = crate::rowset::asc_seq_of(
                                            sel,
                                            t.rows@.len(),
                                        );
                                        match crate::table::select_rows(
                                            crate::table::row_maps(t.rows@),
                                            idxs,
                                            fs,
                                        ) {
                                            Ok(vals) => exists|sorted: Seq<Seq<Seq<char>>>| {
                                                &&& crate::table::rows_sorted(sorted)
                                                &&& sorted.to_multiset() == vals.to_multiset()
                                                &&& final(sql).result_json@
                                                    == crate::jsonout::spec_select_json(
                                                    fs,
                                                    sorted,
                                                )
                                            },
                                            Err(_) => false,
                                        }
                                    },
                                    None => false,
                                }))
                            }
                        },
                        None => r is Err,
                    }
                } else {
                    r is Err
                }
            }),
    {
        let ghost ms = syms_model(self.tokens@);
        let n = self.tokens.len();
        proof {
            assert(ms.len() == self.tokens@.len());
            assert(forall|k: int| 0 <= k < ms.len() ==> ms[k] == sym_of(self.tokens@[k]));
        }
        if n == 0 {
            return Err(ParserError::SyntaxError(String::from_str("miss query")));
        }
        let first = &self.tokens[0];
        let mut pos: usize = 0;
        if matches!(first.token, Token::CreateDatabase) {
            if !(n >= 2 && matches!(self.tokens[1].group, Group::Identifier)) {
                if n >= 2 {
                    match check_id(&self.tokens[1]) {
                        Ok(_) => {
                            proof {
                                assert(false);
                            }
                        },
                        Err(e) => {
                            return Err(e);
                        },
                    }
                }
                return Err(ParserError::SyntaxError(String::from_str("no db name")));
            }
            match sql.create_database(self.tokens[1].name.clone().as_str()) {
                Ok(_) => Ok(()),
                Err(e) => {
                    proof {
                        assert(false);
                    }
                    Err(ParserError::SQLError(e))
                },
            }
        } else if matches!(first.token, Token::CreateTable) {
            let table = match parser_create_table(&self.tokens, &mut pos) {
                Ok(t) => t,
                Err(e) => {
                    return Err(e);
                },
            };
            let ghost tv = table;
            match sql.create_table(table) {
                Ok(_) => {
                    proof {
                        assert forall|k: int| 0 <= k < sql.database.tables@.len() implies {
                            let t = #[trigger] sql.database.tables@[k];
                            &&& t.fields_wf()
                            &&& t.rows_keyed()
                            &&& t.row_set_wf()
                            &&& !t.is_predicate_init
                        } by {}
                        match crate::database::spec_table_index(
                            old(sql).database.tables@,
                            tv.name@,
                        ) {
                            Some(_) => {
                                crate::database::lemma_table_index_update(
                                    old(sql).database.tables@,
                                    tv.name@,
                                    tv,
                                );
                            },
                            None => {
                                crate::database::lemma_table_index_push(
                                    old(sql).database.tables@,
                                    tv.name@,
                                    tv,
                                );
                            },
                        }
                    }
                    Ok(())
                },
                Err(e) => {
                    proof {
                        assert(false);
                    }
                    Err(ParserError::SQLError(e))
                },
            }
        } else if matches!(first.token, Token::InsertInto) {
            let (table_name, attrs, rows) = match parser_insert_into_table(&self.tokens, &mut pos)
                {
                Ok(t) => t,
                Err(e) => {
                    return Err(e);
                },
            };
            proof {
                crate::database::lemma_table_index_range(sql.database.tables@, table_name@);
            }
            let ires = sql.insert_into_table(table_name.as_str(), attrs, rows);
            proof {
                match crate::database::spec_table_index(
                    old(sql).database.tables@,
                    table_name@,
                ) {
                    Some(ti) => {
                        let t0 = old(sql).database.tables@[ti];
                        let t1 = sql.database.tables@[ti];
                        assert(t1.rows@.take(t0.rows@.len() as int) == t0.rows@);
                        assert forall|k: int| 0 <= k < t1.rows@.len() implies (
                        #[trigger] t1.rows@[k]).keys_unique() by {
                            if k < t0.rows@.len() {
                                assert(t1.rows@.take(t0.rows@.len() as int)[k] == t1.rows@[k]);
                                assert(t0.rows@[k].keys_unique());
                            } else {
                                let j = k - t0.rows@.len();
                                assert(t1.rows@[t0.rows@.len() + j].keys_unique());
                            }
                        }
                        assert forall|x: usize| t1.row_set.view().contains(x) implies x
                            < t1.rows@.len() by {
                            assert(t0.row_set.view().contains(x));
                        }
                        assert forall|k: int| 0 <= k < sql.database.tables@.len() implies {
                            let t = #[trigger] sql.database.tables@[k];
                            &&& t.fields_wf()
                            &&& t.rows_keyed()
                            &&& t.row_set_wf()
                            &&& !t.is_predicate_init
                        } by {
                            if k != ti {
                                assert(sql.database.tables@[k] == old(sql).database.tables@[k]);
                            }
                        }
                    },
                    None => {},
                }
            }
            match ires {
                Ok(_) => Ok(()),
                Err(e) => Err(ParserError::SQLError(e)),
            }
        } else if matches!(first.token, Token::Select) {
            let qd = match parse_select(&self.tokens, &mut pos) {
                Ok(q) => q,
                Err(e) => {
                    return Err(e);
                },
            };
            self.apply_select(sql, qd)
        } else {
            Err(ParserError::SyntaxError(String::from_str("unknown keyword")))
        }
    }

    /// Installs the parsed query and runs it.
    fn apply_select(&self, sql: &mut SQL, qd: QueryData) -> (r: Result<(), ParserError>)
        requires
            sql_wf(*old(sql)),
            qd.joins@.len() == 0,
        ensures
            sql_wf(*final(sql)),
            final(sql).querydata.fields.deep_view() == qd.fields.deep_view(),
            final(sql).querydata.tables.deep_view() == qd.tables.deep_view(),
            final(sql).database == old(sql).database,
            (r is Ok ==> qd.tables.deep_view().len() >= 1),
            (r is Ok && qd.tables.deep_view().len() == 1 ==> (match
                crate::database::spec_table_index(
                old(sql).database.tables@,
                qd.tables.deep_view()[0],
            ) {
                Some(ti) => {
                    let t = old(sql).database.tables@[ti];
                    let sel = match qd.predicate {
                        Some(p) => crate::worker::eval_tree(
                            crate::table::row_maps(t.rows@),
                            t.fields@,
                            (*p).model(),
                        ),
                        None => crate::rowset::full_index_set(t.rows@.len()),
                    };
                    let idxs = crate::rowset::asc_seq_of(sel, t.rows@.len());
                    match crate::table::select_rows(
                        crate::table::row_maps(t.rows@),
                        idxs,
                        qd.fields.deep_view(),
                    ) {
                        Ok(vals) => exists|sorted: Seq<Seq<Seq<char>>>| {
                            &&& crate::table::rows_sorted(sorted)
                            &&& sorted.to_multiset() == vals.to_multiset()
                            &&& final(sql).result_json@ == crate::jsonout::spec_select_json(
                                qd.fields.deep_view(),
                                sorted,
                            )
                        },
                        Err(_) => false,
                    }
                },
                None => false,
            })),
    {
        if qd.tables.len() == 0 {
            sql.querydata = qd;
            return Err(
                ParserError::SQLError(
                    SQLError::SemanticError(String::from_str("no table given")),
                ),
            );
        }
        let ghost fsv = qd.fields.deep_view();
        let ghost tsv = qd.tables.deep_view();
        sql.querydata = qd;
        proof {
            assert(tsv[0] == sql.querydata.tables@[0]@);
            if crate::database::spec_table_index(sql.database.tables@, tsv[0]) is Some {
                crate::database::lemma_table_index_range(sql.database.tables@, tsv[0]);
            }
        }
        let sres = sql.select();
        proof {
            assert(crate::table::name_views(sql.querydata.fields@)
                =~= sql.querydata.fields.deep_view());
            assert(sql.querydata.fields.deep_view() == fsv);
            if sres is Ok && tsv.len() == 1 {
                match crate::database::spec_table_index(old(sql).database.tables@, tsv[0]) {
                    Some(ti) => {
                        let t = old(sql).database.tables@[ti];
                        assert(crate::table::row_maps(t.rows@).len() == t.rows@.len());
                        let sel = if qd.predicate is Some {
                            crate::worker::eval_tree(
                                crate::table::row_maps(t.rows@),
                                t.fields@,
                                (*qd.predicate->Some_0).model(),
                            )
                        } else {
                            crate::rowset::full_index_set(t.rows@.len())
                        };
                        let idxs = crate::rowset::asc_seq_of(sel, t.rows@.len());
                        match crate::table::select_rows(
                            crate::table::row_maps(t.rows@),
                            idxs,
                            fsv,
                        ) {
                            Ok(vals) => {
                                let w = choose|sorted: Seq<Seq<Seq<char>>>| {
                                    &&& crate::table::rows_sorted(sorted)
                                    &&& sorted.to_multiset() == vals.to_multiset()
                                    &&& sql.result_json@ == crate::jsonout::spec_select_json(
                                        fsv,
                                        sorted,
                                    )
                                };
                                assert(crate::table::rows_sorted(w) && w.to_multiset()
                                    == vals.to_multiset() && sql.result_json@
                                    == crate::jsonout::spec_select_json(fsv, w));
                            },
                            Err(_) => {},
                        }
                    },
                    None => {},
                }
            }
        }
        match sres {
            Ok(_) => Ok(()),
            Err(e) => Err(ParserError::SQLError(e)),
        }
    }
}

} // verus!
