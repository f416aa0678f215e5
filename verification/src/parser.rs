//! The recursive-descent parser of the template expression language.
//!
//! Grammar, loosest binding first:
//!
//! ```text
//! construct      := "if" bools "{" construct "}" ["else" "{" construct "}"]
//!                 | "for" bools "in" construct "{" construct "}"
//!                 | bools
//! bools          := addition ("==" addition)*
//! addition       := multiplication (("+" | "-") multiplication)*
//! multiplication := indexation (("*" | "/") indexation)*
//! indexation     := primary ("." primary)*
//! primary        := "(" construct ")" | integer | fraction | identifier | string
//! ```
//!
//! Binary operators group to the left. A program is a sequence of
//! constructs that uses up all the tokens.
use vstd::prelude::*;
use crate::lang::{LangTok, Operator, Token, ltoks_view};

verus! {

/// A syntax tree of the expression language. A fraction holds its decimal
/// text.
#[derive(Debug, PartialEq)]
pub enum Node {
    BinaryOperation(Box<Node>, Box<Node>, Operator),
    Integer(i32),
    Float(String),
    Str(String),
    Nullus,
    List(Vec<Box<Node>>),
    Identifier(String),
    Indexation(Box<Node>, Box<Node>),
    Bool(bool),
    IfStatement(Box<Node>, Box<Node>, Box<Node>),
    ForLoop(Box<Node>, Box<Node>, Box<Node>),
}

/// The mathematical value of a syntax tree.
#[verifier::ext_equal]
pub enum LangNode {
    BinaryOperation(Box<LangNode>, Box<LangNode>, Operator),
    Integer(i32),
    Float(Seq<char>),
    Str(Seq<char>),
    Nullus,
    List(Seq<LangNode>),
    Identifier(Seq<char>),
    Indexation(Box<LangNode>, Box<LangNode>),
    Bool(bool),
    IfStatement(Box<LangNode>, Box<LangNode>, Box<LangNode>),
    ForLoop(Box<LangNode>, Box<LangNode>, Box<LangNode>),
}

/// The mathematical value of a syntax tree.
pub open spec fn node_view(n: Node) -> LangNode
    decreases n,
{
    match n {
        Node::BinaryOperation(l, r, o) => LangNode::BinaryOperation(
            Box::new(node_view(*l)),
            Box::new(node_view(*r)),
            o,
        ),
        Node::Integer(i) => LangNode::Integer(i),
        Node::Float(s) => LangNode::Float(s@),
        Node::Str(s) => LangNode::Str(s@),
        Node::Nullus => LangNode::Nullus,
        Node::List(v) => LangNode::List(
            Seq::new(v.len() as nat, |i: int| if 0 <= i < v.len() { node_view(*v@[i]) } else { LangNode::Nullus }),
        ),
        Node::Identifier(s) => LangNode::Identifier(s@),
        Node::Indexation(l, r) => LangNode::Indexation(Box::new(node_view(*l)), Box::new(node_view(*r))),
        Node::Bool(b) => LangNode::Bool(b),
        Node::IfStatement(c, b, o) => LangNode::IfStatement(
            Box::new(node_view(*c)),
            Box::new(node_view(*b)),
            Box::new(node_view(*o)),
        ),
        Node::ForLoop(i, l, b) => LangNode::ForLoop(
            Box::new(node_view(*i)),
            Box::new(node_view(*l)),
            Box::new(node_view(*b)),
        ),
    }
}

impl View for Node {
    type V = LangNode;

    open spec fn view(&self) -> LangNode {
        node_view(*self)
    }
}

/// The values of a sequence of syntax trees.
pub open spec fn nodes_view(v: Seq<Node>) -> Seq<LangNode> {
    v.map_values(|n: Node| n@)
}

// ---------------------------------------------------------------------------
// The grammar
// ---------------------------------------------------------------------------
//
// Each function below gives the tree that starts at token `i` and the index
// of the token after it, or nothing where the tokens do not hold one (the
// parser fails there). A tree always ends after the token it starts at, so
// the checks of the form `j <= i` never hold: they keep the definitions
// well-founded.

/// Whether token `i` is `tok`.
pub open spec fn expect(t: Seq<LangTok>, i: int, tok: LangTok) -> bool {
    0 <= i < t.len() && t[i] == tok
}

/// A construct: an `if`, a `for`, or a comparison.
pub open spec fn syn_constructs(t: Seq<LangTok>, i: int) -> Option<(LangNode, int)>
    decreases t.len() - i, 5int,
{
    if i < 0 || i >= t.len() {
        None
    } else if t[i] is If {
        match syn_bools(t, i + 1) {
            None => None,
            Some((c, i1)) => if i1 <= i || !expect(t, i1, LangTok::OCparen) {
                None
            } else {
                match syn_constructs(t, i1 + 1) {
                    None => None,
                    Some((r, i2)) => if i2 <= i1 || !expect(t, i2, LangTok::CCparen) {
                        None
                    } else if i2 + 1 >= t.len() {
                        None
                    } else if t[i2 + 1] is Else {
                        if !expect(t, i2 + 2, LangTok::OCparen) {
                            None
                        } else {
                            match syn_constructs(t, i2 + 3) {
                                None => None,
                                Some((o, i4)) => if i4 <= i2 || !expect(t, i4, LangTok::CCparen) {
                                    None
                                } else {
                                    Some(
                                        (
                                            LangNode::IfStatement(Box::new(c), Box::new(r), Box::new(o)),
                                            i4 + 1,
                                        ),
                                    )
                                },
                            }
                        }
                    } else {
                        Some(
                            (
                                LangNode::IfStatement(
                                    Box::new(c),
                                    Box::new(r),
                                    Box::new(LangNode::Nullus),
                                ),
                                i2 + 1,
                            ),
                        )
                    },
                }
            },
        }
    } else if t[i] is For {
        match syn_bools(t, i + 1) {
            None => None,
            Some((id, i1)) => if i1 <= i || !expect(t, i1, LangTok::In) {
                None
            } else {
                match syn_constructs(t, i1 + 1) {
                    None => None,
                    Some((l, i2)) => if i2 <= i1 || !expect(t, i2, LangTok::OCparen) {
                        None
                    } else {
                        match syn_constructs(t, i2 + 1) {
                            None => None,
                            Some((b, i3)) => if i3 <= i2 || !expect(t, i3, LangTok::CCparen) {
                                None
                            } else {
                                Some(
                                    (
                                        LangNode::ForLoop(Box::new(id), Box::new(l), Box::new(b)),
                                        i3 + 1,
                                    ),
                                )
                            },
                        }
                    },
                }
            },
        }
    } else {
        syn_bools(t, i)
    }
}

/// A comparison chain: additions joined by `==`.
pub open spec fn syn_bools(t: Seq<LangTok>, i: int) -> Option<(LangNode, int)>
    decreases t.len() - i, 4int,
{
    match syn_addition(t, i) {
        None => None,
        Some((l, j)) => if j <= i || j > t.len() {
            None
        } else {
            syn_bools_rest(t, j, l)
        },
    }
}

/// The rest of a comparison chain from token `j` on, after `left`.
pub open spec fn syn_bools_rest(t: Seq<LangTok>, j: int, left: LangNode) -> Option<(LangNode, int)>
    decreases t.len() - j, 4int,
{
    if 0 <= j < t.len() && t[j] == LangTok::Op(Operator::Equals) {
        match syn_addition(t, j + 1) {
            None => None,
            Some((r, j2)) => if j2 <= j || j2 > t.len() {
                None
            } else {
                syn_bools_rest(
                    t,
                    j2,
                    LangNode::BinaryOperation(Box::new(left), Box::new(r), Operator::Equals),
                )
            },
        }
    } else {
        Some((left, j))
    }
}

/// Whether a token is `+` or `-`.
pub open spec fn is_additive(x: LangTok) -> bool {
    x == LangTok::Op(Operator::Addition) || x == LangTok::Op(Operator::Substraction)
}

/// Whether a token is `*` or `/`.
pub open spec fn is_multiplicative(x: LangTok) -> bool {
    x == LangTok::Op(Operator::Multiplication) || x == LangTok::Op(Operator::Division)
}

/// A sum: multiplications joined by `+` and `-`.
pub open spec fn syn_addition(t: Seq<LangTok>, i: int) -> Option<(LangNode, int)>
    decreases t.len() - i, 3int,
{
    match syn_multiplication(t, i) {
        None => None,
        Some((l, j)) => if j <= i || j > t.len() {
            None
        } else {
            syn_addition_rest(t, j, l)
        },
    }
}

/// The rest of a sum from token `j` on, after `left`.
pub open spec fn syn_addition_rest(t: Seq<LangTok>, j: int, left: LangNode) -> Option<(LangNode, int)>
    decreases t.len() - j, 3int,
{
    if 0 <= j < t.len() && is_additive(t[j]) {
        match syn_multiplication(t, j + 1) {
            None => None,
            Some((r, j2)) => if j2 <= j || j2 > t.len() {
                None
            } else {
                syn_addition_rest(t, j2, LangNode::BinaryOperation(Box::new(left), Box::new(r), t[j]->Op_0))
            },
        }
    } else {
        Some((left, j))
    }
}

/// A product: indexations joined by `*` and `/`.
pub open spec fn syn_multiplication(t: Seq<LangTok>, i: int) -> Option<(LangNode, int)>
    decreases t.len() - i, 2int,
{
    match syn_indexation(t, i) {
        None => None,
        Some((l, j)) => if j <= i || j > t.len() {
            None
        } else {
            syn_multiplication_rest(t, j, l)
        },
    }
}

/// The rest of a product from token `j` on, after `left`.
pub open spec fn syn_multiplication_rest(t: Seq<LangTok>, j: int, left: LangNode) -> Option<
    (LangNode, int),
>
    decreases t.len() - j, 2int,
{
    if 0 <= j < t.len() && is_multiplicative(t[j]) {
        match syn_indexation(t, j + 1) {
            None => None,
            Some((r, j2)) => if j2 <= j || j2 > t.len() {
                None
            } else {
                syn_multiplication_rest(t, j2, LangNode::BinaryOperation(Box::new(left), Box::new(r), t[j]->Op_0))
            },
        }
    } else {
        Some((left, j))
    }
}

/// An indexation: primaries joined by `.`.
pub open spec fn syn_indexation(t: Seq<LangTok>, i: int) -> Option<(LangNode, int)>
    decreases t.len() - i, 1int,
{
    match syn_primary(t, i) {
        None => None,
        Some((l, j)) => if j <= i || j > t.len() {
            None
        } else {
            syn_indexation_rest(t, j, l)
        },
    }
}

/// The rest of an indexation from token `j` on, after `left`.
pub open spec fn syn_indexation_rest(t: Seq<LangTok>, j: int, left: LangNode) -> Option<(LangNode, int)>
    decreases t.len() - j, 1int,
{
    if 0 <= j < t.len() && t[j] == LangTok::Op(Operator::Indexation) {
        match syn_primary(t, j + 1) {
            None => None,
            Some((r, j2)) => if j2 <= j || j2 > t.len() {
                None
            } else {
                syn_indexation_rest(t, j2, LangNode::Indexation(Box::new(left), Box::new(r)))
            },
        }
    } else {
        Some((left, j))
    }
}

/// The tree of a literal or an identifier token.
pub open spec fn literal_node(x: LangTok) -> Option<LangNode> {
    match x {
        LangTok::Int(n) => Some(LangNode::Integer(n)),
        LangTok::Float(f) => Some(LangNode::Float(f)),
        LangTok::Identifier(s) => Some(LangNode::Identifier(s)),
        LangTok::Str(s) => Some(LangNode::Str(s)),
        _ => None,
    }
}

/// A construct in parentheses that opened at token `i`, given what was
/// read after the opening parenthesis: it must end at a `)`.
pub open spec fn close_paren(t: Seq<LangTok>, i: int, o: Option<(LangNode, int)>) -> Option<(LangNode, int)> {
    match o {
        None => None,
        Some((v, j)) => if j <= i || !expect(t, j, LangTok::Cparen) {
            None
        } else {
            Some((v, j + 1))
        },
    }
}

/// A primary: a construct in parentheses, or a literal or an identifier.
pub open spec fn syn_primary(t: Seq<LangTok>, i: int) -> Option<(LangNode, int)>
    decreases t.len() - i, 0int,
{
    if i < 0 || i >= t.len() {
        None
    } else if t[i] is Oparen {
        match syn_constructs(t, i + 1) {
            None => None,
            Some((v, j)) => if j <= i || !expect(t, j, LangTok::Cparen) {
                None
            } else {
                Some((v, j + 1))
            },
        }
    } else {
        match literal_node(t[i]) {
            Some(n) => Some((n, i + 1)),
            None => None,
        }
    }
}

/// The constructs of a program from token `i` on, up to the end.
pub open spec fn syn_program(t: Seq<LangTok>, i: int) -> Option<Seq<LangNode>>
    decreases t.len() - i,
{
    if i < 0 || i >= t.len() {
        Some(Seq::empty())
    } else {
        match syn_constructs(t, i) {
            None => None,
            Some((n, j)) => if j <= i || j > t.len() {
                None
            } else {
                match syn_program(t, j) {
                    None => None,
                    Some(rest) => Some(seq![n] + rest),
                }
            },
        }
    }
}


// ---------------------------------------------------------------------------
// The parser over a vector of tokens
// ---------------------------------------------------------------------------

/// Whether token `i` is `tok`, for a token without text.
fn expect_at(t: &Vec<Token>, i: usize, tok: &Token) -> (r: bool)
    requires
        !(tok@ is Float || tok@ is Str || tok@ is Identifier),
    ensures
        r == expect(ltoks_view(t@), i as int, tok@),
{
    if i >= t.len() {
        return false;
    }
    assert(ltoks_view(t@)[i as int] == t@[i as int]@);
    match (&t[i], tok) {
        (Token::Int(a), Token::Int(b)) => *a == *b,
        (Token::Oparen, Token::Oparen) => true,
        (Token::Cparen, Token::Cparen) => true,
        (Token::OCparen, Token::OCparen) => true,
        (Token::CCparen, Token::CCparen) => true,
        (Token::OSparen, Token::OSparen) => true,
        (Token::CSparen, Token::CSparen) => true,
        (Token::Operator(a), Token::Operator(b)) => *a == *b,
        (Token::If, Token::If) => true,
        (Token::Else, Token::Else) => true,
        (Token::For, Token::For) => true,
        (Token::In, Token::In) => true,
        (Token::Null, Token::Null) => true,
        (Token::Bool(a), Token::Bool(b)) => *a == *b,
        _ => false,
    }
}

/// The construct that starts at token `i`, with the index after it.
#[verifier::spinoff_prover]
fn constructs_at(t: &Vec<Token>, i: usize) -> (r: Option<(Node, usize)>)
    requires
        i <= t.len(),
    ensures
        r matches Some((n, j)) ==> syn_constructs(ltoks_view(t@), i as int) == Some((n@, j as int))
            && i < j <= t.len(),
        r is None ==> syn_constructs(ltoks_view(t@), i as int) is None,
    decreases t.len() - i, 5int,
{
    if i >= t.len() {
        return None;
    }
    if expect_at(t, i, &Token::If) {
        let (c, i1) = match bools_at(t, i + 1) {
            None => {
                return None;
            },
            Some(p) => p,
        };
        if !expect_at(t, i1, &Token::OCparen) {
            return None;
        }
        let (r, i2) = match constructs_at(t, i1 + 1) {
            None => {
                return None;
            },
            Some(p) => p,
        };
        if !expect_at(t, i2, &Token::CCparen) {
            return None;
        }
        if i2 + 1 >= t.len() {
            return None;
        }
        if expect_at(t, i2 + 1, &Token::Else) {
            if !expect_at(t, i2 + 2, &Token::OCparen) {
                return None;
            }
            let (o, i4) = match constructs_at(t, i2 + 3) {
                None => {
                    return None;
                },
                Some(p) => p,
            };
            if !expect_at(t, i4, &Token::CCparen) {
                return None;
            }
            let n = Node::IfStatement(Box::new(c), Box::new(r), Box::new(o));
            assert(n@ == LangNode::IfStatement(Box::new(c@), Box::new(r@), Box::new(o@)));
            assert(syn_constructs(ltoks_view(t@), i as int) == Some((n@, i4 + 1)));
            Some((n, i4 + 1))
        } else {
            let nul = Node::Nullus;
            assert(nul@ == LangNode::Nullus);
            let n = Node::IfStatement(Box::new(c), Box::new(r), Box::new(nul));
            assert(n@ == LangNode::IfStatement(Box::new(c@), Box::new(r@), Box::new(LangNode::Nullus)));
            assert(syn_constructs(ltoks_view(t@), i as int) == Some((n@, i2 + 1)));
            Some((n, i2 + 1))
        }
    } else if expect_at(t, i, &Token::For) {
        let (id, i1) = match bools_at(t, i + 1) {
            None => {
                return None;
            },
            Some(p) => p,
        };
        if !expect_at(t, i1, &Token::In) {
            return None;
        }
        let (l, i2) = match constructs_at(t, i1 + 1) {
            None => {
                return None;
            },
            Some(p) => p,
        };
        if !expect_at(t, i2, &Token::OCparen) {
            return None;
        }
        let (b, i3) = match constructs_at(t, i2 + 1) {
            None => {
                return None;
            },
            Some(p) => p,
        };
        if !expect_at(t, i3, &Token::CCparen) {
            return None;
        }
        let n = Node::ForLoop(Box::new(id), Box::new(l), Box::new(b));
        assert(n@ == LangNode::ForLoop(Box::new(id@), Box::new(l@), Box::new(b@)));
        assert(syn_constructs(ltoks_view(t@), i as int) == Some((n@, i3 + 1)));
        Some((n, i3 + 1))
    } else {
        bools_at(t, i)
    }
}

/// The comparison chain that starts at token `i`.
#[verifier::spinoff_prover]
fn bools_at(t: &Vec<Token>, i: usize) -> (r: Option<(Node, usize)>)
    requires
        i <= t.len(),
    ensures
        r matches Some((n, j)) ==> syn_bools(ltoks_view(t@), i as int) == Some((n@, j as int))
            && i < j <= t.len(),
        r is None ==> syn_bools(ltoks_view(t@), i as int) is None,
    decreases t.len() - i, 4int,
{
    let ghost tv = ltoks_view(t@);
    let (mut left, mut j) = match addition_at(t, i) {
        None => {
            return None;
        },
        Some(p) => p,
    };
    loop
        invariant
            tv == ltoks_view(t@),
            i < j <= t.len(),
            syn_bools(tv, i as int) == syn_bools_rest(tv, j as int, left@),
        decreases t.len() - j,
    {
        if j >= t.len() {
            return Some((left, j));
        }
        assert(tv[j as int] == t@[j as int]@);
        if let Token::Operator(Operator::Equals) = &t[j] {
            match addition_at(t, j + 1) {
                None => {
                    return None;
                },
                Some((r, j2)) => {
                    left = Node::BinaryOperation(Box::new(left), Box::new(r), Operator::Equals);
                    j = j2;
                },
            }
        } else {
            return Some((left, j));
        }
    }
}

/// The sum that starts at token `i`.
#[verifier::spinoff_prover]
fn addition_at(t: &Vec<Token>, i: usize) -> (r: Option<(Node, usize)>)
    requires
        i <= t.len(),
    ensures
        r matches Some((n, j)) ==> syn_addition(ltoks_view(t@), i as int) == Some((n@, j as int))
            && i < j <= t.len(),
        r is None ==> syn_addition(ltoks_view(t@), i as int) is None,
    decreases t.len() - i, 3int,
{
    let ghost tv = ltoks_view(t@);
    let (mut left, mut j) = match multiplication_at(t, i) {
        None => {
            return None;
        },
        Some(p) => p,
    };
    loop
        invariant
            tv == ltoks_view(t@),
            i < j <= t.len(),
            syn_addition(tv, i as int) == syn_addition_rest(tv, j as int, left@),
        decreases t.len() - j,
    {
        if j >= t.len() {
            return Some((left, j));
        }
        assert(tv[j as int] == t@[j as int]@);
        let o = match &t[j] {
            Token::Operator(Operator::Addition) => Operator::Addition,
            Token::Operator(Operator::Substraction) => Operator::Substraction,
            _ => {
                return Some((left, j));
            },
        };
        match multiplication_at(t, j + 1) {
            None => {
                return None;
            },
            Some((r, j2)) => {
                left = Node::BinaryOperation(Box::new(left), Box::new(r), o);
                j = j2;
            },
        }
    }
}

/// The product that starts at token `i`.
#[verifier::spinoff_prover]
fn multiplication_at(t: &Vec<Token>, i: usize) -> (r: Option<(Node, usize)>)
    requires
        i <= t.len(),
    ensures
        r matches Some((n, j)) ==> syn_multiplication(ltoks_view(t@), i as int) == Some(
            (n@, j as int),
        ) && i < j <= t.len(),
        r is None ==> syn_multiplication(ltoks_view(t@), i as int) is None,
    decreases t.len() - i, 2int,
{
    let ghost tv = ltoks_view(t@);
    let (mut left, mut j) = match indexation_at(t, i) {
        None => {
            return None;
        },
        Some(p) => p,
    };
    loop
        invariant
            tv == ltoks_view(t@),
            i < j <= t.len(),
            syn_multiplication(tv, i as int) == syn_multiplication_rest(tv, j as int, left@),
        decreases t.len() - j,
    {
        if j >= t.len() {
            return Some((left, j));
        }
        assert(tv[j as int] == t@[j as int]@);
        let o = match &t[j] {
            Token::Operator(Operator::Multiplication) => Operator::Multiplication,
            Token::Operator(Operator::Division) => Operator::Division,
            _ => {
                return Some((left, j));
            },
        };
        match indexation_at(t, j + 1) {
            None => {
                return None;
            },
            Some((r, j2)) => {
                left = Node::BinaryOperation(Box::new(left), Box::new(r), o);
                j = j2;
            },
        }
    }
}

/// The indexation that starts at token `i`.
#[verifier::spinoff_prover]
fn indexation_at(t: &Vec<Token>, i: usize) -> (r: Option<(Node, usize)>)
    requires
        i <= t.len(),
    ensures
        r matches Some((n, j)) ==> syn_indexation(ltoks_view(t@), i as int) == Some((n@, j as int))
            && i < j <= t.len(),
        r is None ==> syn_indexation(ltoks_view(t@), i as int) is None,
    decreases t.len() - i, 1int,
{
    let ghost tv = ltoks_view(t@);
    let (mut left, mut j) = match primary_at(t, i) {
        None => {
            return None;
        },
        Some(p) => p,
    };
    loop
        invariant
            tv == ltoks_view(t@),
            i < j <= t.len(),
            syn_indexation(tv, i as int) == syn_indexation_rest(tv, j as int, left@),
        decreases t.len() - j,
    {
        if j >= t.len() {
            return Some((left, j));
        }
        assert(tv[j as int] == t@[j as int]@);
        if let Token::Operator(Operator::Indexation) = &t[j] {
            match primary_at(t, j + 1) {
                None => {
                    return None;
                },
                Some((r, j2)) => {
                    left = Node::Indexation(Box::new(left), Box::new(r));
                    j = j2;
                },
            }
        } else {
            return Some((left, j));
        }
    }
}

/// The tree of token `i` when it is a literal or an identifier.
fn literal_at(t: &Vec<Token>, i: usize) -> (r: Option<Node>)
    requires
        i < t.len(),
    ensures
        r matches Some(n) ==> literal_node(ltoks_view(t@)[i as int]) == Some(n@),
        r is None ==> literal_node(ltoks_view(t@)[i as int]) is None,
{
    assert(ltoks_view(t@)[i as int] == t@[i as int]@);
    match &t[i] {
        Token::Int(n) => Some(Node::Integer(*n)),
        Token::Float(f) => Some(Node::Float(f.clone())),
        Token::Identifier(s) => Some(Node::Identifier(s.clone())),
        Token::Str(s) => Some(Node::Str(s.clone())),
        _ => None,
    }
}

/// The primary that starts at token `i`.
#[verifier::spinoff_prover]
#[verifier::rlimit(40)]
fn primary_at(t: &Vec<Token>, i: usize) -> (r: Option<(Node, usize)>)
    requires
        i <= t.len(),
    ensures
        r matches Some((n, j)) ==> syn_primary(ltoks_view(t@), i as int) == Some((n@, j as int))
            && i < j <= t.len(),
        r is None ==> syn_primary(ltoks_view(t@), i as int) is None,
    decreases t.len() - i, 0int,
{
    if i >= t.len() {
        return None;
    }
    if expect_at(t, i, &Token::Oparen) {
        let (v, j) = match constructs_at(t, i + 1) {
            None => {
                return None;
            },
            Some(p) => p,
        };
        if !expect_at(t, j, &Token::Cparen) {
            return None;
        }
        Some((v, j + 1))
    } else {
        match literal_at(t, i) {
            Some(n) => Some((n, i + 1)),
            None => None,
        }
    }
}

/// The constructs of a program: constructs read one after the other until
/// the tokens are used up; nothing where one of them fails to parse.
#[verifier::spinoff_prover]
pub fn parse_statements(tokens: &Vec<Token>) -> (r: Option<Vec<Node>>)
    ensures
        r matches Some(v) ==> syn_program(ltoks_view(tokens@), 0) == Some(nodes_view(v@)),
        r is None ==> syn_program(ltoks_view(tokens@), 0) is None,
{
    let ghost tv = ltoks_view(tokens@);
    let mut nodes: Vec<Node> = Vec::new();
    let mut i: usize = 0;
    assert(nodes_view(nodes@) =~= Seq::<LangNode>::empty());
    assert(syn_program(tv, 0) == cons_nodes(nodes_view(nodes@), syn_program(tv, 0))) by {
        if let Some(y) = syn_program(tv, 0) {
            assert(Seq::<LangNode>::empty() + y =~= y);
        }
    }
    while i < tokens.len()
        invariant
            tv == ltoks_view(tokens@),
            i <= tokens.len(),
            syn_program(tv, 0) == cons_nodes(nodes_view(nodes@), syn_program(tv, i as int)),
        decreases tokens.len() - i,
    {
        match constructs_at(tokens, i) {
            None => {
                return None;
            },
            Some((n, j)) => {
                let ghost before = nodes_view(nodes@);
                let ghost nv = n@;
                nodes.push(n);
                assert(nodes_view(nodes@) =~= before.push(nv));
                proof {
                    if let Some(y) = syn_program(tv, j as int) {
                        assert(before + (seq![nv] + y) =~= before.push(nv) + y);
                    }
                }
                i = j;
            },
        }
    }
    assert(nodes_view(nodes@) + Seq::<LangNode>::empty() =~= nodes_view(nodes@));
    Some(nodes)
}

/// `Some(p + ns)` when `o` is `Some(ns)`.
pub open spec fn cons_nodes(p: Seq<LangNode>, o: Option<Seq<LangNode>>) -> Option<Seq<LangNode>> {
    match o {
        Some(ns) => Some(p + ns),
        None => None,
    }
}


/// A parser over a list of tokens; each rule takes what it reads from the
/// front of the list.
#[derive(Clone)]
pub struct Parser {
    pub tokens: Vec<Token>,
}

impl Parser {
    /// Takes the first token.
    pub fn eat(&mut self) -> (r: Token)
        requires
            old(self).tokens.len() > 0,
        ensures
            r == old(self).tokens@[0],
            final(self).tokens@ == old(self).tokens@.drop_first(),
    {
        let r = self.tokens.remove(0);
        assert(self.tokens@ =~= old(self).tokens@.drop_first());
        r
    }

    /// Takes the first token, which must be `expected`.
    pub fn eat_expect(&mut self, expected: Token) -> (r: Token)
        requires
            old(self).tokens.len() > 0,
            old(self).tokens@[0]@ == expected@,
        ensures
            r == old(self).tokens@[0],
            r@ == expected@,
            final(self).tokens@ == old(self).tokens@.drop_first(),
    {
        self.eat()
    }

    /// Drops the first `j` tokens.
    fn drop_front(&mut self, j: usize)
        requires
            j <= old(self).tokens.len(),
        ensures
            final(self).tokens@ == old(self).tokens@.skip(j as int),
    {
        let rest = self.tokens.split_off(j);
        self.tokens = rest;
        assert(self.tokens@ =~= old(self).tokens@.skip(j as int));
    }

    /// The construct at the front of the tokens (the top rule of the grammar).
    pub fn rparse(&mut self) -> (r: Node)
        requires
            syn_constructs(ltoks_view(old(self).tokens@), 0) is Some,
        ensures
            match syn_constructs(ltoks_view(old(self).tokens@), 0) {
                Some((n, j)) => r@ == n && final(self).tokens@ == old(self).tokens@.skip(j),
                None => false,
            },
    {
        match constructs_at(&self.tokens, 0) {
            Some((n, j)) => {
                self.drop_front(j);
                n
            },
            None => {
                proof {
                    assert(false);
                }
                Node::Nullus
            },
        }
    }

    /// The construct at the front of the tokens: an `if`, a `for`, or a comparison.
    pub fn parse_constructs(&mut self) -> (r: Node)
        requires
            syn_constructs(ltoks_view(old(self).tokens@), 0) is Some,
        ensures
            match syn_constructs(ltoks_view(old(self).tokens@), 0) {
                Some((n, j)) => r@ == n && final(self).tokens@ == old(self).tokens@.skip(j),
                None => false,
            },
    {
        match constructs_at(&self.tokens, 0) {
            Some((n, j)) => {
                self.drop_front(j);
                n
            },
            None => {
                proof {
                    assert(false);
                }
                Node::Nullus
            },
        }
    }

    /// The comparison chain at the front of the tokens.
    pub fn parse_bools(&mut self) -> (r: Node)
        requires
            syn_bools(ltoks_view(old(self).tokens@), 0) is Some,
        ensures
            match syn_bools(ltoks_view(old(self).tokens@), 0) {
                Some((n, j)) => r@ == n && final(self).tokens@ == old(self).tokens@.skip(j),
                None => false,
            },
    {
        match bools_at(&self.tokens, 0) {
            Some((n, j)) => {
                self.drop_front(j);
                n
            },
            None => {
                proof {
                    assert(false);
                }
                Node::Nullus
            },
        }
    }

    /// The sum at the front of the tokens.
    pub fn parse_addition(&mut self) -> (r: Node)
        requires
            syn_addition(ltoks_view(old(self).tokens@), 0) is Some,
        ensures
            match syn_addition(ltoks_view(old(self).tokens@), 0) {
                Some((n, j)) => r@ == n && final(self).tokens@ == old(self).tokens@.skip(j),
                None => false,
            },
    {
        match addition_at(&self.tokens, 0) {
            Some((n, j)) => {
                self.drop_front(j);
                n
            },
            None => {
                proof {
                    assert(false);
                }
                Node::Nullus
            },
        }
    }

    /// The product at the front of the tokens.
    pub fn parse_multiplication(&mut self) -> (r: Node)
        requires
            syn_multiplication(ltoks_view(old(self).tokens@), 0) is Some,
        ensures
            match syn_multiplication(ltoks_view(old(self).tokens@), 0) {
                Some((n, j)) => r@ == n && final(self).tokens@ == old(self).tokens@.skip(j),
                None => false,
            },
    {
        match multiplication_at(&self.tokens, 0) {
            Some((n, j)) => {
                self.drop_front(j);
                n
            },
            None => {
                proof {
                    assert(false);
                }
                Node::Nullus
            },
        }
    }

    /// The indexation at the front of the tokens.
    pub fn parse_indexation(&mut self) -> (r: Node)
        requires
            syn_indexation(ltoks_view(old(self).tokens@), 0) is Some,
        ensures
            match syn_indexation(ltoks_view(old(self).tokens@), 0) {
                Some((n, j)) => r@ == n && final(self).tokens@ == old(self).tokens@.skip(j),
                None => false,
            },
    {
        match indexation_at(&self.tokens, 0) {
            Some((n, j)) => {
                self.drop_front(j);
                n
            },
            None => {
                proof {
                    assert(false);
                }
                Node::Nullus
            },
        }
    }

    /// The primary at the front of the tokens.
    pub fn parse_primary(&mut self) -> (r: Node)
        requires
            syn_primary(ltoks_view(old(self).tokens@), 0) is Some,
        ensures
            match syn_primary(ltoks_view(old(self).tokens@), 0) {
                Some((n, j)) => r@ == n && final(self).tokens@ == old(self).tokens@.skip(j),
                None => false,
            },
    {
        match primary_at(&self.tokens, 0) {
            Some((n, j)) => {
                self.drop_front(j);
                n
            },
            None => {
                proof {
                    assert(false);
                }
                Node::Nullus
            },
        }
    }
}

impl Node {
    /// A copy of this tree, node by node.
    pub fn deep_copy(&self) -> (r: Node)
        ensures
            r@ == self@,
        decreases self,
    {
        match self {
            Node::BinaryOperation(l, r, o) => {
                let l2 = (**l).deep_copy();
                let r2 = (**r).deep_copy();
                Node::BinaryOperation(Box::new(l2), Box::new(r2), *o)
            },
            Node::Integer(i) => Node::Integer(*i),
            Node::Float(s) => Node::Float(s.clone()),
            Node::Str(s) => Node::Str(s.clone()),
            Node::Nullus => Node::Nullus,
            Node::List(v) => {
                let out = copy_nodes(v);
                proof {
                    lemma_node_list_eq(out, *v);
                }
                Node::List(out)
            },
            Node::Identifier(s) => Node::Identifier(s.clone()),
            Node::Indexation(l, r) => {
                let l2 = (**l).deep_copy();
                let r2 = (**r).deep_copy();
                Node::Indexation(Box::new(l2), Box::new(r2))
            },
            Node::Bool(b) => Node::Bool(*b),
            Node::IfStatement(c, b, o) => {
                let c2 = (**c).deep_copy();
                let b2 = (**b).deep_copy();
                let o2 = (**o).deep_copy();
                Node::IfStatement(Box::new(c2), Box::new(b2), Box::new(o2))
            },
            Node::ForLoop(x, l, b) => {
                let x2 = (**x).deep_copy();
                let l2 = (**l).deep_copy();
                let b2 = (**b).deep_copy();
                Node::ForLoop(Box::new(x2), Box::new(l2), Box::new(b2))
            },
        }
    }
}

/// A copy of a list of trees.
fn copy_nodes(v: &Vec<Box<Node>>) -> (r: Vec<Box<Node>>)
    ensures
        r.len() == v.len(),
        forall|k: int| 0 <= k < v.len() ==> (*#[trigger] r@[k])@ == (*v@[k])@,
    decreases v,
{
    let mut out: Vec<Box<Node>> = Vec::new();
    let mut i: usize = 0;
    while i < v.len()
        invariant
            i <= v.len(),
            out.len() == i,
            forall|k: int| 0 <= k < i ==> (*#[trigger] out@[k])@ == (*v@[k])@,
        decreases v.len() - i,
    {
        out.push(Box::new(v[i].deep_copy()));
        i = i + 1;
    }
    out
}

/// Lists whose elements have equal values have equal values.
proof fn lemma_node_list_eq(a: Vec<Box<Node>>, b: Vec<Box<Node>>)
    requires
        a.len() == b.len(),
        forall|k: int| 0 <= k < a.len() ==> (*#[trigger] a@[k])@ == (*b@[k])@,
    ensures
        node_view(Node::List(a)) == node_view(Node::List(b)),
{
    let va = node_view(Node::List(a));
    let vb = node_view(Node::List(b));
    assert forall|k: int| 0 <= k < a.len() implies va->List_0[k] == vb->List_0[k] by {
        assert((*a@[k])@ == (*b@[k])@);
    }
    assert(va->List_0 =~= vb->List_0);
}

impl Clone for Node {
    fn clone(&self) -> (r: Self)
        ensures
            r@ == self@,
    {
        self.deep_copy()
    }
}

// ---------------------------------------------------------------------------
// Reading from the front of the tokens
// ---------------------------------------------------------------------------
//
// The rules above read at an index; `Parser` reads from the front of a list
// it shortens as it goes. The two agree because what a rule reads does not
// depend on the tokens before the index it starts at.

/// A result of a rule with its end index moved on by `d`.
pub open spec fn shifted(o: Option<(LangNode, int)>, d: int) -> Option<(LangNode, int)> {
    match o {
        Some((n, j)) => Some((n, j + d)),
        None => None,
    }
}

proof fn lemma_bools_rest_bounds(t: Seq<LangTok>, j: int, left: LangNode)
    requires
        0 <= j <= t.len(),
    ensures
        syn_bools_rest(t, j, left) matches Some((n, k)) ==> j <= k <= t.len(),
    decreases t.len() - j,
{
    if j < t.len() && t[j] == LangTok::Op(Operator::Equals) {
        if let Some((r, j2)) = syn_addition(t, j + 1) {
            if j < j2 <= t.len() {
                lemma_bools_rest_bounds(
                    t,
                    j2,
                    LangNode::BinaryOperation(Box::new(left), Box::new(r), Operator::Equals),
                );
            }
        }
    }
}

#[verifier::spinoff_prover]
#[verifier::rlimit(40)]
proof fn lemma_shift_constructs(t: Seq<LangTok>, d: int, i: int)
    requires
        0 <= d <= t.len(),
        0 <= i,
    ensures
        syn_constructs(t, d + i) == shifted(syn_constructs(t.skip(d), i), d),
    decreases t.len() - (d + i), 5int,
{
    let u = t.skip(d);
    if d + i < t.len() {
        assert(u[i] == t[d + i]);
        if t[d + i] is If || t[d + i] is For {
            lemma_shift_bools(t, d, i + 1);
            if let Some((c, i1)) = syn_bools(u, i + 1) {
                if i < i1 < u.len() {
                    lemma_shift_constructs(t, d, i1 + 1);
                    if let Some((r, i2)) = syn_constructs(u, i1 + 1) {
                        if i1 < i2 < u.len() {
                            if t[d + i] is If {
                                if i2 + 2 < u.len() {
                                    lemma_shift_constructs(t, d, i2 + 3);
                                }
                            } else {
                                lemma_shift_constructs(t, d, i2 + 1);
                            }
                        }
                    }
                }
            }
        } else {
            lemma_shift_bools(t, d, i);
        }
    }
}

#[verifier::spinoff_prover]
#[verifier::rlimit(40)]
proof fn lemma_shift_bools(t: Seq<LangTok>, d: int, i: int)
    requires
        0 <= d <= t.len(),
        0 <= i,
    ensures
        syn_bools(t, d + i) == shifted(syn_bools(t.skip(d), i), d),
    decreases t.len() - (d + i), 4int,
{
    let u = t.skip(d);
    lemma_shift_addition(t, d, i);
    if let Some((l, j)) = syn_addition(u, i) {
        if i < j <= u.len() {
            lemma_shift_bools_rest(t, d, j, l);
        }
    }
}

#[verifier::spinoff_prover]
#[verifier::rlimit(40)]
proof fn lemma_shift_bools_rest(t: Seq<LangTok>, d: int, j: int, left: LangNode)
    requires
        0 <= d <= t.len(),
        0 <= j,
    ensures
        syn_bools_rest(t, d + j, left) == shifted(syn_bools_rest(t.skip(d), j, left), d),
    decreases t.len() - (d + j), 4int,
{
    let u = t.skip(d);
    if d + j < t.len() {
        assert(u[j] == t[d + j]);
        if t[d + j] == LangTok::Op(Operator::Equals) {
            lemma_shift_addition(t, d, j + 1);
            if let Some((r, j2)) = syn_addition(u, j + 1) {
                if j < j2 <= u.len() {
                    lemma_shift_bools_rest(
                        t,
                        d,
                        j2,
                        LangNode::BinaryOperation(Box::new(left), Box::new(r), Operator::Equals),
                    );
                }
            }
        }
    }
}

#[verifier::spinoff_prover]
#[verifier::rlimit(40)]
proof fn lemma_shift_addition(t: Seq<LangTok>, d: int, i: int)
    requires
        0 <= d <= t.len(),
        0 <= i,
    ensures
        syn_addition(t, d + i) == shifted(syn_addition(t.skip(d), i), d),
    decreases t.len() - (d + i), 3int,
{
    let u = t.skip(d);
    lemma_shift_multiplication(t, d, i);
    if let Some((l, j)) = syn_multiplication(u, i) {
        if i < j <= u.len() {
            lemma_shift_addition_rest(t, d, j, l);
        }
    }
}

#[verifier::spinoff_prover]
#[verifier::rlimit(40)]
proof fn lemma_shift_addition_rest(t: Seq<LangTok>, d: int, j: int, left: LangNode)
    requires
        0 <= d <= t.len(),
        0 <= j,
    ensures
        syn_addition_rest(t, d + j, left) == shifted(syn_addition_rest(t.skip(d), j, left), d),
    decreases t.len() - (d + j), 3int,
{
    let u = t.skip(d);
    if d + j < t.len() {
        assert(u[j] == t[d + j]);
        if is_additive(t[d + j]) {
            lemma_shift_multiplication(t, d, j + 1);
            if let Some((r, j2)) = syn_multiplication(u, j + 1) {
                if j < j2 <= u.len() {
                    lemma_shift_addition_rest(
                        t,
                        d,
                        j2,
                        LangNode::BinaryOperation(Box::new(left), Box::new(r), t[d + j]->Op_0),
                    );
                }
            }
        }
    }
}

#[verifier::spinoff_prover]
#[verifier::rlimit(40)]
proof fn lemma_shift_multiplication(t: Seq<LangTok>, d: int, i: int)
    requires
        0 <= d <= t.len(),
        0 <= i,
    ensures
        syn_multiplication(t, d + i) == shifted(syn_multiplication(t.skip(d), i), d),
    decreases t.len() - (d + i), 2int,
{
    let u = t.skip(d);
    lemma_shift_indexation(t, d, i);
    if let Some((l, j)) = syn_indexation(u, i) {
        if i < j <= u.len() {
            lemma_shift_multiplication_rest(t, d, j, l);
        }
    }
}

#[verifier::spinoff_prover]
#[verifier::rlimit(40)]
proof fn lemma_shift_multiplication_rest(t: Seq<LangTok>, d: int, j: int, left: LangNode)
    requires
        0 <= d <= t.len(),
        0 <= j,
    ensures
        syn_multiplication_rest(t, d + j, left) == shifted(
            syn_multiplication_rest(t.skip(d), j, left),
            d,
        ),
    decreases t.len() - (d + j), 2int,
{
    let u = t.skip(d);
    if d + j < t.len() {
        assert(u[j] == t[d + j]);
        if is_multiplicative(t[d + j]) {
            lemma_shift_indexation(t, d, j + 1);
            if let Some((r, j2)) = syn_indexation(u, j + 1) {
                if j < j2 <= u.len() {
                    lemma_shift_multiplication_rest(
                        t,
                        d,
                        j2,
                        LangNode::BinaryOperation(Box::new(left), Box::new(r), t[d + j]->Op_0),
                    );
                }
            }
        }
    }
}

#[verifier::spinoff_prover]
#[verifier::rlimit(40)]
proof fn lemma_shift_indexation(t: Seq<LangTok>, d: int, i: int)
    requires
        0 <= d <= t.len(),
        0 <= i,
    ensures
        syn_indexation(t, d + i) == shifted(syn_indexation(t.skip(d), i), d),
    decreases t.len() - (d + i), 1int,
{
    let u = t.skip(d);
    lemma_shift_primary(t, d, i);
    if let Some((l, j)) = syn_primary(u, i) {
        if i < j <= u.len() {
            lemma_shift_indexation_rest(t, d, j, l);
        }
    }
}

#[verifier::spinoff_prover]
#[verifier::rlimit(40)]
proof fn lemma_shift_indexation_rest(t: Seq<LangTok>, d: int, j: int, left: LangNode)
    requires
        0 <= d <= t.len(),
        0 <= j,
    ensures
        syn_indexation_rest(t, d + j, left) == shifted(syn_indexation_rest(t.skip(d), j, left), d),
    decreases t.len() - (d + j), 1int,
{
    let u = t.skip(d);
    if d + j < t.len() {
        assert(u[j] == t[d + j]);
        if t[d + j] == LangTok::Op(Operator::Indexation) {
            lemma_shift_primary(t, d, j + 1);
            if let Some((r, j2)) = syn_primary(u, j + 1) {
                if j < j2 <= u.len() {
                    lemma_shift_indexation_rest(
                        t,
                        d,
                        j2,
                        LangNode::Indexation(Box::new(left), Box::new(r)),
                    );
                }
            }
        }
    }
}

#[verifier::spinoff_prover]
#[verifier::rlimit(40)]
proof fn lemma_shift_primary(t: Seq<LangTok>, d: int, i: int)
    requires
        0 <= d <= t.len(),
        0 <= i,
    ensures
        syn_primary(t, d + i) == shifted(syn_primary(t.skip(d), i), d),
    decreases t.len() - (d + i), 0int,
{
    let u = t.skip(d);
    if d + i < t.len() {
        assert(u[i] == t[d + i]);
        if t[d + i] is Oparen {
            lemma_shift_constructs(t, d, i + 1);
            lemma_shift_close_paren(t, d, i, syn_constructs(u, i + 1));
            assert(syn_primary(t, d + i) == close_paren(t, d + i, syn_constructs(t, d + i + 1)));
            assert(syn_primary(u, i) == close_paren(u, i, syn_constructs(u, i + 1)));
        } else {
            assert(literal_node(t[d + i]) == literal_node(u[i]));
        }
    }
}

proof fn lemma_shift_close_paren(t: Seq<LangTok>, d: int, i: int, b: Option<(LangNode, int)>)
    requires
        0 <= d <= t.len(),
        0 <= i,
    ensures
        close_paren(t, d + i, shifted(b, d)) == shifted(close_paren(t.skip(d), i, b), d),
{
    let u = t.skip(d);
    if let Some((v, j)) = b {
        if i < j < u.len() {
            assert(u[j] == t[d + j]);
        }
    }
}

#[verifier::spinoff_prover]
#[verifier::rlimit(40)]
proof fn lemma_shift_program(t: Seq<LangTok>, d: int, i: int)
    requires
        0 <= d <= t.len(),
        0 <= i,
    ensures
        syn_program(t, d + i) == syn_program(t.skip(d), i),
    decreases t.len() - (d + i),
{
    let u = t.skip(d);
    if d + i < t.len() {
        lemma_shift_constructs(t, d, i);
        if let Some((n, j)) = syn_constructs(u, i) {
            if i < j <= u.len() {
                lemma_shift_program(t, d, j);
            }
        }
    }
}

/// A construct read at index `i` ends after it, and not past the end.
proof fn lemma_constructs_progress(t: Seq<LangTok>, i: int)
    ensures
        syn_constructs(t, i) matches Some((n, j)) ==> i < j <= t.len(),
{
    if 0 <= i < t.len() && !(t[i] is If) && !(t[i] is For) {
        assert(syn_constructs(t, i) == syn_bools(t, i));
        if let Some((l, j)) = syn_addition(t, i) {
            if i < j <= t.len() {
                assert(syn_bools(t, i) == syn_bools_rest(t, j, l));
                lemma_bools_rest_bounds(t, j, l);
            }
        }
    }
}

/// What a rule reads does not depend on the tokens before the point where
/// it starts: reading at index `d + i` reads what reading the tokens from
/// `d` on reads at `i`, and ends `d` further on. So reading a construct
/// from the front of the tokens, as `Parser::rparse` does, and going on with
/// the tokens that are left reads the program; and each construct takes at
/// least one token.
pub proof fn law_program_reads_from_the_front(t: Seq<LangTok>, d: int, i: int)
    requires
        0 <= d <= t.len(),
        0 <= i,
    ensures
        syn_constructs(t, d + i) == shifted(syn_constructs(t.skip(d), i), d),
        syn_program(t, d + i) == syn_program(t.skip(d), i),
        syn_constructs(t, 0) matches Some((n, j)) ==> 0 < j <= t.len(),
        t.len() == 0 ==> syn_program(t, 0) == Some(Seq::<LangNode>::empty()),
        t.len() > 0 ==> syn_program(t, 0) == match syn_constructs(t, 0) {
            None => None,
            Some((n, j)) => match syn_program(t.skip(j), 0) {
                None => None,
                Some(rest) => Some(seq![n] + rest),
            },
        },
{
    lemma_shift_constructs(t, d, i);
    lemma_shift_program(t, d, i);
    lemma_constructs_progress(t, 0);
    if let Some((n, j)) = syn_constructs(t, 0) {
        lemma_shift_program(t, j, 0);
    }
}

// ---------------------------------------------------------------------------
// Precedence and grouping
// ---------------------------------------------------------------------------

/// `x + y * z` (or with `-`, `/`) reads as `x + (y * z)`.
#[verifier::spinoff_prover]
#[verifier::rlimit(50)]
proof fn lemma_sum_of_product(x: LangTok, o1: Operator, y: LangTok, o2: Operator, z: LangTok)
    requires
        literal_node(x) is Some,
        literal_node(y) is Some,
        literal_node(z) is Some,
        o1 == Operator::Addition || o1 == Operator::Substraction,
        o2 == Operator::Multiplication || o2 == Operator::Division,
    ensures
        syn_program(seq![x, LangTok::Op(o1), y, LangTok::Op(o2), z], 0) == Some(seq![LangNode::BinaryOperation(Box::new(literal_node(x)->0), Box::new(LangNode::BinaryOperation(Box::new(literal_node(y)->0), Box::new(literal_node(z)->0), o2)), o1)]),
{
    let t = seq![x, LangTok::Op(o1), y, LangTok::Op(o2), z];
    let xn = literal_node(x)->0;
    let yn = literal_node(y)->0;
    let zn = literal_node(z)->0;
    assert(t[0] == x && t[1] == LangTok::Op(o1) && t[2] == y && t[3] == LangTok::Op(o2) && t[4] == z);
    assert(syn_primary(t, 0) == Some((xn, 1int)));
    assert(syn_primary(t, 2) == Some((yn, 3int)));
    assert(syn_primary(t, 4) == Some((zn, 5int)));
    assert(syn_indexation_rest(t, 1, xn) == Some((xn, 1int)));
    assert(syn_indexation(t, 0) == Some((xn, 1int)));
    assert(syn_indexation_rest(t, 3, yn) == Some((yn, 3int)));
    assert(syn_indexation(t, 2) == Some((yn, 3int)));
    assert(syn_indexation_rest(t, 5, zn) == Some((zn, 5int)));
    assert(syn_indexation(t, 4) == Some((zn, 5int)));
    let yz = LangNode::BinaryOperation(Box::new(yn), Box::new(zn), o2);
    let n = LangNode::BinaryOperation(Box::new(xn), Box::new(yz), o1);
    assert(syn_multiplication_rest(t, 1, xn) == Some((xn, 1int)));
    assert(syn_multiplication(t, 0) == Some((xn, 1int)));
    assert(syn_multiplication_rest(t, 5, yz) == Some((yz, 5int)));
    assert(syn_multiplication_rest(t, 3, yn) == Some((yz, 5int)));
    assert(syn_multiplication(t, 2) == Some((yz, 5int)));
    assert(syn_addition_rest(t, 5, n) == Some((n, 5int)));
    assert(syn_addition_rest(t, 1, xn) == Some((n, 5int)));
    assert(syn_addition(t, 0) == Some((n, 5int)));
    assert(syn_bools_rest(t, 5, n) == Some((n, 5int)));
    assert(syn_bools(t, 0) == Some((n, 5int)));
    assert(syn_constructs(t, 0) == Some((n, 5int)));
    assert(syn_program(t, 5) == Some(Seq::<LangNode>::empty()));
    assert(seq![n] + Seq::<LangNode>::empty() =~= seq![n]);
}

/// `x * y + z` reads as `(x * y) + z`.
#[verifier::spinoff_prover]
#[verifier::rlimit(50)]
proof fn lemma_product_then_sum(x: LangTok, o1: Operator, y: LangTok, o2: Operator, z: LangTok)
    requires
        literal_node(x) is Some,
        literal_node(y) is Some,
        literal_node(z) is Some,
        o1 == Operator::Multiplication || o1 == Operator::Division,
        o2 == Operator::Addition || o2 == Operator::Substraction,
    ensures
        syn_program(seq![x, LangTok::Op(o1), y, LangTok::Op(o2), z], 0) == Some(seq![LangNode::BinaryOperation(Box::new(LangNode::BinaryOperation(Box::new(literal_node(x)->0), Box::new(literal_node(y)->0), o1)), Box::new(literal_node(z)->0), o2)]),
{
    let t = seq![x, LangTok::Op(o1), y, LangTok::Op(o2), z];
    let xn = literal_node(x)->0;
    let yn = literal_node(y)->0;
    let zn = literal_node(z)->0;
    assert(t[0] == x && t[1] == LangTok::Op(o1) && t[2] == y && t[3] == LangTok::Op(o2) && t[4] == z);
    assert(syn_primary(t, 0) == Some((xn, 1int)));
    assert(syn_primary(t, 2) == Some((yn, 3int)));
    assert(syn_primary(t, 4) == Some((zn, 5int)));
    assert(syn_indexation_rest(t, 1, xn) == Some((xn, 1int)));
    assert(syn_indexation(t, 0) == Some((xn, 1int)));
    assert(syn_indexation_rest(t, 3, yn) == Some((yn, 3int)));
    assert(syn_indexation(t, 2) == Some((yn, 3int)));
    assert(syn_indexation_rest(t, 5, zn) == Some((zn, 5int)));
    assert(syn_indexation(t, 4) == Some((zn, 5int)));
    let xy = LangNode::BinaryOperation(Box::new(xn), Box::new(yn), o1);
    let n = LangNode::BinaryOperation(Box::new(xy), Box::new(zn), o2);
    assert(syn_multiplication_rest(t, 3, xy) == Some((xy, 3int)));
    assert(syn_multiplication_rest(t, 1, xn) == Some((xy, 3int)));
    assert(syn_multiplication(t, 0) == Some((xy, 3int)));
    assert(syn_multiplication_rest(t, 5, zn) == Some((zn, 5int)));
    assert(syn_multiplication(t, 4) == Some((zn, 5int)));
    assert(syn_addition_rest(t, 5, n) == Some((n, 5int)));
    assert(syn_addition_rest(t, 3, xy) == Some((n, 5int)));
    assert(syn_addition(t, 0) == Some((n, 5int)));
    assert(syn_bools_rest(t, 5, n) == Some((n, 5int)));
    assert(syn_bools(t, 0) == Some((n, 5int)));
    assert(syn_constructs(t, 0) == Some((n, 5int)));
    assert(syn_program(t, 5) == Some(Seq::<LangNode>::empty()));
    assert(seq![n] + Seq::<LangNode>::empty() =~= seq![n]);
}

/// `x + y - z` reads as `(x + y) - z`.
#[verifier::spinoff_prover]
#[verifier::rlimit(50)]
proof fn lemma_sums_to_the_left(x: LangTok, o1: Operator, y: LangTok, o2: Operator, z: LangTok)
    requires
        literal_node(x) is Some,
        literal_node(y) is Some,
        literal_node(z) is Some,
        o1 == Operator::Addition || o1 == Operator::Substraction,
        o2 == Operator::Addition || o2 == Operator::Substraction,
    ensures
        syn_program(seq![x, LangTok::Op(o1), y, LangTok::Op(o2), z], 0) == Some(seq![LangNode::BinaryOperation(Box::new(LangNode::BinaryOperation(Box::new(literal_node(x)->0), Box::new(literal_node(y)->0), o1)), Box::new(literal_node(z)->0), o2)]),
{
    let t = seq![x, LangTok::Op(o1), y, LangTok::Op(o2), z];
    let xn = literal_node(x)->0;
    let yn = literal_node(y)->0;
    let zn = literal_node(z)->0;
    assert(t[0] == x && t[1] == LangTok::Op(o1) && t[2] == y && t[3] == LangTok::Op(o2) && t[4] == z);
    assert(syn_primary(t, 0) == Some((xn, 1int)));
    assert(syn_primary(t, 2) == Some((yn, 3int)));
    assert(syn_primary(t, 4) == Some((zn, 5int)));
    assert(syn_indexation_rest(t, 1, xn) == Some((xn, 1int)));
    assert(syn_indexation(t, 0) == Some((xn, 1int)));
    assert(syn_indexation_rest(t, 3, yn) == Some((yn, 3int)));
    assert(syn_indexation(t, 2) == Some((yn, 3int)));
    assert(syn_indexation_rest(t, 5, zn) == Some((zn, 5int)));
    assert(syn_indexation(t, 4) == Some((zn, 5int)));
    let xy = LangNode::BinaryOperation(Box::new(xn), Box::new(yn), o1);
    let n = LangNode::BinaryOperation(Box::new(xy), Box::new(zn), o2);
    assert(syn_multiplication_rest(t, 1, xn) == Some((xn, 1int)));
    assert(syn_multiplication(t, 0) == Some((xn, 1int)));
    assert(syn_multiplication_rest(t, 3, yn) == Some((yn, 3int)));
    assert(syn_multiplication(t, 2) == Some((yn, 3int)));
    assert(syn_multiplication_rest(t, 5, zn) == Some((zn, 5int)));
    assert(syn_multiplication(t, 4) == Some((zn, 5int)));
    assert(syn_addition_rest(t, 5, n) == Some((n, 5int)));
    assert(syn_addition_rest(t, 3, xy) == Some((n, 5int)));
    assert(syn_addition_rest(t, 1, xn) == Some((n, 5int)));
    assert(syn_addition(t, 0) == Some((n, 5int)));
    assert(syn_bools_rest(t, 5, n) == Some((n, 5int)));
    assert(syn_bools(t, 0) == Some((n, 5int)));
    assert(syn_constructs(t, 0) == Some((n, 5int)));
    assert(syn_program(t, 5) == Some(Seq::<LangNode>::empty()));
    assert(seq![n] + Seq::<LangNode>::empty() =~= seq![n]);
}

/// `x * y / z` reads as `(x * y) / z`.
#[verifier::spinoff_prover]
#[verifier::rlimit(50)]
proof fn lemma_products_to_the_left(x: LangTok, o1: Operator, y: LangTok, o2: Operator, z: LangTok)
    requires
        literal_node(x) is Some,
        literal_node(y) is Some,
        literal_node(z) is Some,
        o1 == Operator::Multiplication || o1 == Operator::Division,
        o2 == Operator::Multiplication || o2 == Operator::Division,
    ensures
        syn_program(seq![x, LangTok::Op(o1), y, LangTok::Op(o2), z], 0) == Some(seq![LangNode::BinaryOperation(Box::new(LangNode::BinaryOperation(Box::new(literal_node(x)->0), Box::new(literal_node(y)->0), o1)), Box::new(literal_node(z)->0), o2)]),
{
    let t = seq![x, LangTok::Op(o1), y, LangTok::Op(o2), z];
    let xn = literal_node(x)->0;
    let yn = literal_node(y)->0;
    let zn = literal_node(z)->0;
    assert(t[0] == x && t[1] == LangTok::Op(o1) && t[2] == y && t[3] == LangTok::Op(o2) && t[4] == z);
    assert(syn_primary(t, 0) == Some((xn, 1int)));
    assert(syn_primary(t, 2) == Some((yn, 3int)));
    assert(syn_primary(t, 4) == Some((zn, 5int)));
    assert(syn_indexation_rest(t, 1, xn) == Some((xn, 1int)));
    assert(syn_indexation(t, 0) == Some((xn, 1int)));
    assert(syn_indexation_rest(t, 3, yn) == Some((yn, 3int)));
    assert(syn_indexation(t, 2) == Some((yn, 3int)));
    assert(syn_indexation_rest(t, 5, zn) == Some((zn, 5int)));
    assert(syn_indexation(t, 4) == Some((zn, 5int)));
    let xy = LangNode::BinaryOperation(Box::new(xn), Box::new(yn), o1);
    let n = LangNode::BinaryOperation(Box::new(xy), Box::new(zn), o2);
    assert(syn_multiplication_rest(t, 5, n) == Some((n, 5int)));
    assert(syn_multiplication_rest(t, 3, xy) == Some((n, 5int)));
    assert(syn_multiplication_rest(t, 1, xn) == Some((n, 5int)));
    assert(syn_multiplication(t, 0) == Some((n, 5int)));
    assert(syn_addition_rest(t, 5, n) == Some((n, 5int)));
    assert(syn_addition(t, 0) == Some((n, 5int)));
    assert(syn_bools_rest(t, 5, n) == Some((n, 5int)));
    assert(syn_bools(t, 0) == Some((n, 5int)));
    assert(syn_constructs(t, 0) == Some((n, 5int)));
    assert(syn_program(t, 5) == Some(Seq::<LangNode>::empty()));
    assert(seq![n] + Seq::<LangNode>::empty() =~= seq![n]);
}

/// Products bind tighter than sums, and operators of one level group to
/// the left: for any literals or identifiers `x`, `y`, `z`, any additive
/// operators `p`, `q` (`+`, `-`) and multiplicative operators `m`, `k`
/// (`*`, `/`), `x p y m z` reads as `x p (y m z)`, `x m y p z` as
/// `(x m y) p z`, `x p y q z` as `(x p y) q z` and `x m y k z` as
/// `(x m y) k z`.
pub proof fn law_products_bind_tighter_than_sums(
    x: LangTok,
    y: LangTok,
    z: LangTok,
    p: Operator,
    q: Operator,
    m: Operator,
    k: Operator,
)
    requires
        literal_node(x) is Some,
        literal_node(y) is Some,
        literal_node(z) is Some,
        p == Operator::Addition || p == Operator::Substraction,
        q == Operator::Addition || q == Operator::Substraction,
        m == Operator::Multiplication || m == Operator::Division,
        k == Operator::Multiplication || k == Operator::Division,
    ensures
        syn_program(seq![x, LangTok::Op(p), y, LangTok::Op(m), z], 0) == Some(
            seq![LangNode::BinaryOperation(Box::new(literal_node(x)->0), Box::new(LangNode::BinaryOperation(Box::new(literal_node(y)->0), Box::new(literal_node(z)->0), m)), p)],
        ),
        syn_program(seq![x, LangTok::Op(m), y, LangTok::Op(p), z], 0) == Some(
            seq![LangNode::BinaryOperation(Box::new(LangNode::BinaryOperation(Box::new(literal_node(x)->0), Box::new(literal_node(y)->0), m)), Box::new(literal_node(z)->0), p)],
        ),
        syn_program(seq![x, LangTok::Op(p), y, LangTok::Op(q), z], 0) == Some(
            seq![LangNode::BinaryOperation(Box::new(LangNode::BinaryOperation(Box::new(literal_node(x)->0), Box::new(literal_node(y)->0), p)), Box::new(literal_node(z)->0), q)],
        ),
        syn_program(seq![x, LangTok::Op(m), y, LangTok::Op(k), z], 0) == Some(
            seq![LangNode::BinaryOperation(Box::new(LangNode::BinaryOperation(Box::new(literal_node(x)->0), Box::new(literal_node(y)->0), m)), Box::new(literal_node(z)->0), k)],
        ),
{
    lemma_sum_of_product(x, p, y, m, z);
    lemma_product_then_sum(x, m, y, p, z);
    lemma_sums_to_the_left(x, p, y, q, z);
    lemma_products_to_the_left(x, m, y, k, z);
}

} // verus!
