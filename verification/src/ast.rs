use vstd::prelude::*;

use crate::literal::{lit_wf, LitV, Literal};

verus! {

// ---------------------------------------------------------------------
// Mathematical views of the syntax tree.
// ---------------------------------------------------------------------
/// The view of one expression element: a literal value or a name.
#[verifier::ext_equal]
pub enum ElemV {
    Lit(LitV),
    Id(Seq<char>),
}

/// The view of a statement.
#[verifier::ext_equal]
pub enum StmtV {
    IfThen(Seq<ElemV>),
    IfElseThen(Seq<ElemV>, Seq<ElemV>),
    DoLoop(Seq<char>, Seq<ElemV>),
}

/// The view of one element of a word body.
#[verifier::ext_equal]
pub enum WordElemV {
    Stmt(StmtV),
    Expr(Seq<ElemV>),
}

/// The view of a definition.
#[verifier::ext_equal]
pub enum DefV {
    Var(Seq<char>),
    Const(Seq<char>, LitV),
    Word(Seq<char>, Seq<WordElemV>),
}

/// The view of one source line.
#[verifier::ext_equal]
pub enum LineV {
    Def(DefV),
    Expr(Seq<ElemV>),
}

// ---------------------------------------------------------------------
// Well-formedness: every literal embedded in the tree is well formed.
// ---------------------------------------------------------------------
pub open spec fn elem_wf(e: ElemV) -> bool {
    match e {
        ElemV::Lit(l) => lit_wf(l),
        ElemV::Id(_) => true,
    }
}

pub open spec fn expr_wf(e: Seq<ElemV>) -> bool {
    forall|i: int| 0 <= i < e.len() ==> #[trigger] elem_wf(e[i])
}

pub open spec fn stmt_wf(s: StmtV) -> bool {
    match s {
        StmtV::IfThen(t) => expr_wf(t),
        StmtV::IfElseThen(t, f) => expr_wf(t) && expr_wf(f),
        StmtV::DoLoop(_, b) => expr_wf(b),
    }
}

pub open spec fn word_elem_wf(w: WordElemV) -> bool {
    match w {
        WordElemV::Stmt(s) => stmt_wf(s),
        WordElemV::Expr(e) => expr_wf(e),
    }
}

pub open spec fn body_wf(b: Seq<WordElemV>) -> bool {
    forall|i: int| 0 <= i < b.len() ==> #[trigger] word_elem_wf(b[i])
}

pub open spec fn def_wf(d: DefV) -> bool {
    match d {
        DefV::Var(_) => true,
        DefV::Const(_, l) => lit_wf(l),
        DefV::Word(_, b) => body_wf(b),
    }
}

pub open spec fn line_wf(l: LineV) -> bool {
    match l {
        LineV::Def(d) => def_wf(d),
        LineV::Expr(e) => expr_wf(e),
    }
}

// ---------------------------------------------------------------------
// The executable syntax tree.  Nodes are immutable once built: they
// are built once per parsed line and executed any number of times.
// ---------------------------------------------------------------------
/// A name as it appeared in the source; resolved only at execution.
#[derive(Debug)]
pub struct Ident {
    pub name: String,
}

impl View for Ident {
    type V = Seq<char>;

    open spec fn view(&self) -> Seq<char> {
        self.name@
    }
}

impl Ident {
    /// The name text.
    pub fn name(&self) -> (r: &str)
        ensures
            r@ == self@,
    {
        self.name.as_str()
    }

    /// A copy of this identifier with the same name.
    pub fn duplicate(&self) -> (r: Ident)
        ensures
            r@ == self@,
    {
        Ident { name: self.name.clone() }
    }
}

/// One element of an expression: a literal to push or a name to
/// resolve.
#[derive(Debug)]
pub enum ExpressionElement {
    Literal(Literal),
    Ident(Ident),
}

impl View for ExpressionElement {
    type V = ElemV;

    open spec fn view(&self) -> ElemV {
        match self {
            ExpressionElement::Literal(l) => ElemV::Lit(l@),
            ExpressionElement::Ident(i) => ElemV::Id(i@),
        }
    }
}

impl ExpressionElement {
    /// A copy of this element with the same view.
    pub fn duplicate(&self) -> (r: ExpressionElement)
        ensures
            r@ == self@,
    {
        match self {
            ExpressionElement::Literal(l) => ExpressionElement::Literal(l.duplicate()),
            ExpressionElement::Ident(i) => ExpressionElement::Ident(i.duplicate()),
        }
    }
}

/// The element-by-element view of an expression element sequence.
pub open spec fn seq_elem_view(s: Seq<ExpressionElement>) -> Seq<ElemV> {
    Seq::new(
        s.len(),
        |i: int|
            if 0 <= i < s.len() {
                s[i]@
            } else {
                ElemV::Id(Seq::empty())
            },
    )
}

/// An ordered run of literals and identifiers, executed left to right
/// with standard postfix semantics.
#[derive(Debug)]
pub struct Expression {
    pub elements: Vec<ExpressionElement>,
}

impl View for Expression {
    type V = Seq<ElemV>;

    open spec fn view(&self) -> Seq<ElemV> {
        seq_elem_view(self.elements@)
    }
}

impl Expression {
    /// A copy of this expression with the same view.
    pub fn duplicate(&self) -> (r: Expression)
        ensures
            r@ == self@,
    {
        let mut elements: Vec<ExpressionElement> = Vec::new();
        let n = self.elements.len();
        let mut i: usize = 0;
        while i < n
            invariant
                n == self.elements@.len(),
                i <= n,
                elements@.len() == i,
                forall|j: int| 0 <= j < i ==> #[trigger] elements@[j]@ == self.elements@[j]@,
            decreases n - i,
        {
            elements.push(self.elements[i].duplicate());
            i += 1;
        }
        let r = Expression { elements };
        proof {
            assert(r@ =~= self@);
        }
        r
    }
}

/// A conditional with only a true branch: `if ... then`.
#[derive(Debug)]
pub struct IfThenStatement {
    pub true_expr: Expression,
}

/// A conditional with both branches: `if ... else ... then`.
#[derive(Debug)]
pub struct IfElseThenStatement {
    pub true_expr: Expression,
    pub false_expr: Expression,
}

/// A counted loop `do ... loop` with its loop-counter identifier.
#[derive(Debug)]
pub struct DoLoopStatement {
    pub counter: Ident,
    pub expr: Expression,
}

/// A control statement inside a word body.
#[derive(Debug)]
pub enum Statement {
    IfThen(IfThenStatement),
    IfElseThen(IfElseThenStatement),
    DoLoop(DoLoopStatement),
}

impl View for Statement {
    type V = StmtV;

    open spec fn view(&self) -> StmtV {
        match self {
            Statement::IfThen(s) => StmtV::IfThen(s.true_expr@),
            Statement::IfElseThen(s) => StmtV::IfElseThen(s.true_expr@, s.false_expr@),
            Statement::DoLoop(s) => StmtV::DoLoop(s.counter@, s.expr@),
        }
    }
}

impl Statement {
    /// A copy of this statement with the same view.
    pub fn duplicate(&self) -> (r: Statement)
        ensures
            r@ == self@,
    {
        match self {
            Statement::IfThen(s) => Statement::IfThen(
                IfThenStatement { true_expr: s.true_expr.duplicate() },
            ),
            Statement::IfElseThen(s) => Statement::IfElseThen(
                IfElseThenStatement {
                    true_expr: s.true_expr.duplicate(),
                    false_expr: s.false_expr.duplicate(),
                },
            ),
            Statement::DoLoop(s) => Statement::DoLoop(
                DoLoopStatement { counter: s.counter.duplicate(), expr: s.expr.duplicate() },
            ),
        }
    }
}

/// One element of a word body: a statement or an expression.  A body
/// may freely mix the two.
#[derive(Debug)]
pub enum WordElement {
    Statement(Statement),
    Expression(Expression),
}

impl View for WordElement {
    type V = WordElemV;

    open spec fn view(&self) -> WordElemV {
        match self {
            WordElement::Statement(s) => WordElemV::Stmt(s@),
            WordElement::Expression(e) => WordElemV::Expr(e@),
        }
    }
}

impl WordElement {
    /// A copy of this body element with the same view.
    pub fn duplicate(&self) -> (r: WordElement)
        ensures
            r@ == self@,
    {
        match self {
            WordElement::Statement(s) => WordElement::Statement(s.duplicate()),
            WordElement::Expression(e) => WordElement::Expression(e.duplicate()),
        }
    }
}

/// The element-by-element view of a word body.
pub open spec fn seq_word_elem_view(s: Seq<WordElement>) -> Seq<WordElemV> {
    Seq::new(
        s.len(),
        |i: int|
            if 0 <= i < s.len() {
                s[i]@
            } else {
                WordElemV::Expr(Seq::empty())
            },
    )
}

/// A copy of a word body with the same view.
pub fn duplicate_body(body: &Vec<WordElement>) -> (r: Vec<WordElement>)
    ensures
        seq_word_elem_view(r@) == seq_word_elem_view(body@),
{
    let mut r: Vec<WordElement> = Vec::new();
    let n = body.len();
    let mut i: usize = 0;
    while i < n
        invariant
            n == body@.len(),
            i <= n,
            r@.len() == i,
            forall|j: int| 0 <= j < i ==> #[trigger] r@[j]@ == body@[j]@,
        decreases n - i,
    {
        r.push(body[i].duplicate());
        i += 1;
    }
    proof {
        assert(seq_word_elem_view(r@) =~= seq_word_elem_view(body@));
    }
    r
}

/// A variable declaration: `variable <name>`.
#[derive(Debug)]
pub struct Variable {
    pub name: Ident,
    pub value: Option<Literal>,
}

/// A constant declaration: `<integer> constant <name>`.
#[derive(Debug)]
pub struct Constant {
    pub name: Ident,
    pub value: Literal,
}

/// A word declaration: `: <name> <body> ;`.
#[derive(Debug)]
pub struct Word {
    pub name: Ident,
    pub value: Vec<WordElement>,
}

/// A declaration that extends the interpreter's tables.
#[derive(Debug)]
pub enum Definition {
    Variable(Variable),
    Constant(Constant),
    Word(Word),
}

impl View for Definition {
    type V = DefV;

    open spec fn view(&self) -> DefV {
        match self {
            Definition::Variable(v) => DefV::Var(v.name@),
            Definition::Constant(c) => DefV::Const(c.name@, c.value@),
            Definition::Word(w) => DefV::Word(w.name@, seq_word_elem_view(w.value@)),
        }
    }
}

/// One unit of source text, parsed and executed atomically.
#[derive(Debug)]
pub enum Line {
    Definition(Definition),
    Expression(Expression),
}

impl View for Line {
    type V = LineV;

    open spec fn view(&self) -> LineV {
        match self {
            Line::Definition(d) => LineV::Def(d@),
            Line::Expression(e) => LineV::Expr(e@),
        }
    }
}

} // verus!
