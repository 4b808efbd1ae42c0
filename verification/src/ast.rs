//! Abstract syntax of the language: what the parser builds and the
//! interpreter runs.
use vstd::prelude::*;

verus! {

/// The three types of the language.
#[derive(Debug, Clone, Copy, PartialEq, Eq, Structural)]
pub enum Type {
    I32,
    Bool,
    Unit,
}

#[derive(Debug)]
pub struct Program {
    pub items: Vec<Item>,
}

#[derive(Debug)]
pub enum Item {
    Function(FunctionDecl),
}

#[derive(Debug)]
pub struct FunctionDecl {
    pub name: String,
    pub params: Vec<Param>,
    /// `Type::Unit` when the declaration names no return type.
    pub return_type: Type,
    pub body: Block,
}

#[derive(Debug)]
pub struct Param {
    pub name: String,
    pub ty: Type,
}

/// A braced sequence of statements, optionally ending in a tail expression
/// (written without `;`) that gives the block its value.
#[derive(Debug)]
pub struct Block {
    pub stmts: Vec<Stmt>,
    pub tail: Option<Box<Expr>>,
}

#[derive(Debug)]
pub enum Stmt {
    Let { name: String, mutable: bool, ty: Option<Type>, value: Expr },
    Return(Option<Expr>),
    While { cond: Expr, body: Block },
    /// An expression used as a statement; its value is discarded.
    Expr(Expr),
}

#[derive(Debug)]
pub enum Expr {
    IntLit(i64),
    BoolLit(bool),
    Ident(String),
    Unary { op: UnOp, expr: Box<Expr> },
    Binary { op: BinOp, lhs: Box<Expr>, rhs: Box<Expr> },
    Assign { name: String, value: Box<Expr> },
    Call { callee: String, args: Vec<Expr> },
    If { cond: Box<Expr>, then_branch: Block, else_branch: Option<Box<ElseBranch>> },
    Block(Block),
}

#[derive(Debug)]
pub enum ElseBranch {
    Block(Block),
    /// Always holds an `Expr::If` when built by the parser.
    If(Box<Expr>),
}

#[derive(Debug, Clone, Copy, PartialEq, Eq, Structural)]
pub enum UnOp {
    Neg,
    Not,
}

#[derive(Debug, Clone, Copy, PartialEq, Eq, Structural)]
pub enum BinOp {
    Add,
    Sub,
    Mul,
    Div,
    Mod,
    Eq,
    NotEq,
    Lt,
    Gt,
    LtEq,
    GtEq,
    And,
    Or,
}

} // verus!

verus! {

// ---------------------------------------------------------------------
// Mathematical views: names as character sequences, lists as sequences.
// ---------------------------------------------------------------------

pub enum ExprView {
    IntLit(i64),
    BoolLit(bool),
    Ident(Seq<char>),
    Unary { op: UnOp, expr: Box<ExprView> },
    Binary { op: BinOp, lhs: Box<ExprView>, rhs: Box<ExprView> },
    Assign { name: Seq<char>, value: Box<ExprView> },
    Call { callee: Seq<char>, args: Seq<ExprView> },
    If { cond: Box<ExprView>, then_branch: BlockView, else_branch: Option<Box<ElseView>> },
    Block(BlockView),
}

pub struct BlockView {
    pub stmts: Seq<StmtView>,
    pub tail: Option<Box<ExprView>>,
}

pub enum StmtView {
    Let { name: Seq<char>, mutable: bool, ty: Option<Type>, value: ExprView },
    Return(Option<ExprView>),
    While { cond: ExprView, body: BlockView },
    Expr(ExprView),
}

pub enum ElseView {
    Block(BlockView),
    If(Box<ExprView>),
}

pub struct ParamView {
    pub name: Seq<char>,
    pub ty: Type,
}

pub struct FunctionView {
    pub name: Seq<char>,
    pub params: Seq<ParamView>,
    pub return_type: Type,
    pub body: BlockView,
}

pub open spec fn expr_view(e: Expr) -> ExprView
    decreases e,
{
    match e {
        Expr::IntLit(n) => ExprView::IntLit(n),
        Expr::BoolLit(b) => ExprView::BoolLit(b),
        Expr::Ident(s) => ExprView::Ident(s@),
        Expr::Unary { op, expr } => ExprView::Unary { op, expr: Box::new(expr_view(*expr)) },
        Expr::Binary { op, lhs, rhs } => ExprView::Binary {
            op,
            lhs: Box::new(expr_view(*lhs)),
            rhs: Box::new(expr_view(*rhs)),
        },
        Expr::Assign { name, value } => ExprView::Assign {
            name: name@,
            value: Box::new(expr_view(*value)),
        },
        Expr::Call { callee, args } => ExprView::Call {
            callee: callee@,
            args: Seq::new(
                args@.len(),
                |i: int|
                    if 0 <= i < args@.len() {
                        expr_view(args@[i])
                    } else {
                        ExprView::IntLit(0)
                    },
            ),
        },
        Expr::If { cond, then_branch, else_branch } => ExprView::If {
            cond: Box::new(expr_view(*cond)),
            then_branch: block_view(then_branch),
            else_branch: match else_branch {
                None => None,
                Some(b) => Some(Box::new(else_view(*b))),
            },
        },
        Expr::Block(b) => ExprView::Block(block_view(b)),
    }
}

pub open spec fn block_view(b: Block) -> BlockView
    decreases b,
{
    BlockView {
        stmts: Seq::new(
            b.stmts@.len(),
            |i: int|
                if 0 <= i < b.stmts@.len() {
                    stmt_view(b.stmts@[i])
                } else {
                    StmtView::Return(None)
                },
        ),
        tail: match b.tail {
            None => None,
            Some(t) => Some(Box::new(expr_view(*t))),
        },
    }
}

pub open spec fn stmt_view(s: Stmt) -> StmtView
    decreases s,
{
    match s {
        Stmt::Let { name, mutable, ty, value } => StmtView::Let {
            name: name@,
            mutable,
            ty,
            value: expr_view(value),
        },
        Stmt::Return(None) => StmtView::Return(None),
        Stmt::Return(Some(e)) => StmtView::Return(Some(expr_view(e))),
        Stmt::While { cond, body } => StmtView::While {
            cond: expr_view(cond),
            body: block_view(body),
        },
        Stmt::Expr(e) => StmtView::Expr(expr_view(e)),
    }
}

pub open spec fn else_view(b: ElseBranch) -> ElseView
    decreases b,
{
    match b {
        ElseBranch::Block(bl) => ElseView::Block(block_view(bl)),
        ElseBranch::If(e) => ElseView::If(Box::new(expr_view(*e))),
    }
}

pub open spec fn param_view(p: Param) -> ParamView {
    ParamView { name: p.name@, ty: p.ty }
}

pub open spec fn function_view(f: FunctionDecl) -> FunctionView {
    FunctionView {
        name: f.name@,
        params: f.params@.map_values(|p: Param| param_view(p)),
        return_type: f.return_type,
        body: block_view(f.body),
    }
}

pub open spec fn program_view(p: Program) -> Seq<FunctionView> {
    p.items@.map_values(|it: Item| match it {
        Item::Function(f) => function_view(f),
    })
}

// ---------------------------------------------------------------------
// Copies
// ---------------------------------------------------------------------

// `Clone` cannot be derived for these mutually recursive types, so each
// `clone` goes through a copy function that recurses on the tree itself.

fn copy_expr(e: &Expr) -> (r: Expr)
    ensures
        expr_view(r) == expr_view(*e),
    decreases e,
{
    match e {
        Expr::IntLit(n) => Expr::IntLit(*n),
        Expr::BoolLit(b) => Expr::BoolLit(*b),
        Expr::Ident(s) => Expr::Ident(s.clone()),
        Expr::Unary { op, expr } => Expr::Unary { op: *op, expr: Box::new(copy_expr(expr)) },
        Expr::Binary { op, lhs, rhs } => Expr::Binary {
            op: *op,
            lhs: Box::new(copy_expr(lhs)),
            rhs: Box::new(copy_expr(rhs)),
        },
        Expr::Assign { name, value } => Expr::Assign {
            name: name.clone(),
            value: Box::new(copy_expr(value)),
        },
        Expr::Call { callee, args } => {
            let copied = copy_exprs(args);
            let r = Expr::Call { callee: callee.clone(), args: copied };
            proof {
                assert(expr_view(r)->Call_args =~= expr_view(*e)->Call_args);
            }
            r
        },
        Expr::If { cond, then_branch, else_branch } => Expr::If {
            cond: Box::new(copy_expr(cond)),
            then_branch: copy_block(then_branch),
            else_branch: match else_branch {
                None => None,
                Some(b) => Some(Box::new(copy_else(b))),
            },
        },
        Expr::Block(b) => Expr::Block(copy_block(b)),
    }
}

fn copy_exprs(v: &Vec<Expr>) -> (r: Vec<Expr>)
    ensures
        r@.len() == v@.len(),
        forall|i: int| 0 <= i < v@.len() ==> expr_view(#[trigger] r@[i]) == expr_view(v@[i]),
    decreases v,
{
    let mut r: Vec<Expr> = Vec::new();
    let mut i: usize = 0;
    while i < v.len()
        invariant
            i <= v@.len(),
            r@.len() == i,
            forall|k: int| 0 <= k < i ==> expr_view(#[trigger] r@[k]) == expr_view(v@[k]),
        decreases v@.len() - i,
    {
        proof {
            assert(decreases_to!(v => v@));
            assert(decreases_to!(v@ => v@[i as int]));
        }
        r.push(copy_expr(&v[i]));
        i = i + 1;
    }
    r
}

fn copy_block(b: &Block) -> (r: Block)
    ensures
        block_view(r) == block_view(*b),
    decreases b,
{
    let mut stmts: Vec<Stmt> = Vec::new();
    let mut i: usize = 0;
    while i < b.stmts.len()
        invariant
            i <= b.stmts@.len(),
            stmts@.len() == i,
            forall|k: int| 0 <= k < i ==> stmt_view(#[trigger] stmts@[k]) == stmt_view(b.stmts@[k]),
        decreases b.stmts@.len() - i,
    {
        stmts.push(copy_stmt(&b.stmts[i]));
        i = i + 1;
    }
    let tail = match &b.tail {
        None => None,
        Some(t) => Some(Box::new(copy_expr(t))),
    };
    let r = Block { stmts, tail };
    proof {
        assert(block_view(r).stmts =~= block_view(*b).stmts);
    }
    r
}

fn copy_stmt(s: &Stmt) -> (r: Stmt)
    ensures
        stmt_view(r) == stmt_view(*s),
    decreases s,
{
    match s {
        Stmt::Let { name, mutable, ty, value } => Stmt::Let {
            name: name.clone(),
            mutable: *mutable,
            ty: *ty,
            value: copy_expr(value),
        },
        Stmt::Return(None) => Stmt::Return(None),
        Stmt::Return(Some(e)) => Stmt::Return(Some(copy_expr(e))),
        Stmt::While { cond, body } => Stmt::While { cond: copy_expr(cond), body: copy_block(body) },
        Stmt::Expr(e) => Stmt::Expr(copy_expr(e)),
    }
}

fn copy_else(b: &ElseBranch) -> (r: ElseBranch)
    ensures
        else_view(r) == else_view(*b),
    decreases b,
{
    match b {
        ElseBranch::Block(bl) => ElseBranch::Block(copy_block(bl)),
        ElseBranch::If(e) => ElseBranch::If(Box::new(copy_expr(e))),
    }
}

fn copy_function(f: &FunctionDecl) -> (r: FunctionDecl)
    ensures
        function_view(r) == function_view(*f),
{
    let mut params: Vec<Param> = Vec::new();
    let mut i: usize = 0;
    while i < f.params.len()
        invariant
            i <= f.params@.len(),
            params@.len() == i,
            forall|k: int| 0 <= k < i ==> param_view(#[trigger] params@[k]) == param_view(f.params@[k]),
        decreases f.params@.len() - i,
    {
        params.push(f.params[i].clone());
        i = i + 1;
    }
    let r = FunctionDecl {
        name: f.name.clone(),
        params,
        return_type: f.return_type,
        body: copy_block(&f.body),
    };
    proof {
        assert(function_view(r).params =~= function_view(*f).params);
    }
    r
}

impl Clone for Param {
    fn clone(&self) -> (r: Self)
        ensures
            param_view(r) == param_view(*self),
    {
        Param { name: self.name.clone(), ty: self.ty }
    }
}

impl Clone for Expr {
    fn clone(&self) -> (r: Self)
        ensures
            expr_view(r) == expr_view(*self),
    {
        copy_expr(self)
    }
}

impl Clone for Block {
    fn clone(&self) -> (r: Self)
        ensures
            block_view(r) == block_view(*self),
    {
        copy_block(self)
    }
}

impl Clone for Stmt {
    fn clone(&self) -> (r: Self)
        ensures
            stmt_view(r) == stmt_view(*self),
    {
        copy_stmt(self)
    }
}

impl Clone for ElseBranch {
    fn clone(&self) -> (r: Self)
        ensures
            else_view(r) == else_view(*self),
    {
        copy_else(self)
    }
}

impl Clone for FunctionDecl {
    fn clone(&self) -> (r: Self)
        ensures
            function_view(r) == function_view(*self),
    {
        copy_function(self)
    }
}

impl Clone for Item {
    fn clone(&self) -> (r: Self)
        ensures
            match (r, *self) {
                (Item::Function(a), Item::Function(b)) => function_view(a) == function_view(b),
            },
    {
        match self {
            Item::Function(f) => Item::Function(copy_function(f)),
        }
    }
}

impl Clone for Program {
    fn clone(&self) -> (r: Self)
        ensures
            program_view(r) == program_view(*self),
    {
        let mut items: Vec<Item> = Vec::new();
        let mut i: usize = 0;
        while i < self.items.len()
            invariant
                i <= self.items@.len(),
                items@.len() == i,
                forall|k: int|
                    0 <= k < i ==> match (#[trigger] items@[k], self.items@[k]) {
                        (Item::Function(a), Item::Function(b)) => function_view(a) == function_view(b),
                    },
            decreases self.items@.len() - i,
        {
            let item = match &self.items[i] {
                Item::Function(f) => Item::Function(copy_function(f)),
            };
            items.push(item);
            i = i + 1;
        }
        let r = Program { items };
        proof {
            assert(program_view(r) =~= program_view(*self));
        }
        r
    }
}

} // verus!
