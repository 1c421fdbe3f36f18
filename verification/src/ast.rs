//! The syntax tree of a program.
use vstd::prelude::*;

verus! {

/// A binary operator.
#[derive(Clone, Copy, Debug, PartialEq, Eq, Structural)]
pub enum BinOp {
    Add,
    Sub,
    Mul,
    Div,
    Eq,
    NotEq,
    Gte,
    Lte,
    Gt,
    Lt,
}

/// An expression.  A floating-point literal keeps the text it was written
/// with.
#[derive(Debug)]
pub enum Expr {
    Int(i64),
    Float(String),
    Str(String),
    Var(String),
    BinOp(Box<Expr>, BinOp, Box<Expr>),
    If(Box<Expr>, Box<Expr>, Box<Expr>),
    Call(String, Vec<Expr>),
    Match(Box<Expr>, Vec<MatchArm>),
    Block(Vec<Stmt>, Box<Expr>),
}

/// One arm of a `match`: a pattern (or `_`) and its body.
#[derive(Debug)]
pub struct MatchArm {
    pub pattern: Expr,
    pub body: Expr,
    pub is_wildcard: bool,
}

/// A statement.
#[derive(Debug)]
pub enum Stmt {
    Let { name: String, value: Expr },
    Print(Expr),
    Ingest(String),
    Expr(Expr),
}

/// A top-level declaration.
#[derive(Debug)]
pub enum Decl {
    Generator { name: String, ty: String, init: Option<Expr> },
    Constraint { name: String, params: Vec<(String, String)>, condition: Expr },
    Event {
        name: String,
        params: Vec<(String, String)>,
        ret_type: Option<String>,
        requirements: Vec<Expr>,
        body: Expr,
    },
    Concept { name: String, tokens: Vec<String> },
    Import(String),
}

/// A whole program: its declarations and its statements, each in order.
#[derive(Debug)]
pub struct Program {
    pub decls: Vec<Decl>,
    pub stmts: Vec<Stmt>,
}

/// The value of an expression.
pub enum ExprView {
    Int(i64),
    Float(Seq<char>),
    Str(Seq<char>),
    Var(Seq<char>),
    BinOp(Box<ExprView>, BinOp, Box<ExprView>),
    If(Box<ExprView>, Box<ExprView>, Box<ExprView>),
    Call(Seq<char>, Seq<ExprView>),
    Match(Box<ExprView>, Seq<ArmView>),
    Block(Seq<StmtView>, Box<ExprView>),
}

/// The value of a match arm.
pub struct ArmView {
    pub pattern: ExprView,
    pub body: ExprView,
    pub is_wildcard: bool,
}

/// The value of a statement.
pub enum StmtView {
    Let { name: Seq<char>, value: ExprView },
    Print(ExprView),
    Ingest(Seq<char>),
    Expr(ExprView),
}

/// The value of a declaration.
pub enum DeclView {
    Generator { name: Seq<char>, ty: Seq<char>, init: Option<ExprView> },
    Constraint { name: Seq<char>, params: Seq<(Seq<char>, Seq<char>)>, condition: ExprView },
    Event {
        name: Seq<char>,
        params: Seq<(Seq<char>, Seq<char>)>,
        ret_type: Option<Seq<char>>,
        requirements: Seq<ExprView>,
        body: ExprView,
    },
    Concept { name: Seq<char>, tokens: Seq<Seq<char>> },
    Import(Seq<char>),
}

/// The value of a program.
pub struct ProgramView {
    pub decls: Seq<DeclView>,
    pub stmts: Seq<StmtView>,
}

pub open spec fn expr_view(e: Expr) -> ExprView
    decreases e,
{
    match e {
        Expr::Int(n) => ExprView::Int(n),
        Expr::Float(s) => ExprView::Float(s@),
        Expr::Str(s) => ExprView::Str(s@),
        Expr::Var(s) => ExprView::Var(s@),
        Expr::BinOp(l, op, r) => ExprView::BinOp(
            Box::new(expr_view(*l)),
            op,
            Box::new(expr_view(*r)),
        ),
        Expr::If(c, t, f) => ExprView::If(
            Box::new(expr_view(*c)),
            Box::new(expr_view(*t)),
            Box::new(expr_view(*f)),
        ),
        Expr::Call(name, args) => ExprView::Call(
            name@,
            Seq::new(
                args@.len(),
                |i: int|
                    if 0 <= i < args@.len() {
                        expr_view(args@[i])
                    } else {
                        ExprView::Int(0)
                    },
            ),
        ),
        Expr::Match(s, arms) => ExprView::Match(
            Box::new(expr_view(*s)),
            Seq::new(
                arms@.len(),
                |i: int|
                    if 0 <= i < arms@.len() {
                        arm_view(arms@[i])
                    } else {
                        ArmView { pattern: ExprView::Int(0), body: ExprView::Int(0), is_wildcard: false }
                    },
            ),
        ),
        Expr::Block(stmts, last) => ExprView::Block(
            Seq::new(
                stmts@.len(),
                |i: int|
                    if 0 <= i < stmts@.len() {
                        stmt_view(stmts@[i])
                    } else {
                        StmtView::Expr(ExprView::Int(0))
                    },
            ),
            Box::new(expr_view(*last)),
        ),
    }
}

pub open spec fn arm_view(a: MatchArm) -> ArmView
    decreases a,
{
    ArmView { pattern: expr_view(a.pattern), body: expr_view(a.body), is_wildcard: a.is_wildcard }
}

pub open spec fn stmt_view(s: Stmt) -> StmtView
    decreases s,
{
    match s {
        Stmt::Let { name, value } => StmtView::Let { name: name@, value: expr_view(value) },
        Stmt::Print(e) => StmtView::Print(expr_view(e)),
        Stmt::Ingest(t) => StmtView::Ingest(t@),
        Stmt::Expr(e) => StmtView::Expr(expr_view(e)),
    }
}

impl DeepView for Expr {
    type V = ExprView;

    open spec fn deep_view(&self) -> ExprView {
        expr_view(*self)
    }
}

impl DeepView for MatchArm {
    type V = ArmView;

    open spec fn deep_view(&self) -> ArmView {
        arm_view(*self)
    }
}

impl DeepView for Stmt {
    type V = StmtView;

    open spec fn deep_view(&self) -> StmtView {
        stmt_view(*self)
    }
}

impl DeepView for Decl {
    type V = DeclView;

    open spec fn deep_view(&self) -> DeclView {
        match self {
            Decl::Generator { name, ty, init } => DeclView::Generator {
                name: name@,
                ty: ty@,
                init: init.deep_view(),
            },
            Decl::Constraint { name, params, condition } => DeclView::Constraint {
                name: name@,
                params: params.deep_view(),
                condition: condition.deep_view(),
            },
            Decl::Event { name, params, ret_type, requirements, body } => DeclView::Event {
                name: name@,
                params: params.deep_view(),
                ret_type: ret_type.deep_view(),
                requirements: requirements.deep_view(),
                body: body.deep_view(),
            },
            Decl::Concept { name, tokens } => DeclView::Concept {
                name: name@,
                tokens: tokens.deep_view(),
            },
            Decl::Import(p) => DeclView::Import(p@),
        }
    }
}

impl DeepView for Program {
    type V = ProgramView;

    open spec fn deep_view(&self) -> ProgramView {
        ProgramView { decls: self.decls.deep_view(), stmts: self.stmts.deep_view() }
    }
}

impl Expr {
    /// A deep copy of the expression.
    #[verifier::loop_isolation(false)]
    pub fn duplicate(&self) -> (r: Expr)
        ensures
            r.deep_view() == self.deep_view(),
        decreases self,
    {
        match self {
            Expr::Int(n) => Expr::Int(*n),
            Expr::Float(s) => Expr::Float(s.clone()),
            Expr::Str(s) => Expr::Str(s.clone()),
            Expr::Var(s) => Expr::Var(s.clone()),
            Expr::BinOp(l, op, r) => Expr::BinOp(
                Box::new((**l).duplicate()),
                *op,
                Box::new((**r).duplicate()),
            ),
            Expr::If(c, t, f) => Expr::If(
                Box::new((**c).duplicate()),
                Box::new((**t).duplicate()),
                Box::new((**f).duplicate()),
            ),
            Expr::Call(name, args) => {
                let mut v: Vec<Expr> = Vec::new();
                let mut i: usize = 0;
                while i < args.len()
                    invariant
                        i <= args@.len(),
                        v@.len() == i,
                        forall|k: int| 0 <= k < i ==> (#[trigger] v@[k]).deep_view() == args@[k].deep_view(),
                    decreases args.len() - i,
                {
                    proof {
                        assert(decreases_to!(*self => *args));
                        assert(decreases_to!(*args => args@));
                        assert(decreases_to!(args@ => args@[i as int]));
                    }
                    v.push(args[i].duplicate());
                    i += 1;
                }
                let n2 = name.clone();
                let ghost gn = n2;
                let ghost gv = v;
                let r = Expr::Call(n2, v);
                proof {
                    lemma_call_view(gn, gv);
                    assert(gv.deep_view() =~= args.deep_view());
                    lemma_call_view(*name, *args);
                }
                r
            },
            Expr::Match(sc, arms) => {
                let mut v: Vec<MatchArm> = Vec::new();
                let mut i: usize = 0;
                while i < arms.len()
                    invariant
                        i <= arms@.len(),
                        v@.len() == i,
                        forall|k: int| 0 <= k < i ==> (#[trigger] v@[k]).deep_view() == arms@[k].deep_view(),
                    decreases arms.len() - i,
                {
                    proof {
                        assert(decreases_to!(*self => *arms));
                        assert(decreases_to!(*arms => arms@));
                        assert(decreases_to!(arms@ => arms@[i as int]));
                    }
                    assert(decreases_to!(arms@[i as int] => arms@[i as int].pattern));
                    let a = &arms[i];
                    v.push(MatchArm { pattern: a.pattern.duplicate(), body: a.body.duplicate(), is_wildcard: a.is_wildcard });
                    i += 1;
                }
                let s2 = (**sc).duplicate();
                let ghost gs = s2;
                let ghost gv = v;
                let r = Expr::Match(Box::new(s2), v);
                proof {
                    lemma_match_view(gs, gv);
                    assert(gv.deep_view() =~= arms.deep_view());
                    lemma_match_view(**sc, *arms);
                }
                r
            },
            Expr::Block(stmts, last) => {
                let mut v: Vec<Stmt> = Vec::new();
                let mut i: usize = 0;
                while i < stmts.len()
                    invariant
                        i <= stmts@.len(),
                        v@.len() == i,
                        forall|k: int| 0 <= k < i ==> (#[trigger] v@[k]).deep_view() == stmts@[k].deep_view(),
                    decreases stmts.len() - i,
                {
                    proof {
                        assert(decreases_to!(*self => *stmts));
                        assert(decreases_to!(*stmts => stmts@));
                        assert(decreases_to!(stmts@ => stmts@[i as int]));
                    }
                    v.push(stmts[i].duplicate());
                    i += 1;
                }
                let l2 = (**last).duplicate();
                let ghost gl = l2;
                let ghost gv = v;
                let r = Expr::Block(v, Box::new(l2));
                proof {
                    lemma_block_view(gv, gl);
                    assert(gv.deep_view() =~= stmts.deep_view());
                    lemma_block_view(*stmts, **last);
                }
                r
            },
        }
    }
}

impl Stmt {
    /// A deep copy of the statement.
    pub fn duplicate(&self) -> (r: Stmt)
        ensures
            r.deep_view() == self.deep_view(),
        decreases self,
    {
        match self {
            Stmt::Let { name, value } => Stmt::Let { name: name.clone(), value: value.duplicate() },
            Stmt::Print(e) => Stmt::Print(e.duplicate()),
            Stmt::Ingest(t) => Stmt::Ingest(t.clone()),
            Stmt::Expr(e) => Stmt::Expr(e.duplicate()),
        }
    }
}

impl Clone for Expr {
    fn clone(&self) -> Self {
        self.duplicate()
    }
}

impl Clone for Stmt {
    fn clone(&self) -> Self {
        self.duplicate()
    }
}

/// Deep copies of expressions.
fn duplicate_exprs(v: &Vec<Expr>) -> (r: Vec<Expr>)
    ensures
        r.deep_view() == v.deep_view(),
{
    let mut r: Vec<Expr> = Vec::new();
    let mut i: usize = 0;
    while i < v.len()
        invariant
            i <= v@.len(),
            r@.len() == i,
            forall|k: int| 0 <= k < i ==> (#[trigger] r@[k]).deep_view() == v@[k].deep_view(),
        decreases v.len() - i,
    {
        r.push(v[i].duplicate());
        i += 1;
    }
    assert(r.deep_view() =~= v.deep_view());
    r
}

/// Copies of strings.
fn duplicate_strings(v: &Vec<String>) -> (r: Vec<String>)
    ensures
        r.deep_view() == v.deep_view(),
{
    let mut r: Vec<String> = Vec::new();
    let mut i: usize = 0;
    while i < v.len()
        invariant
            i <= v@.len(),
            r@.len() == i,
            forall|k: int| 0 <= k < i ==> (#[trigger] r@[k])@ == v@[k]@,
        decreases v.len() - i,
    {
        r.push(v[i].clone());
        i += 1;
    }
    assert(r.deep_view() =~= v.deep_view());
    r
}

/// Copies of parameter lists (name and type).
fn duplicate_params(v: &Vec<(String, String)>) -> (r: Vec<(String, String)>)
    ensures
        r.deep_view() == v.deep_view(),
{
    let mut r: Vec<(String, String)> = Vec::new();
    let mut i: usize = 0;
    while i < v.len()
        invariant
            i <= v@.len(),
            r@.len() == i,
            forall|k: int| 0 <= k < i ==> (#[trigger] r@[k]).deep_view() == v@[k].deep_view(),
        decreases v.len() - i,
    {
        let (a, b) = &v[i];
        r.push((a.clone(), b.clone()));
        i += 1;
    }
    assert(r.deep_view() =~= v.deep_view());
    r
}

impl MatchArm {
    /// A deep copy of the arm.
    pub fn duplicate(&self) -> (r: MatchArm)
        ensures
            r.deep_view() == self.deep_view(),
    {
        MatchArm { pattern: self.pattern.duplicate(), body: self.body.duplicate(), is_wildcard: self.is_wildcard }
    }
}

impl Decl {
    /// A deep copy of the declaration.
    pub fn duplicate(&self) -> (r: Decl)
        ensures
            r.deep_view() == self.deep_view(),
    {
        match self {
            Decl::Generator { name, ty, init } => Decl::Generator {
                name: name.clone(),
                ty: ty.clone(),
                init: match init {
                    Some(e) => Some(e.duplicate()),
                    None => None,
                },
            },
            Decl::Constraint { name, params, condition } => Decl::Constraint {
                name: name.clone(),
                params: duplicate_params(params),
                condition: condition.duplicate(),
            },
            Decl::Event { name, params, ret_type, requirements, body } => Decl::Event {
                name: name.clone(),
                params: duplicate_params(params),
                ret_type: match ret_type {
                    Some(t) => Some(t.clone()),
                    None => None,
                },
                requirements: duplicate_exprs(requirements),
                body: body.duplicate(),
            },
            Decl::Concept { name, tokens } => Decl::Concept { name: name.clone(), tokens: duplicate_strings(tokens) },
            Decl::Import(p) => Decl::Import(p.clone()),
        }
    }
}

impl Program {
    /// A deep copy of the program.
    pub fn duplicate(&self) -> (r: Program)
        ensures
            r.deep_view() == self.deep_view(),
    {
        let mut decls: Vec<Decl> = Vec::new();
        let mut i: usize = 0;
        while i < self.decls.len()
            invariant
                i <= self.decls@.len(),
                decls@.len() == i,
                forall|k: int| 0 <= k < i ==> (#[trigger] decls@[k]).deep_view() == self.decls@[k].deep_view(),
            decreases self.decls.len() - i,
        {
            decls.push(self.decls[i].duplicate());
            i += 1;
        }
        let mut stmts: Vec<Stmt> = Vec::new();
        let mut j: usize = 0;
        while j < self.stmts.len()
            invariant
                j <= self.stmts@.len(),
                stmts@.len() == j,
                forall|k: int| 0 <= k < j ==> (#[trigger] stmts@[k]).deep_view() == self.stmts@[k].deep_view(),
            decreases self.stmts.len() - j,
        {
            stmts.push(self.stmts[j].duplicate());
            j += 1;
        }
        assert(decls.deep_view() =~= self.decls.deep_view());
        assert(stmts.deep_view() =~= self.stmts.deep_view());
        Program { decls, stmts }
    }
}

impl Clone for MatchArm {
    fn clone(&self) -> Self {
        self.duplicate()
    }
}

impl Clone for Decl {
    fn clone(&self) -> Self {
        self.duplicate()
    }
}

impl Clone for Program {
    fn clone(&self) -> Self {
        self.duplicate()
    }
}

/// Pushing onto a vector pushes the element's value onto the vector's value.
pub proof fn lemma_push_deep_view<T: DeepView>(a: Vec<T>, b: Vec<T>, x: T)
    requires
        b@ == a@.push(x),
    ensures
        b.deep_view() == a.deep_view().push(x.deep_view()),
{
    assert(b.deep_view() =~= a.deep_view().push(x.deep_view()));
}

pub proof fn lemma_call_view(name: String, args: Vec<Expr>)
    ensures
        Expr::Call(name, args).deep_view() == ExprView::Call(name@, args.deep_view()),
{
    assert(expr_view(Expr::Call(name, args))->Call_1 =~= args.deep_view());
}

pub proof fn lemma_match_view(s: Expr, arms: Vec<MatchArm>)
    ensures
        Expr::Match(Box::new(s), arms).deep_view() == ExprView::Match(
            Box::new(s.deep_view()),
            arms.deep_view(),
        ),
{
    assert(expr_view(Expr::Match(Box::new(s), arms))->Match_1 =~= arms.deep_view());
}

pub proof fn lemma_block_view(stmts: Vec<Stmt>, last: Expr)
    ensures
        Expr::Block(stmts, Box::new(last)).deep_view() == ExprView::Block(
            stmts.deep_view(),
            Box::new(last.deep_view()),
        ),
{
    assert(expr_view(Expr::Block(stmts, Box::new(last)))->Block_0 =~= stmts.deep_view());
}

} // verus!
