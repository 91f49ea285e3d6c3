use vstd::prelude::*;

use crate::lexer::TokenType;

verus! {

/// An expression node; every construct of the language is an expression.
/// A number carries the IEEE-754 bits of its value, and a numeric
/// collection key additionally the decimal text it keys under.
pub enum Expr {
    Identifier(String),
    Number(u64),
    String(String),
    Call(Call),
    VarDecl(VarDecl),
    Assignment(Assignment),
    BinaryOp(BinaryOp),
    UnaryOp(UnaryOp),
    Block(Block),
    If(If),
    Collection(Collection),
    IndexAccess(IndexAccess),
    MethodCall(MethodCall),
    Import(Import),
    FieldAccess(FieldAccess),
}

pub struct Block {
    pub exprs: Vec<Expr>,
}

/// Loading of a named optional module.
pub struct Import {
    pub module: String,
}

pub struct If {
    pub cond: Box<Expr>,
    pub block: Block,
    pub else_block: Option<Block>,
}

pub struct Call {
    pub module: Option<String>,
    pub name: String,
    pub args: Vec<Expr>,
}

pub struct VarDecl {
    pub name: String,
    pub value: Box<Expr>,
}

pub struct Assignment {
    pub name: String,
    pub assignee: Box<Expr>,
}

pub struct UnaryOp {
    pub operand: Box<Expr>,
    pub op: TokenType,
}

pub struct BinaryOp {
    pub left: Box<Expr>,
    pub right: Box<Expr>,
    pub op: TokenType,
}

pub struct IndexAccess {
    pub object: Box<Expr>,
    pub index: Box<Expr>,
}

pub struct MethodCall {
    pub object: Box<Expr>,
    pub method: String,
    pub args: Vec<Expr>,
}

pub struct Collection {
    pub entries: Vec<CEntry>,
}

/// One entry of a collection literal: positional, string-keyed, or keyed by
/// a number (carried as its bits).
pub enum CEntry {
    Indexed(Expr),
    Keyed(String, Expr),
    NumKeyed(u64, Expr),
}

pub struct FieldAccess {
    pub object: Box<Expr>,
    pub field: String,
}

impl Collection {
    pub fn new(entries: Vec<CEntry>) -> (r: Collection)
        ensures
            r.entries == entries,
    {
        Collection { entries }
    }

    pub fn empty() -> (r: Collection)
        ensures
            r.entries@.len() == 0,
    {
        Collection { entries: Vec::new() }
    }
}

impl FieldAccess {
    pub fn new(object: Expr, field: String) -> (r: FieldAccess)
        ensures
            r.object == object,
            r.field == field,
    {
        FieldAccess { object: Box::new(object), field }
    }
}

impl Block {
    pub fn new(exprs: Vec<Expr>) -> (r: Block)
        ensures
            r.exprs == exprs,
    {
        Block { exprs }
    }
}

impl Import {
    pub fn new(module: String) -> (r: Import)
        ensures
            r.module == module,
    {
        Import { module }
    }
}

impl If {
    pub fn new(cond: Expr, block: Block, else_block: Option<Block>) -> (r: If)
        ensures
            r.cond == cond,
            r.block == block,
            r.else_block == else_block,
    {
        If { cond: Box::new(cond), block, else_block }
    }
}

impl UnaryOp {
    pub fn new(operand: Expr, op: TokenType) -> (r: UnaryOp)
        ensures
            r.operand == operand,
            r.op == op,
    {
        UnaryOp { operand: Box::new(operand), op }
    }
}

impl Call {
    pub fn new(name: String, args: Vec<Expr>) -> (r: Call)
        ensures
            r.module is None,
            r.name == name,
            r.args == args,
    {
        Call { module: None, name, args }
    }

    pub fn new_from_module(module: String, name: String, args: Vec<Expr>) -> (r: Call)
        ensures
            r.module == Some(module),
            r.name == name,
            r.args == args,
    {
        Call { module: Some(module), name, args }
    }

    /// The registry key the call resolves under: `module_name` when
    /// qualified, else the bare name.
    pub open spec fn spec_signature(&self) -> Seq<char> {
        match self.module {
            Some(m) => m@ + "_"@ + self.name@,
            None => self.name@,
        }
    }

    /// The registry key the call resolves under.
    pub fn signature(&self) -> (r: String)
        ensures
            r@ == self.spec_signature(),
    {
        match &self.module {
            Some(m) => m.clone().concat("_").concat(self.name.as_str()),
            None => self.name.clone(),
        }
    }
}

impl VarDecl {
    pub fn new(name: String, value: Expr) -> (r: VarDecl)
        ensures
            r.name == name,
            r.value == value,
    {
        VarDecl { name, value: Box::new(value) }
    }
}

impl Assignment {
    pub fn new(name: String, assignee: Expr) -> (r: Assignment)
        ensures
            r.name == name,
            r.assignee == assignee,
    {
        Assignment { name, assignee: Box::new(assignee) }
    }
}

impl BinaryOp {
    pub fn new(left: Expr, right: Expr, op: TokenType) -> (r: BinaryOp)
        ensures
            r.left == left,
            r.right == right,
            r.op == op,
    {
        BinaryOp { left: Box::new(left), right: Box::new(right), op }
    }
}

impl IndexAccess {
    pub fn new(object: Expr, index: Expr) -> (r: IndexAccess)
        ensures
            r.object == object,
            r.index == index,
    {
        IndexAccess { object: Box::new(object), index: Box::new(index) }
    }
}

impl MethodCall {
    pub fn new(object: Expr, method: String, args: Vec<Expr>) -> (r: MethodCall)
        ensures
            r.object == object,
            r.method == method,
            r.args == args,
    {
        MethodCall { object: Box::new(object), method, args }
    }
}

} // verus!

verus! {

/// Mathematical reading of an expression tree.
pub enum ExprS {
    Identifier(Seq<char>),
    Number(u64),
    String(Seq<char>),
    Call(Option<Seq<char>>, Seq<char>, Seq<ExprS>),
    VarDecl(Seq<char>, Box<ExprS>),
    Assignment(Seq<char>, Box<ExprS>),
    BinaryOp(Box<ExprS>, Box<ExprS>, TokenType),
    UnaryOp(Box<ExprS>, TokenType),
    Block(Seq<ExprS>),
    If(Box<ExprS>, Seq<ExprS>, Option<Seq<ExprS>>),
    Collection(Seq<CEntryS>),
    IndexAccess(Box<ExprS>, Box<ExprS>),
    MethodCall(Box<ExprS>, Seq<char>, Seq<ExprS>),
    Import(Seq<char>),
    FieldAccess(Box<ExprS>, Seq<char>),
}

/// Mathematical reading of one collection-literal entry.
pub enum CEntryS {
    Indexed(ExprS),
    Keyed(Seq<char>, ExprS),
    NumKeyed(u64, ExprS),
}

/// The views of a list of expressions.
pub open spec fn exprs_view(s: Seq<Expr>) -> Seq<ExprS>
    decreases s,
{
    if s.len() == 0 {
        Seq::empty()
    } else {
        exprs_view(s.drop_last()).push(s.last()@)
    }
}

/// The views of a list of collection entries.
pub open spec fn entries_view(s: Seq<CEntry>) -> Seq<CEntryS>
    decreases s,
{
    if s.len() == 0 {
        Seq::empty()
    } else {
        entries_view(s.drop_last()).push(s.last()@)
    }
}

impl View for Expr {
    type V = ExprS;

    open spec fn view(&self) -> ExprS
        decreases self,
    {
        match self {
            Expr::Identifier(n) => ExprS::Identifier(n@),
            Expr::Number(b) => ExprS::Number(*b),
            Expr::String(t) => ExprS::String(t@),
            Expr::Call(c) => ExprS::Call(
                match c.module {
                    Some(m) => Some(m@),
                    None => None,
                },
                c.name@,
                exprs_view(c.args@),
            ),
            Expr::VarDecl(d) => ExprS::VarDecl(d.name@, Box::new((*d.value)@)),
            Expr::Assignment(a) => ExprS::Assignment(a.name@, Box::new((*a.assignee)@)),
            Expr::BinaryOp(b) => ExprS::BinaryOp(Box::new((*b.left)@), Box::new((*b.right)@), b.op),
            Expr::UnaryOp(u) => ExprS::UnaryOp(Box::new((*u.operand)@), u.op),
            Expr::Block(b) => ExprS::Block(exprs_view(b.exprs@)),
            Expr::If(i) => ExprS::If(
                Box::new((*i.cond)@),
                exprs_view(i.block.exprs@),
                match i.else_block {
                    Some(eb) => Some(exprs_view(eb.exprs@)),
                    None => None,
                },
            ),
            Expr::Collection(c) => ExprS::Collection(entries_view(c.entries@)),
            Expr::IndexAccess(ia) => ExprS::IndexAccess(
                Box::new((*ia.object)@),
                Box::new((*ia.index)@),
            ),
            Expr::MethodCall(mc) => ExprS::MethodCall(
                Box::new((*mc.object)@),
                mc.method@,
                exprs_view(mc.args@),
            ),
            Expr::Import(im) => ExprS::Import(im.module@),
            Expr::FieldAccess(fa) => ExprS::FieldAccess(Box::new((*fa.object)@), fa.field@),
        }
    }
}

impl View for CEntry {
    type V = CEntryS;

    open spec fn view(&self) -> CEntryS
        decreases self,
    {
        match self {
            CEntry::Indexed(e) => CEntryS::Indexed(e@),
            CEntry::Keyed(k, e) => CEntryS::Keyed(k@, e@),
            CEntry::NumKeyed(b, e) => CEntryS::NumKeyed(*b, e@),
        }
    }
}

/// Element and length laws of the list views.
pub proof fn lemma_exprs_view(s: Seq<Expr>)
    ensures
        exprs_view(s).len() == s.len(),
        forall|i: int| 0 <= i < s.len() ==> exprs_view(s)[i] == s[i]@,
    decreases s,
{
    if s.len() > 0 {
        lemma_exprs_view(s.drop_last());
        assert(exprs_view(s) == exprs_view(s.drop_last()).push(s.last()@));
        assert(forall|i: int| 0 <= i < s.len() - 1 ==> s.drop_last()[i] == s[i]);
        assert(s[s.len() - 1] == s.last());
    }
}

pub proof fn lemma_entries_view(s: Seq<CEntry>)
    ensures
        entries_view(s).len() == s.len(),
        forall|i: int| 0 <= i < s.len() ==> entries_view(s)[i] == s[i]@,
    decreases s,
{
    if s.len() > 0 {
        lemma_entries_view(s.drop_last());
        assert(entries_view(s) == entries_view(s.drop_last()).push(s.last()@));
        assert(forall|i: int| 0 <= i < s.len() - 1 ==> s.drop_last()[i] == s[i]);
        assert(s[s.len() - 1] == s.last());
    }
}

} // verus!
