//! The expression language: abstract syntax, evaluation against a feature
//! set, the annotated error rendering, and the plain rendering.
//!
//! A feature literal evaluates to whether the feature is a member of the
//! feature set under test; an integer literal evaluates to itself. Boolean
//! operands coerce to 0/1 where an integer is needed; an integer where a
//! boolean is needed is a type error. Implication evaluates its right side
//! only when the left side is true. Arithmetic wraps on thirty-two-bit
//! overflow.

use crate::strutil::{dec_int, i32_to_string};
use crate::types::{names_of, Feature, FeatureList};
use vstd::prelude::*;
use vstd::string::StringExecFns;
use vstd::wrapping::i32_specs;

verus! {

/// A leaf of an expression: a feature-presence test or an integer constant.
pub enum Literal {
    Feature(Feature),
    Integer(i32),
}

/// The binary operators, from the rule grammar.
#[derive(Debug, Copy, Clone)]
pub enum InfixOp {
    Equal,
    Lower,
    Greater,
    LowEq,
    GreatEq,
    Add,
    Sub,
    Implies,
    Equiv,
    Or,
    Xor,
    And,
}

/// The unary operators: boolean not and integer negation.
#[derive(Debug, Copy, Clone)]
pub enum PrefixOp {
    Not,
    Neg,
}

/// An expression tree of one rule.
pub enum Expr {
    Literal(Literal),
    Infix { lhs: Box<Expr>, op: InfixOp, rhs: Box<Expr> },
    Prefix { op: PrefixOp, rhs: Box<Expr> },
}

/// The mathematical shape of an expression: the same tree with feature
/// names as character sequences. Contracts about parsing speak of this.
pub ghost enum SpecExpr {
    Feat(Seq<char>),
    IntLit(i32),
    Infix { lhs: Box<SpecExpr>, op: InfixOp, rhs: Box<SpecExpr> },
    Prefix { op: PrefixOp, rhs: Box<SpecExpr> },
}

/// The shape of an expression, with feature names as character sequences.
pub open spec fn expr_view(e: Expr) -> SpecExpr
    decreases e,
{
    match e {
        Expr::Literal(Literal::Feature(f)) => SpecExpr::Feat(f@),
        Expr::Literal(Literal::Integer(i)) => SpecExpr::IntLit(i),
        Expr::Infix { lhs, op, rhs } => SpecExpr::Infix {
            lhs: Box::new(expr_view(*lhs)),
            op,
            rhs: Box::new(expr_view(*rhs)),
        },
        Expr::Prefix { op, rhs } => SpecExpr::Prefix { op, rhs: Box::new(expr_view(*rhs)) },
    }
}

/// The value one evaluation step yields: a boolean or an integer.
#[derive(Copy, Clone, PartialEq, Eq, Structural, Debug)]
pub enum ExprResult {
    Bool(bool),
    Int(i32),
}

/// Coercion of a value to an integer: booleans count as 0 or 1.
pub open spec fn int32_of(v: ExprResult) -> i32 {
    match v {
        ExprResult::Bool(b) => if b {
            1
        } else {
            0
        },
        ExprResult::Int(i) => i,
    }
}

/// Conversion of a value to a boolean: integers do not convert.
pub open spec fn bool_of(v: ExprResult) -> Option<bool> {
    match v {
        ExprResult::Bool(b) => Some(b),
        ExprResult::Int(_) => None,
    }
}

/// What a binary operator yields on two already-evaluated operands;
/// `None` is a type error. For or/and/implication, a decisive left
/// operand makes the right operand's conversion irrelevant.
pub open spec fn infix_sem(op: InfixOp, l: ExprResult, r: ExprResult) -> Option<ExprResult> {
    match op {
        InfixOp::Equal => Some(ExprResult::Bool(int32_of(l) == int32_of(r))),
        InfixOp::Lower => Some(ExprResult::Bool(int32_of(l) < int32_of(r))),
        InfixOp::Greater => Some(ExprResult::Bool(int32_of(l) > int32_of(r))),
        InfixOp::LowEq => Some(ExprResult::Bool(int32_of(l) <= int32_of(r))),
        InfixOp::GreatEq => Some(ExprResult::Bool(int32_of(l) >= int32_of(r))),
        InfixOp::Add => Some(ExprResult::Int(i32_specs::wrapping_add(int32_of(l), int32_of(r)))),
        InfixOp::Sub => Some(ExprResult::Int(i32_specs::wrapping_sub(int32_of(l), int32_of(r)))),
        InfixOp::Implies => match bool_of(l) {
            Option::None => Option::None,
            Option::Some(lb) => if !lb {
                Some(ExprResult::Bool(true))
            } else {
                match bool_of(r) {
                    Option::None => Option::None,
                    Option::Some(rb) => Some(ExprResult::Bool(rb)),
                }
            },
        },
        InfixOp::Equiv => match (bool_of(l), bool_of(r)) {
            (Option::Some(lb), Option::Some(rb)) => Some(ExprResult::Bool(lb == rb)),
            _ => Option::None,
        },
        InfixOp::Or => match bool_of(l) {
            Option::None => Option::None,
            Option::Some(lb) => if lb {
                Some(ExprResult::Bool(true))
            } else {
                match bool_of(r) {
                    Option::None => Option::None,
                    Option::Some(rb) => Some(ExprResult::Bool(rb)),
                }
            },
        },
        InfixOp::Xor => match (bool_of(l), bool_of(r)) {
            (Option::Some(lb), Option::Some(rb)) => Some(ExprResult::Bool(lb ^ rb)),
            _ => Option::None,
        },
        InfixOp::And => match bool_of(l) {
            Option::None => Option::None,
            Option::Some(lb) => if !lb {
                Some(ExprResult::Bool(false))
            } else {
                match bool_of(r) {
                    Option::None => Option::None,
                    Option::Some(rb) => Some(ExprResult::Bool(rb)),
                }
            },
        },
    }
}

/// What a unary operator yields; `None` is a type error.
pub open spec fn prefix_sem(op: PrefixOp, r: ExprResult) -> Option<ExprResult> {
    match op {
        PrefixOp::Not => match bool_of(r) {
            Option::None => Option::None,
            Option::Some(b) => Some(ExprResult::Bool(!b)),
        },
        PrefixOp::Neg => Some(ExprResult::Int(i32_specs::wrapping_sub(0, int32_of(r)))),
    }
}

/// The value of an expression against a feature set; `None` is a type
/// error. The right side of an implication is not evaluated when the left
/// side is false, so a type error there does not surface.
pub open spec fn eval_spec(e: Expr, fs: Set<Seq<char>>) -> Option<ExprResult>
    decreases e,
{
    match e {
        Expr::Literal(Literal::Feature(f)) => Some(ExprResult::Bool(fs.contains(f@))),
        Expr::Literal(Literal::Integer(i)) => Some(ExprResult::Int(i)),
        Expr::Prefix { op, rhs } => match eval_spec(*rhs, fs) {
            Option::None => Option::None,
            Option::Some(rv) => prefix_sem(op, rv),
        },
        Expr::Infix { lhs, op, rhs } => match eval_spec(*lhs, fs) {
            Option::None => Option::None,
            Option::Some(lv) => match op {
                InfixOp::Implies => match bool_of(lv) {
                    Option::None => Option::None,
                    Option::Some(lb) => if !lb {
                        Some(ExprResult::Bool(true))
                    } else {
                        match eval_spec(*rhs, fs) {
                            Option::None => Option::None,
                            Option::Some(rv) => infix_sem(InfixOp::Implies, lv, rv),
                        }
                    },
                },
                _ => match eval_spec(*rhs, fs) {
                    Option::None => Option::None,
                    Option::Some(rv) => infix_sem(op, lv, rv),
                },
            },
        },
    }
}

/// The value of an expression shape against a feature set; the same
/// semantics as `eval_spec`, over `SpecExpr`.
pub open spec fn eval_spec_v(e: SpecExpr, fs: Set<Seq<char>>) -> Option<ExprResult>
    decreases e,
{
    match e {
        SpecExpr::Feat(name) => Some(ExprResult::Bool(fs.contains(name))),
        SpecExpr::IntLit(i) => Some(ExprResult::Int(i)),
        SpecExpr::Prefix { op, rhs } => match eval_spec_v(*rhs, fs) {
            Option::None => Option::None,
            Option::Some(rv) => prefix_sem(op, rv),
        },
        SpecExpr::Infix { lhs, op, rhs } => match eval_spec_v(*lhs, fs) {
            Option::None => Option::None,
            Option::Some(lv) => match op {
                InfixOp::Implies => match bool_of(lv) {
                    Option::None => Option::None,
                    Option::Some(lb) => if !lb {
                        Some(ExprResult::Bool(true))
                    } else {
                        match eval_spec_v(*rhs, fs) {
                            Option::None => Option::None,
                            Option::Some(rv) => infix_sem(InfixOp::Implies, lv, rv),
                        }
                    },
                },
                _ => match eval_spec_v(*rhs, fs) {
                    Option::None => Option::None,
                    Option::Some(rv) => infix_sem(op, lv, rv),
                },
            },
        },
    }
}

/// Evaluation depends only on the shape of an expression.
pub proof fn lemma_eval_view(e: Expr, fs: Set<Seq<char>>)
    ensures
        eval_spec(e, fs) == eval_spec_v(expr_view(e), fs),
    decreases e,
{
    match e {
        Expr::Literal(Literal::Feature(f)) => {},
        Expr::Literal(Literal::Integer(i)) => {},
        Expr::Prefix { op, rhs } => {
            lemma_eval_view(*rhs, fs);
        },
        Expr::Infix { lhs, op, rhs } => {
            lemma_eval_view(*lhs, fs);
            lemma_eval_view(*rhs, fs);
        },
    }
}

/// The message of a failed boolean conversion.
pub open spec fn conversion_error_chars() -> Seq<char> {
    "integer cannot be converted to bool"@
}

impl ExprResult {
    /// Coerces to an integer, counting booleans as 0 or 1.
    pub fn to_int(self) -> (r: i32)
        ensures
            r == int32_of(self),
    {
        match self {
            ExprResult::Bool(b) => if b {
                1
            } else {
                0
            },
            ExprResult::Int(i) => i,
        }
    }

    /// Converts to a boolean; an integer is a type error.
    pub fn to_bool(self) -> (r: Result<bool, String>)
        ensures
            match r {
                Result::Ok(b) => bool_of(self) == Some(b),
                Result::Err(m) => bool_of(self) is None && m@ == conversion_error_chars(),
            },
    {
        match self {
            ExprResult::Bool(b) => Ok(b),
            ExprResult::Int(_) => Err("integer cannot be converted to bool".to_owned()),
        }
    }
}

impl InfixOp {
    /// Applies the operator to two already-evaluated operands.
    pub fn evaluate(&self, lhsr: ExprResult, rhsr: ExprResult) -> (r: Result<ExprResult, String>)
        ensures
            match r {
                Result::Ok(v) => infix_sem(*self, lhsr, rhsr) == Some(v),
                Result::Err(m) => infix_sem(*self, lhsr, rhsr) is None && m@
                    == conversion_error_chars(),
            },
    {
        match self {
            InfixOp::Equal => Ok(ExprResult::Bool(lhsr.to_int() == rhsr.to_int())),
            InfixOp::Lower => Ok(ExprResult::Bool(lhsr.to_int() < rhsr.to_int())),
            InfixOp::Greater => Ok(ExprResult::Bool(lhsr.to_int() > rhsr.to_int())),
            InfixOp::LowEq => Ok(ExprResult::Bool(lhsr.to_int() <= rhsr.to_int())),
            InfixOp::GreatEq => Ok(ExprResult::Bool(lhsr.to_int() >= rhsr.to_int())),
            InfixOp::Add => Ok(ExprResult::Int(lhsr.to_int().wrapping_add(rhsr.to_int()))),
            InfixOp::Sub => Ok(ExprResult::Int(lhsr.to_int().wrapping_sub(rhsr.to_int()))),
            InfixOp::Implies => match lhsr.to_bool() {
                Result::Err(e) => Err(e),
                Result::Ok(false) => Ok(ExprResult::Bool(true)),
                Result::Ok(true) => match rhsr.to_bool() {
                    Result::Err(e) => Err(e),
                    Result::Ok(rb) => Ok(ExprResult::Bool(rb)),
                },
            },
            InfixOp::Equiv => match lhsr.to_bool() {
                Result::Err(e) => Err(e),
                Result::Ok(lb) => match rhsr.to_bool() {
                    Result::Err(e) => Err(e),
                    Result::Ok(rb) => Ok(ExprResult::Bool(lb == rb)),
                },
            },
            InfixOp::Or => match lhsr.to_bool() {
                Result::Err(e) => Err(e),
                Result::Ok(true) => Ok(ExprResult::Bool(true)),
                Result::Ok(false) => match rhsr.to_bool() {
                    Result::Err(e) => Err(e),
                    Result::Ok(rb) => Ok(ExprResult::Bool(rb)),
                },
            },
            InfixOp::Xor => match lhsr.to_bool() {
                Result::Err(e) => Err(e),
                Result::Ok(lb) => match rhsr.to_bool() {
                    Result::Err(e) => Err(e),
                    Result::Ok(rb) => Ok(ExprResult::Bool(lb ^ rb)),
                },
            },
            InfixOp::And => match lhsr.to_bool() {
                Result::Err(e) => Err(e),
                Result::Ok(false) => Ok(ExprResult::Bool(false)),
                Result::Ok(true) => match rhsr.to_bool() {
                    Result::Err(e) => Err(e),
                    Result::Ok(rb) => Ok(ExprResult::Bool(rb)),
                },
            },
        }
    }
}

impl PrefixOp {
    /// Applies the operator to an already-evaluated operand.
    pub fn evaluate(&self, rhsr: ExprResult) -> (r: Result<ExprResult, String>)
        ensures
            match r {
                Result::Ok(v) => prefix_sem(*self, rhsr) == Some(v),
                Result::Err(m) => prefix_sem(*self, rhsr) is None && m@
                    == conversion_error_chars(),
            },
    {
        match self {
            PrefixOp::Not => match rhsr.to_bool() {
                Result::Err(e) => Err(e),
                Result::Ok(b) => Ok(ExprResult::Bool(!b)),
            },
            PrefixOp::Neg => Ok(ExprResult::Int(0i32.wrapping_sub(rhsr.to_int()))),
        }
    }
}

/// The plain rendering of a leaf.
pub open spec fn lit_chars(l: Literal) -> Seq<char> {
    match l {
        Literal::Feature(f) => f@,
        Literal::Integer(i) => dec_int(i as int),
    }
}

/// The symbol of a binary operator.
pub open spec fn infix_op_chars(op: InfixOp) -> Seq<char> {
    match op {
        InfixOp::Equal => "=="@,
        InfixOp::Lower => "<"@,
        InfixOp::Greater => ">"@,
        InfixOp::LowEq => "<="@,
        InfixOp::GreatEq => ">="@,
        InfixOp::Add => "+"@,
        InfixOp::Sub => "-"@,
        InfixOp::Implies => "=>"@,
        InfixOp::Equiv => "<=>"@,
        InfixOp::Or => "|"@,
        InfixOp::Xor => "^"@,
        InfixOp::And => "&"@,
    }
}

/// The symbol of a unary operator.
pub open spec fn prefix_op_chars(op: PrefixOp) -> Seq<char> {
    match op {
        PrefixOp::Not => "!"@,
        PrefixOp::Neg => "-"@,
    }
}

/// The plain rendering of an expression: subexpressions under a binary
/// operator are parenthesized when they are binary themselves.
pub open spec fn render_chars(e: Expr) -> Seq<char>
    decreases e, 0nat,
{
    match e {
        Expr::Literal(l) => lit_chars(l),
        Expr::Infix { lhs, op, rhs } => inside_chars(*lhs) + " "@ + infix_op_chars(op) + " "@
            + inside_chars(*rhs),
        Expr::Prefix { op, rhs } => prefix_op_chars(op) + inside_chars(*rhs),
    }
}

/// The rendering of a subexpression: parenthesized if binary.
pub open spec fn inside_chars(e: Expr) -> Seq<char>
    decreases e, 1nat,
{
    match e {
        Expr::Infix { .. } => "("@ + render_chars(e) + ")"@,
        _ => render_chars(e),
    }
}

/// The rendering of an evaluation outcome inside an annotation: a boolean,
/// an integer, or `ERR` for a subtree that errored or was not evaluated.
pub open spec fn val_chars(v: Option<ExprResult>) -> Seq<char> {
    match v {
        Option::None => "ERR"@,
        Option::Some(ExprResult::Bool(b)) => if b {
            "true"@
        } else {
            "false"@
        },
        Option::Some(ExprResult::Int(i)) => dec_int(i as int),
    }
}

/// The fully parenthesized rendering with every node's value inlined, used
/// to point at the subtree of a type error.
pub open spec fn annot_chars(e: Expr, fs: Set<Seq<char>>) -> Seq<char>
    decreases e,
{
    match e {
        Expr::Literal(l) => lit_chars(l) + ": "@ + val_chars(eval_spec(e, fs)),
        Expr::Infix { lhs, op, rhs } => "("@ + annot_chars(*lhs, fs) + ") "@ + infix_op_chars(op)
            + " ("@ + annot_chars(*rhs, fs) + "): "@ + val_chars(eval_spec(e, fs)),
        Expr::Prefix { op, rhs } => prefix_op_chars(op) + "("@ + annot_chars(*rhs, fs) + "): "@
            + val_chars(eval_spec(e, fs)),
    }
}

impl InfixOp {
    /// The symbol of the operator.
    pub fn op_str(&self) -> (r: &'static str)
        ensures
            r@ == infix_op_chars(*self),
    {
        match self {
            InfixOp::Equal => "==",
            InfixOp::Lower => "<",
            InfixOp::Greater => ">",
            InfixOp::LowEq => "<=",
            InfixOp::GreatEq => ">=",
            InfixOp::Add => "+",
            InfixOp::Sub => "-",
            InfixOp::Implies => "=>",
            InfixOp::Equiv => "<=>",
            InfixOp::Or => "|",
            InfixOp::Xor => "^",
            InfixOp::And => "&",
        }
    }
}

impl PrefixOp {
    /// The symbol of the operator.
    pub fn op_str(&self) -> (r: &'static str)
        ensures
            r@ == prefix_op_chars(*self),
    {
        match self {
            PrefixOp::Not => "!",
            PrefixOp::Neg => "-",
        }
    }
}

impl Literal {
    /// The plain rendering of the leaf.
    pub fn render(&self) -> (r: String)
        ensures
            r@ == lit_chars(*self),
    {
        match self {
            Literal::Feature(f) => f.0.clone(),
            Literal::Integer(i) => i32_to_string(*i),
        }
    }
}

impl Expr {
    /// Parses a rule string; see the parser module for the grammar.
    pub fn new(expr: &str) -> (r: Result<Expr, String>)
        ensures
            match r {
                Result::Ok(e) => crate::rules::parser::sp_parse_str(expr@) == Some(expr_view(e)),
                Result::Err(_) => crate::rules::parser::sp_parse_str(expr@) is None,
            },
    {
        crate::rules::parser::parse_expr(expr)
    }

    /// A deep copy of the expression.
    pub fn clone_expr(&self) -> (r: Expr)
        ensures
            r == *self,
        decreases *self,
    {
        match self {
            Expr::Literal(Literal::Feature(f)) => Expr::Literal(Literal::Feature(f.clone())),
            Expr::Literal(Literal::Integer(i)) => Expr::Literal(Literal::Integer(*i)),
            Expr::Infix { lhs, op, rhs } => Expr::Infix {
                lhs: Box::new(lhs.clone_expr()),
                op: *op,
                rhs: Box::new(rhs.clone_expr()),
            },
            Expr::Prefix { op, rhs } => Expr::Prefix { op: *op, rhs: Box::new(rhs.clone_expr()) },
        }
    }

    /// Wraps two expressions under a binary operator.
    pub fn infix(self, op: InfixOp, rhs: Self) -> (r: Self)
        ensures
            r == (Expr::Infix { lhs: Box::new(self), op, rhs: Box::new(rhs) }),
    {
        Expr::Infix { lhs: Box::new(self), op, rhs: Box::new(rhs) }
    }

    /// Wraps an expression under a unary operator.
    pub fn prefix(self, op: PrefixOp) -> (r: Self)
        ensures
            r == (Expr::Prefix { op, rhs: Box::new(self) }),
    {
        Expr::Prefix { op, rhs: Box::new(self) }
    }

    /// Evaluates against the feature set; an `Err` is a type error.
    pub fn evaluate(&self, feature_set: &FeatureList) -> (r: Result<ExprResult, String>)
        ensures
            match r {
                Result::Ok(v) => eval_spec(*self, names_of(feature_set@)) == Some(v),
                Result::Err(m) => eval_spec(*self, names_of(feature_set@)) is None && m@
                    == conversion_error_chars(),
            },
        decreases *self,
    {
        match self {
            Expr::Literal(Literal::Feature(name)) => Ok(
                ExprResult::Bool(feature_set.contains(name)),
            ),
            Expr::Literal(Literal::Integer(value)) => Ok(ExprResult::Int(*value)),
            Expr::Infix { lhs, op, rhs } => {
                let lv = match lhs.evaluate(feature_set) {
                    Result::Ok(v) => v,
                    Result::Err(e) => {
                        return Err(e);
                    },
                };
                if matches!(op, InfixOp::Implies) {
                    match lv.to_bool() {
                        Result::Err(e) => Err(e),
                        Result::Ok(false) => Ok(ExprResult::Bool(true)),
                        Result::Ok(true) => {
                            let rv = match rhs.evaluate(feature_set) {
                                Result::Ok(v) => v,
                                Result::Err(e) => {
                                    return Err(e);
                                },
                            };
                            op.evaluate(lv, rv)
                        },
                    }
                } else {
                    let rv = match rhs.evaluate(feature_set) {
                        Result::Ok(v) => v,
                        Result::Err(e) => {
                            return Err(e);
                        },
                    };
                    op.evaluate(lv, rv)
                }
            },
            Expr::Prefix { op, rhs } => {
                let rv = match rhs.evaluate(feature_set) {
                    Result::Ok(v) => v,
                    Result::Err(e) => {
                        return Err(e);
                    },
                };
                op.evaluate(rv)
            },
        }
    }

    /// Evaluates to a boolean. An integer result or a type error is
    /// reported with the annotated rendering of the whole expression.
    pub fn eval(&self, feature_set: &FeatureList) -> (r: Result<bool, String>)
        ensures
            match r {
                Result::Ok(b) => eval_spec(*self, names_of(feature_set@)) == Some(
                    ExprResult::Bool(b),
                ),
                Result::Err(m) => match eval_spec(*self, names_of(feature_set@)) {
                    Option::Some(ExprResult::Bool(_)) => false,
                    Option::Some(ExprResult::Int(i)) => m@ == "provided rule returned integer "@
                        + dec_int(i as int) + " instead of a boolean: "@ + annot_chars(
                        *self,
                        names_of(feature_set@),
                    ),
                    Option::None => m@ == conversion_error_chars() + ": "@ + annot_chars(
                        *self,
                        names_of(feature_set@),
                    ),
                },
            },
    {
        match self.evaluate(feature_set) {
            Result::Ok(ExprResult::Bool(b)) => Ok(b),
            Result::Ok(ExprResult::Int(i)) => {
                let mut m = String::new();
                m.append("provided rule returned integer ");
                let digits = i32_to_string(i);
                m.append(digits.as_str());
                m.append(" instead of a boolean: ");
                let ann = self.value_annotation_str(feature_set);
                m.append(ann.as_str());
                assert(m@ =~= "provided rule returned integer "@ + dec_int(i as int)
                    + " instead of a boolean: "@ + annot_chars(*self, names_of(feature_set@)));
                Err(m)
            },
            Result::Err(msg) => {
                let mut m = msg;
                m.append(": ");
                let ann = self.value_annotation_str(feature_set);
                m.append(ann.as_str());
                assert(m@ =~= conversion_error_chars() + ": "@ + annot_chars(
                    *self,
                    names_of(feature_set@),
                ));
                Err(m)
            },
        }
    }

    /// The annotated rendering: fully parenthesized, with each node's value
    /// inlined after a colon, and `ERR` where no value was produced.
    pub fn value_annotation_str(&self, feature_set: &FeatureList) -> (r: String)
        ensures
            r@ == annot_chars(*self, names_of(feature_set@)),
        decreases *self,
    {
        let annotation = match self.evaluate(feature_set) {
            Result::Ok(v) => match v {
                ExprResult::Bool(true) => "true".to_owned(),
                ExprResult::Bool(false) => "false".to_owned(),
                ExprResult::Int(i) => i32_to_string(i),
            },
            Result::Err(_) => "ERR".to_owned(),
        };
        match self {
            Expr::Literal(l) => {
                let mut s = l.render();
                s.append(": ");
                s.append(annotation.as_str());
                assert(s@ =~= annot_chars(*self, names_of(feature_set@)));
                s
            },
            Expr::Infix { lhs, op, rhs } => {
                let mut s = String::new();
                s.append("(");
                let left = lhs.value_annotation_str(feature_set);
                s.append(left.as_str());
                s.append(") ");
                s.append(op.op_str());
                s.append(" (");
                let right = rhs.value_annotation_str(feature_set);
                s.append(right.as_str());
                s.append("): ");
                s.append(annotation.as_str());
                assert(s@ =~= annot_chars(*self, names_of(feature_set@)));
                s
            },
            Expr::Prefix { op, rhs } => {
                let mut s = String::new();
                s.append(op.op_str());
                s.append("(");
                let inner = rhs.value_annotation_str(feature_set);
                s.append(inner.as_str());
                s.append("): ");
                s.append(annotation.as_str());
                assert(s@ =~= annot_chars(*self, names_of(feature_set@)));
                s
            },
        }
    }

    /// The plain rendering of the expression.
    pub fn render(&self) -> (r: String)
        ensures
            r@ == render_chars(*self),
        decreases *self, 0nat,
    {
        match self {
            Expr::Literal(l) => l.render(),
            Expr::Infix { lhs, op, rhs } => {
                let mut s = lhs.inside_render();
                s.append(" ");
                s.append(op.op_str());
                s.append(" ");
                let right = rhs.inside_render();
                s.append(right.as_str());
                assert(s@ =~= render_chars(*self));
                s
            },
            Expr::Prefix { op, rhs } => {
                let mut s = String::new();
                s.append(op.op_str());
                let inner = rhs.inside_render();
                s.append(inner.as_str());
                assert(s@ =~= render_chars(*self));
                s
            },
        }
    }

    /// The rendering of a subexpression: parenthesized if binary.
    pub fn inside_render(&self) -> (r: String)
        ensures
            r@ == inside_chars(*self),
        decreases *self, 1nat,
    {
        match self {
            Expr::Infix { .. } => {
                let mut s = String::new();
                s.append("(");
                let inner = self.render();
                s.append(inner.as_str());
                s.append(")");
                assert(s@ =~= inside_chars(*self));
                s
            },
            _ => self.render(),
        }
    }
}

} // verus!
