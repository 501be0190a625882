use vstd::prelude::*;

verus! {

use crate::BaseT;
use crate::calc::{op_char, spec_perform, Operator};
use crate::engine::{lemma_find_name_props, TraceMatrix};
use vstd::string::StrSliceExecFns;
use vstd::string::StringExecFns;

/// A partial arithmetic expression over the input registers: a register
/// terminal, an unfilled hole, or a binary operation.
#[derive(Debug)]
pub enum Expression {
    Terminal(String),
    NonTerminal,
    Operation(Operator, Box<Expression>, Box<Expression>),
}

impl Clone for Expression {
    fn clone(&self) -> (r: Self)
        ensures
            r == *self,
        decreases *self,
    {
        match self {
            Expression::Terminal(x) => Expression::Terminal(x.clone()),
            Expression::NonTerminal => Expression::NonTerminal,
            Expression::Operation(op, a, b) => Expression::Operation(
                *op,
                Box::new((&**a).clone()),
                Box::new((&**b).clone()),
            ),
        }
    }
}

impl Expression {
    /// A finite expression holds no hole anywhere in its subtree.
    pub open spec fn finite(self) -> bool
        decreases self,
    {
        match self {
            Expression::Terminal(_) => true,
            Expression::NonTerminal => false,
            Expression::Operation(_, a, b) => (*a).finite() && (*b).finite(),
        }
    }

    /// The number of holes in the subtree.
    pub open spec fn hole_count(self) -> nat
        decreases self,
    {
        match self {
            Expression::Terminal(_) => 0,
            Expression::NonTerminal => 1,
            Expression::Operation(_, a, b) => (*a).hole_count() + (*b).hole_count(),
        }
    }

    /// Every terminal of the expression names a column of the matrix.
    pub open spec fn registers_known(self, inputs: TraceMatrix) -> bool
        decreases self,
    {
        match self {
            Expression::Terminal(x) => inputs.contains_name(x@),
            Expression::NonTerminal => true,
            Expression::Operation(_, a, b) => (*a).registers_known(inputs) && (*b).registers_known(
                inputs,
            ),
        }
    }

    /// The column of values the expression takes over the trace matrix:
    /// a terminal reads its register's column, an operation applies the
    /// operator elementwise, and a hole has no value.
    pub open spec fn spec_eval(self, inputs: TraceMatrix) -> Option<Seq<BaseT>>
        decreases self,
    {
        match self {
            Expression::Terminal(x) => if inputs.contains_name(x@) {
                Some(inputs.col_of(x@))
            } else {
                None
            },
            Expression::NonTerminal => None,
            Expression::Operation(op, a, b) => match ((*a).spec_eval(inputs), (*b).spec_eval(
                inputs,
            )) {
                (Some(x), Some(y)) => Some(spec_perform(op, x, y)),
                _ => None,
            },
        }
    }

    /// Infix rendering: a terminal prints its register name, a hole prints
    /// `U`, and an operation prints `(left op right)`.
    pub open spec fn spec_math_notation(self) -> Seq<char>
        decreases self,
    {
        match self {
            Expression::Terminal(x) => x@,
            Expression::NonTerminal => seq!['U'],
            Expression::Operation(op, a, b) => seq!['('] + (*a).spec_math_notation() + seq![' ']
                + seq![op_char(op)] + seq![' '] + (*b).spec_math_notation() + seq![')'],
        }
    }

    /// Prefix rendering: an operation prints `(op left right)`.
    pub open spec fn spec_prefix_notation(self) -> Seq<char>
        decreases self,
    {
        match self {
            Expression::Terminal(x) => x@,
            Expression::NonTerminal => seq!['U'],
            Expression::Operation(op, a, b) => seq!['('] + seq![op_char(op)] + seq![' ']
                + (*a).spec_prefix_notation() + seq![' '] + (*b).spec_prefix_notation()
                + seq![')'],
        }
    }

    /// All one-step derivations: at every hole, in left-to-right order,
    /// each derivate is substituted while the rest stays unchanged.
    pub open spec fn spec_derive(self, derivates: Seq<Expression>) -> Seq<Expression>
        decreases self,
    {
        match self {
            Expression::Terminal(_) => Seq::empty(),
            Expression::NonTerminal => derivates,
            Expression::Operation(op, a, b) => (*a).spec_derive(derivates).map_values(
                |e: Expression| Expression::Operation(op, Box::new(e), b),
            ) + (*b).spec_derive(derivates).map_values(
                |e: Expression| Expression::Operation(op, a, Box::new(e)),
            ),
        }
    }

    /// Whether the subtree holds no hole.
    pub fn is_finite(&self) -> (b: bool)
        ensures
            b == self.finite(),
        decreases *self,
    {
        match self {
            Expression::Terminal(_) => true,
            Expression::NonTerminal => false,
            Expression::Operation(_, a, b) => a.is_finite() && b.is_finite(),
        }
    }

    /// Infix rendering of the expression for human reporting.
    pub fn math_notation(&self) -> (r: String)
        ensures
            r@ == self.spec_math_notation(),
        decreases *self,
    {
        match self {
            Expression::Terminal(x) => x.clone(),
            Expression::NonTerminal => {
                proof {
                    reveal_strlit("U");
                }
                let r = "U".to_owned();
                proof {
                    assert(r@ =~= seq!['U']);
                }
                r
            },
            Expression::Operation(op, a, b) => {
                proof {
                    reveal_strlit("(");
                    reveal_strlit(" ");
                    reveal_strlit(")");
                }
                let mut s = "(".to_owned();
                let left = a.math_notation();
                s.append(left.as_str());
                s.append(" ");
                s.append(op.symbol());
                s.append(" ");
                let right = b.math_notation();
                s.append(right.as_str());
                s.append(")");
                proof {
                    assert(s@ =~= self.spec_math_notation());
                }
                s
            },
        }
    }

    /// Prefix rendering of the expression.
    pub fn prefix_notation(&self) -> (r: String)
        ensures
            r@ == self.spec_prefix_notation(),
        decreases *self,
    {
        match self {
            Expression::Terminal(x) => x.clone(),
            Expression::NonTerminal => {
                proof {
                    reveal_strlit("U");
                }
                let r = "U".to_owned();
                proof {
                    assert(r@ =~= seq!['U']);
                }
                r
            },
            Expression::Operation(op, a, b) => {
                proof {
                    reveal_strlit("(");
                    reveal_strlit(" ");
                    reveal_strlit(")");
                }
                let mut s = "(".to_owned();
                s.append(op.symbol());
                s.append(" ");
                let left = a.prefix_notation();
                s.append(left.as_str());
                s.append(" ");
                let right = b.prefix_notation();
                s.append(right.as_str());
                s.append(")");
                proof {
                    assert(s@ =~= self.spec_prefix_notation());
                }
                s
            },
        }
    }

    /// The column of values the expression takes over the trace matrix, or
    /// `None` when the expression still holds a hole or names an unknown
    /// register.
    pub fn eval(&self, input: &TraceMatrix) -> (r: Option<Vec<BaseT>>)
        requires
            input.wf(),
        ensures
            r is Some <==> self.spec_eval(*input) is Some,
            r matches Some(v) ==> Some(v@) == self.spec_eval(*input),
            r matches Some(v) ==> v@.len() == input.width(),
        decreases *self,
    {
        match self {
            Expression::Terminal(x) => {
                proof {
                    lemma_find_name_props(input.names(), x@);
                }
                parse_registers(x, input)
            },
            Expression::Operation(op, a, b) => {
                let x = match a.eval(input) {
                    Some(v) => v,
                    None => {
                        return None;
                    },
                };
                let y = match b.eval(input) {
                    Some(v) => v,
                    None => {
                        return None;
                    },
                };
                op.perform(x.as_slice(), y.as_slice())
            },
            Expression::NonTerminal => None,
        }
    }

    /// The term set of the grammar: for each register its terminal and,
    /// for each operator, the two one-sided mixes with a hole; after all
    /// registers, for each operator, the register-free two-hole operation.
    pub fn combinations(registers: &Vec<String>, operators: &Vec<Operator>) -> (result: Vec<
        Expression,
    >)
        ensures
            result@ == spec_combinations(registers@, operators@),
    {
        let mut result: Vec<Expression> = Vec::new();
        let mut i: usize = 0;
        while i < registers.len()
            invariant
                i <= registers@.len(),
                result@ == spec_reg_terms(registers@, operators@, i as int),
            decreases registers@.len() - i,
        {
            let reg = &registers[i];
            result.push(Expression::Terminal(reg.clone()));
            let mut j: usize = 0;
            while j < operators.len()
                invariant
                    i < registers@.len(),
                    j <= operators@.len(),
                    reg == registers@[i as int],
                    result@ == spec_reg_terms(registers@, operators@, i as int) + seq![
                        Expression::Terminal(registers@[i as int]),
                    ] + spec_mix_terms(registers@[i as int], operators@, j as int),
                decreases operators@.len() - j,
            {
                let op = operators[j];
                result.push(
                    Expression::Operation(
                        op,
                        Box::new(Expression::Terminal(reg.clone())),
                        Box::new(Expression::NonTerminal),
                    ),
                );
                result.push(
                    Expression::Operation(
                        op,
                        Box::new(Expression::NonTerminal),
                        Box::new(Expression::Terminal(reg.clone())),
                    ),
                );
                j += 1;
                proof {
                    assert(result@ =~= spec_reg_terms(registers@, operators@, i as int) + seq![
                        Expression::Terminal(registers@[i as int]),
                    ] + spec_mix_terms(registers@[i as int], operators@, j as int));
                }
            }
            i += 1;
            proof {
                assert(result@ =~= spec_reg_terms(registers@, operators@, i as int));
            }
        }
        let mut j: usize = 0;
        while j < operators.len()
            invariant
                j <= operators@.len(),
                result@ == spec_reg_terms(registers@, operators@, registers@.len() as int)
                    + spec_hole_terms(operators@, j as int),
            decreases operators@.len() - j,
        {
            result.push(
                Expression::Operation(
                    operators[j],
                    Box::new(Expression::NonTerminal),
                    Box::new(Expression::NonTerminal),
                ),
            );
            j += 1;
            proof {
                assert(result@ =~= spec_reg_terms(registers@, operators@, registers@.len() as int)
                    + spec_hole_terms(operators@, j as int));
            }
        }
        result
    }

    /// All one-step derivations of the expression from the term set: the
    /// result substitutes each derivate at each hole, holes in
    /// left-to-right order, derivates in declared order.
    pub fn derive(&self, derivates: &Vec<Expression>) -> (result: Vec<Expression>)
        ensures
            result@ == self.spec_derive(derivates@),
        decreases *self,
    {
        match self {
            Expression::Operation(op, a, b) => {
                let mut result: Vec<Expression> = Vec::new();
                let da = a.derive(derivates);
                let mut k: usize = 0;
                while k < da.len()
                    invariant
                        k <= da@.len(),
                        da@ == (**a).spec_derive(derivates@),
                        result@.len() == k,
                        forall|m: int|
                            0 <= m < k ==> result@[m] == Expression::Operation(
                                *op,
                                Box::new(da@[m]),
                                *b,
                            ),
                    decreases da@.len() - k,
                {
                    result.push(
                        Expression::Operation(
                            *op,
                            Box::new(da[k].clone()),
                            Box::new((&**b).clone()),
                        ),
                    );
                    k += 1;
                }
                let db = b.derive(derivates);
                let mut k: usize = 0;
                while k < db.len()
                    invariant
                        k <= db@.len(),
                        da@ == (**a).spec_derive(derivates@),
                        db@ == (**b).spec_derive(derivates@),
                        result@.len() == da@.len() + k,
                        forall|m: int|
                            0 <= m < da@.len() ==> result@[m] == Expression::Operation(
                                *op,
                                Box::new(da@[m]),
                                *b,
                            ),
                        forall|m: int|
                            0 <= m < k ==> result@[da@.len() + m] == Expression::Operation(
                                *op,
                                *a,
                                Box::new(db@[m]),
                            ),
                    decreases db@.len() - k,
                {
                    result.push(
                        Expression::Operation(
                            *op,
                            Box::new((&**a).clone()),
                            Box::new(db[k].clone()),
                        ),
                    );
                    k += 1;
                }
                proof {
                    assert(result@ =~= self.spec_derive(derivates@));
                }
                result
            },
            Expression::NonTerminal => derivates.clone(),
            Expression::Terminal(_) => Vec::new(),
        }
    }
}

/// The column of the named register, cloned, or `None` for a register the
/// matrix does not know.
pub fn parse_registers(register: &String, inputs: &TraceMatrix) -> (r: Option<Vec<BaseT>>)
    ensures
        r is Some <==> inputs.contains_name(register@),
        r matches Some(v) ==> v@ == inputs.col_of(register@),
{
    match inputs.find_col(register) {
        Some(i) => Some(vstd::slice::slice_to_vec(inputs.cols[i].1.as_slice())),
        None => None,
    }
}

/// The two one-sided mixes of register `r` with each of the first `j`
/// operators.
pub open spec fn spec_mix_terms(r: String, ops: Seq<Operator>, j: int) -> Seq<Expression>
    decreases j,
{
    if j <= 0 {
        Seq::empty()
    } else {
        spec_mix_terms(r, ops, j - 1) + seq![
            Expression::Operation(
                ops[j - 1],
                Box::new(Expression::Terminal(r)),
                Box::new(Expression::NonTerminal),
            ),
            Expression::Operation(
                ops[j - 1],
                Box::new(Expression::NonTerminal),
                Box::new(Expression::Terminal(r)),
            ),
        ]
    }
}

/// The blocks of terms contributed by the first `i` registers.
pub open spec fn spec_reg_terms(regs: Seq<String>, ops: Seq<Operator>, i: int) -> Seq<Expression>
    decreases i,
{
    if i <= 0 {
        Seq::empty()
    } else {
        spec_reg_terms(regs, ops, i - 1) + seq![Expression::Terminal(regs[i - 1])]
            + spec_mix_terms(regs[i - 1], ops, ops.len() as int)
    }
}

/// The register-free two-hole operations of the first `j` operators.
pub open spec fn spec_hole_terms(ops: Seq<Operator>, j: int) -> Seq<Expression>
    decreases j,
{
    if j <= 0 {
        Seq::empty()
    } else {
        spec_hole_terms(ops, j - 1) + seq![
            Expression::Operation(
                ops[j - 1],
                Box::new(Expression::NonTerminal),
                Box::new(Expression::NonTerminal),
            ),
        ]
    }
}

/// The full term set over the given registers and operators.
pub open spec fn spec_combinations(regs: Seq<String>, ops: Seq<Operator>) -> Seq<Expression> {
    spec_reg_terms(regs, ops, regs.len() as int) + spec_hole_terms(ops, ops.len() as int)
}

/// An expression evaluates to a column exactly when it is finite and all
/// its terminals name columns of the matrix.
pub proof fn lemma_eval_finite(e: Expression, inputs: TraceMatrix)
    ensures
        e.spec_eval(inputs) is Some <==> (e.finite() && e.registers_known(inputs)),
    decreases e,
{
    match e {
        Expression::Operation(_, a, b) => {
            lemma_eval_finite(*a, inputs);
            lemma_eval_finite(*b, inputs);
        },
        _ => {},
    }
}

/// Every column a finite expression evaluates to has the matrix's width.
pub proof fn lemma_eval_len(e: Expression, inputs: TraceMatrix)
    requires
        inputs.wf(),
        e.spec_eval(inputs) is Some,
    ensures
        e.spec_eval(inputs).unwrap().len() == inputs.width(),
    decreases e,
{
    match e {
        Expression::Terminal(x) => {
            lemma_find_name_props(inputs.names(), x@);
        },
        Expression::Operation(_, a, b) => {
            lemma_eval_len(*a, inputs);
            lemma_eval_len(*b, inputs);
        },
        _ => {},
    }
}

/// One-step derivation produces one expression per hole and derivate.
pub proof fn lemma_derive_len(e: Expression, derivates: Seq<Expression>)
    ensures
        e.spec_derive(derivates).len() == e.hole_count() * derivates.len(),
    decreases e,
{
    match e {
        Expression::Operation(op, a, b) => {
            lemma_derive_len(*a, derivates);
            lemma_derive_len(*b, derivates);
            assert(e.spec_derive(derivates) == (*a).spec_derive(derivates).map_values(
                |x: Expression| Expression::Operation(op, Box::new(x), b),
            ) + (*b).spec_derive(derivates).map_values(
                |x: Expression| Expression::Operation(op, a, Box::new(x)),
            ));
            assert(e.spec_derive(derivates).len() == (*a).spec_derive(derivates).len()
                + (*b).spec_derive(derivates).len());
            assert(e.hole_count() == (*a).hole_count() + (*b).hole_count());
            assert(((*a).hole_count() + (*b).hole_count()) * derivates.len() == (*a).hole_count()
                * derivates.len() + (*b).hole_count() * derivates.len()) by (nonlinear_arith);
            assert(e.spec_derive(derivates).len() == e.hole_count() * derivates.len());
        },
        Expression::Terminal(_) => {
            assert(e.spec_derive(derivates).len() == 0);
            assert(e.hole_count() * derivates.len() == 0) by (nonlinear_arith)
                requires
                    e.hole_count() == 0,
            ;
        },
        Expression::NonTerminal => {
            assert(e.spec_derive(derivates).len() == derivates.len());
            assert(e.hole_count() * derivates.len() == derivates.len()) by (nonlinear_arith)
                requires
                    e.hole_count() == 1,
            ;
        },
    }
}



/// Over a non-empty term set, one-step derivation yields something exactly
/// when the expression still has a hole.
pub proof fn lemma_derive_nonempty(e: Expression, derivates: Seq<Expression>)
    requires
        derivates.len() > 0,
    ensures
        e.spec_derive(derivates).len() > 0 <==> e.hole_count() > 0,
        e.spec_derive(derivates).len() > 0 <==> !e.finite(),
{
    lemma_derive_len(e, derivates);
    lemma_finite_holes(e);
    assert(e.hole_count() * derivates.len() > 0 <==> e.hole_count() > 0) by (nonlinear_arith)
        requires
            derivates.len() > 0,
    ;
}

/// An expression is finite exactly when it has no hole.
pub proof fn lemma_finite_holes(e: Expression)
    ensures
        e.finite() <==> e.hole_count() == 0,
    decreases e,
{
    match e {
        Expression::Operation(_, a, b) => {
            lemma_finite_holes(*a);
            lemma_finite_holes(*b);
        },
        _ => {},
    }
}

/// A finite expression that evaluates to a column reads at least one
/// register, so the matrix has at least one column.
pub proof fn lemma_eval_some_cols(e: Expression, inputs: TraceMatrix)
    requires
        e.spec_eval(inputs) is Some,
    ensures
        inputs.cols@.len() > 0,
    decreases e,
{
    match e {
        Expression::Terminal(x) => {
            lemma_find_name_props(inputs.names(), x@);
        },
        Expression::Operation(_, a, b) => {
            lemma_eval_some_cols(*a, inputs);
        },
        _ => {},
    }
}

} // verus!
