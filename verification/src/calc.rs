use vstd::prelude::*;

verus! {

use crate::BaseT;

/// Arithmetic operators of the expression grammar.
#[derive(Debug, Copy, Clone, PartialEq, Eq, Structural)]
pub enum Operator {
    Add,
    Sub,
    Mul,
    Div,
}

/// Elementwise semantics of one operator on the 64-bit word type:
/// wrap-around addition, subtraction and multiplication, and truncating
/// division where division by zero and `MIN / -1` yield 0.
pub open spec fn op_one_i64(op: Operator, x: i64, y: i64) -> i64 {
    match op {
        Operator::Add => x.wrapping_add(y),
        Operator::Sub => x.wrapping_sub(y),
        Operator::Mul => x.wrapping_mul(y),
        Operator::Div => match x.checked_div(y) {
            Some(v) => v,
            None => 0,
        },
    }
}

/// The same semantics on the 32-bit word type.
pub open spec fn op_one_i32(op: Operator, x: i32, y: i32) -> i32 {
    match op {
        Operator::Add => x.wrapping_add(y),
        Operator::Sub => x.wrapping_sub(y),
        Operator::Mul => x.wrapping_mul(y),
        Operator::Div => match x.checked_div(y) {
            Some(v) => v,
            None => 0,
        },
    }
}

/// The column an operator produces from two equal-length columns.
pub open spec fn spec_perform(op: Operator, a: Seq<i64>, b: Seq<i64>) -> Seq<i64> {
    Seq::new(a.len(), |i: int| op_one_i64(op, a[i], b[i]))
}

pub open spec fn op_char(op: Operator) -> char {
    match op {
        Operator::Add => '+',
        Operator::Sub => '-',
        Operator::Mul => '*',
        Operator::Div => '/',
    }
}

impl Operator {
    /// Elementwise application to two equal-length slices of words.
    pub fn perform(&self, a: &[BaseT], b: &[BaseT]) -> (r: Option<Vec<BaseT>>)
        requires
            a@.len() == b@.len(),
        ensures
            r is Some,
            r matches Some(v) ==> v@ == spec_perform(*self, a@, b@),
    {
        match self {
            Operator::Add => Some(Operator::simd_add(a, b)),
            Operator::Sub => Some(Operator::simd_sub(a, b)),
            Operator::Mul => Some(Operator::simd_mul(a, b)),
            Operator::Div => Some(Operator::simd_div(a, b)),
        }
    }

    /// The operator's symbol in rendered expressions.
    pub fn symbol(&self) -> (s: &'static str)
        ensures
            s@ == seq![op_char(*self)],
    {
        match self {
            Operator::Add => {
                proof {
                    reveal_strlit("+");
                }
                "+"
            },
            Operator::Sub => {
                proof {
                    reveal_strlit("-");
                }
                "-"
            },
            Operator::Mul => {
                proof {
                    reveal_strlit("*");
                }
                "*"
            },
            Operator::Div => {
                proof {
                    reveal_strlit("/");
                }
                "/"
            },
        }
    }
}

/// One elementwise step on 64-bit words.
fn step_i64(op: Operator, x: i64, y: i64) -> (r: i64)
    ensures
        r == op_one_i64(op, x, y),
{
    match op {
        Operator::Add => x.wrapping_add(y),
        Operator::Sub => x.wrapping_sub(y),
        Operator::Mul => x.wrapping_mul(y),
        Operator::Div => match x.checked_div(y) {
            Some(v) => v,
            None => 0,
        },
    }
}

/// One elementwise step on 32-bit words.
fn step_i32(op: Operator, x: i32, y: i32) -> (r: i32)
    ensures
        r == op_one_i32(op, x, y),
{
    match op {
        Operator::Add => x.wrapping_add(y),
        Operator::Sub => x.wrapping_sub(y),
        Operator::Mul => x.wrapping_mul(y),
        Operator::Div => match x.checked_div(y) {
            Some(v) => v,
            None => 0,
        },
    }
}

/// Batched elementwise application on 64-bit words: full blocks of `lanes`
/// elements first, then a scalar tail.
fn batch_apply_i64(op: Operator, a: &[i64], b: &[i64], lanes: usize) -> (r: Vec<i64>)
    requires
        a@.len() == b@.len(),
        lanes >= 1,
    ensures
        r@.len() == a@.len(),
        forall|k: int| 0 <= k < r@.len() ==> r@[k] == op_one_i64(op, a@[k], b@[k]),
{
    let n = a.len();
    let mut r: Vec<i64> = Vec::new();
    let mut i: usize = 0;
    while lanes <= n - i
        invariant
            a@.len() == b@.len(),
            n == a@.len(),
            lanes >= 1,
            i <= n,
            r@.len() == i,
            forall|k: int| 0 <= k < i ==> r@[k] == op_one_i64(op, a@[k], b@[k]),
        decreases n - i,
    {
        let mut j: usize = 0;
        while j < lanes
            invariant
                a@.len() == b@.len(),
                n == a@.len(),
                i + lanes <= n,
                j <= lanes,
                r@.len() == i + j,
                forall|k: int| 0 <= k < i + j ==> r@[k] == op_one_i64(op, a@[k], b@[k]),
            decreases lanes - j,
        {
            r.push(step_i64(op, a[i + j], b[i + j]));
            j += 1;
        }
        i += lanes;
    }
    while i < n
        invariant
            a@.len() == b@.len(),
            n == a@.len(),
            i <= n,
            r@.len() == i,
            forall|k: int| 0 <= k < i ==> r@[k] == op_one_i64(op, a@[k], b@[k]),
        decreases n - i,
    {
        r.push(step_i64(op, a[i], b[i]));
        i += 1;
    }
    r
}

/// Scalar elementwise application on 64-bit words.
fn scalar_apply_i64(op: Operator, a: &[i64], b: &[i64]) -> (r: Vec<i64>)
    requires
        a@.len() == b@.len(),
    ensures
        r@.len() == a@.len(),
        forall|k: int| 0 <= k < r@.len() ==> r@[k] == op_one_i64(op, a@[k], b@[k]),
{
    let n = a.len();
    let mut r: Vec<i64> = Vec::new();
    let mut i: usize = 0;
    while i < n
        invariant
            a@.len() == b@.len(),
            n == a@.len(),
            i <= n,
            r@.len() == i,
            forall|k: int| 0 <= k < i ==> r@[k] == op_one_i64(op, a@[k], b@[k]),
        decreases n - i,
    {
        r.push(step_i64(op, a[i], b[i]));
        i += 1;
    }
    r
}

/// Batched elementwise application on 32-bit words.
fn batch_apply_i32(op: Operator, a: &[i32], b: &[i32], lanes: usize) -> (r: Vec<i32>)
    requires
        a@.len() == b@.len(),
        lanes >= 1,
    ensures
        r@.len() == a@.len(),
        forall|k: int| 0 <= k < r@.len() ==> r@[k] == op_one_i32(op, a@[k], b@[k]),
{
    let n = a.len();
    let mut r: Vec<i32> = Vec::new();
    let mut i: usize = 0;
    while lanes <= n - i
        invariant
            a@.len() == b@.len(),
            n == a@.len(),
            lanes >= 1,
            i <= n,
            r@.len() == i,
            forall|k: int| 0 <= k < i ==> r@[k] == op_one_i32(op, a@[k], b@[k]),
        decreases n - i,
    {
        let mut j: usize = 0;
        while j < lanes
            invariant
                a@.len() == b@.len(),
                n == a@.len(),
                i + lanes <= n,
                j <= lanes,
                r@.len() == i + j,
                forall|k: int| 0 <= k < i + j ==> r@[k] == op_one_i32(op, a@[k], b@[k]),
            decreases lanes - j,
        {
            r.push(step_i32(op, a[i + j], b[i + j]));
            j += 1;
        }
        i += lanes;
    }
    while i < n
        invariant
            a@.len() == b@.len(),
            n == a@.len(),
            i <= n,
            r@.len() == i,
            forall|k: int| 0 <= k < i ==> r@[k] == op_one_i32(op, a@[k], b@[k]),
        decreases n - i,
    {
        r.push(step_i32(op, a[i], b[i]));
        i += 1;
    }
    r
}

/// Scalar elementwise application on 32-bit words.
fn scalar_apply_i32(op: Operator, a: &[i32], b: &[i32]) -> (r: Vec<i32>)
    requires
        a@.len() == b@.len(),
    ensures
        r@.len() == a@.len(),
        forall|k: int| 0 <= k < r@.len() ==> r@[k] == op_one_i32(op, a@[k], b@[k]),
{
    let n = a.len();
    let mut r: Vec<i32> = Vec::new();
    let mut i: usize = 0;
    while i < n
        invariant
            a@.len() == b@.len(),
            n == a@.len(),
            i <= n,
            r@.len() == i,
            forall|k: int| 0 <= k < i ==> r@[k] == op_one_i32(op, a@[k], b@[k]),
        decreases n - i,
    {
        r.push(step_i32(op, a[i], b[i]));
        i += 1;
    }
    r
}

/// Elementwise arithmetic over slices of a word type, with a batched path
/// (blocks of 8 or 16 lanes) and a scalar path. Both paths must agree with
/// the elementwise semantics the implementing type fixes, so their results
/// are identical.
pub trait SimdOperator<T> {
    spec fn one_add(x: T, y: T) -> T;

    spec fn one_sub(x: T, y: T) -> T;

    spec fn one_mul(x: T, y: T) -> T;

    spec fn one_div(x: T, y: T) -> T;

    fn simd_add(a: &[T], b: &[T]) -> (r: Vec<T>)
        requires
            a@.len() == b@.len(),
        ensures
            r@.len() == a@.len(),
            forall|k: int| 0 <= k < r@.len() ==> r@[k] == Self::one_add(a@[k], b@[k]),
    ;

    fn sisd_add(a: &[T], b: &[T]) -> (r: Vec<T>)
        requires
            a@.len() == b@.len(),
        ensures
            r@.len() == a@.len(),
            forall|k: int| 0 <= k < r@.len() ==> r@[k] == Self::one_add(a@[k], b@[k]),
    ;

    fn simd_sub(a: &[T], b: &[T]) -> (r: Vec<T>)
        requires
            a@.len() == b@.len(),
        ensures
            r@.len() == a@.len(),
            forall|k: int| 0 <= k < r@.len() ==> r@[k] == Self::one_sub(a@[k], b@[k]),
    ;

    fn sisd_sub(a: &[T], b: &[T]) -> (r: Vec<T>)
        requires
            a@.len() == b@.len(),
        ensures
            r@.len() == a@.len(),
            forall|k: int| 0 <= k < r@.len() ==> r@[k] == Self::one_sub(a@[k], b@[k]),
    ;

    fn simd_mul(a: &[T], b: &[T]) -> (r: Vec<T>)
        requires
            a@.len() == b@.len(),
        ensures
            r@.len() == a@.len(),
            forall|k: int| 0 <= k < r@.len() ==> r@[k] == Self::one_mul(a@[k], b@[k]),
    ;

    fn sisd_mul(a: &[T], b: &[T]) -> (r: Vec<T>)
        requires
            a@.len() == b@.len(),
        ensures
            r@.len() == a@.len(),
            forall|k: int| 0 <= k < r@.len() ==> r@[k] == Self::one_mul(a@[k], b@[k]),
    ;

    fn simd_div(a: &[T], b: &[T]) -> (r: Vec<T>)
        requires
            a@.len() == b@.len(),
        ensures
            r@.len() == a@.len(),
            forall|k: int| 0 <= k < r@.len() ==> r@[k] == Self::one_div(a@[k], b@[k]),
    ;

    fn sisd_div(a: &[T], b: &[T]) -> (r: Vec<T>)
        requires
            a@.len() == b@.len(),
        ensures
            r@.len() == a@.len(),
            forall|k: int| 0 <= k < r@.len() ==> r@[k] == Self::one_div(a@[k], b@[k]),
    ;
}

impl SimdOperator<i64> for Operator {
    open spec fn one_add(x: i64, y: i64) -> i64 {
        op_one_i64(Operator::Add, x, y)
    }

    open spec fn one_sub(x: i64, y: i64) -> i64 {
        op_one_i64(Operator::Sub, x, y)
    }

    open spec fn one_mul(x: i64, y: i64) -> i64 {
        op_one_i64(Operator::Mul, x, y)
    }

    open spec fn one_div(x: i64, y: i64) -> i64 {
        op_one_i64(Operator::Div, x, y)
    }

    fn simd_add(a: &[i64], b: &[i64]) -> (r: Vec<i64>) {
        batch_apply_i64(Operator::Add, a, b, 8)
    }

    fn sisd_add(a: &[i64], b: &[i64]) -> (r: Vec<i64>) {
        scalar_apply_i64(Operator::Add, a, b)
    }

    fn simd_sub(a: &[i64], b: &[i64]) -> (r: Vec<i64>) {
        batch_apply_i64(Operator::Sub, a, b, 8)
    }

    fn sisd_sub(a: &[i64], b: &[i64]) -> (r: Vec<i64>) {
        scalar_apply_i64(Operator::Sub, a, b)
    }

    fn simd_mul(a: &[i64], b: &[i64]) -> (r: Vec<i64>) {
        batch_apply_i64(Operator::Mul, a, b, 8)
    }

    fn sisd_mul(a: &[i64], b: &[i64]) -> (r: Vec<i64>) {
        scalar_apply_i64(Operator::Mul, a, b)
    }

    fn simd_div(a: &[i64], b: &[i64]) -> (r: Vec<i64>) {
        batch_apply_i64(Operator::Div, a, b, 8)
    }

    fn sisd_div(a: &[i64], b: &[i64]) -> (r: Vec<i64>) {
        scalar_apply_i64(Operator::Div, a, b)
    }
}

impl SimdOperator<i32> for Operator {
    open spec fn one_add(x: i32, y: i32) -> i32 {
        op_one_i32(Operator::Add, x, y)
    }

    open spec fn one_sub(x: i32, y: i32) -> i32 {
        op_one_i32(Operator::Sub, x, y)
    }

    open spec fn one_mul(x: i32, y: i32) -> i32 {
        op_one_i32(Operator::Mul, x, y)
    }

    open spec fn one_div(x: i32, y: i32) -> i32 {
        op_one_i32(Operator::Div, x, y)
    }

    fn simd_add(a: &[i32], b: &[i32]) -> (r: Vec<i32>) {
        batch_apply_i32(Operator::Add, a, b, 16)
    }

    fn sisd_add(a: &[i32], b: &[i32]) -> (r: Vec<i32>) {
        scalar_apply_i32(Operator::Add, a, b)
    }

    fn simd_sub(a: &[i32], b: &[i32]) -> (r: Vec<i32>) {
        batch_apply_i32(Operator::Sub, a, b, 16)
    }

    fn sisd_sub(a: &[i32], b: &[i32]) -> (r: Vec<i32>) {
        scalar_apply_i32(Operator::Sub, a, b)
    }

    fn simd_mul(a: &[i32], b: &[i32]) -> (r: Vec<i32>) {
        batch_apply_i32(Operator::Mul, a, b, 16)
    }

    fn sisd_mul(a: &[i32], b: &[i32]) -> (r: Vec<i32>) {
        scalar_apply_i32(Operator::Mul, a, b)
    }

    fn simd_div(a: &[i32], b: &[i32]) -> (r: Vec<i32>) {
        batch_apply_i32(Operator::Div, a, b, 16)
    }

    fn sisd_div(a: &[i32], b: &[i32]) -> (r: Vec<i32>) {
        scalar_apply_i32(Operator::Div, a, b)
    }
}

} // verus!
