use vstd::prelude::*;
use crate::ast::AstNode;
use crate::ast::BinaryOpKind;
use crate::ast::Formula;
use crate::ast::UnaryOpKind;
use crate::codec::spec_resolve;
use crate::codec::CellRef;
use crate::error::FormulaError;
use crate::error::FormulaErrorMsg;
use crate::pos::Pos;
use crate::value::spec_fmt_value;
use crate::value::spec_text_num;
use crate::value::spec_to_bool;
use crate::value::spec_to_number;
use crate::value::SpecValue;
use crate::value::Value;
use crate::text::spec_text_lt;
use vstd::math::abs;

verus! {

/// The read capability the surrounding grid supplies: the only interface
/// this core requires of its collaborator. `grid` is the mathematical
/// content of the grid — the raw text of every present cell — and `get`
/// must answer from exactly that content.
pub trait GridProxy {
    /// The grid content this proxy answers from. Verified implementations
    /// override this; implementations outside the verifier leave it at the
    /// default, an unspecified map, and `get`'s contract is their promise.
    open spec fn grid(&self) -> Map<Pos, Seq<char>> {
        arbitrary()
    }

    fn get(&self, pos: Pos) -> (r: Option<String>)
        ensures
            match r {
                Some(s) => self.grid().dom().contains(pos) && s@ == self.grid()[pos],
                None => !self.grid().dom().contains(pos),
            },
    ;
}

/// Whether an integer fits the representable numeric range.
pub open spec fn fits_i64(n: int) -> bool {
    i64::MIN <= n <= i64::MAX
}

/// Integer exponentiation with a non-negative exponent.
pub open spec fn spec_pow(b: int, e: int) -> int
    decreases e,
{
    if e <= 0 {
        1
    } else {
        b * spec_pow(b, e - 1)
    }
}

/// The value read from a cell: blank when absent, a number when the raw text
/// denotes one, otherwise the raw text itself.
pub open spec fn spec_read_cell(grid: Map<Pos, Seq<char>>, target: Pos) -> SpecValue {
    if grid.dom().contains(target) {
        match spec_text_num(grid[target]) {
            Some(n) => SpecValue::Num(n),
            None => SpecValue::Text(grid[target]),
        }
    } else {
        SpecValue::Blank
    }
}

/// Evaluation of a reference node: resolve, reject a direct self-reference,
/// then read the target cell.
pub open spec fn spec_eval_ref(r: CellRef, grid: Map<Pos, Seq<char>>, pos: Pos) -> Result<
    SpecValue,
    FormulaErrorMsg,
> {
    match spec_resolve(r, pos) {
        None => Err(FormulaErrorMsg::InvalidReference),
        Some(target) => if target == pos {
            Err(FormulaErrorMsg::CircularReference)
        } else {
            Ok(spec_read_cell(grid, target))
        },
    }
}

/// A prefix operator applied to an already evaluated operand.
pub open spec fn spec_apply_unary(op: UnaryOpKind, v: SpecValue) -> Result<
    SpecValue,
    FormulaErrorMsg,
> {
    match spec_to_number(v) {
        None => Err(FormulaErrorMsg::TypeMismatch),
        Some(n) => match op {
            UnaryOpKind::Plus => Ok(SpecValue::Num(n)),
            UnaryOpKind::Neg => if fits_i64(-n) {
                Ok(SpecValue::Num(-n))
            } else {
                Err(FormulaErrorMsg::Overflow)
            },
        },
    }
}

/// An arithmetic operator applied to two numbers.
pub open spec fn spec_apply_arith(op: BinaryOpKind, x: int, y: int) -> Result<
    SpecValue,
    FormulaErrorMsg,
> {
    match op {
        BinaryOpKind::Add => if fits_i64(x + y) {
            Ok(SpecValue::Num(x + y))
        } else {
            Err(FormulaErrorMsg::Overflow)
        },
        BinaryOpKind::Sub => if fits_i64(x - y) {
            Ok(SpecValue::Num(x - y))
        } else {
            Err(FormulaErrorMsg::Overflow)
        },
        BinaryOpKind::Mul => if fits_i64(x * y) {
            Ok(SpecValue::Num(x * y))
        } else {
            Err(FormulaErrorMsg::Overflow)
        },
        BinaryOpKind::Div => if y == 0 {
            Err(FormulaErrorMsg::DivideByZero)
        } else if exists|q: int| x == #[trigger] (q * y) {
            let q = choose|q: int| x == #[trigger] (q * y);
            if fits_i64(q) {
                Ok(SpecValue::Num(q))
            } else {
                Err(FormulaErrorMsg::Overflow)
            }
        } else {
            Err(FormulaErrorMsg::Overflow)
        },
        BinaryOpKind::Pow => if y < 0 {
            Err(FormulaErrorMsg::Overflow)
        } else if fits_i64(spec_pow(x, y)) {
            Ok(SpecValue::Num(spec_pow(x, y)))
        } else {
            Err(FormulaErrorMsg::Overflow)
        },
        _ => Err(FormulaErrorMsg::TypeMismatch),
    }
}

/// A comparison of two already evaluated operands: numeric when both coerce
/// to numbers, textual (on canonical text, by code point) otherwise.
pub open spec fn spec_apply_cmp(op: BinaryOpKind, a: SpecValue, b: SpecValue) -> bool {
    match (spec_to_number(a), spec_to_number(b)) {
        (Some(x), Some(y)) => match op {
            BinaryOpKind::CmpEq => x == y,
            BinaryOpKind::CmpNe => x != y,
            BinaryOpKind::CmpLt => x < y,
            BinaryOpKind::CmpGt => x > y,
            BinaryOpKind::CmpLe => x <= y,
            BinaryOpKind::CmpGe => x >= y,
            _ => arbitrary(),
        },
        _ => {
            let ta = spec_fmt_value(a);
            let tb = spec_fmt_value(b);
            match op {
                BinaryOpKind::CmpEq => ta == tb,
                BinaryOpKind::CmpNe => ta != tb,
                BinaryOpKind::CmpLt => spec_text_lt(ta, tb),
                BinaryOpKind::CmpGt => spec_text_lt(tb, ta),
                BinaryOpKind::CmpLe => spec_text_lt(ta, tb) || ta == tb,
                BinaryOpKind::CmpGe => spec_text_lt(tb, ta) || ta == tb,
                _ => arbitrary(),
            }
        },
    }
}

pub open spec fn is_cmp_op(op: BinaryOpKind) -> bool {
    op == BinaryOpKind::CmpEq || op == BinaryOpKind::CmpNe || op == BinaryOpKind::CmpLt || op
        == BinaryOpKind::CmpGt || op == BinaryOpKind::CmpLe || op == BinaryOpKind::CmpGe
}

/// An infix operator applied to two already evaluated operands.
pub open spec fn spec_apply_binary(op: BinaryOpKind, a: SpecValue, b: SpecValue) -> Result<
    SpecValue,
    FormulaErrorMsg,
> {
    if op == BinaryOpKind::Concat {
        Ok(SpecValue::Text(spec_fmt_value(a) + spec_fmt_value(b)))
    } else if is_cmp_op(op) {
        Ok(SpecValue::Bool(spec_apply_cmp(op, a, b)))
    } else {
        match (spec_to_number(a), spec_to_number(b)) {
            (Some(x), Some(y)) => spec_apply_arith(op, x, y),
            _ => Err(FormulaErrorMsg::TypeMismatch),
        }
    }
}

pub open spec fn sum_name() -> Seq<char> {
    seq!['S', 'U', 'M']
}

pub open spec fn if_name() -> Seq<char> {
    seq!['I', 'F']
}

/// Evaluation of an expression tree at a position against a grid: a pure
/// function of the three. Errors are first-class: every operator and eager
/// function short-circuits on the first failing operand, left to right; the
/// conditional function never evaluates the unselected branch.
pub open spec fn spec_eval(ast: AstNode, grid: Map<Pos, Seq<char>>, pos: Pos) -> Result<
    SpecValue,
    FormulaErrorMsg,
>
    decreases ast,
{
    match ast {
        AstNode::Number(n) => Ok(SpecValue::Num(n as int)),
        AstNode::Text(s) => Ok(SpecValue::Text(s@)),
        AstNode::Bool(b) => Ok(SpecValue::Bool(b)),
        AstNode::CellRef(r) => spec_eval_ref(r, grid, pos),
        AstNode::Unary(op, a) => match spec_eval(*a, grid, pos) {
            Err(e) => Err(e),
            Ok(v) => spec_apply_unary(op, v),
        },
        AstNode::Binary(op, a, b) => match spec_eval(*a, grid, pos) {
            Err(e) => Err(e),
            Ok(va) => match spec_eval(*b, grid, pos) {
                Err(e) => Err(e),
                Ok(vb) => spec_apply_binary(op, va, vb),
            },
        },
        AstNode::FuncCall(name, args) => if name@ == sum_name() {
            match spec_sum_args(args@, grid, pos) {
                Err(e) => Err(e),
                Ok(t) => if fits_i64(t) {
                    Ok(SpecValue::Num(t))
                } else {
                    Err(FormulaErrorMsg::Overflow)
                },
            }
        } else if name@ == if_name() {
            if args@.len() != 3 {
                Err(FormulaErrorMsg::WrongArity)
            } else {
                match spec_eval(args@[0], grid, pos) {
                    Err(e) => Err(e),
                    Ok(c) => match spec_to_bool(c) {
                        None => Err(FormulaErrorMsg::TypeMismatch),
                        Some(cond) => if cond {
                            spec_eval(args@[1], grid, pos)
                        } else {
                            spec_eval(args@[2], grid, pos)
                        },
                    },
                }
            }
        } else {
            Err(FormulaErrorMsg::UnknownFunction)
        },
    }
}

/// The aggregate function's pass over its arguments, left to right: each is
/// evaluated and coerced to a number (blanks count as zero), and the first
/// failure wins.
pub open spec fn spec_sum_args(args: Seq<AstNode>, grid: Map<Pos, Seq<char>>, pos: Pos) -> Result<
    int,
    FormulaErrorMsg,
>
    decreases args,
{
    if args.len() == 0 {
        Ok(0)
    } else {
        match spec_eval(args[0], grid, pos) {
            Err(e) => Err(e),
            Ok(v) => match spec_to_number(v) {
                None => Err(FormulaErrorMsg::TypeMismatch),
                Some(x) => match spec_sum_args(args.subrange(1, args.len() as int), grid, pos) {
                    Err(e) => Err(e),
                    Ok(t) => Ok(x + t),
                },
            },
        }
    }
}

/// The model of an evaluation outcome.
pub open spec fn res_view(r: Result<Value, FormulaError>) -> Result<SpecValue, FormulaErrorMsg> {
    match r {
        Ok(v) => Ok(v@),
        Err(e) => Err(e.msg),
    }
}

// ---------------------------------------------------------------------------
// Arithmetic lemmas for the executable operators.
// ---------------------------------------------------------------------------

proof fn lemma_pow_split(b: int, a: int, c: int)
    requires
        a >= 0,
        c >= 0,
    ensures
        spec_pow(b, a + c) == spec_pow(b, a) * spec_pow(b, c),
    decreases c,
{
    if c == 0 {
        assert(spec_pow(b, a) * 1 == spec_pow(b, a));
    } else {
        lemma_pow_split(b, a, c - 1);
        assert(spec_pow(b, a + c) == b * spec_pow(b, a + c - 1));
        assert(b * (spec_pow(b, a) * spec_pow(b, c - 1)) == spec_pow(b, a) * (b * spec_pow(
            b,
            c - 1,
        ))) by (nonlinear_arith);
    }
}

proof fn lemma_pow_one(e: int)
    requires
        e >= 0,
    ensures
        spec_pow(1, e) == 1,
    decreases e,
{
    if e > 0 {
        lemma_pow_one(e - 1);
    }
}

proof fn lemma_pow_zero(e: int)
    requires
        e >= 1,
    ensures
        spec_pow(0, e) == 0,
{
    assert(spec_pow(0, e) == 0 * spec_pow(0, e - 1));
}

proof fn lemma_pow_mag2(b: int, e: int)
    requires
        b <= -2 || b >= 2,
        e >= 1,
    ensures
        spec_pow(b, e) <= -2 || spec_pow(b, e) >= 2,
    decreases e,
{
    if e == 1 {
        assert(spec_pow(b, 1) == b * spec_pow(b, 0));
        assert(b * 1 == b);
    } else {
        lemma_pow_mag2(b, e - 1);
        let p = spec_pow(b, e - 1);
        assert(b * p <= -4 || b * p >= 4) by (nonlinear_arith)
            requires
                b <= -2 || b >= 2,
                p <= -2 || p >= 2,
        {
        }
    }
}

proof fn lemma_pow_neg_one(e: int)
    requires
        e >= 0,
    ensures
        spec_pow(-1, e) == if e % 2 == 0 {
            1int
        } else {
            -1int
        },
    decreases e,
{
    if e > 0 {
        lemma_pow_neg_one(e - 1);
    }
}

/// The exponentiation loop for a base of magnitude at least two; exits as
/// soon as the running product leaves the representable range, which the
/// remaining factors could only push further out.
fn pow_big(x: i64, y: i64) -> (r: Result<Value, FormulaError>)
    requires
        x <= -2 || x >= 2,
        y >= 0,
    ensures
        res_view(r) == spec_apply_arith(BinaryOpKind::Pow, x as int, y as int),
{
    let mut acc: i128 = 1;
    let mut k: i64 = 0;
    while k < y
        invariant
            0 <= k <= y,
            x <= -2 || x >= 2,
            acc == spec_pow(x as int, k as int),
            i64::MIN <= acc <= i64::MAX,
        decreases y - k,
    {
        proof {
            assert(-170141183460469231731687303715884105728 <= (acc as int) * (x as int)
                <= 170141183460469231731687303715884105727) by (nonlinear_arith)
                requires
                    -9223372036854775808 <= acc <= 9223372036854775807,
                    -9223372036854775808 <= x <= 9223372036854775807,
            {
            }
        }
        let next: i128 = acc * (x as i128);
        proof {
            assert(spec_pow(x as int, k as int + 1) == (x as int) * spec_pow(x as int, k as int));
            assert(next == spec_pow(x as int, k as int + 1));
        }
        if next > i64::MAX as i128 || next < i64::MIN as i128 {
            proof {
                let rest = y as int - (k as int + 1);
                lemma_pow_split(x as int, k as int + 1, rest);
                let p = spec_pow(x as int, rest);
                let whole = spec_pow(x as int, y as int);
                assert(whole == next * p);
                if rest == 0 {
                    assert(p == 1);
                    assert(next * 1 == next);
                    assert(!fits_i64(whole));
                } else {
                    lemma_pow_mag2(x as int, rest);
                    assert(whole > i64::MAX || whole < i64::MIN) by (nonlinear_arith)
                        requires
                            whole == (next as int) * p,
                            p <= -2 || p >= 2,
                            next > i64::MAX || next < i64::MIN,
                    {
                    }
                    assert(!fits_i64(whole));
                }
            }
            return Err(FormulaError::new(FormulaErrorMsg::Overflow));
        }
        acc = next;
        k = k + 1;
    }
    Ok(Value::Number(acc as i64))
}

/// Exact integer exponentiation: errors on a negative exponent or when the
/// exact result leaves the representable range.
fn pow_exact(x: i64, y: i64) -> (r: Result<Value, FormulaError>)
    ensures
        res_view(r) == spec_apply_arith(BinaryOpKind::Pow, x as int, y as int),
{
    if y < 0 {
        Err(FormulaError::new(FormulaErrorMsg::Overflow))
    } else if x == 0 {
        if y == 0 {
            Ok(Value::Number(1))
        } else {
            proof {
                lemma_pow_zero(y as int);
            }
            Ok(Value::Number(0))
        }
    } else if x == 1 {
        proof {
            lemma_pow_one(y as int);
        }
        Ok(Value::Number(1))
    } else if x == -1 {
        proof {
            lemma_pow_neg_one(y as int);
        }
        if (y as u64) % 2 == 0 {
            Ok(Value::Number(1))
        } else {
            Ok(Value::Number(-1))
        }
    } else {
        pow_big(x, y)
    }
}

/// Exact integer division: errors on a zero divisor and when the quotient is
/// not an integer or leaves the representable range.
fn div_exact(x: i64, y: i64) -> (r: Result<Value, FormulaError>)
    ensures
        res_view(r) == spec_apply_arith(BinaryOpKind::Div, x as int, y as int),
{
    if y == 0 {
        return Err(FormulaError::new(FormulaErrorMsg::DivideByZero));
    }
    let ax: u64 = if x >= 0 {
        x as u64
    } else {
        (-(x as i128)) as u64
    };
    let ay: u64 = if y >= 0 {
        y as u64
    } else {
        (-(y as i128)) as u64
    };
    proof {
        assert(ax as int == abs(x as int));
        assert(ay as int == abs(y as int));
    }
    let q = ax / ay;
    let rem = ax % ay;
    proof {
        vstd::arithmetic::div_mod::lemma_fundamental_div_mod(ax as int, ay as int);
    }
    if rem != 0 {
        proof {
            assert(!(exists|k: int| x as int == #[trigger] (k * (y as int)))) by {
                if exists|k: int| x as int == #[trigger] (k * (y as int)) {
                    let k = choose|k: int| x as int == #[trigger] (k * (y as int));
                    assert(abs(k * (y as int)) == abs(k) * abs(y as int)) by (nonlinear_arith);
                    assert(ax as int == abs(k) * (ay as int));
                    vstd::arithmetic::div_mod::lemma_fundamental_div_mod_converse(
                        ax as int,
                        ay as int,
                        abs(k) as int,
                        0,
                    );
                    assert(ax as int % ay as int == 0);
                    assert(false);
                }
            }
        }
        return Err(FormulaError::new(FormulaErrorMsg::Overflow));
    }
    let neg: bool = (x < 0) != (y < 0);
    let value: i128 = if neg {
        -(q as i128)
    } else {
        q as i128
    };
    proof {
        assert(ax as int == (ay as int) * (ax as int / ay as int) + (ax as int % ay as int));
        assert(q as int == ax as int / ay as int);
        assert(rem as int == ax as int % ay as int);
        assert(rem == 0);
        assert((ay as int) * (ax as int / ay as int) == (ay as int) * (q as int)) by (nonlinear_arith)
            requires
                q as int == ax as int / ay as int,
        {
        }
        assert(ax as int == (q as int) * (ay as int));
        assert(x as int == value * (y as int)) by (nonlinear_arith)
            requires
                ax as int == q * (ay as int),
                ax as int == abs(x as int),
                ay as int == abs(y as int),
                y != 0,
                value == if (x < 0) != (y < 0) {
                    -(q as int)
                } else {
                    q as int
                },
        {
        }
        let w = choose|k: int| x as int == #[trigger] (k * (y as int));
        assert(w == value) by (nonlinear_arith)
            requires
                x as int == w * (y as int),
                x as int == value * (y as int),
                y != 0,
        {
        }
    }
    if value > i64::MAX as i128 || value < i64::MIN as i128 {
        Err(FormulaError::new(FormulaErrorMsg::Overflow))
    } else {
        Ok(Value::Number(value as i64))
    }
}

// ---------------------------------------------------------------------------
// Executable operator application.
// ---------------------------------------------------------------------------

fn apply_unary(op: UnaryOpKind, v: &Value) -> (r: Result<Value, FormulaError>)
    ensures
        res_view(r) == spec_apply_unary(op, v@),
{
    match v.to_number() {
        None => Err(FormulaError::new(FormulaErrorMsg::TypeMismatch)),
        Some(n) => match op {
            UnaryOpKind::Plus => Ok(Value::Number(n)),
            UnaryOpKind::Neg => {
                if n == i64::MIN {
                    Err(FormulaError::new(FormulaErrorMsg::Overflow))
                } else {
                    Ok(Value::Number(-n))
                }
            },
        },
    }
}

fn apply_arith(op: BinaryOpKind, x: i64, y: i64) -> (r: Result<Value, FormulaError>)
    requires
        op == BinaryOpKind::Add || op == BinaryOpKind::Sub || op == BinaryOpKind::Mul || op
            == BinaryOpKind::Div || op == BinaryOpKind::Pow,
    ensures
        res_view(r) == spec_apply_arith(op, x as int, y as int),
{
    match op {
        BinaryOpKind::Add => {
            let s: i128 = x as i128 + y as i128;
            if s >= i64::MIN as i128 && s <= i64::MAX as i128 {
                Ok(Value::Number(s as i64))
            } else {
                Err(FormulaError::new(FormulaErrorMsg::Overflow))
            }
        },
        BinaryOpKind::Sub => {
            let s: i128 = x as i128 - y as i128;
            if s >= i64::MIN as i128 && s <= i64::MAX as i128 {
                Ok(Value::Number(s as i64))
            } else {
                Err(FormulaError::new(FormulaErrorMsg::Overflow))
            }
        },
        BinaryOpKind::Mul => {
            proof {
                assert(-170141183460469231731687303715884105728 <= (x as int) * (y as int)
                    <= 170141183460469231731687303715884105727) by (nonlinear_arith)
                    requires
                        -9223372036854775808 <= x <= 9223372036854775807,
                        -9223372036854775808 <= y <= 9223372036854775807,
                {
                }
            }
            let s: i128 = x as i128 * y as i128;
            if s >= i64::MIN as i128 && s <= i64::MAX as i128 {
                Ok(Value::Number(s as i64))
            } else {
                Err(FormulaError::new(FormulaErrorMsg::Overflow))
            }
        },
        BinaryOpKind::Div => div_exact(x, y),
        _ => pow_exact(x, y),
    }
}

fn apply_binary(op: BinaryOpKind, a: &Value, b: &Value) -> (r: Result<Value, FormulaError>)
    ensures
        res_view(r) == spec_apply_binary(op, a@, b@),
{
    match op {
        BinaryOpKind::Concat => {
            let ta = a.to_string();
            let tb = b.to_string();
            Ok(Value::Text(ta.concat(tb.as_str())))
        },
        BinaryOpKind::CmpEq | BinaryOpKind::CmpNe | BinaryOpKind::CmpLt | BinaryOpKind::CmpGt
            | BinaryOpKind::CmpLe | BinaryOpKind::CmpGe => {
            match (a.to_number(), b.to_number()) {
                (Some(x), Some(y)) => {
                    let v = match op {
                        BinaryOpKind::CmpEq => x == y,
                        BinaryOpKind::CmpNe => x != y,
                        BinaryOpKind::CmpLt => x < y,
                        BinaryOpKind::CmpGt => x > y,
                        BinaryOpKind::CmpLe => x <= y,
                        _ => x >= y,
                    };
                    Ok(Value::Bool(v))
                },
                _ => {
                    let ta = a.to_string();
                    let tb = b.to_string();
                    let eq = crate::text::str_eq(ta.as_str(), tb.as_str());
                    let lt = crate::text::str_lt(ta.as_str(), tb.as_str());
                    let gt = crate::text::str_lt(tb.as_str(), ta.as_str());
                    let v = match op {
                        BinaryOpKind::CmpEq => eq,
                        BinaryOpKind::CmpNe => !eq,
                        BinaryOpKind::CmpLt => lt,
                        BinaryOpKind::CmpGt => gt,
                        BinaryOpKind::CmpLe => lt || eq,
                        _ => gt || eq,
                    };
                    Ok(Value::Bool(v))
                },
            }
        },
        _ => {
            match (a.to_number(), b.to_number()) {
                (Some(x), Some(y)) => apply_arith(op, x, y),
                _ => Err(FormulaError::new(FormulaErrorMsg::TypeMismatch)),
            }
        },
    }
}

// ---------------------------------------------------------------------------
// The tree walker.
// ---------------------------------------------------------------------------

fn eval_ref<G: GridProxy>(r: &CellRef, grid: &G, pos: Pos) -> (res: Result<Value, FormulaError>)
    ensures
        res_view(res) == spec_eval_ref(*r, grid.grid(), pos),
{
    match r.resolve(pos) {
        None => Err(FormulaError::new(FormulaErrorMsg::InvalidReference)),
        Some(target) => {
            if target == pos {
                Err(FormulaError::new(FormulaErrorMsg::CircularReference))
            } else {
                match grid.get(target) {
                    None => Ok(Value::Blank),
                    Some(s) => match crate::value::num_of_str(s.as_str()) {
                        Some(n) => Ok(Value::Number(n)),
                        None => Ok(Value::Text(s)),
                    },
                }
            }
        },
    }
}

fn eval_node<G: GridProxy>(ast: &AstNode, grid: &G, pos: Pos) -> (r: Result<Value, FormulaError>)
    ensures
        res_view(r) == spec_eval(*ast, grid.grid(), pos),
    decreases *ast,
{
    match ast {
        AstNode::Number(n) => Ok(Value::Number(*n)),
        AstNode::Text(s) => Ok(Value::Text(s.clone())),
        AstNode::Bool(b) => Ok(Value::Bool(*b)),
        AstNode::CellRef(cr) => eval_ref(cr, grid, pos),
        AstNode::Unary(op, a) => match eval_node(&**a, grid, pos) {
            Err(e) => Err(e),
            Ok(v) => apply_unary(*op, &v),
        },
        AstNode::Binary(op, a, b) => match eval_node(&**a, grid, pos) {
            Err(e) => Err(e),
            Ok(va) => match eval_node(&**b, grid, pos) {
                Err(e) => Err(e),
                Ok(vb) => apply_binary(*op, &va, &vb),
            },
        },
        AstNode::FuncCall(name, args) => {
            let is_sum = crate::text::str_eq(name.as_str(), "SUM");
            let is_if = crate::text::str_eq(name.as_str(), "IF");
            proof {
                reveal_strlit("SUM");
                reveal_strlit("IF");
                assert("SUM"@ =~= sum_name());
                assert("IF"@ =~= if_name());
            }
            if is_sum {
                eval_sum(args, grid, pos)
            } else if is_if {
                if args.len() != 3 {
                    Err(FormulaError::new(FormulaErrorMsg::WrongArity))
                } else {
                    proof {
                        assert(decreases_to!(*ast => args@[0]));
                        assert(decreases_to!(*ast => args@[1]));
                        assert(decreases_to!(*ast => args@[2]));
                    }
                    match eval_node(&args[0], grid, pos) {
                        Err(e) => Err(e),
                        Ok(c) => match c.to_bool() {
                            None => Err(FormulaError::new(FormulaErrorMsg::TypeMismatch)),
                            Some(cond) => {
                                if cond {
                                    eval_node(&args[1], grid, pos)
                                } else {
                                    eval_node(&args[2], grid, pos)
                                }
                            },
                        },
                    }
                }
            } else {
                Err(FormulaError::new(FormulaErrorMsg::UnknownFunction))
            }
        },
    }
}

/// The aggregate function: evaluates every argument left to right, coerces
/// each to a number (blanks count as zero), and sums exactly.
fn eval_sum<G: GridProxy>(args: &Vec<AstNode>, grid: &G, pos: Pos) -> (r: Result<
    Value,
    FormulaError,
>)
    ensures
        res_view(r) == (match spec_sum_args(args@, grid.grid(), pos) {
            Err(e) => Err(e),
            Ok(t) => if fits_i64(t) {
                Ok(SpecValue::Num(t))
            } else {
                Err(FormulaErrorMsg::Overflow)
            },
        }),
    decreases args@,
{
    let ghost g = grid.grid();
    proof {
        assert(args@.subrange(0, args@.len() as int) =~= args@);
    }
    let mut total: i128 = 0;
    let mut i: usize = 0;
    while i < args.len()
        invariant
            i <= args@.len(),
            -(i as int) * 9223372036854775808 <= total <= (i as int) * 9223372036854775807,
            spec_sum_args(args@, g, pos) == (match spec_sum_args(
                args@.subrange(i as int, args@.len() as int),
                g,
                pos,
            ) {
                Err(e) => Err::<int, FormulaErrorMsg>(e),
                Ok(t) => Ok(total + t),
            }),
            g == grid.grid(),
        decreases args@.len() - i,
    {
        let ghost rest = args@.subrange(i as int, args@.len() as int);
        proof {
            assert(rest[0] == args@[i as int]);
            assert(rest.subrange(1, rest.len() as int) =~= args@.subrange(
                i + 1,
                args@.len() as int,
            ));
            assert(decreases_to!(args@ => args@[i as int]));
        }
        match eval_node(&args[i], grid, pos) {
            Err(e) => {
                return Err(e);
            },
            Ok(v) => match v.to_number() {
                None => {
                    return Err(FormulaError::new(FormulaErrorMsg::TypeMismatch));
                },
                Some(x) => {
                    total = total + x as i128;
                    i = i + 1;
                },
            },
        }
    }
    proof {
        assert(args@.subrange(i as int, args@.len() as int) =~= Seq::<AstNode>::empty());
    }
    if total >= i64::MIN as i128 && total <= i64::MAX as i128 {
        Ok(Value::Number(total as i64))
    } else {
        Err(FormulaError::new(FormulaErrorMsg::Overflow))
    }
}

impl Formula {
    /// Evaluates the parsed tree at `pos` against the supplied read
    /// capability: a pure function of the tree, the grid content, and the
    /// position, re-callable at any position without re-parsing.
    pub fn eval<G: GridProxy>(&self, grid: &G, pos: Pos) -> (r: Result<Value, FormulaError>)
        ensures
            res_view(r) == spec_eval(self.ast, grid.grid(), pos),
    {
        eval_node(&self.ast, grid, pos)
    }
}

} // verus!
