//! The scalar function registry.
//!
//! A scalar function is a named, typed, pure column transformation: it maps
//! an ordered sequence of cells (nulls included) to an equally long sequence
//! of cells of its declared output type, preserving null positions.  The
//! planner dispatches on the function's registered record, never on dynamic
//! typing; the body is one of a closed set of kernels.

use vstd::prelude::*;
use crate::value::{bytes_eq, val_ok, FieldType, ValSpec, Value};

verus! {

/// The pure column transformations this library ships.
#[derive(Clone, Copy, PartialEq, Eq, Structural, Debug)]
pub enum Kernel {
    /// Label a fixed-point amount: strictly above `5000.00` is high value.
    ClassifyTransaction,
}

/// A registered scalar function.
pub struct ScalarFunction {
    pub name: Vec<u8>,
    pub input_type: FieldType,
    pub output_type: FieldType,
    /// Whether equal inputs may be assumed to give equal results within one
    /// evaluation; metadata only, never used to skip evaluation.
    pub deterministic: bool,
    pub kernel: Kernel,
}

/// The abstract form of a [`ScalarFunction`].
#[verifier::ext_equal]
pub struct ScalarFunctionS {
    pub name: Seq<u8>,
    pub input_type: FieldType,
    pub output_type: FieldType,
    pub deterministic: bool,
    pub kernel: Kernel,
}

impl View for ScalarFunction {
    type V = ScalarFunctionS;

    open spec fn view(&self) -> ScalarFunctionS {
        ScalarFunctionS {
            name: self.name@,
            input_type: self.input_type,
            output_type: self.output_type,
            deterministic: self.deterministic,
            kernel: self.kernel,
        }
    }
}

impl DeepView for ScalarFunction {
    type V = ScalarFunctionS;

    open spec fn deep_view(&self) -> ScalarFunctionS {
        self.view()
    }
}

/// The text `"High Value"`.
pub open spec fn high_value_text() -> Seq<u8> {
    seq![72u8, 105u8, 103u8, 104u8, 32u8, 86u8, 97u8, 108u8, 117u8, 101u8]
}

/// The text `"Regular"`.
pub open spec fn regular_text() -> Seq<u8> {
    seq![82u8, 101u8, 103u8, 117u8, 108u8, 97u8, 114u8]
}

/// The name `classify_transaction`.
pub open spec fn classify_name() -> Seq<u8> {
    seq![99u8, 108u8, 97u8, 115u8, 115u8, 105u8, 102u8, 121u8, 95u8, 116u8, 114u8, 97u8, 110u8,
        115u8, 97u8, 99u8, 116u8, 105u8, 111u8, 110u8]
}

/// What one kernel makes of one cell; `None` is a type mismatch between the
/// supplied cell and the kernel's declared input type.
pub open spec fn kernel_cell(k: Kernel, v: ValSpec) -> Option<ValSpec> {
    match k {
        Kernel::ClassifyTransaction => match v {
            ValSpec::Null => Some(ValSpec::Null),
            ValSpec::Dec(d) => if d > 500000 {
                Some(ValSpec::Text(high_value_text()))
            } else {
                Some(ValSpec::Text(regular_text()))
            },
            _ => None,
        },
    }
}

/// Every cell of the column matches the kernel's input type.
pub open spec fn eval_ok(k: Kernel, col: Seq<ValSpec>) -> bool {
    forall|i: int| 0 <= i < col.len() ==> kernel_cell(k, #[trigger] col[i]) is Some
}

/// The column a kernel produces.
pub open spec fn eval_col(k: Kernel, col: Seq<ValSpec>) -> Seq<ValSpec> {
    Seq::new(col.len(), |i: int| kernel_cell(k, col[i])->0)
}

/// A kernel output is as long as its input and null exactly where the input
/// is null.
pub proof fn lemma_eval_preserves_shape(k: Kernel, col: Seq<ValSpec>)
    requires
        eval_ok(k, col),
    ensures
        eval_col(k, col).len() == col.len(),
        forall|i: int| 0 <= i < col.len() ==> ((#[trigger] eval_col(k, col)[i]) is Null <==> col[i]
            is Null),
{
    assert forall|i: int| 0 <= i < col.len() implies ((#[trigger] eval_col(k, col)[i]) is Null
        <==> col[i] is Null) by {
        assert(kernel_cell(k, col[i]) is Some);
    }
}

/// The registered signature of `classify_transaction` is honest: its kernel
/// accepts exactly the cells of its declared fixed-point input type (nulls
/// included), and everything it produces conforms to its declared text
/// output type (or is null).
pub proof fn lemma_classify_signature()
    ensures
        forall|v: ValSpec|
            kernel_cell(Kernel::ClassifyTransaction, v) is Some <==> (v is Dec || v is Null),
        forall|v: ValSpec|
            kernel_cell(Kernel::ClassifyTransaction, v) is Some ==> val_ok(
                kernel_cell(Kernel::ClassifyTransaction, v)->0,
                FieldType::TextType,
                true,
            ),
{
}

/// The byte string `"High Value"`.
pub fn high_value_bytes() -> (r: Vec<u8>)
    ensures
        r@ == high_value_text(),
{
    let mut r: Vec<u8> = Vec::new();
    r.push(72);
    r.push(105);
    r.push(103);
    r.push(104);
    r.push(32);
    r.push(86);
    r.push(97);
    r.push(108);
    r.push(117);
    r.push(101);
    proof {
        assert(r@ =~= high_value_text());
    }
    r
}

/// The byte string `"Regular"`.
pub fn regular_bytes() -> (r: Vec<u8>)
    ensures
        r@ == regular_text(),
{
    let mut r: Vec<u8> = Vec::new();
    r.push(82);
    r.push(101);
    r.push(103);
    r.push(117);
    r.push(108);
    r.push(97);
    r.push(114);
    proof {
        assert(r@ =~= regular_text());
    }
    r
}

/// The byte string `"classify_transaction"`.
pub fn classify_name_bytes() -> (r: Vec<u8>)
    ensures
        r@ == classify_name(),
{
    let mut r: Vec<u8> = Vec::new();
    r.push(99);
    r.push(108);
    r.push(97);
    r.push(115);
    r.push(115);
    r.push(105);
    r.push(102);
    r.push(121);
    r.push(95);
    r.push(116);
    r.push(114);
    r.push(97);
    r.push(110);
    r.push(115);
    r.push(97);
    r.push(99);
    r.push(116);
    r.push(105);
    r.push(111);
    r.push(110);
    proof {
        assert(r@ =~= classify_name());
    }
    r
}

/// Apply one kernel to one cell.
pub fn apply_kernel(k: Kernel, v: &Value) -> (r: Option<Value>)
    ensures
        match r {
            Some(out) => kernel_cell(k, v@) == Some(out@),
            None => kernel_cell(k, v@) is None,
        },
{
    match k {
        Kernel::ClassifyTransaction => match v {
            Value::Null => Some(Value::Null),
            Value::Dec(d) => if *d > 500000 {
                Some(Value::Text(high_value_bytes()))
            } else {
                Some(Value::Text(regular_bytes()))
            },
            _ => None,
        },
    }
}

/// A scalar function evaluation fault: some supplied cell does not match the
/// function's declared input type.
#[derive(Clone, Copy, PartialEq, Eq, Structural, Debug)]
pub enum EvaluationError {
    ArgumentTypeMismatch,
}

/// Evaluate a scalar function over one column.
///
/// Succeeds exactly when every cell matches the declared input type; the
/// output column then has the same length, with nulls exactly where the
/// input has them.  A single mismatched cell fails the whole column: no
/// partially evaluated result is ever returned.
pub fn eval_scalar(f: &ScalarFunction, col: &Vec<Value>) -> (r: Result<Vec<Value>, EvaluationError>)
    ensures
        match r {
            Ok(out) => eval_ok(f.kernel, col.deep_view()) && out.deep_view() == eval_col(
                f.kernel,
                col.deep_view(),
            ),
            Err(_) => !eval_ok(f.kernel, col.deep_view()),
        },
{
    let ghost cs = col.deep_view();
    let mut out: Vec<Value> = Vec::new();
    let mut i: usize = 0;
    while i < col.len()
        invariant
            i <= col@.len(),
            cs == col.deep_view(),
            cs.len() == col@.len(),
            forall|j: int| 0 <= j < i ==> kernel_cell(f.kernel, #[trigger] cs[j]) is Some,
            out.deep_view() =~= Seq::new(i as nat, |j: int| kernel_cell(f.kernel, cs[j])->0),
        decreases col.len() - i,
    {
        proof {
            assert(col@[i as int]@ == cs[i as int]);
        }
        match apply_kernel(f.kernel, &col[i]) {
            Some(v) => {
                let ghost prev = out.deep_view();
                let ghost vv = v@;
                out.push(v);
                proof {
                    assert(out.deep_view() =~= prev.push(vv));
                    assert(out.deep_view() =~= Seq::new(
                        (i + 1) as nat,
                        |j: int| kernel_cell(f.kernel, cs[j])->0,
                    ));
                }
            },
            None => {
                proof {
                    assert(!eval_ok(f.kernel, cs));
                }
                return Err(EvaluationError::ArgumentTypeMismatch);
            },
        }
        i = i + 1;
    }
    proof {
        assert(out.deep_view() =~= eval_col(f.kernel, cs));
    }
    Ok(out)
}

/// Why a function registration was rejected.
#[derive(Clone, Copy, PartialEq, Eq, Structural, Debug)]
pub enum FunctionRegistrationError {
    DuplicateName,
}

/// The named scalar functions available to queries.
pub struct FunctionRegistry {
    pub funcs: Vec<ScalarFunction>,
}

impl View for FunctionRegistry {
    type V = Seq<ScalarFunctionS>;

    open spec fn view(&self) -> Seq<ScalarFunctionS> {
        self.funcs.deep_view()
    }
}

/// Index of the first function named `n`, if any.
pub open spec fn find_func(s: Seq<ScalarFunctionS>, n: Seq<u8>, i: int) -> Option<int>
    decreases s.len() - i,
{
    if i < 0 || i >= s.len() {
        None
    } else if s[i].name == n {
        Some(i)
    } else {
        find_func(s, n, i + 1)
    }
}

impl FunctionRegistry {
    /// An empty registry.
    pub fn new() -> (r: FunctionRegistry)
        ensures
            r@ == Seq::<ScalarFunctionS>::empty(),
    {
        let r = FunctionRegistry { funcs: Vec::new() };
        proof {
            assert(r@ =~= Seq::<ScalarFunctionS>::empty());
        }
        r
    }
}

/// Look a function up by name.
pub fn lookup_function(reg: &FunctionRegistry, n: &Vec<u8>) -> (r: Option<usize>)
    ensures
        match r {
            Some(j) => find_func(reg@, n@, 0) == Some(j as int) && j < reg@.len() && reg@[
                j as int
            ].name == n@,
            None => find_func(reg@, n@, 0) is None,
        },
{
    let mut i: usize = 0;
    while i < reg.funcs.len()
        invariant
            i <= reg.funcs@.len(),
            reg.funcs@.len() == reg@.len(),
            find_func(reg@, n@, 0) == find_func(reg@, n@, i as int),
        decreases reg.funcs.len() - i,
    {
        proof {
            assert(reg.funcs@[i as int]@.name == reg@[i as int].name);
        }
        if bytes_eq(&reg.funcs[i].name, n) {
            return Some(i);
        }
        i = i + 1;
    }
    None
}

/// Register one scalar function.
///
/// Succeeds exactly when no function of that name is registered yet, and
/// then appends the record; a duplicate name leaves the registry unchanged
/// and reports [`FunctionRegistrationError::DuplicateName`].
pub fn register_scalar_function(reg: &mut FunctionRegistry, f: ScalarFunction) -> (r: Result<
    (),
    FunctionRegistrationError,
>)
    ensures
        match r {
            Ok(()) => find_func(old(reg)@, f@.name, 0) is None && final(reg)@ == old(reg)@.push(
                f@,
            ),
            Err(_) => find_func(old(reg)@, f@.name, 0) is Some && final(reg)@ == old(reg)@,
        },
{
    match lookup_function(reg, &f.name) {
        Some(_) => Err(FunctionRegistrationError::DuplicateName),
        None => {
            let ghost prev = reg@;
            let ghost fv = f@;
            reg.funcs.push(f);
            proof {
                assert(reg@ =~= prev.push(fv));
            }
            Ok(())
        },
    }
}

/// The scalar function record for `classify_transaction`: one fixed-point
/// input column, one text output column, deterministic.
pub fn classify_transaction_function() -> (r: ScalarFunction)
    ensures
        r@ == classify_function_spec(),
{
    ScalarFunction {
        name: classify_name_bytes(),
        input_type: FieldType::DecType,
        output_type: FieldType::TextType,
        deterministic: true,
        kernel: Kernel::ClassifyTransaction,
    }
}

/// The abstract record of `classify_transaction`.
pub open spec fn classify_function_spec() -> ScalarFunctionS {
    ScalarFunctionS {
        name: classify_name(),
        input_type: FieldType::DecType,
        output_type: FieldType::TextType,
        deterministic: true,
        kernel: Kernel::ClassifyTransaction,
    }
}

/// Register the scalar functions this library ships.
pub fn register_udfs(reg: &mut FunctionRegistry) -> (r: Result<(), FunctionRegistrationError>)
    ensures
        match r {
            Ok(()) => find_func(old(reg)@, classify_name(), 0) is None && final(reg)@ == old(
                reg,
            )@.push(classify_function_spec()),
            Err(_) => find_func(old(reg)@, classify_name(), 0) is Some && final(reg)@ == old(
                reg,
            )@,
        },
{
    register_scalar_function(reg, classify_transaction_function())
}

} // verus!
