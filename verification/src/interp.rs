use vstd::prelude::*;

use crate::ast::{
    body_wf, expr_wf, seq_word_elem_view, Definition, DefV, ElemV, Expression, ExpressionElement,
    Line, LineV, Statement, StmtV, WordElemV, WordElement,
};
use crate::errors::ForthError;
use crate::host::{char_of, is_scalar_value, str_eq};
use crate::literal::{arr_wf, lit_wf, literal_cmp, seq_lit_view, spec_lit_cmp, ArrV, Literal, LitV, Pointer};
use crate::text::lit_text;
use crate::stack::Stack;
use crate::variable::{var_wf, Variable, VarV};

verus! {

/// The native memory-unit size used to scale element counts into
/// addressable offsets.
pub const CELL_SIZE: i64 = 1;

/// How deep user-word invocation may recurse before the interpreter
/// gives up with `OtherError`; word lookup is late bound, so nothing
/// else bounds it.
pub const CALL_DEPTH_LIMIT: u64 = 64;

// ---------------------------------------------------------------------
// The mathematical interpreter state.
// ---------------------------------------------------------------------
/// The mathematical value of the whole interpreter: the data stack,
/// the variable store, the constant and user-word tables, and the two
/// injected character-I/O buffers.
#[verifier::ext_equal]
pub struct InterpV {
    pub stack: Seq<LitV>,
    pub vars: Seq<VarV>,
    pub consts: Seq<(Seq<char>, LitV)>,
    pub words: Seq<(Seq<char>, Seq<WordElemV>)>,
    pub input: Seq<char>,
    pub output: Seq<char>,
}

/// One interpreter step: the state after it, and its outcome.
pub type StepV = (InterpV, Result<(), ForthError>);

/// The state of a freshly constructed interpreter.
pub open spec fn init_state() -> InterpV {
    InterpV {
        stack: Seq::empty(),
        vars: Seq::empty(),
        consts: Seq::empty(),
        words: Seq::empty(),
        input: Seq::empty(),
        output: Seq::empty(),
    }
}

/// Validity of a state: every literal reachable from it is well
/// formed.
pub open spec fn wf_state(s: InterpV) -> bool {
    &&& forall|i: int| 0 <= i < s.stack.len() ==> lit_wf(#[trigger] s.stack[i])
    &&& forall|i: int| 0 <= i < s.vars.len() ==> var_wf(#[trigger] s.vars[i])
    &&& forall|i: int| 0 <= i < s.consts.len() ==> lit_wf(#[trigger] s.consts[i].1)
    &&& forall|i: int| 0 <= i < s.words.len() ==> body_wf(#[trigger] s.words[i].1)
}

pub open spec fn with_stack(s: InterpV, st: Seq<LitV>) -> InterpV {
    InterpV { stack: st, ..s }
}

pub open spec fn with_vars(s: InterpV, vars: Seq<VarV>) -> InterpV {
    InterpV { vars, ..s }
}

pub open spec fn with_consts(s: InterpV, consts: Seq<(Seq<char>, LitV)>) -> InterpV {
    InterpV { consts, ..s }
}

pub open spec fn with_words(s: InterpV, words: Seq<(Seq<char>, Seq<WordElemV>)>) -> InterpV {
    InterpV { words, ..s }
}

pub open spec fn with_input(s: InterpV, input: Seq<char>) -> InterpV {
    InterpV { input, ..s }
}

pub open spec fn with_output(s: InterpV, output: Seq<char>) -> InterpV {
    InterpV { output, ..s }
}

/// The state with `l` pushed on the data stack.
pub open spec fn push_v(s: InterpV, l: LitV) -> InterpV {
    with_stack(s, s.stack.push(l))
}

pub open spec fn ok(s: InterpV) -> StepV {
    (s, Ok(()))
}

pub open spec fn err(s: InterpV, e: ForthError) -> StepV {
    (s, Err(e))
}

// ---------------------------------------------------------------------
// Table lookups.
// ---------------------------------------------------------------------
/// The first slot with the given name, or `vars.len()` when absent.
pub open spec fn find_var_idx(vars: Seq<VarV>, name: Seq<char>) -> int
    decreases vars.len(),
{
    if vars.len() == 0 {
        0
    } else if vars[0].name == name {
        0
    } else {
        1 + find_var_idx(vars.skip(1), name)
    }
}

pub proof fn lemma_find_var_idx(vars: Seq<VarV>, name: Seq<char>)
    ensures
        0 <= find_var_idx(vars, name) <= vars.len(),
        find_var_idx(vars, name) < vars.len() ==> vars[find_var_idx(vars, name)].name == name,
    decreases vars.len(),
{
    if vars.len() > 0 && vars[0].name != name {
        lemma_find_var_idx(vars.skip(1), name);
    }
}

/// Overwriting the found slot's value leaves it the first slot with
/// that name.
proof fn lemma_find_var_update(vars: Seq<VarV>, name: Seq<char>, v: LitV)
    requires
        find_var_idx(vars, name) < vars.len(),
    ensures
        ({
            let k = find_var_idx(vars, name);
            let vars2 = vars.update(k, VarV { name: vars[k].name, value: Some(v) });
            &&& find_var_idx(vars2, name) == k
            &&& vars2[k].name == name
            &&& vars2[k].value == Some(v)
        }),
    decreases vars.len(),
{
    let k = find_var_idx(vars, name);
    lemma_find_var_idx(vars, name);
    let vars2 = vars.update(k, VarV { name: vars[k].name, value: Some(v) });
    if vars[0].name == name {
        assert(vars2[0].name == name);
    } else {
        assert(vars2[0] == vars[0]);
        assert(vars2.skip(1) =~= vars.skip(1).update(
            k - 1,
            VarV { name: vars.skip(1)[k - 1].name, value: Some(v) },
        ));
        lemma_find_var_update(vars.skip(1), name, v);
    }
}

/// Appending a fresh slot for an absent name makes it the first slot
/// with that name.
proof fn lemma_find_var_push(vars: Seq<VarV>, name: Seq<char>, v: LitV)
    requires
        find_var_idx(vars, name) == vars.len(),
    ensures
        ({
            let vars2 = vars.push(VarV { name, value: Some(v) });
            &&& find_var_idx(vars2, name) == vars.len()
            &&& vars2[vars.len() as int].name == name
            &&& vars2[vars.len() as int].value == Some(v)
        }),
    decreases vars.len(),
{
    let vars2 = vars.push(VarV { name, value: Some(v) });
    if vars.len() == 0 {
        assert(vars2[0].name == name);
    } else {
        assert(vars[0].name != name);
        assert(vars2[0] == vars[0]);
        assert(vars2.skip(1) =~= vars.skip(1).push(VarV { name, value: Some(v) }));
        lemma_find_var_push(vars.skip(1), name, v);
    }
}

/// After [`spec_set_variable`], the first slot with the given name
/// holds exactly the bound value.
pub proof fn lemma_set_variable_binds(s: InterpV, name: Seq<char>, v: LitV)
    ensures
        ({
            let s2 = spec_set_variable(s, name, v);
            let k = find_var_idx(s2.vars, name);
            &&& k < s2.vars.len()
            &&& s2.vars[k].name == name
            &&& s2.vars[k].value == Some(v)
        }),
{
    let i = find_var_idx(s.vars, name);
    lemma_find_var_idx(s.vars, name);
    if i < s.vars.len() {
        lemma_find_var_update(s.vars, name, v);
    } else {
        lemma_find_var_push(s.vars, name, v);
    }
}

/// The value bound to `k` in an association list, first match wins.
pub open spec fn assoc_find<V>(m: Seq<(Seq<char>, V)>, k: Seq<char>) -> Option<V>
    decreases m.len(),
{
    if m.len() == 0 {
        None
    } else if m[0].0 == k {
        Some(m[0].1)
    } else {
        assoc_find(m.skip(1), k)
    }
}

/// Binds `k` to `v`: replaces the first pair with that key, or
/// appends a new pair.
pub open spec fn assoc_set<V>(m: Seq<(Seq<char>, V)>, k: Seq<char>, v: V) -> Seq<(Seq<char>, V)>
    decreases m.len(),
{
    if m.len() == 0 {
        seq![(k, v)]
    } else if m[0].0 == k {
        seq![(k, v)] + m.skip(1)
    } else {
        seq![m[0]] + assoc_set(m.skip(1), k, v)
    }
}

/// Binds `name` in the variable store as the counted loop does: the
/// first slot with that name gets the value, or a new slot appears.
pub open spec fn spec_set_variable(s: InterpV, name: Seq<char>, v: LitV) -> InterpV {
    let i = find_var_idx(s.vars, name);
    if i < s.vars.len() {
        with_vars(s, s.vars.update(i, VarV { name: s.vars[i].name, value: Some(v) }))
    } else {
        with_vars(s, s.vars.push(VarV { name, value: Some(v) }))
    }
}

// ---------------------------------------------------------------------
// Popping operands.  Every operation validates operand shape at pop
// time; a failed pop leaves what was already popped off the stack, as
// effects are never rolled back.
// ---------------------------------------------------------------------
/// Pops the top of the stack.
pub open spec fn spec_pop1(s: InterpV) -> (InterpV, Result<LitV, ForthError>) {
    if s.stack.len() == 0 {
        (s, Err(ForthError::StackUnderflow))
    } else {
        (with_stack(s, s.stack.drop_last()), Ok(s.stack.last()))
    }
}

/// Pops two operands: the pair is `(a, b)` where `b` was on top.
pub open spec fn spec_pop2(s: InterpV) -> (InterpV, Result<(LitV, LitV), ForthError>) {
    if s.stack.len() == 0 {
        (s, Err(ForthError::StackUnderflow))
    } else if s.stack.len() == 1 {
        (with_stack(s, s.stack.drop_last()), Err(ForthError::StackUnderflow))
    } else {
        (
            with_stack(s, s.stack.drop_last().drop_last()),
            Ok((s.stack[s.stack.len() - 2], s.stack.last())),
        )
    }
}

// ---------------------------------------------------------------------
// Truth of literals.
// ---------------------------------------------------------------------
/// Boolean coercion: `Integer(-1)` is true, any other integer is
/// false, a string is true; coercing anything else is a contract
/// violation.
pub open spec fn spec_truth(l: LitV) -> Option<bool> {
    match l {
        LitV::Int(i) => Some(i == -1),
        LitV::Str(_) => Some(true),
        _ => None,
    }
}

// ---------------------------------------------------------------------
// The native words.
// ---------------------------------------------------------------------
/// The built-in operations, dispatched by name through one table.
#[derive(Debug, Clone, Copy, PartialEq, Eq, Structural)]
pub enum NativeWord {
    Print,
    Emit,
    Cr,
    Key,
    ReadWord,
    Add,
    Sub,
    Mul,
    Div,
    Mod,
    Negate,
    Abs,
    Max,
    Min,
    AddTo,
    SubFrom,
    MulBy,
    DivBy,
    Equal,
    Greater,
    Less,
    Invert,
    And,
    Or,
    Dup,
    DropTop,
    Swap,
    Over,
    Rot,
    Fetch,
    Store,
    Cells,
    Allot,
}


/// The names in the native dispatch table, in table order.
pub open spec fn native_names() -> Seq<Seq<char>> {
    seq![
        "."@,
        "emit"@,
        "cr"@,
        "key"@,
        "word"@,
        "+"@,
        "-"@,
        "*"@,
        "/"@,
        "mod"@,
        "negate"@,
        "abs"@,
        "max"@,
        "min"@,
        "+!"@,
        "-!"@,
        "*!"@,
        "/!"@,
        "="@,
        ">"@,
        "<"@,
        "invert"@,
        "and"@,
        "or"@,
        "dup"@,
        "drop"@,
        "swap"@,
        "over"@,
        "rot"@,
        "@"@,
        "!"@,
        "cells"@,
        "allot"@,
    ]
}

/// The dispatch table: which native word a name denotes.
pub open spec fn spec_native_of(name: Seq<char>) -> Option<NativeWord> {
    if name == "."@ {
        Some(NativeWord::Print)
    } else if name == "emit"@ {
        Some(NativeWord::Emit)
    } else if name == "cr"@ {
        Some(NativeWord::Cr)
    } else if name == "key"@ {
        Some(NativeWord::Key)
    } else if name == "word"@ {
        Some(NativeWord::ReadWord)
    } else if name == "+"@ {
        Some(NativeWord::Add)
    } else if name == "-"@ {
        Some(NativeWord::Sub)
    } else if name == "*"@ {
        Some(NativeWord::Mul)
    } else if name == "/"@ {
        Some(NativeWord::Div)
    } else if name == "mod"@ {
        Some(NativeWord::Mod)
    } else if name == "negate"@ {
        Some(NativeWord::Negate)
    } else if name == "abs"@ {
        Some(NativeWord::Abs)
    } else if name == "max"@ {
        Some(NativeWord::Max)
    } else if name == "min"@ {
        Some(NativeWord::Min)
    } else if name == "+!"@ {
        Some(NativeWord::AddTo)
    } else if name == "-!"@ {
        Some(NativeWord::SubFrom)
    } else if name == "*!"@ {
        Some(NativeWord::MulBy)
    } else if name == "/!"@ {
        Some(NativeWord::DivBy)
    } else if name == "="@ {
        Some(NativeWord::Equal)
    } else if name == ">"@ {
        Some(NativeWord::Greater)
    } else if name == "<"@ {
        Some(NativeWord::Less)
    } else if name == "invert"@ {
        Some(NativeWord::Invert)
    } else if name == "and"@ {
        Some(NativeWord::And)
    } else if name == "or"@ {
        Some(NativeWord::Or)
    } else if name == "dup"@ {
        Some(NativeWord::Dup)
    } else if name == "drop"@ {
        Some(NativeWord::DropTop)
    } else if name == "swap"@ {
        Some(NativeWord::Swap)
    } else if name == "over"@ {
        Some(NativeWord::Over)
    } else if name == "rot"@ {
        Some(NativeWord::Rot)
    } else if name == "@"@ {
        Some(NativeWord::Fetch)
    } else if name == "!"@ {
        Some(NativeWord::Store)
    } else if name == "cells"@ {
        Some(NativeWord::Cells)
    } else if name == "allot"@ {
        Some(NativeWord::Allot)
    } else {
        None
    }
}

/// Advancing a pointer by a signed cell count; a resulting offset
/// outside the machine range is a contract violation.
pub open spec fn spec_ptr_plus(s2: InterpV, p: Pointer, d: i64) -> StepV {
    let no = p.offset + d;
    if 0 <= no <= usize::MAX {
        ok(push_v(s2, LitV::Ptr(Pointer { address: p.address, offset: no as usize })))
    } else {
        err(s2, ForthError::InvalidOperands)
    }
}

/// `+`: integer addition (wrapping), or pointer-plus-integer in
/// either operand order.
pub open spec fn spec_add(s: InterpV) -> StepV {
    let (s2, r) = spec_pop2(s);
    match r {
        Err(e) => err(s2, e),
        Ok((a, b)) => match (a, b) {
            (LitV::Int(x), LitV::Int(y)) => ok(
                push_v(s2, LitV::Int(vstd::wrapping::i64_specs::wrapping_add(x, y))),
            ),
            (LitV::Int(x), LitV::Ptr(p)) => spec_ptr_plus(s2, p, x),
            (LitV::Ptr(p), LitV::Int(y)) => spec_ptr_plus(s2, p, y),
            _ => err(s2, ForthError::InvalidOperands),
        },
    }
}

/// `-`: integer subtraction (wrapping), left operand pushed first.
pub open spec fn spec_sub(s: InterpV) -> StepV {
    let (s2, r) = spec_pop2(s);
    match r {
        Err(e) => err(s2, e),
        Ok((a, b)) => match (a, b) {
            (LitV::Int(x), LitV::Int(y)) => ok(
                push_v(s2, LitV::Int(vstd::wrapping::i64_specs::wrapping_sub(x, y))),
            ),
            _ => err(s2, ForthError::InvalidOperands),
        },
    }
}

/// `*`: integer multiplication (wrapping).
pub open spec fn spec_mul(s: InterpV) -> StepV {
    let (s2, r) = spec_pop2(s);
    match r {
        Err(e) => err(s2, e),
        Ok((a, b)) => match (a, b) {
            (LitV::Int(x), LitV::Int(y)) => ok(
                push_v(s2, LitV::Int(vstd::wrapping::i64_specs::wrapping_mul(x, y))),
            ),
            _ => err(s2, ForthError::InvalidOperands),
        },
    }
}

/// `/`: truncated integer division; dividing by zero or overflowing
/// is a contract violation.
pub open spec fn spec_div(s: InterpV) -> StepV {
    let (s2, r) = spec_pop2(s);
    match r {
        Err(e) => err(s2, e),
        Ok((a, b)) => match (a, b) {
            (LitV::Int(x), LitV::Int(y)) => match x.checked_div(y) {
                Some(q) => ok(push_v(s2, LitV::Int(q))),
                None => err(s2, ForthError::InvalidOperands),
            },
            _ => err(s2, ForthError::InvalidOperands),
        },
    }
}

/// `mod`: remainder of truncated division; the same contract as `/`.
pub open spec fn spec_mod(s: InterpV) -> StepV {
    let (s2, r) = spec_pop2(s);
    match r {
        Err(e) => err(s2, e),
        Ok((a, b)) => match (a, b) {
            (LitV::Int(x), LitV::Int(y)) => match x.checked_rem(y) {
                Some(q) => ok(push_v(s2, LitV::Int(q))),
                None => err(s2, ForthError::InvalidOperands),
            },
            _ => err(s2, ForthError::InvalidOperands),
        },
    }
}

/// `negate`: arithmetic negation; the smallest integer negates to
/// itself (wrapping).
pub open spec fn spec_negate(s: InterpV) -> StepV {
    let (s2, r) = spec_pop1(s);
    match r {
        Err(e) => err(s2, e),
        Ok(a) => match a {
            LitV::Int(x) => ok(
                push_v(
                    s2,
                    LitV::Int(
                        if x == i64::MIN {
                            i64::MIN
                        } else {
                            (-x) as i64
                        },
                    ),
                ),
            ),
            _ => err(s2, ForthError::InvalidOperands),
        },
    }
}

/// `abs`: absolute value; the smallest integer stays itself
/// (wrapping).
pub open spec fn spec_abs(s: InterpV) -> StepV {
    let (s2, r) = spec_pop1(s);
    match r {
        Err(e) => err(s2, e),
        Ok(a) => match a {
            LitV::Int(x) => ok(
                push_v(
                    s2,
                    LitV::Int(
                        if x == i64::MIN {
                            i64::MIN
                        } else if x < 0 {
                            (-x) as i64
                        } else {
                            x
                        },
                    ),
                ),
            ),
            _ => err(s2, ForthError::InvalidOperands),
        },
    }
}

/// `max` and `min` on two integers.
pub open spec fn spec_max(s: InterpV) -> StepV {
    let (s2, r) = spec_pop2(s);
    match r {
        Err(e) => err(s2, e),
        Ok((a, b)) => match (a, b) {
            (LitV::Int(x), LitV::Int(y)) => ok(
                push_v(
                    s2,
                    LitV::Int(
                        if x >= y {
                            x
                        } else {
                            y
                        },
                    ),
                ),
            ),
            _ => err(s2, ForthError::InvalidOperands),
        },
    }
}

pub open spec fn spec_min(s: InterpV) -> StepV {
    let (s2, r) = spec_pop2(s);
    match r {
        Err(e) => err(s2, e),
        Ok((a, b)) => match (a, b) {
            (LitV::Int(x), LitV::Int(y)) => ok(
                push_v(
                    s2,
                    LitV::Int(
                        if x <= y {
                            x
                        } else {
                            y
                        },
                    ),
                ),
            ),
            _ => err(s2, ForthError::InvalidOperands),
        },
    }
}

/// `=`: pushes `-1` when the operands are equal, else `0`.
pub open spec fn spec_equal(s: InterpV) -> StepV {
    let (s2, r) = spec_pop2(s);
    match r {
        Err(e) => err(s2, e),
        Ok((a, b)) => ok(
            push_v(
                s2,
                LitV::Int(
                    if a == b {
                        -1i64
                    } else {
                        0i64
                    },
                ),
            ),
        ),
    }
}

/// `>` and `<`: ordered comparison under [`spec_lit_cmp`].
pub open spec fn spec_greater(s: InterpV) -> StepV {
    let (s2, r) = spec_pop2(s);
    match r {
        Err(e) => err(s2, e),
        Ok((a, b)) => ok(
            push_v(
                s2,
                LitV::Int(
                    if spec_lit_cmp(a, b) == Some(1int) {
                        -1i64
                    } else {
                        0i64
                    },
                ),
            ),
        ),
    }
}

pub open spec fn spec_less(s: InterpV) -> StepV {
    let (s2, r) = spec_pop2(s);
    match r {
        Err(e) => err(s2, e),
        Ok((a, b)) => ok(
            push_v(
                s2,
                LitV::Int(
                    if spec_lit_cmp(a, b) == Some(-1int) {
                        -1i64
                    } else {
                        0i64
                    },
                ),
            ),
        ),
    }
}

/// `invert`: pushes `-1` when the operand equals `Integer(0)`, else
/// `0`.
pub open spec fn spec_invert(s: InterpV) -> StepV {
    let (s2, r) = spec_pop1(s);
    match r {
        Err(e) => err(s2, e),
        Ok(a) => ok(
            push_v(
                s2,
                LitV::Int(
                    if a == LitV::Int(0) {
                        -1i64
                    } else {
                        0i64
                    },
                ),
            ),
        ),
    }
}

/// `and` and `or` under the `-1` is true convention: any operand
/// other than `Integer(0)` counts as true.
pub open spec fn spec_and(s: InterpV) -> StepV {
    let (s2, r) = spec_pop2(s);
    match r {
        Err(e) => err(s2, e),
        Ok((a, b)) => ok(
            push_v(
                s2,
                LitV::Int(
                    if a != LitV::Int(0) && b != LitV::Int(0) {
                        -1i64
                    } else {
                        0i64
                    },
                ),
            ),
        ),
    }
}

pub open spec fn spec_or(s: InterpV) -> StepV {
    let (s2, r) = spec_pop2(s);
    match r {
        Err(e) => err(s2, e),
        Ok((a, b)) => ok(
            push_v(
                s2,
                LitV::Int(
                    if a != LitV::Int(0) || b != LitV::Int(0) {
                        -1i64
                    } else {
                        0i64
                    },
                ),
            ),
        ),
    }
}

/// `dup`: copies the top of the stack.
pub open spec fn spec_dup(s: InterpV) -> StepV {
    if s.stack.len() == 0 {
        err(s, ForthError::StackUnderflow)
    } else {
        ok(push_v(s, s.stack.last()))
    }
}

/// `drop`: discards the top of the stack.
pub open spec fn spec_drop(s: InterpV) -> StepV {
    let (s2, r) = spec_pop1(s);
    match r {
        Err(e) => err(s2, e),
        Ok(_) => ok(s2),
    }
}

/// `swap`: exchanges the two topmost elements.
pub open spec fn spec_swap(s: InterpV) -> StepV {
    let (s2, r) = spec_pop2(s);
    match r {
        Err(e) => err(s2, e),
        Ok((a, b)) => ok(push_v(push_v(s2, b), a)),
    }
}

/// `over`: copies the second element from the top.
pub open spec fn spec_over(s: InterpV) -> StepV {
    if s.stack.len() >= 2 {
        ok(push_v(s, s.stack[s.stack.len() - 2]))
    } else {
        err(s, ForthError::StackUnderflow)
    }
}

/// `rot`: moves the third element from the top to the top.
pub open spec fn spec_rot(s: InterpV) -> StepV {
    if s.stack.len() >= 3 {
        let i = s.stack.len() - 3;
        ok(with_stack(s, s.stack.remove(i).push(s.stack[i])))
    } else {
        err(s, ForthError::StackUnderflow)
    }
}

/// `.`: appends the display text of the top of the stack and a blank
/// to the output, without popping.
pub open spec fn spec_print(s: InterpV) -> StepV {
    if s.stack.len() == 0 {
        err(s, ForthError::StackUnderflow)
    } else {
        ok(with_output(s, s.output + lit_text(s.stack.last()) + seq![' ']))
    }
}

/// `emit`: pops an integer and appends the character with that code
/// point to the output; a non-integer, a code outside the machine
/// range or a non-scalar code is a contract violation.
pub open spec fn spec_emit(s: InterpV) -> StepV {
    let (s2, r) = spec_pop1(s);
    match r {
        Err(e) => err(s2, e),
        Ok(a) => match a {
            LitV::Int(i) => if 0 <= i <= u32::MAX {
                if is_scalar_value(i as u32) {
                    ok(with_output(s2, s2.output.push(char_of(i as u32))))
                } else {
                    err(s2, ForthError::InvalidOperands)
                }
            } else {
                err(s2, ForthError::InvalidOperands)
            },
            _ => err(s2, ForthError::InvalidOperands),
        },
    }
}

/// `cr`: appends a newline to the output.
pub open spec fn spec_cr(s: InterpV) -> StepV {
    ok(with_output(s, s.output.push('\n')))
}

/// `key`: takes the next character from the input and pushes its code
/// point; with no input left, nothing happens.
pub open spec fn spec_key(s: InterpV) -> StepV {
    if s.input.len() == 0 {
        ok(s)
    } else {
        ok(with_input(push_v(s, LitV::Int(s.input[0] as u32 as i64)), s.input.skip(1)))
    }
}

/// `@`: dereferences a pointer.  Offset zero reads the variable's
/// scalar value, defaulting to `Integer(0)` when unset; a non-zero
/// offset indexes the variable's array value, checked against the
/// stored cells.
pub open spec fn spec_fetch(s: InterpV) -> StepV {
    let (s2, r) = spec_pop1(s);
    match r {
        Err(e) => err(s2, e),
        Ok(a) => match a {
            LitV::Ptr(p) => if p.address >= s2.vars.len() {
                err(s2, ForthError::VariableNotExist)
            } else if p.offset == 0 {
                match s2.vars[p.address as int].value {
                    Some(v) => ok(push_v(s2, v)),
                    None => ok(push_v(s2, LitV::Int(0))),
                }
            } else {
                match s2.vars[p.address as int].value {
                    Some(LitV::Arr(arr)) => if p.offset < arr.cells.len() {
                        ok(push_v(s2, arr.cells[p.offset as int]))
                    } else {
                        err(s2, ForthError::IndexOutOfBound)
                    },
                    _ => err(s2, ForthError::InvalidOperands),
                }
            },
            _ => err(s2, ForthError::InvalidOperands),
        },
    }
}

/// `!`: writes through a pointer.  When the variable holds an array,
/// the offset indexes it, checked against the capacity; otherwise the
/// scalar value is overwritten, whatever the offset.
pub open spec fn spec_store(s: InterpV) -> StepV {
    let (s2, r) = spec_pop2(s);
    match r {
        Err(e) => err(s2, e),
        Ok((value, index)) => match index {
            LitV::Ptr(p) => if p.address >= s2.vars.len() {
                err(s2, ForthError::VariableNotExist)
            } else {
                let slot = s2.vars[p.address as int];
                match slot.value {
                    Some(LitV::Arr(arr)) => if p.offset >= arr.cap {
                        err(s2, ForthError::IndexOutOfBound)
                    } else {
                        let arr2 = ArrV {
                            cells: arr.cells.update(p.offset as int, value),
                            size: arr.size,
                            cap: arr.cap,
                        };
                        ok(
                            with_vars(
                                s2,
                                s2.vars.update(
                                    p.address as int,
                                    VarV { name: slot.name, value: Some(LitV::Arr(arr2)) },
                                ),
                            ),
                        )
                    },
                    _ => ok(
                        with_vars(
                            s2,
                            s2.vars.update(
                                p.address as int,
                                VarV { name: slot.name, value: Some(value) },
                            ),
                        ),
                    ),
                }
            },
            _ => err(s2, ForthError::InvalidOperands),
        },
    }
}

/// `cells`: scales an element count by the cell size.
pub open spec fn spec_cells(s: InterpV) -> StepV {
    let (s2, r) = spec_pop1(s);
    match r {
        Err(e) => err(s2, e),
        Ok(a) => match a {
            LitV::Int(x) => ok(
                push_v(s2, LitV::Int(vstd::wrapping::i64_specs::wrapping_mul(CELL_SIZE, x))),
            ),
            _ => err(s2, ForthError::InvalidOperands),
        },
    }
}

/// `allot`: replaces the most recently defined variable's value with
/// a fresh array of capacity count-plus-one.
pub open spec fn spec_allot(s: InterpV) -> StepV {
    let (s2, r) = spec_pop1(s);
    match r {
        Err(e) => err(s2, e),
        Ok(a) => match a {
            LitV::Int(count) => if s2.vars.len() == 0 {
                err(s2, ForthError::VariableNotExist)
            } else if count < 0 || count + 1 > usize::MAX {
                err(s2, ForthError::InvalidOperands)
            } else {
                let cap = (count + 1) as nat;
                let arr = ArrV {
                    cells: Seq::new(cap, |i: int| LitV::Int(0)),
                    size: 0,
                    cap,
                };
                let i = s2.vars.len() - 1;
                ok(
                    with_vars(
                        s2,
                        s2.vars.update(
                            i,
                            VarV { name: s2.vars[i].name, value: Some(LitV::Arr(arr)) },
                        ),
                    ),
                )
            },
            _ => err(s2, ForthError::InvalidOperands),
        },
    }
}

/// The input-consuming loop of `word`: characters are appended to the
/// array held by variable `addr` until the delimiter with code point
/// `x` is consumed or the input ends; a full array is an index
/// failure at the character that no longer fits.
pub open spec fn spec_word_fill(s: InterpV, addr: int, x: u32) -> StepV
    decreases s.input.len(),
{
    if s.input.len() == 0 {
        ok(s)
    } else {
        let c = s.input[0];
        let s1 = with_input(s, s.input.skip(1));
        if c as u32 == x {
            ok(s1)
        } else {
            match s1.vars[addr].value {
                Some(LitV::Arr(arr)) => if arr.size >= arr.cap {
                    err(s1, ForthError::IndexOutOfBound)
                } else {
                    let arr2 = ArrV {
                        cells: arr.cells.push(LitV::Int(c as u32 as i64)),
                        size: arr.size + 1,
                        cap: arr.cap,
                    };
                    let s2 = with_vars(
                        s1,
                        s1.vars.update(
                            addr,
                            VarV { name: s1.vars[addr].name, value: Some(LitV::Arr(arr2)) },
                        ),
                    );
                    spec_word_fill(s2, addr, x)
                },
                _ => err(s1, ForthError::InvalidOperands),
            }
        }
    }
}

/// `word`: pops an array-valued variable pointer and a delimiter code
/// point, then reads input characters into the array until the
/// delimiter is seen.
pub open spec fn spec_read_word(s: InterpV) -> StepV {
    let (s2, r) = spec_pop2(s);
    match r {
        Err(e) => err(s2, e),
        Ok((storage, del_code)) => match (storage, del_code) {
            (LitV::Ptr(p), LitV::Int(code)) => if !(0 <= code <= u32::MAX) {
                err(s2, ForthError::InvalidOperands)
            } else if !is_scalar_value(code as u32) {
                err(s2, ForthError::InvalidOperands)
            } else if p.address >= s2.vars.len() {
                err(s2, ForthError::VariableNotExist)
            } else {
                match s2.vars[p.address as int].value {
                    Some(LitV::Arr(_)) => spec_word_fill(s2, p.address as int, code as u32),
                    _ => err(s2, ForthError::InvalidOperands),
                }
            },
            _ => err(s2, ForthError::InvalidOperands),
        },
    }
}

/// `+!`, `-!`, `*!`, `/!`: fetch the variable, combine with the
/// value, store back; written as the same composition the interpreter
/// executes.
pub open spec fn spec_combine_into(s: InterpV, w: NativeWord) -> StepV {
    let (s2, r) = spec_pop2(s);
    match r {
        Err(e) => err(s2, e),
        Ok((value, pointer)) => {
            let s3 = push_v(s2, pointer);
            let (s4, r4) = spec_fetch(s3);
            match r4 {
                Err(e) => err(s4, e),
                Ok(_) => {
                    let s5 = push_v(s4, value);
                    let (s6, r6) = if w == NativeWord::AddTo {
                        spec_add(s5)
                    } else if w == NativeWord::SubFrom {
                        spec_sub(s5)
                    } else if w == NativeWord::MulBy {
                        spec_mul(s5)
                    } else {
                        spec_div(s5)
                    };
                    match r6 {
                        Err(e) => err(s6, e),
                        Ok(_) => {
                            let s7 = push_v(s6, pointer);
                            spec_store(s7)
                        },
                    }
                },
            }
        },
    }
}

/// One native word applied to a state.
pub open spec fn spec_native(s: InterpV, w: NativeWord) -> StepV {
    match w {
        NativeWord::Print => spec_print(s),
        NativeWord::Emit => spec_emit(s),
        NativeWord::Cr => spec_cr(s),
        NativeWord::Key => spec_key(s),
        NativeWord::ReadWord => spec_read_word(s),
        NativeWord::Add => spec_add(s),
        NativeWord::Sub => spec_sub(s),
        NativeWord::Mul => spec_mul(s),
        NativeWord::Div => spec_div(s),
        NativeWord::Mod => spec_mod(s),
        NativeWord::Negate => spec_negate(s),
        NativeWord::Abs => spec_abs(s),
        NativeWord::Max => spec_max(s),
        NativeWord::Min => spec_min(s),
        NativeWord::AddTo => spec_combine_into(s, NativeWord::AddTo),
        NativeWord::SubFrom => spec_combine_into(s, NativeWord::SubFrom),
        NativeWord::MulBy => spec_combine_into(s, NativeWord::MulBy),
        NativeWord::DivBy => spec_combine_into(s, NativeWord::DivBy),
        NativeWord::Equal => spec_equal(s),
        NativeWord::Greater => spec_greater(s),
        NativeWord::Less => spec_less(s),
        NativeWord::Invert => spec_invert(s),
        NativeWord::And => spec_and(s),
        NativeWord::Or => spec_or(s),
        NativeWord::Dup => spec_dup(s),
        NativeWord::DropTop => spec_drop(s),
        NativeWord::Swap => spec_swap(s),
        NativeWord::Over => spec_over(s),
        NativeWord::Rot => spec_rot(s),
        NativeWord::Fetch => spec_fetch(s),
        NativeWord::Store => spec_store(s),
        NativeWord::Cells => spec_cells(s),
        NativeWord::Allot => spec_allot(s),
    }
}

// ---------------------------------------------------------------------
// The specification interpreter.  Ranks order the mutually recursive
// functions; the fuel bounds user-word invocation, which late-bound
// lookup leaves otherwise unbounded.
// ---------------------------------------------------------------------
/// Executes one expression element.
pub open spec fn spec_run_elem(s: InterpV, e: ElemV, fuel: nat) -> StepV
    decreases fuel, 1nat, 0nat,
{
    match e {
        ElemV::Lit(l) => ok(push_v(s, l)),
        ElemV::Id(name) => spec_run_ident(s, name, fuel),
    }
}

/// Resolves a name in strict priority order: variable, then constant,
/// then native word, then user word; an unresolved name fails with
/// `VariableNotExist`.
pub open spec fn spec_run_ident(s: InterpV, name: Seq<char>, fuel: nat) -> StepV
    decreases fuel, 0nat, 0nat,
{
    if find_var_idx(s.vars, name) < s.vars.len() {
        ok(push_v(s, LitV::Ptr(Pointer { address: find_var_idx(s.vars, name) as usize, offset: 0 })))
    } else {
        match assoc_find(s.consts, name) {
            Some(v) => ok(push_v(s, v)),
            None => match spec_native_of(name) {
                Some(w) => spec_native(s, w),
                None => match assoc_find(s.words, name) {
                    Some(body) => if fuel == 0 {
                        err(s, ForthError::OtherError)
                    } else {
                        spec_run_body(s, body, (fuel - 1) as nat)
                    },
                    None => err(s, ForthError::VariableNotExist),
                },
            },
        }
    }
}

/// Executes expression elements left to right, stopping at the first
/// failure.
pub open spec fn spec_run_expr(s: InterpV, es: Seq<ElemV>, fuel: nat) -> StepV
    decreases fuel, 2nat, es.len(),
{
    if es.len() == 0 {
        ok(s)
    } else {
        let (s1, r) = spec_run_elem(s, es[0], fuel);
        match r {
            Err(e) => err(s1, e),
            Ok(_) => spec_run_expr(s1, es.skip(1), fuel),
        }
    }
}

/// The iterations of a counted loop: each runs the body, then binds
/// the counter variable to the iteration index.
pub open spec fn spec_run_do_loop(
    s: InterpV,
    counter: Seq<char>,
    body: Seq<ElemV>,
    i: i64,
    stop: i64,
    fuel: nat,
) -> StepV
    decreases fuel, 3nat, (if i < stop { stop - i } else { 0 }) as nat,
{
    if i >= stop {
        ok(s)
    } else {
        let (s1, r) = spec_run_expr(s, body, fuel);
        match r {
            Err(e) => err(s1, e),
            Ok(_) => {
                let s2 = spec_set_variable(s1, counter, LitV::Int(i));
                spec_run_do_loop(s2, counter, body, (i + 1) as i64, stop, fuel)
            },
        }
    }
}

/// Executes one statement.  Conditionals read the top of the stack as
/// a boolean without popping it; the counted loop pops its two bounds
/// as `start stop` and iterates over `[start, stop)`.
pub open spec fn spec_run_stmt(s: InterpV, st: StmtV, fuel: nat) -> StepV
    decreases fuel, 4nat, 0nat,
{
    match st {
        StmtV::IfThen(t) => if s.stack.len() == 0 {
            err(s, ForthError::StackUnderflow)
        } else {
            match spec_truth(s.stack.last()) {
                Some(true) => spec_run_expr(s, t, fuel),
                Some(false) => ok(s),
                None => err(s, ForthError::InvalidOperands),
            }
        },
        StmtV::IfElseThen(t, f) => if s.stack.len() == 0 {
            err(s, ForthError::StackUnderflow)
        } else {
            match spec_truth(s.stack.last()) {
                Some(true) => spec_run_expr(s, t, fuel),
                Some(false) => spec_run_expr(s, f, fuel),
                None => err(s, ForthError::InvalidOperands),
            }
        },
        StmtV::DoLoop(counter, body) => {
            let (s2, r) = spec_pop2(s);
            match r {
                Err(e) => err(s2, e),
                Ok((a, b)) => match (a, b) {
                    (LitV::Int(start), LitV::Int(stop)) => spec_run_do_loop(
                        s2,
                        counter,
                        body,
                        start,
                        stop,
                        fuel,
                    ),
                    _ => err(s2, ForthError::InvalidOperands),
                },
            }
        },
    }
}

/// Executes one element of a word body.
pub open spec fn spec_run_word_elem(s: InterpV, w: WordElemV, fuel: nat) -> StepV
    decreases fuel, 5nat, 0nat,
{
    match w {
        WordElemV::Stmt(st) => spec_run_stmt(s, st, fuel),
        WordElemV::Expr(e) => spec_run_expr(s, e, fuel),
    }
}

/// Executes a word body element by element, stopping at the first
/// failure.
pub open spec fn spec_run_body(s: InterpV, b: Seq<WordElemV>, fuel: nat) -> StepV
    decreases fuel, 6nat, b.len(),
{
    if b.len() == 0 {
        ok(s)
    } else {
        let (s1, r) = spec_run_word_elem(s, b[0], fuel);
        match r {
            Err(e) => err(s1, e),
            Ok(_) => spec_run_body(s1, b.skip(1), fuel),
        }
    }
}

/// Executes a definition: a variable declaration appends a fresh
/// unset slot (duplicate names shadow), and constant and word
/// definitions insert or overwrite their table entry.
pub open spec fn spec_run_def(s: InterpV, d: DefV) -> StepV {
    match d {
        DefV::Var(name) => ok(with_vars(s, s.vars.push(VarV { name, value: None }))),
        DefV::Const(name, v) => ok(with_consts(s, assoc_set(s.consts, name, v))),
        DefV::Word(name, body) => ok(with_words(s, assoc_set(s.words, name, body))),
    }
}

/// Executes one parsed line.
pub open spec fn spec_run_line(s: InterpV, l: LineV, fuel: nat) -> StepV
    decreases fuel, 7nat, 0nat,
{
    match l {
        LineV::Def(d) => spec_run_def(s, d),
        LineV::Expr(e) => spec_run_expr(s, e, fuel),
    }
}

/// Parses and executes one line of source text; a malformed line
/// fails with `ParseError` before anything executes.
pub open spec fn spec_execute_line(s: InterpV, cs: Seq<char>) -> StepV {
    match crate::parser::spec_parse_source_line(cs) {
        None => err(s, ForthError::ParseError),
        Some(l) => spec_run_line(s, l, CALL_DEPTH_LIMIT as nat),
    }
}

/// Executes a newline-delimited program line by line, stopping at the
/// first failure.
pub open spec fn spec_execute(s: InterpV, cs: Seq<char>) -> StepV
    decreases cs.len(),
    via spec_execute_dec
{
    if cs.len() == 0 {
        ok(s)
    } else {
        let j = crate::parser::find_char(cs, '\n');
        let (s1, r) = spec_execute_line(s, cs.subrange(0, j));
        match r {
            Err(e) => err(s1, e),
            Ok(_) => if j == cs.len() {
                ok(s1)
            } else {
                spec_execute(s1, cs.skip(j + 1))
            },
        }
    }
}

#[via_fn]
proof fn spec_execute_dec(s: InterpV, cs: Seq<char>) {
    crate::parser::lemma_find_char(cs, '\n');
}

// ---------------------------------------------------------------------
// The executable interpreter.
// ---------------------------------------------------------------------
/// The slot-by-slot view of the variable store.
pub open spec fn seq_var_view(s: Seq<Variable>) -> Seq<VarV> {
    Seq::new(
        s.len(),
        |i: int|
            if 0 <= i < s.len() {
                s[i]@
            } else {
                VarV { name: Seq::empty(), value: None }
            },
    )
}

/// The pair-by-pair view of the constant table.
pub open spec fn seq_const_view(s: Seq<(String, Literal)>) -> Seq<(Seq<char>, LitV)> {
    Seq::new(
        s.len(),
        |i: int|
            if 0 <= i < s.len() {
                (s[i].0@, s[i].1@)
            } else {
                (Seq::empty(), LitV::Unknown)
            },
    )
}

/// The pair-by-pair view of the user-word table.
pub open spec fn seq_words_view(s: Seq<(String, Vec<WordElement>)>) -> Seq<
    (Seq<char>, Seq<WordElemV>),
> {
    Seq::new(
        s.len(),
        |i: int|
            if 0 <= i < s.len() {
                (s[i].0@, seq_word_elem_view(s[i].1@))
            } else {
                (Seq::empty(), Seq::empty())
            },
    )
}

/// The interpreter: it owns the data stack, the variable store, the
/// constant table, both word tables (the native table is the fixed
/// dispatch in [`spec_native_of`]) and the injected character-I/O
/// buffers, and executes parsed lines against them.
#[derive(Debug)]
pub struct ForthInterpreter {
    stack: Stack<Literal>,
    variables: Vec<Variable>,
    constants: Vec<(String, Literal)>,
    user_words: Vec<(String, Vec<WordElement>)>,
    input: Vec<char>,
    output: Vec<char>,
}

impl View for ForthInterpreter {
    type V = InterpV;

    closed spec fn view(&self) -> InterpV {
        InterpV {
            stack: seq_lit_view(self.stack@),
            vars: seq_var_view(self.variables@),
            consts: seq_const_view(self.constants@),
            words: seq_words_view(self.user_words@),
            input: self.input@,
            output: self.output@,
        }
    }
}

/// Spells out how the interpreter's view is assembled from its
/// fields.
proof fn lemma_view(it: ForthInterpreter)
    ensures
        it@.stack.len() == it.stack@.len(),
        forall|i: int| 0 <= i < it.stack@.len() ==> #[trigger] it@.stack[i] == it.stack@[i]@,
        it@.vars.len() == it.variables@.len(),
        forall|i: int| 0 <= i < it.variables@.len() ==> #[trigger] it@.vars[i] == it.variables@[i]@,
        it@.consts.len() == it.constants@.len(),
        forall|i: int|
            0 <= i < it.constants@.len() ==> #[trigger] it@.consts[i] == (
                it.constants@[i].0@,
                it.constants@[i].1@,
            ),
        it@.words.len() == it.user_words@.len(),
        forall|i: int|
            0 <= i < it.user_words@.len() ==> #[trigger] it@.words[i] == (
                it.user_words@[i].0@,
                seq_word_elem_view(it.user_words@[i].1@),
            ),
        it@.input == it.input@,
        it@.output == it.output@,
{
    assert(it@.stack == seq_lit_view(it.stack@));
    assert forall|i: int| 0 <= i < it.stack@.len() implies #[trigger] it@.stack[i] == (
    it.stack@[i]@) by {
        assert(seq_lit_view(it.stack@)[i] == it.stack@[i]@);
    }
    assert forall|i: int| 0 <= i < it.variables@.len() implies #[trigger] it@.vars[i]
        == it.variables@[i]@ by {
        assert(seq_var_view(it.variables@)[i] == it.variables@[i]@);
    }
    assert forall|i: int| 0 <= i < it.constants@.len() implies #[trigger] it@.consts[i] == (
        it.constants@[i].0@,
        it.constants@[i].1@,
    ) by {
        assert(seq_const_view(it.constants@)[i] == (it.constants@[i].0@, it.constants@[i].1@));
    }
    assert forall|i: int| 0 <= i < it.user_words@.len() implies #[trigger] it@.words[i] == (
        it.user_words@[i].0@,
        seq_word_elem_view(it.user_words@[i].1@),
    ) by {
        assert(seq_words_view(it.user_words@)[i] == (
            it.user_words@[i].0@,
            seq_word_elem_view(it.user_words@[i].1@),
        ));
    }
}

/// Elementwise description of the constant-table view.
proof fn lemma_const_view_seq(s: Seq<(String, Literal)>)
    ensures
        seq_const_view(s).len() == s.len(),
        forall|i: int|
            0 <= i < s.len() ==> #[trigger] seq_const_view(s)[i] == (s[i].0@, s[i].1@),
{
    assert forall|i: int| 0 <= i < s.len() implies #[trigger] seq_const_view(s)[i] == (
        s[i].0@,
        s[i].1@,
    ) by {
        assert(seq_const_view(s)[i] == (s[i].0@, s[i].1@));
    }
}

/// Elementwise description of the user-word-table view.
proof fn lemma_words_view_seq(s: Seq<(String, Vec<WordElement>)>)
    ensures
        seq_words_view(s).len() == s.len(),
        forall|i: int|
            0 <= i < s.len() ==> #[trigger] seq_words_view(s)[i] == (
                s[i].0@,
                seq_word_elem_view(s[i].1@),
            ),
{
    assert forall|i: int| 0 <= i < s.len() implies #[trigger] seq_words_view(s)[i] == (
        s[i].0@,
        seq_word_elem_view(s[i].1@),
    ) by {
        assert(seq_words_view(s)[i] == (s[i].0@, seq_word_elem_view(s[i].1@)));
    }
}

/// The dispatch lookup; mirrors [`spec_native_of`].
fn native_of(name: &str) -> (r: Option<NativeWord>)
    ensures
        r == spec_native_of(name@),
{
    if str_eq(name, ".") {
        Some(NativeWord::Print)
    } else if str_eq(name, "emit") {
        Some(NativeWord::Emit)
    } else if str_eq(name, "cr") {
        Some(NativeWord::Cr)
    } else if str_eq(name, "key") {
        Some(NativeWord::Key)
    } else if str_eq(name, "word") {
        Some(NativeWord::ReadWord)
    } else if str_eq(name, "+") {
        Some(NativeWord::Add)
    } else if str_eq(name, "-") {
        Some(NativeWord::Sub)
    } else if str_eq(name, "*") {
        Some(NativeWord::Mul)
    } else if str_eq(name, "/") {
        Some(NativeWord::Div)
    } else if str_eq(name, "mod") {
        Some(NativeWord::Mod)
    } else if str_eq(name, "negate") {
        Some(NativeWord::Negate)
    } else if str_eq(name, "abs") {
        Some(NativeWord::Abs)
    } else if str_eq(name, "max") {
        Some(NativeWord::Max)
    } else if str_eq(name, "min") {
        Some(NativeWord::Min)
    } else if str_eq(name, "+!") {
        Some(NativeWord::AddTo)
    } else if str_eq(name, "-!") {
        Some(NativeWord::SubFrom)
    } else if str_eq(name, "*!") {
        Some(NativeWord::MulBy)
    } else if str_eq(name, "/!") {
        Some(NativeWord::DivBy)
    } else if str_eq(name, "=") {
        Some(NativeWord::Equal)
    } else if str_eq(name, ">") {
        Some(NativeWord::Greater)
    } else if str_eq(name, "<") {
        Some(NativeWord::Less)
    } else if str_eq(name, "invert") {
        Some(NativeWord::Invert)
    } else if str_eq(name, "and") {
        Some(NativeWord::And)
    } else if str_eq(name, "or") {
        Some(NativeWord::Or)
    } else if str_eq(name, "dup") {
        Some(NativeWord::Dup)
    } else if str_eq(name, "drop") {
        Some(NativeWord::DropTop)
    } else if str_eq(name, "swap") {
        Some(NativeWord::Swap)
    } else if str_eq(name, "over") {
        Some(NativeWord::Over)
    } else if str_eq(name, "rot") {
        Some(NativeWord::Rot)
    } else if str_eq(name, "@") {
        Some(NativeWord::Fetch)
    } else if str_eq(name, "!") {
        Some(NativeWord::Store)
    } else if str_eq(name, "cells") {
        Some(NativeWord::Cells)
    } else if str_eq(name, "allot") {
        Some(NativeWord::Allot)
    } else {
        None
    }
}

impl ForthInterpreter {
    /// Puts `value` on the data stack.
    pub fn push(&mut self, value: Literal)
        ensures
            final(self)@ == push_v(old(self)@, value@),
            wf_state(old(self)@) && lit_wf(value@) ==> wf_state(final(self)@),
    {
        self.stack.push(value);
        proof {
            lemma_view(*old(self));
            lemma_view(*self);
            assert(self@.stack =~= old(self)@.stack.push(value@));
            assert(self@ =~= push_v(old(self)@, value@));
            if wf_state(old(self)@) && lit_wf(value@) {
                assert forall|i: int| 0 <= i < self@.stack.len() implies lit_wf(
                    #[trigger] self@.stack[i],
                ) by {
                    if i < old(self)@.stack.len() {
                        assert(self@.stack[i] == old(self)@.stack[i]);
                    } else {
                        assert(self@.stack[i] == value@);
                    }
                }
            }
        }
    }

    /// Removes and returns the top of the stack.
    fn pop_lit(&mut self) -> (r: Option<Literal>)
        ensures
            ({
                let (s2, r2) = spec_pop1(old(self)@);
                final(self)@ == s2 && (match r {
                    Some(l) => (r2 matches Ok(v) && l@ == v),
                    None => r2 is Err,
                })
            }),
            wf_state(old(self)@) ==> wf_state(final(self)@) && (match r {
                Some(l) => lit_wf(l@),
                None => true,
            }),
    {
        let r = self.stack.pop();
        proof {
            lemma_view(*old(self));
            lemma_view(*self);
            if old(self).stack@.len() > 0 {
                assert(self@.stack =~= old(self)@.stack.drop_last());
                assert(self@ =~= with_stack(old(self)@, old(self)@.stack.drop_last()));
                assert(old(self)@.stack.last() == old(self).stack@.last()@);
                if wf_state(old(self)@) {
                    assert(lit_wf(old(self)@.stack[old(self)@.stack.len() - 1]));
                    assert forall|i: int| 0 <= i < self@.stack.len() implies lit_wf(
                        #[trigger] self@.stack[i],
                    ) by {
                        assert(self@.stack[i] == old(self)@.stack[i]);
                    }
                }
            } else {
                assert(self@ =~= old(self)@);
            }
        }
        r
    }

    /// Pops the single operand of a unary word.
    pub fn get_unary_operand(&mut self) -> (r: Result<Literal, ForthError>)
        ensures
            ({
                let (s2, r2) = spec_pop1(old(self)@);
                final(self)@ == s2 && (match (r, r2) {
                    (Ok(l), Ok(v)) => l@ == v,
                    (Err(e), Err(e2)) => e == e2,
                    _ => false,
                })
            }),
            wf_state(old(self)@) ==> wf_state(final(self)@) && (r matches Ok(l) ==> lit_wf(l@)),
    {
        match self.pop_lit() {
            Some(l) => Ok(l),
            None => Err(ForthError::StackUnderflow),
        }
    }

    /// Pops the operand pair of a binary word: `(a, b)` with `b` the
    /// old top of the stack.
    pub(crate) fn get_binary_operands(&mut self) -> (r: Result<(Literal, Literal), ForthError>)
        ensures
            ({
                let (s2, r2) = spec_pop2(old(self)@);
                final(self)@ == s2 && (match (r, r2) {
                    (Ok((a, b)), Ok((av, bv))) => a@ == av && b@ == bv,
                    (Err(e), Err(e2)) => e == e2,
                    _ => false,
                })
            }),
            wf_state(old(self)@) ==> wf_state(final(self)@) && (r matches Ok((a, b)) ==> lit_wf(
                a@,
            ) && lit_wf(b@)),
    {
        let b = match self.pop_lit() {
            Some(b) => b,
            None => {
                return Err(ForthError::StackUnderflow);
            },
        };
        let a = match self.pop_lit() {
            Some(a) => a,
            None => {
                return Err(ForthError::StackUnderflow);
            },
        };
        proof {
            assert(old(self)@.stack.drop_last().last() == old(self)@.stack[old(
                self,
            )@.stack.len() - 2]);
        }
        Ok((a, b))
    }

    /// The top of the stack, read without popping.
    pub fn get_last_literal(&self) -> (r: Result<&Literal, ForthError>)
        ensures
            self@.stack.len() > 0 ==> (r matches Ok(l) && l@ == self@.stack.last()),
            self@.stack.len() == 0 ==> (r matches Err(e) && e == ForthError::StackUnderflow),
    {
        proof {
            lemma_view(*self);
        }
        match self.stack.last() {
            Some(l) => Ok(l),
            None => Err(ForthError::StackUnderflow),
        }
    }
}

impl ForthInterpreter {
    /// `.`: writes the top of the stack, without popping it.
    pub fn print_top(&mut self) -> (r: Result<(), ForthError>)
        requires
            wf_state(old(self)@),
        ensures
            wf_state(final(self)@),
            ({
                let (s2, r2) = spec_print(old(self)@);
                final(self)@ == s2 && r == r2
            }),
    {
        let top = match self.stack.last() {
            Some(l) => l.duplicate(),
            None => {
                proof {
                    lemma_view(*self);
                }
                return Err(ForthError::StackUnderflow);
            },
        };
        proof {
            lemma_view(*self);
            assert(top@ == self@.stack.last());
        }
        crate::text::push_lit_text(&mut self.output, &top);
        self.output.push(' ');
        proof {
            lemma_view(*old(self));
            lemma_view(*self);
            assert(self@ =~= with_output(
                old(self)@,
                old(self)@.output + lit_text(old(self)@.stack.last()) + seq![' '],
            ));
        }
        Ok(())
    }

    /// `emit`: pops an integer and writes the character with that
    /// code point.
    pub fn emit(&mut self) -> (r: Result<(), ForthError>)
        requires
            wf_state(old(self)@),
        ensures
            wf_state(final(self)@),
            ({
                let (s2, r2) = spec_emit(old(self)@);
                final(self)@ == s2 && r == r2
            }),
    {
        let a = match self.pop_lit() {
            Some(a) => a,
            None => {
                return Err(ForthError::StackUnderflow);
            },
        };
        match a {
            Literal::Integer(i) => {
                if i < 0 || i > u32::MAX as i64 {
                    return Err(ForthError::InvalidOperands);
                }
                match crate::host::char_from_u32(i as u32) {
                    Some(c) => {
                        let ghost mid = self@;
                        self.output.push(c);
                        proof {
                            lemma_view(*self);
                            assert(self@ =~= with_output(mid, mid.output.push(char_of(
                                i as u32,
                            ))));
                        }
                        Ok(())
                    },
                    None => Err(ForthError::InvalidOperands),
                }
            },
            _ => Err(ForthError::InvalidOperands),
        }
    }

    /// `cr`: writes a newline.
    pub fn cr(&mut self) -> (r: Result<(), ForthError>)
        requires
            wf_state(old(self)@),
        ensures
            wf_state(final(self)@),
            ({
                let (s2, r2) = spec_cr(old(self)@);
                final(self)@ == s2 && r == r2
            }),
    {
        self.output.push('\n');
        proof {
            lemma_view(*old(self));
            lemma_view(*self);
            assert(self@ =~= with_output(old(self)@, old(self)@.output.push('\n')));
        }
        Ok(())
    }

    /// `key`: takes one character from the input and pushes its code
    /// point; with no input left, nothing happens.
    pub fn key(&mut self) -> (r: Result<(), ForthError>)
        requires
            wf_state(old(self)@),
        ensures
            wf_state(final(self)@),
            ({
                let (s2, r2) = spec_key(old(self)@);
                final(self)@ == s2 && r == r2
            }),
    {
        if self.input.len() == 0 {
            proof {
                lemma_view(*self);
            }
            return Ok(());
        }
        let c = self.input.remove(0);
        proof {
            lemma_view(*old(self));
            lemma_view(*self);
            assert(self.input@ =~= old(self).input@.skip(1));
            assert(self@ =~= with_input(old(self)@, old(self)@.input.skip(1)));
        }
        let ghost mid = self@;
        self.push(Literal::Integer(c as u32 as i64));
        proof {
            assert(self@ =~= with_input(
                push_v(old(self)@, LitV::Int(old(self)@.input[0] as u32 as i64)),
                old(self)@.input.skip(1),
            ));
        }
        Ok(())
    }

    /// Advances a pointer by a signed cell count.
    fn ptr_plus(&mut self, p: Pointer, d: i64) -> (r: Result<(), ForthError>)
        requires
            wf_state(old(self)@),
        ensures
            wf_state(final(self)@),
            ({
                let (s2, r2) = spec_ptr_plus(old(self)@, p, d);
                final(self)@ == s2 && r == r2
            }),
    {
        if d >= 0 {
            let room: u64 = usize::MAX as u64 - p.offset as u64;
            if d as u64 <= room {
                let no: usize = p.offset + d as usize;
                self.push(Literal::Pointer(Pointer { address: p.address, offset: no }));
                Ok(())
            } else {
                Err(ForthError::InvalidOperands)
            }
        } else {
            let magu: u64 = (-(d + 1)) as u64 + 1;
            if p.offset as u64 >= magu {
                let no: usize = p.offset - magu as usize;
                self.push(Literal::Pointer(Pointer { address: p.address, offset: no }));
                Ok(())
            } else {
                Err(ForthError::InvalidOperands)
            }
        }
    }

    /// `+`: integer addition, or pointer arithmetic with an integer
    /// in either operand order.
    pub fn add(&mut self) -> (r: Result<(), ForthError>)
        requires
            wf_state(old(self)@),
        ensures
            wf_state(final(self)@),
            ({
                let (s2, r2) = spec_add(old(self)@);
                final(self)@ == s2 && r == r2
            }),
    {
        let (a, b) = match self.get_binary_operands() {
            Ok(p) => p,
            Err(e) => {
                return Err(e);
            },
        };
        match (a, b) {
            (Literal::Integer(x), Literal::Integer(y)) => {
                self.push(Literal::Integer(x.wrapping_add(y)));
                Ok(())
            },
            (Literal::Integer(x), Literal::Pointer(p)) => self.ptr_plus(p, x),
            (Literal::Pointer(p), Literal::Integer(y)) => self.ptr_plus(p, y),
            _ => Err(ForthError::InvalidOperands),
        }
    }

    /// `-`: integer subtraction; the operand pushed first is the left
    /// one.
    pub fn sub(&mut self) -> (r: Result<(), ForthError>)
        requires
            wf_state(old(self)@),
        ensures
            wf_state(final(self)@),
            ({
                let (s2, r2) = spec_sub(old(self)@);
                final(self)@ == s2 && r == r2
            }),
    {
        let (a, b) = match self.get_binary_operands() {
            Ok(p) => p,
            Err(e) => {
                return Err(e);
            },
        };
        match (a, b) {
            (Literal::Integer(x), Literal::Integer(y)) => {
                self.push(Literal::Integer(x.wrapping_sub(y)));
                Ok(())
            },
            _ => Err(ForthError::InvalidOperands),
        }
    }

    /// `*`: integer multiplication.
    pub fn mul(&mut self) -> (r: Result<(), ForthError>)
        requires
            wf_state(old(self)@),
        ensures
            wf_state(final(self)@),
            ({
                let (s2, r2) = spec_mul(old(self)@);
                final(self)@ == s2 && r == r2
            }),
    {
        let (a, b) = match self.get_binary_operands() {
            Ok(p) => p,
            Err(e) => {
                return Err(e);
            },
        };
        match (a, b) {
            (Literal::Integer(x), Literal::Integer(y)) => {
                self.push(Literal::Integer(x.wrapping_mul(y)));
                Ok(())
            },
            _ => Err(ForthError::InvalidOperands),
        }
    }

    /// `/`: truncated integer division.
    pub fn div(&mut self) -> (r: Result<(), ForthError>)
        requires
            wf_state(old(self)@),
        ensures
            wf_state(final(self)@),
            ({
                let (s2, r2) = spec_div(old(self)@);
                final(self)@ == s2 && r == r2
            }),
    {
        let (a, b) = match self.get_binary_operands() {
            Ok(p) => p,
            Err(e) => {
                return Err(e);
            },
        };
        match (a, b) {
            (Literal::Integer(x), Literal::Integer(y)) => {
                match x.checked_div(y) {
                    Some(q) => {
                        self.push(Literal::Integer(q));
                        Ok(())
                    },
                    None => Err(ForthError::InvalidOperands),
                }
            },
            _ => Err(ForthError::InvalidOperands),
        }
    }

    /// `mod`: remainder of truncated division.
    pub fn modulo(&mut self) -> (r: Result<(), ForthError>)
        requires
            wf_state(old(self)@),
        ensures
            wf_state(final(self)@),
            ({
                let (s2, r2) = spec_mod(old(self)@);
                final(self)@ == s2 && r == r2
            }),
    {
        let (a, b) = match self.get_binary_operands() {
            Ok(p) => p,
            Err(e) => {
                return Err(e);
            },
        };
        match (a, b) {
            (Literal::Integer(x), Literal::Integer(y)) => {
                match x.checked_rem(y) {
                    Some(q) => {
                        self.push(Literal::Integer(q));
                        Ok(())
                    },
                    None => Err(ForthError::InvalidOperands),
                }
            },
            _ => Err(ForthError::InvalidOperands),
        }
    }

    /// `negate`: arithmetic negation, wrapping at the extreme.
    pub fn negate(&mut self) -> (r: Result<(), ForthError>)
        requires
            wf_state(old(self)@),
        ensures
            wf_state(final(self)@),
            ({
                let (s2, r2) = spec_negate(old(self)@);
                final(self)@ == s2 && r == r2
            }),
    {
        let a = match self.pop_lit() {
            Some(a) => a,
            None => {
                return Err(ForthError::StackUnderflow);
            },
        };
        match a {
            Literal::Integer(x) => {
                let v: i64 = if x == i64::MIN {
                    i64::MIN
                } else {
                    -x
                };
                self.push(Literal::Integer(v));
                Ok(())
            },
            _ => Err(ForthError::InvalidOperands),
        }
    }

    /// `abs`: absolute value, wrapping at the extreme.
    pub fn abs(&mut self) -> (r: Result<(), ForthError>)
        requires
            wf_state(old(self)@),
        ensures
            wf_state(final(self)@),
            ({
                let (s2, r2) = spec_abs(old(self)@);
                final(self)@ == s2 && r == r2
            }),
    {
        let a = match self.pop_lit() {
            Some(a) => a,
            None => {
                return Err(ForthError::StackUnderflow);
            },
        };
        match a {
            Literal::Integer(x) => {
                let v: i64 = if x == i64::MIN {
                    i64::MIN
                } else if x < 0 {
                    -x
                } else {
                    x
                };
                self.push(Literal::Integer(v));
                Ok(())
            },
            _ => Err(ForthError::InvalidOperands),
        }
    }

    /// `max`: the larger of two integers.
    pub fn max(&mut self) -> (r: Result<(), ForthError>)
        requires
            wf_state(old(self)@),
        ensures
            wf_state(final(self)@),
            ({
                let (s2, r2) = spec_max(old(self)@);
                final(self)@ == s2 && r == r2
            }),
    {
        let (a, b) = match self.get_binary_operands() {
            Ok(p) => p,
            Err(e) => {
                return Err(e);
            },
        };
        match (a, b) {
            (Literal::Integer(x), Literal::Integer(y)) => {
                self.push(Literal::Integer(if x >= y { x } else { y }));
                Ok(())
            },
            _ => Err(ForthError::InvalidOperands),
        }
    }

    /// `min`: the smaller of two integers.
    pub fn min(&mut self) -> (r: Result<(), ForthError>)
        requires
            wf_state(old(self)@),
        ensures
            wf_state(final(self)@),
            ({
                let (s2, r2) = spec_min(old(self)@);
                final(self)@ == s2 && r == r2
            }),
    {
        let (a, b) = match self.get_binary_operands() {
            Ok(p) => p,
            Err(e) => {
                return Err(e);
            },
        };
        match (a, b) {
            (Literal::Integer(x), Literal::Integer(y)) => {
                self.push(Literal::Integer(if x <= y { x } else { y }));
                Ok(())
            },
            _ => Err(ForthError::InvalidOperands),
        }
    }

    /// `=`: same-tag equality under the `-1` is true convention.
    pub fn equal(&mut self) -> (r: Result<(), ForthError>)
        requires
            wf_state(old(self)@),
        ensures
            wf_state(final(self)@),
            ({
                let (s2, r2) = spec_equal(old(self)@);
                final(self)@ == s2 && r == r2
            }),
    {
        let (a, b) = match self.get_binary_operands() {
            Ok(p) => p,
            Err(e) => {
                return Err(e);
            },
        };
        let eq = crate::literal::literal_eq(&a, &b);
        self.push(Literal::Integer(if eq { -1 } else { 0 }));
        Ok(())
    }

    /// `>`: ordered comparison, true when the first-pushed operand is
    /// the greater.
    pub fn greater(&mut self) -> (r: Result<(), ForthError>)
        requires
            wf_state(old(self)@),
        ensures
            wf_state(final(self)@),
            ({
                let (s2, r2) = spec_greater(old(self)@);
                final(self)@ == s2 && r == r2
            }),
    {
        let (a, b) = match self.get_binary_operands() {
            Ok(p) => p,
            Err(e) => {
                return Err(e);
            },
        };
        let c = literal_cmp(&a, &b);
        let gt = match c {
            Some(v) => v == 1,
            None => false,
        };
        self.push(Literal::Integer(if gt { -1 } else { 0 }));
        Ok(())
    }

    /// `<`: ordered comparison, true when the first-pushed operand is
    /// the smaller.
    pub fn less(&mut self) -> (r: Result<(), ForthError>)
        requires
            wf_state(old(self)@),
        ensures
            wf_state(final(self)@),
            ({
                let (s2, r2) = spec_less(old(self)@);
                final(self)@ == s2 && r == r2
            }),
    {
        let (a, b) = match self.get_binary_operands() {
            Ok(p) => p,
            Err(e) => {
                return Err(e);
            },
        };
        let c = literal_cmp(&a, &b);
        let lt = match c {
            Some(v) => v == -1,
            None => false,
        };
        self.push(Literal::Integer(if lt { -1 } else { 0 }));
        Ok(())
    }

    /// `invert`: logical negation under the `-1` is true convention.
    pub fn invert(&mut self) -> (r: Result<(), ForthError>)
        requires
            wf_state(old(self)@),
        ensures
            wf_state(final(self)@),
            ({
                let (s2, r2) = spec_invert(old(self)@);
                final(self)@ == s2 && r == r2
            }),
    {
        let a = match self.pop_lit() {
            Some(a) => a,
            None => {
                return Err(ForthError::StackUnderflow);
            },
        };
        let z = crate::literal::literal_eq(&a, &Literal::Integer(0));
        self.push(Literal::Integer(if z { -1 } else { 0 }));
        Ok(())
    }

    /// `and`: both operands differ from `Integer(0)`.
    pub fn and(&mut self) -> (r: Result<(), ForthError>)
        requires
            wf_state(old(self)@),
        ensures
            wf_state(final(self)@),
            ({
                let (s2, r2) = spec_and(old(self)@);
                final(self)@ == s2 && r == r2
            }),
    {
        let (a, b) = match self.get_binary_operands() {
            Ok(p) => p,
            Err(e) => {
                return Err(e);
            },
        };
        let na = !crate::literal::literal_eq(&a, &Literal::Integer(0));
        let nb = !crate::literal::literal_eq(&b, &Literal::Integer(0));
        self.push(Literal::Integer(if na && nb { -1 } else { 0 }));
        Ok(())
    }

    /// `or`: either operand differs from `Integer(0)`.
    pub fn or(&mut self) -> (r: Result<(), ForthError>)
        requires
            wf_state(old(self)@),
        ensures
            wf_state(final(self)@),
            ({
                let (s2, r2) = spec_or(old(self)@);
                final(self)@ == s2 && r == r2
            }),
    {
        let (a, b) = match self.get_binary_operands() {
            Ok(p) => p,
            Err(e) => {
                return Err(e);
            },
        };
        let na = !crate::literal::literal_eq(&a, &Literal::Integer(0));
        let nb = !crate::literal::literal_eq(&b, &Literal::Integer(0));
        self.push(Literal::Integer(if na || nb { -1 } else { 0 }));
        Ok(())
    }

    /// `dup`: copies the top of the stack.
    pub fn dup(&mut self) -> (r: Result<(), ForthError>)
        requires
            wf_state(old(self)@),
        ensures
            wf_state(final(self)@),
            ({
                let (s2, r2) = spec_dup(old(self)@);
                final(self)@ == s2 && r == r2
            }),
    {
        let top = match self.stack.last() {
            Some(l) => l.duplicate(),
            None => {
                proof {
                    lemma_view(*self);
                }
                return Err(ForthError::StackUnderflow);
            },
        };
        proof {
            lemma_view(*self);
            assert(top@ == self@.stack.last());
        }
        self.push(top);
        Ok(())
    }

    /// `drop`: discards the top of the stack.
    pub fn drop_top(&mut self) -> (r: Result<(), ForthError>)
        requires
            wf_state(old(self)@),
        ensures
            wf_state(final(self)@),
            ({
                let (s2, r2) = spec_drop(old(self)@);
                final(self)@ == s2 && r == r2
            }),
    {
        match self.pop_lit() {
            Some(_) => Ok(()),
            None => Err(ForthError::StackUnderflow),
        }
    }

    /// `swap`: exchanges the two topmost elements.
    pub fn swap(&mut self) -> (r: Result<(), ForthError>)
        requires
            wf_state(old(self)@),
        ensures
            wf_state(final(self)@),
            ({
                let (s2, r2) = spec_swap(old(self)@);
                final(self)@ == s2 && r == r2
            }),
    {
        let (a, b) = match self.get_binary_operands() {
            Ok(p) => p,
            Err(e) => {
                return Err(e);
            },
        };
        self.push(b);
        self.push(a);
        Ok(())
    }

    /// `over`: copies the second element from the top.
    pub fn over(&mut self) -> (r: Result<(), ForthError>)
        requires
            wf_state(old(self)@),
        ensures
            wf_state(final(self)@),
            ({
                let (s2, r2) = spec_over(old(self)@);
                final(self)@ == s2 && r == r2
            }),
    {
        let length = self.stack.length();
        if length >= 2 {
            let second = self.stack.get(length - 2).duplicate();
            proof {
                lemma_view(*self);
                assert(second@ == self@.stack[self@.stack.len() - 2]);
            }
            self.push(second);
            Ok(())
        } else {
            proof {
                lemma_view(*self);
            }
            Err(ForthError::StackUnderflow)
        }
    }

    /// `rot`: moves the third element from the top to the top.
    pub fn rot(&mut self) -> (r: Result<(), ForthError>)
        requires
            wf_state(old(self)@),
        ensures
            wf_state(final(self)@),
            ({
                let (s2, r2) = spec_rot(old(self)@);
                final(self)@ == s2 && r == r2
            }),
    {
        let length = self.stack.length();
        if length >= 3 {
            let element = self.stack.remove(length - 3);
            proof {
                lemma_view(*old(self));
                lemma_view(*self);
                assert(self@.stack =~= old(self)@.stack.remove(old(self)@.stack.len() - 3));
                assert(self@ =~= with_stack(old(self)@, old(self)@.stack.remove(old(
                    self,
                )@.stack.len() - 3)));
                assert(element@ == old(self)@.stack[old(self)@.stack.len() - 3]);
                if wf_state(old(self)@) {
                    assert forall|i: int| 0 <= i < self@.stack.len() implies lit_wf(
                        #[trigger] self@.stack[i],
                    ) by {
                        if i < old(self)@.stack.len() - 3 {
                            assert(self@.stack[i] == old(self)@.stack[i]);
                        } else {
                            assert(self@.stack[i] == old(self)@.stack[i + 1]);
                        }
                    }
                    assert(lit_wf(element@));
                }
            }
            self.push(element);
            Ok(())
        } else {
            proof {
                lemma_view(*self);
            }
            Err(ForthError::StackUnderflow)
        }
    }

    /// `cells`: scales an element count by the cell size.
    pub fn cells(&mut self) -> (r: Result<(), ForthError>)
        requires
            wf_state(old(self)@),
        ensures
            wf_state(final(self)@),
            ({
                let (s2, r2) = spec_cells(old(self)@);
                final(self)@ == s2 && r == r2
            }),
    {
        let a = match self.pop_lit() {
            Some(a) => a,
            None => {
                return Err(ForthError::StackUnderflow);
            },
        };
        match a {
            Literal::Integer(x) => {
                self.push(Literal::Integer(CELL_SIZE.wrapping_mul(x)));
                Ok(())
            },
            _ => Err(ForthError::InvalidOperands),
        }
    }
}

/// Splitting an association update at a scan position.
proof fn lemma_assoc_set_skip<V>(m: Seq<(Seq<char>, V)>, k: Seq<char>, v: V, i: int)
    requires
        0 <= i <= m.len(),
        forall|j: int| 0 <= j < i ==> (#[trigger] m[j]).0 != k,
    ensures
        assoc_set(m, k, v) == m.subrange(0, i) + assoc_set(m.skip(i), k, v),
    decreases i,
{
    if i == 0 {
        assert(m.skip(0) =~= m);
        assert(m.subrange(0, 0) + assoc_set(m, k, v) =~= assoc_set(m, k, v));
    } else {
        assert(m.len() > 0);
        assert(m[0].0 != k);
        lemma_assoc_set_skip(m.skip(1), k, v, i - 1);
        assert(m.skip(1).skip(i - 1) =~= m.skip(i));
        assert(m.skip(1).subrange(0, i - 1) =~= m.subrange(1, i));
        assert(seq![m[0]] + (m.subrange(1, i) + assoc_set(m.skip(i), k, v)) =~= m.subrange(0, i)
            + assoc_set(m.skip(i), k, v));
    }
}

impl ForthInterpreter {
    /// The first variable slot with the given name.
    fn find_variable_id(&self, name: &str) -> (r: Option<usize>)
        ensures
            ({
                let i = find_var_idx(self@.vars, name@);
                if i < self@.vars.len() {
                    r matches Some(u) && u as int == i
                } else {
                    r is None
                }
            }),
    {
        proof {
            lemma_view(*self);
            assert(self@.vars.skip(0) =~= self@.vars);
        }
        let n = self.variables.len();
        let mut i: usize = 0;
        while i < n
            invariant
                i <= n,
                n == self.variables@.len(),
                n == self@.vars.len(),
                find_var_idx(self@.vars, name@) == i + find_var_idx(
                    self@.vars.skip(i as int),
                    name@,
                ),
            decreases n - i,
        {
            proof {
                lemma_view(*self);
                assert(self@.vars.skip(i as int)[0] == self@.vars[i as int]);
                assert(self@.vars[i as int] == self.variables@[i as int]@);
            }
            if str_eq(self.variables[i].name.as_str(), name) {
                return Some(i);
            }
            proof {
                assert(self@.vars.skip(i as int).skip(1) =~= self@.vars.skip(i + 1));
            }
            i += 1;
        }
        proof {
            assert(self@.vars.skip(n as int).len() == 0);
        }
        None
    }

    /// The value of the constant with the given name, copied.
    fn find_constant(&self, name: &str) -> (r: Option<Literal>)
        ensures
            match (r, assoc_find(self@.consts, name@)) {
                (Some(l), Some(v)) => l@ == v,
                (None, None) => true,
                _ => false,
            },
            wf_state(self@) ==> (r matches Some(l) ==> lit_wf(l@)),
    {
        proof {
            lemma_view(*self);
            assert(self@.consts.skip(0) =~= self@.consts);
        }
        let n = self.constants.len();
        let mut i: usize = 0;
        while i < n
            invariant
                i <= n,
                n == self.constants@.len(),
                n == self@.consts.len(),
                assoc_find(self@.consts, name@) == assoc_find(
                    self@.consts.skip(i as int),
                    name@,
                ),
            decreases n - i,
        {
            proof {
                lemma_view(*self);
                assert(self@.consts.skip(i as int)[0] == self@.consts[i as int]);
            }
            if str_eq(self.constants[i].0.as_str(), name) {
                let l = self.constants[i].1.duplicate();
                proof {
                    if wf_state(self@) {
                        assert(lit_wf(self@.consts[i as int].1));
                    }
                }
                return Some(l);
            }
            proof {
                assert(self@.consts.skip(i as int).skip(1) =~= self@.consts.skip(i + 1));
            }
            i += 1;
        }
        proof {
            assert(self@.consts.skip(n as int).len() == 0);
        }
        None
    }

    /// The body of the user word with the given name, copied.
    fn find_word_body(&self, name: &str) -> (r: Option<Vec<WordElement>>)
        ensures
            match (r, assoc_find(self@.words, name@)) {
                (Some(b), Some(bv)) => seq_word_elem_view(b@) == bv,
                (None, None) => true,
                _ => false,
            },
            wf_state(self@) ==> (r matches Some(b) ==> body_wf(seq_word_elem_view(b@))),
    {
        proof {
            lemma_view(*self);
            assert(self@.words.skip(0) =~= self@.words);
        }
        let n = self.user_words.len();
        let mut i: usize = 0;
        while i < n
            invariant
                i <= n,
                n == self.user_words@.len(),
                n == self@.words.len(),
                assoc_find(self@.words, name@) == assoc_find(self@.words.skip(i as int), name@),
            decreases n - i,
        {
            proof {
                lemma_view(*self);
                assert(self@.words.skip(i as int)[0] == self@.words[i as int]);
            }
            if str_eq(self.user_words[i].0.as_str(), name) {
                let b = crate::ast::duplicate_body(&self.user_words[i].1);
                proof {
                    if wf_state(self@) {
                        assert(body_wf(self@.words[i as int].1));
                    }
                }
                return Some(b);
            }
            proof {
                assert(self@.words.skip(i as int).skip(1) =~= self@.words.skip(i + 1));
            }
            i += 1;
        }
        proof {
            assert(self@.words.skip(n as int).len() == 0);
        }
        None
    }

    /// Binds a name in the variable store: the first slot with that
    /// name gets the value, or a fresh slot appears.
    fn set_variable(&mut self, name: &str, value: Literal)
        requires
            wf_state(old(self)@),
            lit_wf(value@),
        ensures
            wf_state(final(self)@),
            final(self)@ == spec_set_variable(old(self)@, name@, value@),
    {
        let found = self.find_variable_id(name);
        match found {
            Some(i) => {
                let nm = self.variables[i].name.clone();
                proof {
                    lemma_view(*self);
                }
                self.variables.set(i, Variable { name: nm, value: Some(value) });
                proof {
                    lemma_view(*old(self));
                    lemma_view(*self);
                    assert(self@.vars =~= old(self)@.vars.update(
                        i as int,
                        VarV { name: old(self)@.vars[i as int].name, value: Some(value@) },
                    ));
                    assert(self@ =~= spec_set_variable(old(self)@, name@, value@));
                    assert forall|j: int| 0 <= j < self@.vars.len() implies var_wf(
                        #[trigger] self@.vars[j],
                    ) by {
                        if j != i {
                            assert(self@.vars[j] == old(self)@.vars[j]);
                        }
                    }
                }
            },
            None => {
                self.variables.push(Variable { name: name.to_owned(), value: Some(value) });
                proof {
                    lemma_view(*old(self));
                    lemma_view(*self);
                    assert(self@.vars =~= old(self)@.vars.push(
                        VarV { name: name@, value: Some(value@) },
                    ));
                    assert(self@ =~= spec_set_variable(old(self)@, name@, value@));
                    assert forall|j: int| 0 <= j < self@.vars.len() implies var_wf(
                        #[trigger] self@.vars[j],
                    ) by {
                        if j < old(self)@.vars.len() {
                            assert(self@.vars[j] == old(self)@.vars[j]);
                        }
                    }
                }
            },
        }
    }

    /// `@`: dereferences a pointer through the variable store.
    pub fn fetch_variable(&mut self) -> (r: Result<(), ForthError>)
        requires
            wf_state(old(self)@),
        ensures
            wf_state(final(self)@),
            ({
                let (s2, r2) = spec_fetch(old(self)@);
                final(self)@ == s2 && r == r2
            }),
    {
        let a = match self.pop_lit() {
            Some(a) => a,
            None => {
                return Err(ForthError::StackUnderflow);
            },
        };
        match a {
            Literal::Pointer(p) => {
                if p.address >= self.variables.len() {
                    proof {
                        lemma_view(*self);
                    }
                    return Err(ForthError::VariableNotExist);
                }
                proof {
                    lemma_view(*self);
                    assert(self@.vars[p.address as int] == self.variables@[p.address as int]@);
                    assert(var_wf(self@.vars[p.address as int]));
                }
                if p.offset == 0 {
                    let val = match &self.variables[p.address].value {
                        Some(l) => l.duplicate(),
                        None => Literal::Integer(0),
                    };
                    self.push(val);
                    Ok(())
                } else {
                    match &self.variables[p.address].value {
                        Some(Literal::Array(arr)) => {
                            proof {
                                assert(self@.vars[p.address as int].value == Some(
                                    LitV::Arr(arr@),
                                ));
                                assert(lit_wf(LitV::Arr(arr@)));
                                assert(arr_wf(arr@));
                            }
                            match arr.get(p.offset) {
                                Some(el) => {
                                    let d = el.duplicate();
                                    proof {
                                        assert(p.offset < arr@.cells.len());
                                        assert(arr_wf(arr@));
                                        assert(lit_wf(arr@.cells[p.offset as int]));
                                        assert(d@ == arr@.cells[p.offset as int]);
                                    }
                                    self.push(d);
                                    Ok(())
                                },
                                None => Err(ForthError::IndexOutOfBound),
                            }
                        },
                        _ => Err(ForthError::InvalidOperands),
                    }
                }
            },
            _ => Err(ForthError::InvalidOperands),
        }
    }

    /// `!`: writes through a pointer into the variable store.
    pub fn store_variable(&mut self) -> (r: Result<(), ForthError>)
        requires
            wf_state(old(self)@),
        ensures
            wf_state(final(self)@),
            ({
                let (s2, r2) = spec_store(old(self)@);
                final(self)@ == s2 && r == r2
            }),
    {
        let (value, index) = match self.get_binary_operands() {
            Ok(p) => p,
            Err(e) => {
                return Err(e);
            },
        };
        match index {
            Literal::Pointer(p) => {
                if p.address >= self.variables.len() {
                    proof {
                        lemma_view(*self);
                    }
                    return Err(ForthError::VariableNotExist);
                }
                proof {
                    lemma_view(*self);
                    assert(self@.vars[p.address as int] == self.variables@[p.address as int]@);
                    assert(var_wf(self@.vars[p.address as int]));
                }
                let ghost mid = self@;
                let nm = self.variables[p.address].name.clone();
                match &self.variables[p.address].value {
                    Some(Literal::Array(arr)) => {
                        proof {
                            assert(mid.vars[p.address as int].value == Some(LitV::Arr(arr@)));
                            assert(lit_wf(LitV::Arr(arr@)));
                            assert(arr_wf(arr@));
                        }
                        let mut arr2 = arr.duplicate();
                        match arr2.set(p.offset, value) {
                            Ok(()) => {
                                self.variables.set(
                                    p.address,
                                    Variable { name: nm, value: Some(Literal::Array(arr2)) },
                                );
                                proof {
                                    lemma_view(*self);
                                    assert(self@.vars =~= mid.vars.update(
                                        p.address as int,
                                        VarV {
                                            name: mid.vars[p.address as int].name,
                                            value: Some(LitV::Arr(arr2@)),
                                        },
                                    ));
                                    assert(self@ =~= spec_store(old(self)@).0);
                                    assert forall|j: int|
                                        0 <= j < self@.vars.len() implies var_wf(
                                        #[trigger] self@.vars[j],
                                    ) by {
                                        if j != p.address as int {
                                            assert(self@.vars[j] == mid.vars[j]);
                                        } else {
                                            assert(arr_wf(arr2@)) by {
                                                assert(p.offset < arr@.cells.len());
                                                assert(arr2@.cells =~= arr@.cells.update(
                                                    p.offset as int,
                                                    value@,
                                                ));
                                                assert(arr2@.cells.len() == arr2@.cap
                                                    + arr2@.size);
                                                assert forall|c: int|
                                                    0 <= c < arr2@.cells.len() implies lit_wf(
                                                    #[trigger] arr2@.cells[c],
                                                ) by {
                                                    if c == p.offset as int {
                                                        assert(arr2@.cells[c] == value@);
                                                    } else {
                                                        assert(arr2@.cells[c] == arr@.cells[c]);
                                                        assert(lit_wf(arr@.cells[c]));
                                                    }
                                                }
                                            }
                                        }
                                    }
                                }
                                Ok(())
                            },
                            Err(e) => Err(e),
                        }
                    },
                    _ => {
                        self.variables.set(p.address, Variable { name: nm, value: Some(value) });
                        proof {
                            lemma_view(*self);
                            assert(self@.vars =~= mid.vars.update(
                                p.address as int,
                                VarV {
                                    name: mid.vars[p.address as int].name,
                                    value: Some(value@),
                                },
                            ));
                            assert(self@ =~= spec_store(old(self)@).0);
                            assert forall|j: int| 0 <= j < self@.vars.len() implies var_wf(
                                #[trigger] self@.vars[j],
                            ) by {
                                if j != p.address as int {
                                    assert(self@.vars[j] == mid.vars[j]);
                                }
                            }
                        }
                        Ok(())
                    },
                }
            },
            _ => Err(ForthError::InvalidOperands),
        }
    }

    /// `allot`: replaces the most recently defined variable's value
    /// with a fresh array of capacity count-plus-one.
    pub fn allot(&mut self) -> (r: Result<(), ForthError>)
        requires
            wf_state(old(self)@),
        ensures
            wf_state(final(self)@),
            ({
                let (s2, r2) = spec_allot(old(self)@);
                final(self)@ == s2 && r == r2
            }),
    {
        let a = match self.pop_lit() {
            Some(a) => a,
            None => {
                return Err(ForthError::StackUnderflow);
            },
        };
        match a {
            Literal::Integer(count) => {
                if self.variables.len() == 0 {
                    proof {
                        lemma_view(*self);
                    }
                    return Err(ForthError::VariableNotExist);
                }
                if count < 0 {
                    return Err(ForthError::InvalidOperands);
                }
                let capu: u64 = count as u64 + 1;
                if capu > usize::MAX as u64 {
                    return Err(ForthError::InvalidOperands);
                }
                let cap: usize = capu as usize;
                let arr = crate::array::Array::new(cap);
                let i = self.variables.len() - 1;
                proof {
                    lemma_view(*self);
                    assert(self@.vars[i as int] == self.variables@[i as int]@);
                }
                let ghost mid = self@;
                let nm = self.variables[i].name.clone();
                self.variables.set(i, Variable { name: nm, value: Some(Literal::Array(arr)) });
                proof {
                    lemma_view(*self);
                    assert(self@.vars =~= mid.vars.update(
                        i as int,
                        VarV { name: mid.vars[i as int].name, value: Some(LitV::Arr(arr@)) },
                    ));
                    assert(self@ =~= spec_allot(old(self)@).0);
                    assert forall|j: int| 0 <= j < self@.vars.len() implies var_wf(
                        #[trigger] self@.vars[j],
                    ) by {
                        if j != i as int {
                            assert(self@.vars[j] == mid.vars[j]);
                        } else {
                            assert(arr_wf(arr@));
                        }
                    }
                }
                Ok(())
            },
            _ => Err(ForthError::InvalidOperands),
        }
    }
}

impl ForthInterpreter {
    /// `word`: reads input characters into the array of the popped
    /// variable pointer until the popped delimiter code point is
    /// consumed or the input ends.
    pub fn word(&mut self) -> (r: Result<(), ForthError>)
        requires
            wf_state(old(self)@),
        ensures
            wf_state(final(self)@),
            ({
                let (s2, r2) = spec_read_word(old(self)@);
                final(self)@ == s2 && r == r2
            }),
    {
        let (storage, del_code) = match self.get_binary_operands() {
            Ok(p) => p,
            Err(e) => {
                return Err(e);
            },
        };
        match (storage, del_code) {
            (Literal::Pointer(p), Literal::Integer(code)) => {
                if code < 0 || code > u32::MAX as i64 {
                    return Err(ForthError::InvalidOperands);
                }
                let x = code as u32;
                match crate::host::char_from_u32(x) {
                    None => {
                        return Err(ForthError::InvalidOperands);
                    },
                    Some(_) => {},
                }
                if p.address >= self.variables.len() {
                    proof {
                        lemma_view(*self);
                    }
                    return Err(ForthError::VariableNotExist);
                }
                proof {
                    lemma_view(*self);
                    assert(self@.vars[p.address as int] == self.variables@[p.address as int]@);
                }
                match &self.variables[p.address].value {
                    Some(Literal::Array(_)) => {},
                    Some(Literal::Pointer(_)) => {
                        return Err(ForthError::InvalidOperands);
                    },
                    Some(Literal::Integer(_)) => {
                        return Err(ForthError::InvalidOperands);
                    },
                    Some(Literal::String(_)) => {
                        return Err(ForthError::InvalidOperands);
                    },
                    Some(Literal::Unknown) => {
                        return Err(ForthError::InvalidOperands);
                    },
                    None => {
                        return Err(ForthError::InvalidOperands);
                    },
                }
                let ghost s_entry = self@;
                proof {
                    assert(self@.vars[p.address as int].value matches Some(LitV::Arr(_)));
                    assert(spec_read_word(old(self)@) == spec_word_fill(
                        s_entry,
                        p.address as int,
                        x,
                    ));
                }
                while self.input.len() > 0
                    invariant
                        wf_state(self@),
                        p.address < self@.vars.len(),
                        self@.vars[p.address as int].value matches Some(LitV::Arr(_)),
                        self@.vars.len() == self.variables@.len(),
                        spec_read_word(old(self)@) == spec_word_fill(
                            s_entry,
                            p.address as int,
                            x,
                        ),
                        spec_word_fill(s_entry, p.address as int, x) == spec_word_fill(
                            self@,
                            p.address as int,
                            x,
                        ),
                    decreases self.input@.len(),
                {
                    let ghost s_cur = self@;
                    proof {
                        lemma_view(*self);
                        assert(s_cur.input == self.input@);
                        assert(s_cur.input.len() > 0);
                    }
                    let c = self.input.remove(0);
                    proof {
                        lemma_view(*self);
                        assert(self.input@ =~= s_cur.input.skip(1));
                        assert(self@ =~= with_input(s_cur, s_cur.input.skip(1)));
                        assert(c == s_cur.input[0]);
                    }
                    if c as u32 == x {
                        proof {
                            let s1p = with_input(s_cur, s_cur.input.skip(1));
                            assert(s_cur.input.len() != 0);
                            assert(s_cur.input[0] as u32 == x);
                            assert(spec_word_fill(s_cur, p.address as int, x) == ok(s1p));
                            assert(self@ == s1p);
                            assert(spec_word_fill(s_cur, p.address as int, x) == ok(self@));
                            assert(spec_read_word(old(self)@) == spec_word_fill(
                                s_entry,
                                p.address as int,
                                x,
                            ));
                        }
                        return Ok(());
                    }
                    let ghost s1 = self@;
                    let nm = self.variables[p.address].name.clone();
                    match &self.variables[p.address].value {
                        Some(Literal::Array(arr)) => {
                            proof {
                                lemma_view(*self);
                                assert(s1.vars[p.address as int]
                                    == self.variables@[p.address as int]@);
                                assert(s1.vars[p.address as int].value == Some(
                                    LitV::Arr(arr@),
                                ));
                                assert(lit_wf(LitV::Arr(arr@)));
                                assert(arr_wf(arr@));
                            }
                            let mut arr2 = arr.duplicate();
                            match arr2.push(Literal::Integer(c as u32 as i64)) {
                                Ok(()) => {
                                    self.variables.set(
                                        p.address,
                                        Variable { name: nm, value: Some(Literal::Array(arr2)) },
                                    );
                                    proof {
                                        lemma_view(*self);
                                        assert(self@.vars =~= s1.vars.update(
                                            p.address as int,
                                            VarV {
                                                name: s1.vars[p.address as int].name,
                                                value: Some(LitV::Arr(arr2@)),
                                            },
                                        ));
                                        assert(self@ =~= with_vars(s1, self@.vars));
                                        assert(arr_wf(arr2@)) by {
                                            crate::literal::lemma_arr_wf_unfold(arr@);
                                            assert(arr2@.cells.len() == arr2@.cap + arr2@.size);
                                            assert forall|ci: int|
                                                0 <= ci < arr2@.cells.len() implies lit_wf(
                                                #[trigger] arr2@.cells[ci],
                                            ) by {
                                                if ci < arr@.cells.len() {
                                                    assert(arr2@.cells[ci] == arr@.cells[ci]);
                                                } else {
                                                    assert(arr2@.cells[ci] == LitV::Int(
                                                        c as u32 as i64,
                                                    ));
                                                }
                                            }
                                        }
                                        assert forall|j: int|
                                            0 <= j < self@.vars.len() implies var_wf(
                                            #[trigger] self@.vars[j],
                                        ) by {
                                            if j != p.address as int {
                                                assert(self@.vars[j] == s1.vars[j]);
                                            }
                                        }
                                    }
                                },
                                Err(e) => {
                                    proof {
                                        assert(arr@.size >= arr@.cap);
                                        assert(spec_word_fill(s_cur, p.address as int, x)
                                            == err(s1, ForthError::IndexOutOfBound));
                                        assert(spec_read_word(old(self)@) == spec_word_fill(
                                            s_entry,
                                            p.address as int,
                                            x,
                                        ));
                                    }
                                    return Err(e);
                                },
                            }
                        },
                        _ => {
                            proof {
                                assert(spec_word_fill(s_cur, p.address as int, x) == err(
                                    s1,
                                    ForthError::InvalidOperands,
                                ));
                                assert(spec_read_word(old(self)@) == spec_word_fill(
                                    s_entry,
                                    p.address as int,
                                    x,
                                ));
                            }
                            return Err(ForthError::InvalidOperands);
                        },
                    }
                }
                proof {
                    assert(self@.input.len() == 0);
                    assert(spec_word_fill(self@, p.address as int, x) == ok(self@));
                    assert(spec_read_word(old(self)@) == spec_word_fill(
                        s_entry,
                        p.address as int,
                        x,
                    ));
                }
                Ok(())
            },
            _ => Err(ForthError::InvalidOperands),
        }
    }

    /// `+!`: adds a value into the variable a pointer designates.
    pub fn add_to(&mut self) -> (r: Result<(), ForthError>)
        requires
            wf_state(old(self)@),
        ensures
            wf_state(final(self)@),
            ({
                let (s2, r2) = spec_combine_into(old(self)@, NativeWord::AddTo);
                final(self)@ == s2 && r == r2
            }),
    {
        let (value, pointer) = match self.get_binary_operands() {
            Ok(p) => p,
            Err(e) => {
                return Err(e);
            },
        };
        let pdup = pointer.duplicate();
        self.push(pdup);
        match self.fetch_variable() {
            Err(e) => {
                return Err(e);
            },
            Ok(()) => {},
        }
        self.push(value);
        match self.add() {
            Err(e) => {
                return Err(e);
            },
            Ok(()) => {},
        }
        self.push(pointer);
        self.store_variable()
    }

    /// `-!`: subtracts a value from the variable a pointer designates.
    pub fn sub_from(&mut self) -> (r: Result<(), ForthError>)
        requires
            wf_state(old(self)@),
        ensures
            wf_state(final(self)@),
            ({
                let (s2, r2) = spec_combine_into(old(self)@, NativeWord::SubFrom);
                final(self)@ == s2 && r == r2
            }),
    {
        let (value, pointer) = match self.get_binary_operands() {
            Ok(p) => p,
            Err(e) => {
                return Err(e);
            },
        };
        let pdup = pointer.duplicate();
        self.push(pdup);
        match self.fetch_variable() {
            Err(e) => {
                return Err(e);
            },
            Ok(()) => {},
        }
        self.push(value);
        match self.sub() {
            Err(e) => {
                return Err(e);
            },
            Ok(()) => {},
        }
        self.push(pointer);
        self.store_variable()
    }

    /// `*!`: multiplies the variable a pointer designates by a value.
    pub fn mul_by(&mut self) -> (r: Result<(), ForthError>)
        requires
            wf_state(old(self)@),
        ensures
            wf_state(final(self)@),
            ({
                let (s2, r2) = spec_combine_into(old(self)@, NativeWord::MulBy);
                final(self)@ == s2 && r == r2
            }),
    {
        let (value, pointer) = match self.get_binary_operands() {
            Ok(p) => p,
            Err(e) => {
                return Err(e);
            },
        };
        let pdup = pointer.duplicate();
        self.push(pdup);
        match self.fetch_variable() {
            Err(e) => {
                return Err(e);
            },
            Ok(()) => {},
        }
        self.push(value);
        match self.mul() {
            Err(e) => {
                return Err(e);
            },
            Ok(()) => {},
        }
        self.push(pointer);
        self.store_variable()
    }

    /// `/!`: divides the variable a pointer designates by a value.
    pub fn div_by(&mut self) -> (r: Result<(), ForthError>)
        requires
            wf_state(old(self)@),
        ensures
            wf_state(final(self)@),
            ({
                let (s2, r2) = spec_combine_into(old(self)@, NativeWord::DivBy);
                final(self)@ == s2 && r == r2
            }),
    {
        let (value, pointer) = match self.get_binary_operands() {
            Ok(p) => p,
            Err(e) => {
                return Err(e);
            },
        };
        let pdup = pointer.duplicate();
        self.push(pdup);
        match self.fetch_variable() {
            Err(e) => {
                return Err(e);
            },
            Ok(()) => {},
        }
        self.push(value);
        match self.div() {
            Err(e) => {
                return Err(e);
            },
            Ok(()) => {},
        }
        self.push(pointer);
        self.store_variable()
    }

    /// Runs one native word.
    pub(crate) fn run_native(&mut self, w: NativeWord) -> (r: Result<(), ForthError>)
        requires
            wf_state(old(self)@),
        ensures
            wf_state(final(self)@),
            ({
                let (s2, r2) = spec_native(old(self)@, w);
                final(self)@ == s2 && r == r2
            }),
    {
        match w {
            NativeWord::Print => self.print_top(),
            NativeWord::Emit => self.emit(),
            NativeWord::Cr => self.cr(),
            NativeWord::Key => self.key(),
            NativeWord::ReadWord => self.word(),
            NativeWord::Add => self.add(),
            NativeWord::Sub => self.sub(),
            NativeWord::Mul => self.mul(),
            NativeWord::Div => self.div(),
            NativeWord::Mod => self.modulo(),
            NativeWord::Negate => self.negate(),
            NativeWord::Abs => self.abs(),
            NativeWord::Max => self.max(),
            NativeWord::Min => self.min(),
            NativeWord::AddTo => self.add_to(),
            NativeWord::SubFrom => self.sub_from(),
            NativeWord::MulBy => self.mul_by(),
            NativeWord::DivBy => self.div_by(),
            NativeWord::Equal => self.equal(),
            NativeWord::Greater => self.greater(),
            NativeWord::Less => self.less(),
            NativeWord::Invert => self.invert(),
            NativeWord::And => self.and(),
            NativeWord::Or => self.or(),
            NativeWord::Dup => self.dup(),
            NativeWord::DropTop => self.drop_top(),
            NativeWord::Swap => self.swap(),
            NativeWord::Over => self.over(),
            NativeWord::Rot => self.rot(),
            NativeWord::Fetch => self.fetch_variable(),
            NativeWord::Store => self.store_variable(),
            NativeWord::Cells => self.cells(),
            NativeWord::Allot => self.allot(),
        }
    }
}

impl ForthInterpreter {
    /// Inserts or overwrites a constant binding.
    #[verifier::loop_isolation(false)]
    fn insert_constant(&mut self, name: &str, value: Literal)
        requires
            wf_state(old(self)@),
            lit_wf(value@),
        ensures
            wf_state(final(self)@),
            final(self)@ == with_consts(
                old(self)@,
                assoc_set(old(self)@.consts, name@, value@),
            ),
    {
        proof {
            lemma_view(*self);
        }
        let n = self.constants.len();
        let mut i: usize = 0;
        while i < n
            invariant
                i <= n,
                self@ == old(self)@,
                *self == *old(self),
                n == self.constants@.len(),
                n == self@.consts.len(),
                forall|j: int| 0 <= j < i ==> (#[trigger] self@.consts[j]).0 != name@,
            decreases n - i,
        {
            proof {
                lemma_view(*self);
            }
            if str_eq(self.constants[i].0.as_str(), name) {
                let ghost mid = self@;
                let ghost midc = self.constants@;
                self.constants.set(i, (name.to_owned(), value));
                proof {
                    lemma_view(*self);
                    lemma_const_view_seq(midc);
                    assert(mid.consts == seq_const_view(midc));
                    assert(mid.consts[i as int].0 == name@);
                    lemma_assoc_set_skip(mid.consts, name@, value@, i as int);
                    assert(mid.consts.skip(i as int)[0] == mid.consts[i as int]);
                    assert(mid.consts.skip(i as int).skip(1) =~= mid.consts.skip(i + 1));
                    assert(assoc_set(mid.consts.skip(i as int), name@, value@) =~= seq![
                        (name@, value@),
                    ] + mid.consts.skip(i + 1));
                    assert(self@.consts =~= mid.consts.update(i as int, (name@, value@)));
                    assert(assoc_set(mid.consts, name@, value@) =~= mid.consts.update(
                        i as int,
                        (name@, value@),
                    ));
                    assert(self@ =~= with_consts(
                        old(self)@,
                        assoc_set(old(self)@.consts, name@, value@),
                    ));
                    assert(wf_state(self@)) by {
                        assert(self@.stack == old(self)@.stack);
                        assert(self@.vars == old(self)@.vars);
                        assert(self@.words == old(self)@.words);
                        assert forall|j: int| 0 <= j < self@.consts.len() implies lit_wf(
                            #[trigger] self@.consts[j].1,
                        ) by {
                            if j != i {
                                assert(self@.consts[j] == mid.consts[j]);
                                assert(lit_wf(old(self)@.consts[j].1));
                            }
                        }
                    }
                }
                return ;
            }
            i += 1;
        }
        let ghost mid = self@;
        let ghost midc = self.constants@;
        self.constants.push((name.to_owned(), value));
        proof {
            lemma_view(*self);
            lemma_const_view_seq(midc);
            assert(mid.consts == seq_const_view(midc));
            lemma_assoc_set_skip(mid.consts, name@, value@, n as int);
            assert(mid.consts.skip(n as int).len() == 0);
            assert(assoc_set(mid.consts.skip(n as int), name@, value@) =~= seq![
                (name@, value@),
            ]);
            assert(self@.consts =~= mid.consts.push((name@, value@)));
            assert(assoc_set(mid.consts, name@, value@) =~= mid.consts.push((name@, value@)));
            assert(self@ =~= with_consts(
                old(self)@,
                assoc_set(old(self)@.consts, name@, value@),
            ));
            assert(wf_state(self@)) by {
                assert(self@.stack == old(self)@.stack);
                assert(self@.vars == old(self)@.vars);
                assert(self@.words == old(self)@.words);
                assert forall|j: int| 0 <= j < self@.consts.len() implies lit_wf(
                    #[trigger] self@.consts[j].1,
                ) by {
                    if j < mid.consts.len() {
                        assert(self@.consts[j] == mid.consts[j]);
                        assert(lit_wf(old(self)@.consts[j].1));
                    }
                }
            }
        }
    }

    /// Inserts or overwrites a user-word binding; redefinition
    /// affects every later invocation, as lookup is by name at each
    /// call.
    #[verifier::loop_isolation(false)]
    fn insert_word(&mut self, name: &str, body: Vec<WordElement>)
        requires
            wf_state(old(self)@),
            body_wf(seq_word_elem_view(body@)),
        ensures
            wf_state(final(self)@),
            final(self)@ == with_words(
                old(self)@,
                assoc_set(old(self)@.words, name@, seq_word_elem_view(body@)),
            ),
    {
        proof {
            lemma_view(*self);
        }
        let ghost bv = seq_word_elem_view(body@);
        let n = self.user_words.len();
        let mut i: usize = 0;
        while i < n
            invariant
                i <= n,
                self@ == old(self)@,
                *self == *old(self),
                n == self.user_words@.len(),
                n == self@.words.len(),
                bv == seq_word_elem_view(body@),
                forall|j: int| 0 <= j < i ==> (#[trigger] self@.words[j]).0 != name@,
            decreases n - i,
        {
            proof {
                lemma_view(*self);
            }
            if str_eq(self.user_words[i].0.as_str(), name) {
                let ghost mid = self@;
                let ghost midw = self.user_words@;
                self.user_words.set(i, (name.to_owned(), body));
                proof {
                    lemma_view(*self);
                    lemma_words_view_seq(midw);
                    assert(mid.words == seq_words_view(midw));
                    assert(mid.words[i as int].0 == name@);
                    lemma_assoc_set_skip(mid.words, name@, bv, i as int);
                    assert(mid.words.skip(i as int)[0] == mid.words[i as int]);
                    assert(mid.words.skip(i as int).skip(1) =~= mid.words.skip(i + 1));
                    assert(assoc_set(mid.words.skip(i as int), name@, bv) =~= seq![(name@, bv)]
                        + mid.words.skip(i + 1));
                    assert(self@.words =~= mid.words.update(i as int, (name@, bv)));
                    assert(assoc_set(mid.words, name@, bv) =~= mid.words.update(
                        i as int,
                        (name@, bv),
                    ));
                    assert(self@ =~= with_words(
                        old(self)@,
                        assoc_set(old(self)@.words, name@, bv),
                    ));
                    assert(wf_state(self@)) by {
                        assert(self@.stack == old(self)@.stack);
                        assert(self@.vars == old(self)@.vars);
                        assert(self@.consts == old(self)@.consts);
                        assert forall|j: int| 0 <= j < self@.words.len() implies body_wf(
                            #[trigger] self@.words[j].1,
                        ) by {
                            if j != i {
                                assert(self@.words[j] == mid.words[j]);
                                assert(body_wf(old(self)@.words[j].1));
                            }
                        }
                    }
                }
                return ;
            }
            i += 1;
        }
        let ghost mid = self@;
        let ghost midw = self.user_words@;
        self.user_words.push((name.to_owned(), body));
        proof {
            lemma_view(*self);
            lemma_words_view_seq(midw);
            assert(mid.words == seq_words_view(midw));
            lemma_assoc_set_skip(mid.words, name@, bv, n as int);
            assert(mid.words.skip(n as int).len() == 0);
            assert(assoc_set(mid.words.skip(n as int), name@, bv) =~= seq![(name@, bv)]);
            assert(self@.words =~= mid.words.push((name@, bv)));
            assert(assoc_set(mid.words, name@, bv) =~= mid.words.push((name@, bv)));
            assert(self@ =~= with_words(old(self)@, assoc_set(old(self)@.words, name@, bv)));
            assert(wf_state(self@)) by {
                assert(self@.stack == old(self)@.stack);
                assert(self@.vars == old(self)@.vars);
                assert(self@.consts == old(self)@.consts);
                assert forall|j: int| 0 <= j < self@.words.len() implies body_wf(
                    #[trigger] self@.words[j].1,
                ) by {
                    if j < mid.words.len() {
                        assert(self@.words[j] == mid.words[j]);
                        assert(body_wf(old(self)@.words[j].1));
                    }
                }
            }
        }
    }

    /// Executes one expression element.
    fn exec_element(&mut self, el: &ExpressionElement, fuel: u64) -> (r: Result<(), ForthError>)
        requires
            wf_state(old(self)@),
            crate::ast::elem_wf(el@),
        ensures
            wf_state(final(self)@),
            ({
                let (s2, r2) = spec_run_elem(old(self)@, el@, fuel as nat);
                final(self)@ == s2 && r == r2
            }),
        decreases fuel, 1int, 0int,
    {
        match el {
            ExpressionElement::Literal(l) => {
                self.push(l.duplicate());
                Ok(())
            },
            ExpressionElement::Ident(id) => self.exec_ident(id.name(), fuel),
        }
    }

    /// Resolves and executes a name, in strict priority order:
    /// variable, constant, native word, user word; an unresolved name
    /// fails with `VariableNotExist`.
    fn exec_ident(&mut self, name: &str, fuel: u64) -> (r: Result<(), ForthError>)
        requires
            wf_state(old(self)@),
        ensures
            wf_state(final(self)@),
            ({
                let (s2, r2) = spec_run_ident(old(self)@, name@, fuel as nat);
                final(self)@ == s2 && r == r2
            }),
        decreases fuel, 0int, 0int,
    {
        let vid = self.find_variable_id(name);
        match vid {
            Some(idx) => {
                self.push(Literal::Pointer(Pointer::new(idx, 0)));
                return Ok(());
            },
            None => {},
        }
        match self.find_constant(name) {
            Some(v) => {
                self.push(v);
                return Ok(());
            },
            None => {},
        }
        match native_of(name) {
            Some(w) => {
                return self.run_native(w);
            },
            None => {},
        }
        let body_found = self.find_word_body(name);
        match body_found {
            Some(body) => {
                if fuel == 0 {
                    return Err(ForthError::OtherError);
                }
                return self.exec_body(&body, fuel - 1);
            },
            None => {},
        }
        Err(ForthError::VariableNotExist)
    }

    /// Executes an expression left to right, stopping at the first
    /// failure.
    fn exec_expression(&mut self, e: &Expression, fuel: u64) -> (r: Result<(), ForthError>)
        requires
            wf_state(old(self)@),
            expr_wf(e@),
        ensures
            wf_state(final(self)@),
            ({
                let (s2, r2) = spec_run_expr(old(self)@, e@, fuel as nat);
                final(self)@ == s2 && r == r2
            }),
        decreases fuel, 2int, 0int,
    {
        let ghost ev = e@;
        let n = e.elements.len();
        let mut i: usize = 0;
        proof {
            assert(ev.skip(0) =~= ev);
        }
        while i < n
            invariant
                wf_state(self@),
                i <= n,
                n == e.elements@.len(),
                ev == e@,
                expr_wf(ev),
                ({
                    let (s2, r2) = spec_run_expr(old(self)@, ev, fuel as nat);
                    let (s3, r3) = spec_run_expr(self@, ev.skip(i as int), fuel as nat);
                    s2 == s3 && r2 == r3
                }),
            decreases n - i,
        {
            proof {
                assert(ev[i as int] == e.elements@[i as int]@);
                assert(ev.skip(i as int)[0] == ev[i as int]);
                assert(ev.skip(i as int).skip(1) =~= ev.skip(i + 1));
                assert(crate::ast::elem_wf(ev[i as int]));
            }
            let r = self.exec_element(&e.elements[i], fuel);
            match r {
                Err(e2) => {
                    return Err(e2);
                },
                Ok(()) => {},
            }
            i += 1;
        }
        proof {
            assert(ev.skip(n as int).len() == 0);
        }
        Ok(())
    }

    /// Executes one statement.
    fn exec_statement(&mut self, st: &Statement, fuel: u64) -> (r: Result<(), ForthError>)
        requires
            wf_state(old(self)@),
            crate::ast::stmt_wf(st@),
        ensures
            wf_state(final(self)@),
            ({
                let (s2, r2) = spec_run_stmt(old(self)@, st@, fuel as nat);
                final(self)@ == s2 && r == r2
            }),
        decreases fuel, 4int, 0int,
    {
        match st {
            Statement::IfThen(s) => {
                let truth: Option<bool> = match self.get_last_literal() {
                    Err(e) => {
                        return Err(e);
                    },
                    Ok(l) => match l {
                        Literal::Integer(i) => Some(*i == -1),
                        Literal::String(_) => Some(true),
                        _ => None,
                    },
                };
                match truth {
                    None => Err(ForthError::InvalidOperands),
                    Some(true) => self.exec_expression(&s.true_expr, fuel),
                    Some(false) => Ok(()),
                }
            },
            Statement::IfElseThen(s) => {
                let truth: Option<bool> = match self.get_last_literal() {
                    Err(e) => {
                        return Err(e);
                    },
                    Ok(l) => match l {
                        Literal::Integer(i) => Some(*i == -1),
                        Literal::String(_) => Some(true),
                        _ => None,
                    },
                };
                match truth {
                    None => Err(ForthError::InvalidOperands),
                    Some(true) => self.exec_expression(&s.true_expr, fuel),
                    Some(false) => self.exec_expression(&s.false_expr, fuel),
                }
            },
            Statement::DoLoop(s) => {
                let ops = match self.get_binary_operands() {
                    Ok(p) => p,
                    Err(e) => {
                        return Err(e);
                    },
                };
                match ops {
                    (Literal::Integer(start), Literal::Integer(stop)) => {
                        let ghost cname = s.counter@;
                        let ghost bodyv = s.expr@;
                        let mut i: i64 = start;
                        proof {
                            assert(spec_run_stmt(old(self)@, st@, fuel as nat)
                                == spec_run_do_loop(self@, cname, bodyv, start, stop, fuel as nat));
                        }
                        while i < stop
                            invariant
                                wf_state(self@),
                                cname == s.counter@,
                                bodyv == s.expr@,
                                crate::ast::stmt_wf(st@),
                                st@ == StmtV::DoLoop(cname, bodyv),
                                ({
                                    let (s2, r2) = spec_run_stmt(old(self)@, st@, fuel as nat);
                                    let (s3, r3) = spec_run_do_loop(
                                        self@,
                                        cname,
                                        bodyv,
                                        i,
                                        stop,
                                        fuel as nat,
                                    );
                                    s2 == s3 && r2 == r3
                                }),
                            decreases stop - i,
                        {
                            let r = self.exec_expression(&s.expr, fuel);
                            match r {
                                Err(e) => {
                                    return Err(e);
                                },
                                Ok(()) => {},
                            }
                            self.set_variable(s.counter.name(), Literal::Integer(i));
                            i = i + 1;
                        }
                        Ok(())
                    },
                    _ => Err(ForthError::InvalidOperands),
                }
            },
        }
    }

    /// Executes one element of a word body.
    fn exec_word_elem(&mut self, w: &WordElement, fuel: u64) -> (r: Result<(), ForthError>)
        requires
            wf_state(old(self)@),
            crate::ast::word_elem_wf(w@),
        ensures
            wf_state(final(self)@),
            ({
                let (s2, r2) = spec_run_word_elem(old(self)@, w@, fuel as nat);
                final(self)@ == s2 && r == r2
            }),
        decreases fuel, 5int, 0int,
    {
        match w {
            WordElement::Statement(s) => self.exec_statement(s, fuel),
            WordElement::Expression(e) => self.exec_expression(e, fuel),
        }
    }

    /// Executes a word body element by element, stopping at the first
    /// failure.
    fn exec_body(&mut self, b: &Vec<WordElement>, fuel: u64) -> (r: Result<(), ForthError>)
        requires
            wf_state(old(self)@),
            body_wf(seq_word_elem_view(b@)),
        ensures
            wf_state(final(self)@),
            ({
                let (s2, r2) = spec_run_body(old(self)@, seq_word_elem_view(b@), fuel as nat);
                final(self)@ == s2 && r == r2
            }),
        decreases fuel, 6int, 0int,
    {
        let ghost bv = seq_word_elem_view(b@);
        let n = b.len();
        let mut i: usize = 0;
        proof {
            assert(bv.skip(0) =~= bv);
        }
        while i < n
            invariant
                wf_state(self@),
                i <= n,
                n == b@.len(),
                bv == seq_word_elem_view(b@),
                body_wf(bv),
                ({
                    let (s2, r2) = spec_run_body(old(self)@, bv, fuel as nat);
                    let (s3, r3) = spec_run_body(self@, bv.skip(i as int), fuel as nat);
                    s2 == s3 && r2 == r3
                }),
            decreases n - i,
        {
            proof {
                assert(bv[i as int] == b@[i as int]@);
                assert(bv.skip(i as int)[0] == bv[i as int]);
                assert(bv.skip(i as int).skip(1) =~= bv.skip(i + 1));
                assert(crate::ast::word_elem_wf(bv[i as int]));
            }
            let r = self.exec_word_elem(&b[i], fuel);
            match r {
                Err(e2) => {
                    return Err(e2);
                },
                Ok(()) => {},
            }
            i += 1;
        }
        proof {
            assert(bv.skip(n as int).len() == 0);
        }
        Ok(())
    }

    /// Executes one parsed line.
    fn exec_line_ast(&mut self, l: &Line, fuel: u64) -> (r: Result<(), ForthError>)
        requires
            wf_state(old(self)@),
            crate::ast::line_wf(l@),
        ensures
            wf_state(final(self)@),
            ({
                let (s2, r2) = spec_run_line(old(self)@, l@, fuel as nat);
                final(self)@ == s2 && r == r2
            }),
        decreases fuel, 7int, 0int,
    {
        match l {
            Line::Expression(e) => self.exec_expression(e, fuel),
            Line::Definition(d) => {
                match d {
                    Definition::Variable(v) => {
                        let ghost mid = self@;
                        self.variables.push(
                            Variable { name: v.name.name.clone(), value: None },
                        );
                        proof {
                            lemma_view(*old(self));
                            lemma_view(*self);
                            assert(self@.vars =~= mid.vars.push(
                                VarV { name: v.name@, value: None },
                            ));
                            assert(self@ =~= with_vars(mid, mid.vars.push(
                                VarV { name: v.name@, value: None },
                            )));
                            assert forall|j: int| 0 <= j < self@.vars.len() implies var_wf(
                                #[trigger] self@.vars[j],
                            ) by {
                                if j < mid.vars.len() {
                                    assert(self@.vars[j] == mid.vars[j]);
                                }
                            }
                        }
                        Ok(())
                    },
                    Definition::Constant(c) => {
                        self.insert_constant(c.name.name.as_str(), c.value.duplicate());
                        Ok(())
                    },
                    Definition::Word(w) => {
                        let body = crate::ast::duplicate_body(&w.value);
                        self.insert_word(w.name.name.as_str(), body);
                        Ok(())
                    },
                }
            },
        }
    }

    /// A freshly constructed interpreter: everything empty, the
    /// native words ready.
    pub fn new() -> (it: Self)
        ensures
            it@ == init_state(),
            wf_state(it@),
    {
        let it = ForthInterpreter {
            stack: Stack::new(),
            variables: Vec::new(),
            constants: Vec::new(),
            user_words: Vec::new(),
            input: Vec::new(),
            output: Vec::new(),
        };
        proof {
            lemma_view(it);
            assert(it@ =~= init_state());
        }
        it
    }

    /// Resets to the equivalent of a freshly constructed interpreter:
    /// the stack, variables, constants, user words and I/O buffers
    /// are emptied; the native words are unchanged.
    pub fn clear_state(&mut self)
        ensures
            final(self)@ == init_state(),
            wf_state(final(self)@),
    {
        self.stack = Stack::new();
        self.variables = Vec::new();
        self.constants = Vec::new();
        self.user_words = Vec::new();
        self.input = Vec::new();
        self.output = Vec::new();
        proof {
            lemma_view(*self);
            assert(self@ =~= init_state());
        }
    }

    /// Parses and executes exactly one line; a malformed line fails
    /// with `ParseError` and executes nothing.
    pub fn execute_line(&mut self, line: &str) -> (r: Result<(), ForthError>)
        requires
            wf_state(old(self)@),
        ensures
            wf_state(final(self)@),
            ({
                let (s2, r2) = spec_execute_line(old(self)@, line@);
                final(self)@ == s2 && r == r2
            }),
    {
        let l = match crate::parser::ForthParser::parse_line(line) {
            Ok(l) => l,
            Err(e) => {
                return Err(e);
            },
        };
        proof {
            crate::parser::lemma_parse_source_line_wf(line@);
        }
        self.exec_line_ast(&l, CALL_DEPTH_LIMIT)
    }

    /// Executes a newline-delimited program line by line,
    /// short-circuiting on the first failure.
    pub fn execute(&mut self, text: &str) -> (r: Result<(), ForthError>)
        requires
            wf_state(old(self)@),
        ensures
            wf_state(final(self)@),
            ({
                let (s2, r2) = spec_execute(old(self)@, text@);
                final(self)@ == s2 && r == r2
            }),
    {
        let n = text.unicode_len();
        let mut pos: usize = 0;
        proof {
            assert(text@.skip(0) =~= text@);
        }
        while pos < n
            invariant
                wf_state(self@),
                pos <= n,
                n == text@.len(),
                ({
                    let (s2, r2) = spec_execute(old(self)@, text@);
                    let (s3, r3) = spec_execute(self@, text@.skip(pos as int));
                    s2 == s3 && r2 == r3
                }),
            decreases n - pos,
        {
            let ghost cs = text@.skip(pos as int);
            let j = crate::parser::scan_to_char(text, pos, '\n');
            proof {
                assert(crate::parser::find_char(cs, '\n') == j - pos);
                assert(cs.subrange(0, j - pos) =~= text@.subrange(pos as int, j as int));
            }
            let line_str = text.substring_char(pos, j);
            let r = self.execute_line(line_str);
            match r {
                Err(e) => {
                    return Err(e);
                },
                Ok(()) => {},
            }
            if j == n {
                proof {
                    assert(j - pos == cs.len());
                }
                return Ok(());
            }
            proof {
                assert(j - pos < cs.len());
                assert(cs.skip((j - pos) + 1) =~= text@.skip(j + 1));
            }
            pos = j + 1;
        }
        proof {
            assert(text@.skip(pos as int).len() == 0);
        }
        Ok(())
    }

    /// A read-only snapshot of the data stack.
    pub fn get_stack_dump(&self) -> (r: &Stack<Literal>)
        ensures
            seq_lit_view(r@) == self@.stack,
    {
        &self.stack
    }

    /// A read-only snapshot of the variable store.
    pub fn get_vars_dump(&self) -> (r: &Vec<Variable>)
        ensures
            seq_var_view(r@) == self@.vars,
    {
        &self.variables
    }

    /// A read-only snapshot of the constant table.
    pub fn get_consts_dump(&self) -> (r: &Vec<(String, Literal)>)
        ensures
            seq_const_view(r@) == self@.consts,
    {
        &self.constants
    }

    /// A read-only snapshot of the user-word table.
    pub fn get_user_words_dump(&self) -> (r: &Vec<(String, Vec<WordElement>)>)
        ensures
            seq_words_view(r@) == self@.words,
    {
        &self.user_words
    }

    /// A read-only snapshot of the output buffer.
    pub fn get_output_dump(&self) -> (r: &Vec<char>)
        ensures
            r@ == self@.output,
    {
        &self.output
    }

    /// Appends text to the injected input, for `key` and `word` to
    /// read.
    pub fn provide_input(&mut self, text: &str)
        requires
            wf_state(old(self)@),
        ensures
            wf_state(final(self)@),
            final(self)@ == with_input(old(self)@, old(self)@.input + text@),
    {
        crate::text::push_str_chars(&mut self.input, text);
        proof {
            lemma_view(*old(self));
            lemma_view(*self);
            assert(self@ =~= with_input(old(self)@, old(self)@.input + text@));
        }
    }

    /// The names of the native words, one per dispatch-table entry,
    /// in table order.
    pub fn get_native_words_dump(&self) -> (r: Vec<String>)
        ensures
            r@.len() == native_names().len(),
            forall|i: int| 0 <= i < r@.len() ==> #[trigger] r@[i]@ == native_names()[i],
    {
        let mut v: Vec<String> = Vec::new();
        v.push(".".to_owned());
        v.push("emit".to_owned());
        v.push("cr".to_owned());
        v.push("key".to_owned());
        v.push("word".to_owned());
        v.push("+".to_owned());
        v.push("-".to_owned());
        v.push("*".to_owned());
        v.push("/".to_owned());
        v.push("mod".to_owned());
        v.push("negate".to_owned());
        v.push("abs".to_owned());
        v.push("max".to_owned());
        v.push("min".to_owned());
        v.push("+!".to_owned());
        v.push("-!".to_owned());
        v.push("*!".to_owned());
        v.push("/!".to_owned());
        v.push("=".to_owned());
        v.push(">".to_owned());
        v.push("<".to_owned());
        v.push("invert".to_owned());
        v.push("and".to_owned());
        v.push("or".to_owned());
        v.push("dup".to_owned());
        v.push("drop".to_owned());
        v.push("swap".to_owned());
        v.push("over".to_owned());
        v.push("rot".to_owned());
        v.push("@".to_owned());
        v.push("!".to_owned());
        v.push("cells".to_owned());
        v.push("allot".to_owned());
        proof {
            assert forall|i: int| 0 <= i < v@.len() implies #[trigger] v@[i]@
                == native_names()[i] by {
                if i == 0 {
                    assert(v@[0]@ == native_names()[0]);
                }
                if i == 1 {
                    assert(v@[1]@ == native_names()[1]);
                }
                if i == 2 {
                    assert(v@[2]@ == native_names()[2]);
                }
                if i == 3 {
                    assert(v@[3]@ == native_names()[3]);
                }
                if i == 4 {
                    assert(v@[4]@ == native_names()[4]);
                }
                if i == 5 {
                    assert(v@[5]@ == native_names()[5]);
                }
                if i == 6 {
                    assert(v@[6]@ == native_names()[6]);
                }
                if i == 7 {
                    assert(v@[7]@ == native_names()[7]);
                }
                if i == 8 {
                    assert(v@[8]@ == native_names()[8]);
                }
                if i == 9 {
                    assert(v@[9]@ == native_names()[9]);
                }
                if i == 10 {
                    assert(v@[10]@ == native_names()[10]);
                }
                if i == 11 {
                    assert(v@[11]@ == native_names()[11]);
                }
                if i == 12 {
                    assert(v@[12]@ == native_names()[12]);
                }
                if i == 13 {
                    assert(v@[13]@ == native_names()[13]);
                }
                if i == 14 {
                    assert(v@[14]@ == native_names()[14]);
                }
                if i == 15 {
                    assert(v@[15]@ == native_names()[15]);
                }
                if i == 16 {
                    assert(v@[16]@ == native_names()[16]);
                }
                if i == 17 {
                    assert(v@[17]@ == native_names()[17]);
                }
                if i == 18 {
                    assert(v@[18]@ == native_names()[18]);
                }
                if i == 19 {
                    assert(v@[19]@ == native_names()[19]);
                }
                if i == 20 {
                    assert(v@[20]@ == native_names()[20]);
                }
                if i == 21 {
                    assert(v@[21]@ == native_names()[21]);
                }
                if i == 22 {
                    assert(v@[22]@ == native_names()[22]);
                }
                if i == 23 {
                    assert(v@[23]@ == native_names()[23]);
                }
                if i == 24 {
                    assert(v@[24]@ == native_names()[24]);
                }
                if i == 25 {
                    assert(v@[25]@ == native_names()[25]);
                }
                if i == 26 {
                    assert(v@[26]@ == native_names()[26]);
                }
                if i == 27 {
                    assert(v@[27]@ == native_names()[27]);
                }
                if i == 28 {
                    assert(v@[28]@ == native_names()[28]);
                }
                if i == 29 {
                    assert(v@[29]@ == native_names()[29]);
                }
                if i == 30 {
                    assert(v@[30]@ == native_names()[30]);
                }
                if i == 31 {
                    assert(v@[31]@ == native_names()[31]);
                }
                if i == 32 {
                    assert(v@[32]@ == native_names()[32]);
                }
            }
        }
        v
}
}

} // verus!
