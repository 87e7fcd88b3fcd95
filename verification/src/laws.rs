use vstd::prelude::*;

use crate::ast::{ElemV, StmtV};
use crate::interp::{
    find_var_idx, lemma_set_variable_binds, ok, push_v, spec_native, spec_run_do_loop,
    spec_run_expr, spec_run_stmt, spec_set_variable, with_stack, InterpV, NativeWord,
};
use crate::literal::LitV;

verus! {

/// For all integer pairs, the expression `a b +` pushed in that order
/// leaves exactly `a + b` on the stack (`a` is consumed as the left
/// operand), whenever the sum is representable and no variable or
/// constant shadows the word `+`.
pub proof fn lemma_add_expression(s: InterpV, a: i64, b: i64, fuel: nat)
    requires
        find_var_idx(s.vars, "+"@) == s.vars.len(),
        crate::interp::assoc_find(s.consts, "+"@) is None,
        i64::MIN <= a + b <= i64::MAX,
    ensures
        spec_run_expr(
            s,
            seq![ElemV::Lit(LitV::Int(a)), ElemV::Lit(LitV::Int(b)), ElemV::Id("+"@)],
            fuel,
        ) == ok(with_stack(s, s.stack.push(LitV::Int((a + b) as i64)))),
{
    reveal_strlit(".");
    reveal_strlit("emit");
    reveal_strlit("cr");
    reveal_strlit("key");
    reveal_strlit("word");
    reveal_strlit("+");
    reveal_with_fuel(crate::interp::spec_run_expr, 5);
    reveal_with_fuel(crate::interp::spec_run_elem, 5);
    reveal_with_fuel(crate::interp::spec_run_ident, 5);
    assert("+"@.len() == 1);
    assert("."@.len() == 1);
    assert("emit"@.len() == 4);
    assert("cr"@.len() == 2);
    assert("key"@.len() == 3);
    assert("word"@.len() == 4);
    assert("+"@[0] == '+');
    assert("."@[0] == '.');
    assert("+"@ != "."@);
    assert("+"@ != "emit"@);
    assert("+"@ != "cr"@);
    assert("+"@ != "key"@);
    assert("+"@ != "word"@);
    let es = seq![ElemV::Lit(LitV::Int(a)), ElemV::Lit(LitV::Int(b)), ElemV::Id("+"@)];
    let s1 = push_v(s, LitV::Int(a));
    let s2 = push_v(s1, LitV::Int(b));
    assert(es.skip(1) =~= seq![ElemV::Lit(LitV::Int(b)), ElemV::Id("+"@)]);
    assert(es.skip(1).skip(1) =~= seq![ElemV::Id("+"@)]);
    assert(es.skip(1).skip(1).skip(1) =~= Seq::<ElemV>::empty());
    assert(crate::interp::spec_native_of("+"@) == Some(NativeWord::Add));
    assert(find_var_idx(s2.vars, "+"@) == s2.vars.len());
    assert(s2.stack.len() >= 2);
    assert(s2.stack.last() == LitV::Int(b));
    assert(s2.stack[s2.stack.len() - 2] == LitV::Int(a));
    assert(s2.stack.drop_last().drop_last() =~= s.stack);
    assert(vstd::wrapping::i64_specs::wrapping_add(a, b) == (a + b) as i64);
    assert(with_stack(
        with_stack(s2, s.stack),
        s.stack.push(LitV::Int((a + b) as i64)),
    ) =~= with_stack(s, s.stack.push(LitV::Int((a + b) as i64))));
}

/// For all integer pairs, the expression `a b -` leaves exactly
/// `a - b` on the stack, under the same conditions as addition.
pub proof fn lemma_sub_expression(s: InterpV, a: i64, b: i64, fuel: nat)
    requires
        find_var_idx(s.vars, "-"@) == s.vars.len(),
        crate::interp::assoc_find(s.consts, "-"@) is None,
        i64::MIN <= a - b <= i64::MAX,
    ensures
        spec_run_expr(
            s,
            seq![ElemV::Lit(LitV::Int(a)), ElemV::Lit(LitV::Int(b)), ElemV::Id("-"@)],
            fuel,
        ) == ok(with_stack(s, s.stack.push(LitV::Int((a - b) as i64)))),
{
    reveal_strlit(".");
    reveal_strlit("emit");
    reveal_strlit("cr");
    reveal_strlit("key");
    reveal_strlit("word");
    reveal_strlit("+");
    reveal_strlit("-");
    reveal_with_fuel(crate::interp::spec_run_expr, 5);
    reveal_with_fuel(crate::interp::spec_run_elem, 5);
    reveal_with_fuel(crate::interp::spec_run_ident, 5);
    assert("-"@.len() == 1);
    assert("."@.len() == 1);
    assert("+"@.len() == 1);
    assert("emit"@.len() == 4);
    assert("cr"@.len() == 2);
    assert("key"@.len() == 3);
    assert("word"@.len() == 4);
    assert("-"@[0] == '-');
    assert("."@[0] == '.');
    assert("+"@[0] == '+');
    assert("-"@ != "."@);
    assert("-"@ != "emit"@);
    assert("-"@ != "cr"@);
    assert("-"@ != "key"@);
    assert("-"@ != "word"@);
    assert("-"@ != "+"@);
    let es = seq![ElemV::Lit(LitV::Int(a)), ElemV::Lit(LitV::Int(b)), ElemV::Id("-"@)];
    let s1 = push_v(s, LitV::Int(a));
    let s2 = push_v(s1, LitV::Int(b));
    assert(es.skip(1) =~= seq![ElemV::Lit(LitV::Int(b)), ElemV::Id("-"@)]);
    assert(es.skip(1).skip(1) =~= seq![ElemV::Id("-"@)]);
    assert(es.skip(1).skip(1).skip(1) =~= Seq::<ElemV>::empty());
    assert(crate::interp::spec_native_of("-"@) == Some(NativeWord::Sub));
    assert(find_var_idx(s2.vars, "-"@) == s2.vars.len());
    assert(s2.stack.len() >= 2);
    assert(s2.stack.last() == LitV::Int(b));
    assert(s2.stack[s2.stack.len() - 2] == LitV::Int(a));
    assert(s2.stack.drop_last().drop_last() =~= s.stack);
    assert(vstd::wrapping::i64_specs::wrapping_sub(a, b) == (a - b) as i64);
    assert(with_stack(
        with_stack(s2, s.stack),
        s.stack.push(LitV::Int((a - b) as i64)),
    ) =~= with_stack(s, s.stack.push(LitV::Int((a - b) as i64))));
}

/// `dup` on a stack ending in `x` leaves it ending in `x, x`.
pub proof fn lemma_dup_shuffle(s: InterpV)
    requires
        s.stack.len() >= 1,
    ensures
        spec_native(s, NativeWord::Dup) == ok(with_stack(s, s.stack.push(s.stack.last()))),
{
}

/// `swap` on a stack ending in `a, b` leaves it ending in `b, a`.
pub proof fn lemma_swap_shuffle(s: InterpV)
    requires
        s.stack.len() >= 2,
    ensures
        spec_native(s, NativeWord::Swap) == ok(
            with_stack(
                s,
                s.stack.drop_last().drop_last().push(s.stack.last()).push(
                    s.stack[s.stack.len() - 2],
                ),
            ),
        ),
{
}

/// `rot` on a stack ending in `a, b, c` leaves it ending in
/// `b, c, a`: the third element from the top moves to the top.
pub proof fn lemma_rot_shuffle(s: InterpV)
    requires
        s.stack.len() >= 3,
    ensures
        spec_native(s, NativeWord::Rot) == ok(
            with_stack(
                s,
                s.stack.remove(s.stack.len() - 3).push(s.stack[s.stack.len() - 3]),
            ),
        ),
{
}

/// The counted loop pops its two bounds as a binary pair: the first
/// popped is the upper bound and the second the lower, mirroring the
/// push order `start stop`.
pub proof fn lemma_do_loop_pops_bounds(
    s: InterpV,
    counter: Seq<char>,
    body: Seq<ElemV>,
    start: i64,
    stop: i64,
    fuel: nat,
)
    requires
        s.stack.len() >= 2,
        s.stack[s.stack.len() - 2] == LitV::Int(start),
        s.stack.last() == LitV::Int(stop),
    ensures
        spec_run_stmt(s, StmtV::DoLoop(counter, body), fuel) == spec_run_do_loop(
            with_stack(s, s.stack.drop_last().drop_last()),
            counter,
            body,
            start,
            stop,
            fuel,
        ),
{
}

/// A loop whose lower bound is not below its upper bound performs no
/// iterations and changes nothing.
pub proof fn lemma_do_loop_empty(
    s: InterpV,
    counter: Seq<char>,
    body: Seq<ElemV>,
    start: i64,
    stop: i64,
    fuel: nat,
)
    requires
        start >= stop,
    ensures
        spec_run_do_loop(s, counter, body, start, stop, fuel) == ok(s),
{
}

/// One iteration of the counted loop: with `i` below the upper bound,
/// the body expression runs first, then the counter variable is bound
/// to `Integer(i)` (created on first write), then the loop continues
/// from `i + 1`; a failing body aborts with its error.
pub proof fn lemma_do_loop_step(
    s: InterpV,
    counter: Seq<char>,
    body: Seq<ElemV>,
    i: i64,
    stop: i64,
    fuel: nat,
)
    requires
        i < stop,
    ensures
        ({
            let (s1, r1) = spec_run_expr(s, body, fuel);
            spec_run_do_loop(s, counter, body, i, stop, fuel) == (match r1 {
                Err(e) => (s1, Err::<(), crate::ForthError>(e)),
                Ok(_) => spec_run_do_loop(
                    spec_set_variable(s1, counter, LitV::Int(i)),
                    counter,
                    body,
                    (i + 1) as i64,
                    stop,
                    fuel,
                ),
            })
        }),
{
}

/// After a counted loop over a non-empty range completes, the counter
/// variable holds the last iteration index, the upper bound minus
/// one: each iteration binds it after the body, so the final binding
/// survives.
pub proof fn lemma_do_loop_final_counter(
    s: InterpV,
    counter: Seq<char>,
    body: Seq<ElemV>,
    i: i64,
    stop: i64,
    fuel: nat,
)
    requires
        i < stop,
        spec_run_do_loop(s, counter, body, i, stop, fuel).1 is Ok,
    ensures
        ({
            let s2 = spec_run_do_loop(s, counter, body, i, stop, fuel).0;
            let k = find_var_idx(s2.vars, counter);
            &&& k < s2.vars.len()
            &&& s2.vars[k].name == counter
            &&& s2.vars[k].value == Some(LitV::Int((stop - 1) as i64))
        }),
    decreases stop - i,
{
    let (s1, r1) = spec_run_expr(s, body, fuel);
    assert(r1 is Ok);
    let sb = spec_set_variable(s1, counter, LitV::Int(i));
    if i + 1 < stop {
        lemma_do_loop_final_counter(sb, counter, body, (i + 1) as i64, stop, fuel);
    } else {
        assert(spec_run_do_loop(sb, counter, body, (i + 1) as i64, stop, fuel) == ok(sb));
        lemma_set_variable_binds(s1, counter, LitV::Int(i));
    }
}

} // verus!
