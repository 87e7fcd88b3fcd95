use forth_interpreter::{ForthError, ForthInterpreter, Literal};

// ---------------------------------------------------------------------
// Arithmetic: `a b +` leaves a+b, `a b -` leaves a-b, and the other
// math words give their exact values.
// ---------------------------------------------------------------------
#[test]
fn arithmetic_results() {
    let mut it = ForthInterpreter::new();

    it.execute_line("7 5 +").unwrap();
    assert_eq!(it.get_unary_operand().unwrap(), Literal::Integer(12));

    it.execute_line("7 5 -").unwrap();
    assert_eq!(it.get_unary_operand().unwrap(), Literal::Integer(2));

    it.execute_line("-7 5 +").unwrap();
    assert_eq!(it.get_unary_operand().unwrap(), Literal::Integer(-2));

    it.execute_line("6 7 *").unwrap();
    assert_eq!(it.get_unary_operand().unwrap(), Literal::Integer(42));

    it.execute_line("17 5 /").unwrap();
    assert_eq!(it.get_unary_operand().unwrap(), Literal::Integer(3));

    it.execute_line("17 5 mod").unwrap();
    assert_eq!(it.get_unary_operand().unwrap(), Literal::Integer(2));

    it.execute_line("9 negate").unwrap();
    assert_eq!(it.get_unary_operand().unwrap(), Literal::Integer(-9));

    it.execute_line("-9 abs").unwrap();
    assert_eq!(it.get_unary_operand().unwrap(), Literal::Integer(9));

    it.execute_line("3 8 max").unwrap();
    assert_eq!(it.get_unary_operand().unwrap(), Literal::Integer(8));

    it.execute_line("3 8 min").unwrap();
    assert_eq!(it.get_unary_operand().unwrap(), Literal::Integer(3));
}

#[test]
fn addition_wraps_at_the_extreme() {
    let mut it = ForthInterpreter::new();
    it.execute_line(&format!("{} 1 +", i64::MAX)).unwrap();
    assert_eq!(it.get_unary_operand().unwrap(), Literal::Integer(i64::MIN));
}

// ---------------------------------------------------------------------
// Variable round-trip: `variable v`, `123 v !`, `v @` leaves 123.
// ---------------------------------------------------------------------
#[test]
fn variable_round_trip() {
    let mut it = ForthInterpreter::new();
    it.execute_line("variable v").unwrap();
    it.execute_line("123 v !").unwrap();
    it.execute_line("v @").unwrap();
    assert_eq!(it.get_unary_operand().unwrap(), Literal::Integer(123));
    assert_eq!(it.get_stack_dump().length(), 0);
}

// ---------------------------------------------------------------------
// Array bounds: with `3 cells allot` (capacity 4), writes at indices
// up to 3 succeed and index 4 fails with IndexOutOfBound.
// ---------------------------------------------------------------------
#[test]
fn array_bounds() {
    let mut it = ForthInterpreter::new();
    it.execute_line("variable a").unwrap();
    it.execute_line("3 cells allot").unwrap();
    for i in 0..=3 {
        it.execute_line(&format!("{} a {} cells + !", i * 11, i)).unwrap();
    }
    assert_eq!(
        it.execute_line("100 a 4 cells + !").unwrap_err(),
        ForthError::IndexOutOfBound
    );
    it.execute_line("a 3 cells + @").unwrap();
    assert_eq!(it.get_unary_operand().unwrap(), Literal::Integer(33));
    assert_eq!(
        it.execute_line("a 4 cells + @").unwrap_err(),
        ForthError::IndexOutOfBound
    );
}

// ---------------------------------------------------------------------
// Conditionals read the top of the stack as a boolean without popping
// it: `5 buzz?` leaves 1 on top; `3 buzz?` leaves the false condition
// value.
// ---------------------------------------------------------------------
#[test]
fn conditional_in_word() {
    let mut it = ForthInterpreter::new();
    it.execute_line(": buzz? 5 mod 0 = if 1 then ;").unwrap();

    it.execute_line("5 buzz?").unwrap();
    assert_eq!(it.get_last_literal().unwrap(), &Literal::Integer(1));
    it.clear_state();

    it.execute_line(": buzz? 5 mod 0 = if 1 then ;").unwrap();
    it.execute_line("3 buzz?").unwrap();
    assert_eq!(it.get_unary_operand().unwrap(), Literal::Integer(0));
    it.get_unary_operand().unwrap_err();
}

#[test]
fn conditional_in_word_false_case() {
    let mut it = ForthInterpreter::new();
    it.execute_line(": buzz? 5 mod 0 = if 1 then ;").unwrap();
    it.execute_line("4 buzz?").unwrap();
    // 4 is not a multiple of 5: the false flag is all that remains.
    assert_eq!(it.get_unary_operand().unwrap(), Literal::Integer(0));
    it.get_unary_operand().unwrap_err();
}

#[test]
fn conditional_with_else() {
    let mut it = ForthInterpreter::new();
    it.execute_line(": zero? 0 = if 1 else 0 then ;").unwrap();

    it.execute_line("0 zero?").unwrap();
    assert_eq!(it.get_last_literal().unwrap(), &Literal::Integer(1));
    it.clear_state();

    it.execute_line(": zero? 0 = if 1 else 0 then ;").unwrap();
    it.execute_line("7 zero?").unwrap();
    assert_eq!(it.get_last_literal().unwrap(), &Literal::Integer(0));
}

// ---------------------------------------------------------------------
// The counted loop pops its bounds as `start stop` (the stop bound is
// popped first) and binds the counter variable on each iteration.
// ---------------------------------------------------------------------
#[test]
fn counted_loop_binds_counter() {
    let mut it = ForthInterpreter::new();
    it.execute_line(": loop-test 0 10 do i loop ;").unwrap();
    it.execute_line("loop-test").unwrap();
    let vars = it.get_vars_dump();
    assert_eq!(vars.len(), 1);
    assert_eq!(vars[0].name, "i");
    assert_eq!(vars[0].value, Some(Literal::Integer(9)));
}

#[test]
fn counted_loop_with_empty_range_does_nothing() {
    let mut it = ForthInterpreter::new();
    it.execute_line(": loop-test 10 0 do i loop ;").unwrap();
    it.execute_line("loop-test").unwrap();
    assert_eq!(it.get_vars_dump().len(), 0);
    assert_eq!(it.get_stack_dump().length(), 0);
}

// ---------------------------------------------------------------------
// Late binding: redefining a word affects later invocations.
// ---------------------------------------------------------------------
#[test]
fn word_redefinition_is_late_bound() {
    let mut it = ForthInterpreter::new();
    it.execute_line(": f 1 ;").unwrap();
    it.execute_line("f").unwrap();
    assert_eq!(it.get_unary_operand().unwrap(), Literal::Integer(1));
    it.execute_line(": f 2 ;").unwrap();
    it.execute_line("f").unwrap();
    assert_eq!(it.get_unary_operand().unwrap(), Literal::Integer(2));
}

// ---------------------------------------------------------------------
// Read-only introspection: repeated dumps with no execution between
// them are identical.
// ---------------------------------------------------------------------
#[test]
fn repeated_stack_dumps_are_identical() {
    let mut it = ForthInterpreter::new();
    it.execute_line("1 2 3").unwrap();
    let first = it.get_stack_dump();
    let second = it.get_stack_dump();
    assert_eq!(first, second);
}

// ---------------------------------------------------------------------
// clear_state makes every dump equal to a freshly constructed
// interpreter's.
// ---------------------------------------------------------------------
#[test]
fn clear_state_resets_to_fresh() {
    let mut it = ForthInterpreter::new();
    it.execute_line("variable v").unwrap();
    it.execute_line("42 constant c").unwrap();
    it.execute_line(": w 1 ;").unwrap();
    it.execute_line("1 2 3").unwrap();
    it.provide_input("xyz");
    it.execute_line("65 emit").unwrap();

    it.clear_state();
    let fresh = ForthInterpreter::new();

    assert_eq!(it.get_stack_dump(), fresh.get_stack_dump());
    assert_eq!(it.get_vars_dump().len(), fresh.get_vars_dump().len());
    assert_eq!(it.get_consts_dump().len(), fresh.get_consts_dump().len());
    assert_eq!(it.get_user_words_dump().len(), fresh.get_user_words_dump().len());
    assert_eq!(it.get_output_dump(), fresh.get_output_dump());
    assert_eq!(it.get_native_words_dump(), fresh.get_native_words_dump());
}

// ---------------------------------------------------------------------
// The injected character I/O: print, emit, cr write to the output
// buffer; key and word read from the input buffer.
// ---------------------------------------------------------------------
#[test]
fn output_words_write_text() {
    let mut it = ForthInterpreter::new();
    it.execute_line("123 .").unwrap();
    assert_eq!(it.get_output_dump(), &vec!['1', '2', '3', ' ']);
    it.clear_state();

    it.execute_line("-5 .").unwrap();
    assert_eq!(it.get_output_dump(), &vec!['-', '5', ' ']);
    it.clear_state();

    it.execute_line("65 emit").unwrap();
    // emit pops its operand.
    assert_eq!(it.get_stack_dump().length(), 0);
    it.execute_line("cr").unwrap();
    assert_eq!(it.get_output_dump(), &vec!['A', '\n']);
}

#[test]
fn multi_line_programs_stop_at_first_failure() {
    let mut it = ForthInterpreter::new();
    assert_eq!(
        it.execute("1 2 +\nbroken_name\n3 4 +").unwrap_err(),
        ForthError::VariableNotExist
    );
    // The first line's effect stays; the last line never ran.
    assert_eq!(it.get_unary_operand().unwrap(), Literal::Integer(3));
    assert_eq!(it.get_stack_dump().length(), 0);
}

#[test]
fn pointer_arithmetic_moves_the_offset() {
    let mut it = ForthInterpreter::new();
    it.execute_line("variable a").unwrap();
    it.execute_line("a 2 cells +").unwrap();
    match it.get_unary_operand().unwrap() {
        Literal::Pointer(p) => {
            assert_eq!(p.address, 0);
            assert_eq!(p.offset, 2);
        }
        _ => assert!(false),
    }
    // The integer may stand on either side.
    it.execute_line("2 a +").unwrap();
    match it.get_unary_operand().unwrap() {
        Literal::Pointer(p) => {
            assert_eq!(p.address, 0);
            assert_eq!(p.offset, 2);
        }
        _ => assert!(false),
    }
}

#[test]
fn print_does_not_pop() {
    let mut it = ForthInterpreter::new();
    it.execute_line("7 .").unwrap();
    assert_eq!(it.get_stack_dump().length(), 1);
    assert_eq!(it.get_last_literal().unwrap(), &Literal::Integer(7));
}

#[test]
fn key_reads_one_character() {
    let mut it = ForthInterpreter::new();
    it.provide_input("AB");
    it.execute_line("key").unwrap();
    assert_eq!(it.get_unary_operand().unwrap(), Literal::Integer(65));
    it.execute_line("key").unwrap();
    assert_eq!(it.get_unary_operand().unwrap(), Literal::Integer(66));
    // With no input left, key does nothing.
    it.execute_line("key").unwrap();
    assert_eq!(it.get_stack_dump().length(), 0);
}

#[test]
fn word_reads_until_delimiter() {
    let mut it = ForthInterpreter::new();
    it.execute_line("variable buf").unwrap();
    it.execute_line("2 cells allot").unwrap();
    it.provide_input("hi x");
    it.execute_line("buf 32 word").unwrap();
    let vars = it.get_vars_dump();
    match &vars[0].value {
        Some(Literal::Array(arr)) => {
            // Appended after the three zero-initialised cells.
            assert_eq!(arr.get(3).unwrap(), &Literal::Integer(104));
            assert_eq!(arr.get(4).unwrap(), &Literal::Integer(105));
        }
        _ => assert!(false),
    }
    // The delimiter was consumed; the rest of the input remains.
    it.execute_line("key").unwrap();
    assert_eq!(it.get_unary_operand().unwrap(), Literal::Integer('x' as i64));
}

// ---------------------------------------------------------------------
// Each error kind has an input that produces it.
// ---------------------------------------------------------------------
#[test]
fn error_kinds() {
    let mut it = ForthInterpreter::new();

    assert_eq!(it.execute_line("(hi").unwrap_err(), ForthError::ParseError);
    assert_eq!(it.execute_line("+").unwrap_err(), ForthError::StackUnderflow);
    assert_eq!(it.execute_line("1 0 /").unwrap_err(), ForthError::InvalidOperands);
    assert_eq!(
        it.execute_line("no_such_name").unwrap_err(),
        ForthError::VariableNotExist
    );
    it.clear_state();

    it.execute_line("variable a").unwrap();
    it.execute_line("0 cells allot").unwrap();
    assert_eq!(
        it.execute_line("5 a 1 cells + !").unwrap_err(),
        ForthError::IndexOutOfBound
    );
    it.clear_state();

    // Unbounded recursion through late-bound lookup stops at the
    // call-depth limit.
    it.execute_line(": r r ;").unwrap();
    assert_eq!(it.execute_line("r").unwrap_err(), ForthError::OtherError);
}

#[test]
fn arrays_order_lexicographically() {
    let mut it = ForthInterpreter::new();
    // Two capacity-one arrays holding [0] and [7].
    it.execute_line("variable y").unwrap();
    it.execute_line("0 cells allot").unwrap();
    it.execute_line("variable x").unwrap();
    it.execute_line("0 cells allot").unwrap();
    it.execute_line("7 x 0 cells + !").unwrap();

    // [0] < [7] at the first cell.
    it.execute_line("y @ x @ <").unwrap();
    assert_eq!(it.get_unary_operand().unwrap(), Literal::Integer(-1));
    it.execute_line("x @ y @ >").unwrap();
    assert_eq!(it.get_unary_operand().unwrap(), Literal::Integer(-1));
    it.execute_line("x @ y @ <").unwrap();
    assert_eq!(it.get_unary_operand().unwrap(), Literal::Integer(0));

    // An array never orders against a different tag.
    it.execute_line("x @ 7 <").unwrap();
    assert_eq!(it.get_unary_operand().unwrap(), Literal::Integer(0));
}

#[test]
fn strings_are_values() {
    let mut it = ForthInterpreter::new();
    it.execute_line("\"hello\" \"hello\" =").unwrap();
    assert_eq!(it.get_unary_operand().unwrap(), Literal::Integer(-1));
    it.execute_line("\"abc\" \"abd\" <").unwrap();
    assert_eq!(it.get_unary_operand().unwrap(), Literal::Integer(-1));
    it.execute_line("\"a\" 1 +").unwrap_err();
}
