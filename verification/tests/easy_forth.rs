use forth_interpreter::{ForthInterpreter, Literal, Stack};

#[test]
fn adding_some_numbers_test() {
    let mut interpreter = ForthInterpreter::new();

    interpreter.execute_line("123 456 +").unwrap();
    assert_eq!(
        interpreter.get_last_literal().unwrap(),
        &Literal::Integer(123 + 456)
    );
    interpreter.clear_state();

    interpreter.execute_line("5 2 + 10 *").unwrap();
    assert_eq!(
        interpreter.get_last_literal().unwrap(),
        &Literal::Integer((5 + 2) * 10)
    );
    interpreter.clear_state();

    println!("{:?}", interpreter.get_stack_dump());
    interpreter.execute_line("1 2 3 + + +").unwrap_err();
    interpreter.clear_state();
}

#[test]
fn booleans() {
    let mut interpreter = ForthInterpreter::new();

    interpreter.execute("3 4 =").unwrap();
    assert_eq!(interpreter.get_unary_operand().unwrap(), Literal::Integer(0));

    interpreter.execute("5 5 =").unwrap();
    assert_eq!(interpreter.get_unary_operand().unwrap(), Literal::Integer(-1));

    interpreter.execute("3 4 <").unwrap();
    assert_eq!(interpreter.get_unary_operand().unwrap(), Literal::Integer(-1));

    interpreter.execute("3 4 >").unwrap();
    assert_eq!(interpreter.get_unary_operand().unwrap(), Literal::Integer(0));

    interpreter.execute("3 4 < 20 30 < and").unwrap();
    assert_eq!(interpreter.get_unary_operand().unwrap(), Literal::Integer(-1));

    interpreter.execute("3 4 < 20 30 > or").unwrap();
    assert_eq!(interpreter.get_unary_operand().unwrap(), Literal::Integer(-1));

    interpreter.execute("3 4 < invert").unwrap();
    assert_eq!(interpreter.get_unary_operand().unwrap(), Literal::Integer(0));
}

#[test]
fn defining_words_test() {
    let mut interpreter = ForthInterpreter::new();

    interpreter
        .execute(": foo 100 + ;\n1000 foo\nfoo foo foo")
        .unwrap();
    assert_eq!(
        interpreter.get_last_literal().unwrap(),
        &Literal::Integer(1400)
    );
}

#[test]
fn stack_manipulating_test() {
    let mut interpreter = ForthInterpreter::new();

    interpreter.execute("1 2 3 dup").unwrap();
    assert_eq!(
        interpreter.get_stack_dump(),
        &Stack::from(vec![1.into(), 2.into(), 3.into(), 3.into()])
    );
    interpreter.clear_state();

    interpreter.execute("1 2 3 drop").unwrap();
    assert_eq!(
        interpreter.get_stack_dump(),
        &Stack::from(vec![1.into(), 2.into()])
    );
    interpreter.clear_state();

    interpreter.execute("1 2 3 4 swap").unwrap();
    assert_eq!(
        interpreter.get_stack_dump(),
        &Stack::from(vec![1.into(), 2.into(), 4.into(), 3.into()])
    );
    interpreter.clear_state();

    interpreter.execute("1 2 3 over").unwrap();
    assert_eq!(
        interpreter.get_stack_dump(),
        &Stack::from(vec![1.into(), 2.into(), 3.into(), 2.into()])
    );
    interpreter.clear_state();

    interpreter.execute("1 2 3 rot").unwrap();
    assert_eq!(
        interpreter.get_stack_dump(),
        &Stack::from(vec![2.into(), 3.into(), 1.into()])
    );
    interpreter.clear_state();
}

#[test]
fn variables() {
    let mut interpreter = ForthInterpreter::new();

    interpreter.execute("variable balance").unwrap();
    interpreter.execute("balance").unwrap();
    assert_eq!(
        interpreter.get_unary_operand().unwrap(),
        Literal::Pointer(forth_interpreter::Pointer::new(0, 0))
    );

    interpreter.execute("123 balance !").unwrap();
    interpreter.execute("balance @").unwrap();
    assert_eq!(
        interpreter.get_unary_operand().unwrap(),
        Literal::Integer(123)
    );

    interpreter.execute("50 balance +!").unwrap();
    interpreter.execute("balance @").unwrap();
    assert_eq!(
        interpreter.get_unary_operand().unwrap(),
        Literal::Integer(123 + 50)
    );
}

#[test]
fn constants() {
    let mut interpreter = ForthInterpreter::new();

    interpreter.execute("42 constant answer").unwrap();
    interpreter.execute("2 answer *").unwrap();
    assert_eq!(
        interpreter.get_unary_operand().unwrap(),
        Literal::Integer(42 * 2)
    );
}
