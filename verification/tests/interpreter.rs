use forth_interpreter::{ForthInterpreter, Literal};

#[test]
fn test_interpreter() {
    let mut forth: ForthInterpreter = ForthInterpreter::new();
    forth.push(Literal::Integer(5));
    forth.push(Literal::Integer(5));
}

#[test]
fn test_parsing() {
    let mut forth: ForthInterpreter = ForthInterpreter::new();
    forth.push(Literal::Integer(0));
}

#[test]
fn test_variable() {
    let mut interpreter = ForthInterpreter::new();

    interpreter.execute_line("variable user_var").unwrap();
    interpreter.execute_line("123 user_var !").unwrap();
    interpreter.execute_line("user_var").unwrap();

    let last = interpreter.get_last_literal().unwrap();

    match last {
        Literal::Pointer(ptr) => {
            assert_eq!(ptr.address, 0);
            assert_eq!(ptr.offset, 0);
        }
        _ => assert!(false),
    }
}
