use asalang::{program, start_interpreter, Value};

/// Parses `source` whole and interprets it; an evaluation error comes back as its words.
fn interpreted(source: &str) -> Result<Value, &'static str> {
    match program(source) {
        Ok((rest, tree)) => {
            assert_eq!(rest, "");
            start_interpreter(&tree).map_err(|e| e.message())
        }
        Err(e) => panic!("{:?}", e),
    }
}

#[test]
fn numeric() {
    assert_eq!(interpreted(r#"123"#), Ok(Value::Number(123)));
}

#[test]
fn identifier() {
    assert_eq!(interpreted(r#"x"#), Err("Undefined variable"));
}

#[test]
fn string() {
    assert_eq!(interpreted(r#""hello world""#), Ok(Value::String("hello world".to_string())));
}

#[test]
fn bool_true() {
    assert_eq!(interpreted(r#"true"#), Ok(Value::Bool(true)));
}

#[test]
fn bool_false() {
    assert_eq!(interpreted(r#"false"#), Ok(Value::Bool(false)));
}

#[test]
fn function_call() {
    assert_eq!(interpreted(r#"foo()"#), Err("Undefined function"));
}

#[test]
fn function_call_one_arg() {
    assert_eq!(interpreted(r#"foo(a)"#), Err("Undefined function"));
}

#[test]
fn function_call_more_args() {
    assert_eq!(interpreted(r#"foo(a,b,c)"#), Err("Undefined function"));
}

#[test]
fn variable_define() {
    assert_eq!(interpreted(r#"let x = 123;"#), Ok(Value::Number(123)));
}

#[test]
fn variable_init() {
    assert_eq!(interpreted(r#"let x = 1;"#), Ok(Value::Number(1)));
}

#[test]
fn variable_bool() {
    assert_eq!(interpreted(r#"let bool = true;"#), Ok(Value::Bool(true)));
}

#[test]
fn variable_string() {
    assert_eq!(interpreted(r#"let string = "Hello World";"#), Ok(Value::String("Hello World".to_string())));
}

#[test]
fn variable_init_no_space() {
    assert_eq!(interpreted(r#"let x=1;"#), Ok(Value::Number(1)));
}

#[test]
fn math() {
    assert_eq!(interpreted(r#"1 + 1"#), Ok(Value::Number(2)));
}

#[test]
fn math_no_space() {
    assert_eq!(interpreted(r#"1+1"#), Ok(Value::Number(2)));
}

#[test]
fn math_subtraction() {
    assert_eq!(interpreted(r#"1 - 1"#), Ok(Value::Number(0)));
}

#[test]
fn math_multiply() {
    assert_eq!(interpreted(r#"2 * 4"#), Ok(Value::Number(8)));
}

#[test]
fn math_divide() {
    assert_eq!(interpreted(r#"6 / 2"#), Ok(Value::Number(3)));
}

#[test]
fn math_exponent() {
    assert_eq!(interpreted(r#"2 ^ 4"#), Ok(Value::Number(16)));
}

#[test]
fn math_more_terms() {
    assert_eq!(interpreted(r#"10 + 2*6"#), Ok(Value::Number(22)));
}

#[test]
fn math_more_terms_paren() {
    assert_eq!(interpreted(r#"((10+2)*6)/4"#), Ok(Value::Number(18)));
}

#[test]
fn assign_math() {
    assert_eq!(interpreted(r#"let x = 1 + 1;"#), Ok(Value::Number(2)));
}

#[test]
fn assign_function() {
    assert_eq!(interpreted(r#"let x = foo();"#), Err("Undefined function"));
}

#[test]
fn assign_function_arguments() {
    assert_eq!(interpreted(r#"let x = foo(a,b,c);"#), Err("Undefined function"));
}

#[test]
fn define_function() {
    assert_eq!(interpreted(r#"fn main(){return foo();} fn foo(){return 5;}"#), Ok(Value::Number(5)));
}

#[test]
fn define_function_args() {
    assert_eq!(interpreted(r#"fn main(){return foo(1,2,3);} fn foo(a,b,c){return a+b+c;}"#), Ok(Value::Number(6)));
}

#[test]
fn define_function_more_statement() {
    assert_eq!(interpreted(r#"fn main() {
  return foo();
}
fn foo(){
  let x = 5;
  return x;
}"#), Ok(Value::Number(5)));
}

#[test]
fn define_full_program() {
    assert_eq!(interpreted(r#"fn foo(a,b,c) {
  let x = a + 1;
  let y = bar(c - b);
  return x * y;
}

fn bar(a) {
  return a * 3;
}

fn main() {
  return foo(1,2,3);  
}"#), Ok(Value::Number(6)));
}

#[test]
fn greater_than() {
    assert_eq!(interpreted(r#"1 > 2"#), Ok(Value::Bool(false)));
}

#[test]
fn math_expression_equality() {
    assert_eq!(interpreted(r#"(1 + 2) == 3"#), Ok(Value::Bool(true)));
}

#[test]
fn assign_comparison() {
    assert_eq!(interpreted(r#"let result = 1 < 2;"#), Ok(Value::Bool(true)));
}

#[test]
fn invalid() {
    assert_eq!(interpreted(r#"1 > false"#), Err("Invalid comparison expression"));
}

#[test]
fn invalid_math_bool() {
    assert_eq!(interpreted(r#"5 - false"#), Err("Invalid"));
}

#[test]
fn one_line() {
    assert_eq!(interpreted(r#"if false {return false;} else {return true;}"#), Ok(Value::Bool(true)));
}

#[test]
fn return_num() {
    assert_eq!(interpreted(r#"if true {return 1;} else {return 2;}"#), Ok(Value::Number(1)));
}

#[test]
fn multi_line() {
    assert_eq!(interpreted(r#"if true {
  return false;
} else {
  return true;
}
"#), Ok(Value::Bool(false)));
}

#[test]
fn assign_if_else() {
    assert_eq!(interpreted(r#"let x = if true {return false;} else {return true;}"#), Ok(Value::Bool(false)));
}

#[test]
fn else_if() {
    assert_eq!(interpreted(r#"if true {return 1;} else if false {return 2;} else {return 3;}"#), Ok(Value::Number(1)));
}
