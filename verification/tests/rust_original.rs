use sniprun::error::SniprunError;
use sniprun::interpreter::{Interpreter, SupportLevel};
use sniprun::interpreters::Rust_original;
use sniprun::DataHolder;

// Compiling and running the snippet needs `rustc`; here the library's part
// of the run is exercised, and what the compiler and the program print is handed to it.
#[test]
fn run_all() {
    //nececssary to run sequentially
    //because of file access & shared things
    simple_print();
    runtime_error();
}

fn simple_print() {
    let mut data = DataHolder::new();
    data.current_bloc = String::from("println!(\"HW, 1+1 = {}\", 1+1);");
    let mut interpreter = Rust_original::new(data);
    let level = interpreter.get_current_level();
    interpreter.set_current_level(level);
    assert!(interpreter.fallback().is_none());
    interpreter.fetch_code().unwrap();
    interpreter.add_boilerplate().unwrap();
    assert_eq!(interpreter.code, "fn main() {println!(\"HW, 1+1 = {}\", 1+1);}");
    interpreter.build_outcome(true, "").unwrap();
    let res = interpreter.execute_outcome(true, String::from("HW, 1+1 = 2\n"), String::new());

    // should panic if not an Ok()
    let string_result = res.unwrap();
    assert_eq!(string_result, "HW, 1+1 = 2\n");
}

fn runtime_error() {
    let mut data = DataHolder::new();
    data.current_bloc = String::from(
        "
            let mock_input = \"153.2\";
            let parsed = mock_input.parse::<i32>().unwrap();
            ",
    );
    let expected = String::from("ParseIntError { kind: InvalidDigit }");
    let mut interpreter = Rust_original::new(data);
    interpreter.fetch_code().unwrap();
    interpreter.add_boilerplate().unwrap();
    assert!(interpreter.code.starts_with("fn main() {\n"));
    interpreter.build_outcome(true, "").unwrap();
    let stderr = String::from(
        "thread 'main' panicked at main.rs:3:52:\ncalled `Result::unwrap()` on an `Err` value: ParseIntError { kind: InvalidDigit }\nnote: run with `RUST_BACKTRACE=1` environment variable to display a backtrace\n",
    );
    let res = interpreter.execute_outcome(false, String::new(), stderr);

    assert!(res.is_err());
    // should panic if not an Err()
    if let Err(e) = res {
        match e {
            SniprunError::RuntimeError(full_message) => {
                assert!(full_message.contains(&expected))
            }
            _ => panic!("Not the right error message"),
        }
    }
}

#[test]
fn rust_paths_and_levels() {
    let data = DataHolder::new();
    let interpreter = Rust_original::new(data);
    assert_eq!(interpreter.support_level, SupportLevel::Bloc);
    assert_eq!(interpreter.rust_work_dir, "/tmp/sniprun/rust_original");
    assert_eq!(interpreter.main_file_path, "/tmp/sniprun/rust_original/main.rs");
    assert_eq!(interpreter.bin_path, "/tmp/sniprun/rust_original/main");
    assert_eq!(Rust_original::get_name(), "Rust_original");
    assert_eq!(Rust_original::get_supported_languages(), vec!["Rust", "rust", "rust-lang", "rs"]);
    assert!(Rust_original::default_for_filetype());
    assert_eq!(Rust_original::get_max_support_level(), SupportLevel::Bloc);
}

#[test]
fn rust_fetch_code_levels() {
    let mut data = DataHolder::new();
    data.current_line = String::from("let a = 1;");
    data.current_bloc = String::from(" \t\n\r ");
    let mut interpreter = Rust_original::new_with_level(data.clone(), SupportLevel::Bloc);
    interpreter.fetch_code().unwrap();
    assert_eq!(interpreter.code, "let a = 1;");
    let mut interpreter = Rust_original::new_with_level(data.clone(), SupportLevel::Unsupported);
    interpreter.fetch_code().unwrap();
    assert_eq!(interpreter.code, "");
    data.current_bloc = String::from("let b = 2;");
    let mut interpreter = Rust_original::new_with_level(data.clone(), SupportLevel::Line);
    interpreter.fetch_code().unwrap();
    assert_eq!(interpreter.code, "let a = 1;");
    let mut interpreter = Rust_original::new_with_level(data, SupportLevel::Bloc);
    interpreter.fetch_code().unwrap();
    assert_eq!(interpreter.code, "let b = 2;");
}

#[test]
fn rust_compilation_errors() {
    let interpreter = Rust_original::new(DataHolder::new());
    let res = interpreter.build_outcome(
        false,
        "error: expected one of `.`, `;`, found `}`\n --> main.rs:1:20\n",
    );
    assert_eq!(res, Err(SniprunError::CompilationError(String::from("expected one of `.`, `;`, found `}`"))));
    let res = interpreter.build_outcome(false, "error[E0425]: cannot find value `x`\r\nmore");
    assert_eq!(res, Err(SniprunError::CompilationError(String::from("[E0425]: cannot find value `x`"))));
    let res = interpreter.build_outcome(false, "");
    assert_eq!(res, Err(SniprunError::CompilationError(String::new())));
    let res = interpreter.execute_outcome(false, String::from("out"), String::from("boom\n"));
    assert_eq!(res, Err(SniprunError::RuntimeError(String::from("boom\n"))));
}
