use sniprun::error::SniprunError;
use sniprun::interpreter::{Interpreter, Range, SupportLevel};
use sniprun::interpreters::python3_original::{module_used, ranges_fit_file};
use sniprun::interpreters::Python3_original;
use sniprun::DataHolder;

#[test]
fn modules_in_use() {
    assert!(module_used("from os import *", "nothing"));
    assert!(module_used("import numpy as np", "x = np.array([1])"));
    assert!(!module_used("import numpy as np", "x = 1"));
    assert!(module_used("import os", "print(1)"));
    assert!(module_used("sys, os", "os.path"));
    assert!(module_used("sys, os", "print(1)"));
    assert!(!module_used("sys,os", "print(1)"));
    assert!(!module_used("numpy", "print(1)"));
}

#[test]
fn imports_are_guarded() {
    let contents = "import os\nimport numpy as np\n  # import sys\nprint(os.getcwd())\n";
    let mut interpreter = Python3_original::new(DataHolder::new());
    interpreter.fetch_imports(contents);
    let expected = "\n\ntry:\n\timport os\nexcept:\n\tprint()\n\n\ntry:\n\timport numpy as np\nexcept:\n\tprint()\n";
    assert_eq!(interpreter.imports, expected);
    interpreter.set_current_level(SupportLevel::Unsupported);
    interpreter.fetch_imports(contents);
    assert_eq!(interpreter.imports, expected);
}

#[test]
fn python_paths_and_names() {
    let interpreter = Python3_original::new(DataHolder::new());
    assert_eq!(interpreter.support_level, SupportLevel::File);
    assert_eq!(interpreter.main_file_path, "/tmp/sniprun/rust_original/main.py");
    assert_eq!(Python3_original::get_name(), "Python3_original");
    assert_eq!(Python3_original::get_supported_languages(), vec!["python", "python3", "py"]);
    assert!(!Python3_original::default_for_filetype());
}

#[test]
fn python_bloc_level() {
    let mut data = DataHolder::new();
    data.current_bloc = String::from("    a = 1\n    print(a)");
    let mut interpreter = Python3_original::new_with_level(data, SupportLevel::Bloc);
    interpreter.fetch_code(Some("import os\n"), None).unwrap();
    assert_eq!(interpreter.code, "    a = 1\n    print(a)");
    assert_eq!(interpreter.imports, "\n\ntry:\n\timport os\nexcept:\n\tprint()\n");
    interpreter.add_boilerplate().unwrap();
    assert_eq!(interpreter.code, "\n\ntry:\n\timport os\nexcept:\n\tprint()\na = 1\nprint(a)");
}

#[test]
fn python_file_level() {
    let contents = "import os\n\ndef f():\n    return os.sep\n\nx = f()\nprint(x)\n";
    let mut data = DataHolder::new();
    data.current_line = String::from("print(x)");
    let mut interpreter = Python3_original::new_with_level(data, SupportLevel::File);
    let deps = vec![
        Range { start_row: 2, start_col: 0, end_row: 3, end_col: 17 },
        Range { start_row: 5, start_col: 0, end_row: 5, end_col: 7 },
    ];
    assert!(ranges_fit_file(contents, &deps));
    interpreter.fetch_code(Some(contents), Some(deps)).unwrap();
    assert_eq!(interpreter.code, "\ndef f():\n    return os.sep\n\nx = f()\n\nprint(x)\n");
    interpreter.add_boilerplate().unwrap();
    assert_eq!(
        interpreter.code,
        "\n\ntry:\n\timport os\nexcept:\n\tprint()\n\ndef f():\n    return os.sep\n\nx = f()\n\nprint(x)"
    );
}

#[test]
fn python_cut_at_byte_column() {
    let contents = "déf = (1,\n  2)\n";
    let mut data = DataHolder::new();
    data.current_line = String::from("print(déf)");
    let mut interpreter = Python3_original::new_with_level(data, SupportLevel::File);
    let deps = vec![Range { start_row: 0, start_col: 0, end_row: 1, end_col: 3 }];
    assert!(ranges_fit_file(contents, &deps));
    assert!(!ranges_fit_file(contents, &vec![Range { start_row: 0, start_col: 0, end_row: 1, end_col: 5 }]));
    assert!(!ranges_fit_file("é\nxé\n", &vec![Range { start_row: 0, start_col: 0, end_row: 1, end_col: 2 }]));
    assert!(ranges_fit_file("é\nxé\n", &vec![Range { start_row: 0, start_col: 0, end_row: 1, end_col: 3 }]));
    interpreter.fetch_code(Some(contents), Some(deps)).unwrap();
    assert_eq!(interpreter.code, "\ndéf = (1,\n  2\n\nprint(déf)\n");
}

#[test]
fn python_runtime_errors() {
    let interpreter = Python3_original::new(DataHolder::new());
    let res = interpreter.execute_outcome(
        false,
        String::new(),
        "Traceback (most recent call last):\n  File \"main.py\", line 1\nNameError: name 'x' is not defined\n",
    );
    assert_eq!(res, Err(SniprunError::RuntimeError(String::from("NameError: name 'x' is not defined"))));
    let res = interpreter.execute_outcome(false, String::new(), "");
    assert_eq!(res, Err(SniprunError::RuntimeError(String::new())));
    let res = interpreter.execute_outcome(true, String::from("3\n"), "warning");
    assert_eq!(res, Ok(String::from("3\n")));
}
