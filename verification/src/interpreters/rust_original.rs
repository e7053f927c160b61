use vstd::prelude::*;
use vstd::string::*;
use crate::data::DataHolder;
use crate::error::SniprunError;
use crate::interpreter::{Interpreter, SupportLevel};
use crate::interpreters::{select_code, selected_code};
use crate::text::{
    chars_of, lemma_first_line, lemma_split_on_free, line_spans, lines_of, split_on, strip_prefixes,
    strip_prefixes_from,
};

verus! {

broadcast use vstd::string::group_string_axioms;

/// Runs Rust snippets: the code is wrapped in a `main` function, compiled with `rustc`
/// and the program run.
pub struct Rust_original {
    pub support_level: SupportLevel,
    pub data: DataHolder,
    pub code: String,
    /// where the program is written and compiled
    pub rust_work_dir: String,
    /// the compiled program
    pub bin_path: String,
    /// the source file of the program
    pub main_file_path: String,
}

/// The first line of `s`, or nothing when `s` has no line.
pub open spec fn first_line(s: Seq<char>) -> Seq<char> {
    if lines_of(s).len() > 0 {
        lines_of(s)[0]
    } else {
        Seq::empty()
    }
}

/// The message of a failed compilation: the first line of what the compiler printed,
/// without the leading "error: " (all repetitions of it) and then without the leading
/// "error" (all repetitions of it).
pub open spec fn compilation_message(stderr: Seq<char>) -> Seq<char> {
    strip_prefixes(strip_prefixes(first_line(stderr), "error: "@), "error"@)
}

impl Rust_original {
    /// Takes the code of the snippet from what the editor gave.
    pub fn fetch_code(&mut self) -> (r: Result<(), SniprunError>)
        ensures
            r is Ok,
            final(self).code@ == selected_code(old(self).data, old(self).support_level),
            final(self).data == old(self).data,
            final(self).support_level == old(self).support_level,
            final(self).rust_work_dir == old(self).rust_work_dir,
            final(self).bin_path == old(self).bin_path,
            final(self).main_file_path == old(self).main_file_path,
    {
        self.code = select_code(&self.data, self.support_level);
        Ok(())
    }

    /// What the compilation of the program comes to, given whether the compiler
    /// succeeded and what it printed on its error output.
    pub fn build_outcome(&self, success: bool, stderr: &str) -> (r: Result<(), SniprunError>)
        ensures
            success ==> r is Ok,
            !success ==> (r matches Err(SniprunError::CompilationError(m)) && m@
                == compilation_message(stderr@)),
    {
        if success {
            return Ok(());
        }
        let s = chars_of(stderr);
        let lines = line_spans(&s);
        let (a, b) = if lines.len() > 0 {
            lines[0]
        } else {
            (0, 0)
        };
        assert(s@.subrange(a as int, b as int) == first_line(s@));
        let p1 = chars_of("error: ");
        let j1 = strip_prefixes_from(&s, a, b, &p1);
        let p2 = chars_of("error");
        let j2 = strip_prefixes_from(&s, j1, b, &p2);
        let message = stderr.substring_char(j2, b).to_owned();
        Err(SniprunError::CompilationError(message))
    }

    /// What the run of the program comes to, given whether it succeeded and what it
    /// printed: its output, or its error output as a runtime error.
    pub fn execute_outcome(&self, success: bool, stdout: String, stderr: String) -> (r: Result<
        String,
        SniprunError,
    >)
        ensures
            success ==> (r matches Ok(out) && out@ == stdout@),
            !success ==> (r matches Err(SniprunError::RuntimeError(m)) && m@ == stderr@),
    {
        if success {
            Ok(stdout)
        } else {
            Err(SniprunError::RuntimeError(stderr))
        }
    }
}

impl Interpreter for Rust_original {
    open spec fn level_of(&self) -> SupportLevel {
        self.support_level
    }

    open spec fn data_of(&self) -> DataHolder {
        self.data
    }

    fn new_with_level(data: DataHolder, level: SupportLevel) -> (r: Box<Rust_original>)
        ensures
            r.data == data,
            r.support_level == level,
            r.code@.len() == 0,
            r.rust_work_dir@ == data.work_dir@ + "/rust_original"@,
            r.main_file_path@ == data.work_dir@ + "/rust_original"@ + "/main.rs"@,
            r.bin_path@ == data.work_dir@ + "/rust_original"@ + "/main"@,
    {
        let mut rwd = data.work_dir.clone();
        rwd.append("/rust_original");
        let mut mfp = rwd.clone();
        mfp.append("/main.rs");
        let n = mfp.as_str().unicode_len();
        proof {
            reveal_strlit("/main.rs");
            reveal_strlit("/main");
        }
        let bp = mfp.as_str().substring_char(0, n - 3).to_owned();
        assert(bp@ =~= rwd@ + "/main"@);
        Box::new(
            Rust_original {
                data,
                support_level: level,
                code: String::new(),
                rust_work_dir: rwd,
                bin_path: bp,
                main_file_path: mfp,
            },
        )
    }

    fn get_supported_languages() -> (v: Vec<String>)
        ensures
            v@.map_values(|s: String| s@) == seq!["Rust"@, "rust"@, "rust-lang"@, "rs"@],
    {
        let mut v: Vec<String> = Vec::new();
        v.push("Rust".to_owned());
        v.push("rust".to_owned());
        v.push("rust-lang".to_owned());
        v.push("rs".to_owned());
        assert(v@.map_values(|s: String| s@) =~= seq!["Rust"@, "rust"@, "rust-lang"@, "rs"@]);
        v
    }

    fn get_name() -> (name: String)
        ensures
            name@ == "Rust_original"@,
    {
        "Rust_original".to_owned()
    }

    fn default_for_filetype() -> (b: bool)
        ensures
            b,
    {
        true
    }

    fn get_current_level(&self) -> (l: SupportLevel)
        ensures
            l == self.support_level,
    {
        self.support_level
    }

    fn set_current_level(&mut self, level: SupportLevel)
        ensures
            final(self).support_level == level,
            final(self).data == old(self).data,
            final(self).code == old(self).code,
            final(self).rust_work_dir == old(self).rust_work_dir,
            final(self).bin_path == old(self).bin_path,
            final(self).main_file_path == old(self).main_file_path,
    {
        self.support_level = level;
    }

    fn get_data(&self) -> (d: DataHolder)
        ensures
            d == self.data,
    {
        self.data.clone()
    }

    fn get_max_support_level() -> (l: SupportLevel)
        ensures
            l == SupportLevel::Bloc,
    {
        SupportLevel::Bloc
    }

    /// Wraps the code in a `main` function.
    fn add_boilerplate(&mut self) -> (r: Result<(), SniprunError>)
        ensures
            r is Ok,
            final(self).code@ == "fn main() {"@ + old(self).code@ + "}"@,
            final(self).data == old(self).data,
            final(self).support_level == old(self).support_level,
            final(self).rust_work_dir == old(self).rust_work_dir,
            final(self).bin_path == old(self).bin_path,
            final(self).main_file_path == old(self).main_file_path,
    {
        let mut code = "fn main() {".to_owned();
        code.append(self.code.as_str());
        code.append("}");
        self.code = code;
        Ok(())
    }
}


/// A failed compilation is reported by the first line of the compiler's error output,
/// whatever follows it: a line `l` (without its line ending) followed by a line feed and
/// any rest, or a single line `l` with no line feed, gives `l` without its leading
/// "error: " repetitions and then without its leading "error" repetitions.
pub proof fn lemma_compilation_message_is_first_line(l: Seq<char>, rest: Seq<char>)
    requires
        forall|i: int| 0 <= i < l.len() ==> l[i] != '\n',
    ensures
        (l.len() == 0 || l.last() != '\r') ==> compilation_message(l + seq!['\n'] + rest)
            == strip_prefixes(strip_prefixes(l, "error: "@), "error"@),
        compilation_message(l) == strip_prefixes(strip_prefixes(l, "error: "@), "error"@),
{
    if l.len() == 0 || l.last() != '\r' {
        lemma_first_line(l, rest);
    }
    lemma_split_on_free(l, '\n');
    if l.len() > 0 {
        assert(lines_of(l) =~= seq![l]);
    } else {
        assert(lines_of(l).len() == 0);
    }
}

} // verus!
