use vstd::prelude::*;
use vstd::string::*;
use crate::data::DataHolder;
use crate::error::SniprunError;
use crate::foreign::{unindent, unindented};
use crate::interpreter::{Interpreter, Range, SupportLevel};
use crate::interpreters::{select_code, selected_code};
use crate::text::{
    lemma_last_line, occurs_at, byte_prefix_index, has_byte_boundary, index_at_byte, line_spans,
    lines_of, utf8_len, chars_of, contains, contains_seq, lemma_split_on_nonempty, replace_all, replaced, slice_chars,
    split_on, split_spans, trim_span, trimmed,
};

verus! {

broadcast use vstd::string::group_string_axioms;

/// The names an import line brings in, as they are looked for in the code: the line
/// with its commas, each "from" and each "import " made spaces, cut at spaces.
pub open spec fn import_names(line: Seq<char>) -> Seq<Seq<char>> {
    split_on(
        replaced(replaced(replaced(line, ","@, " "@), "from"@, " "@), "import "@, " "@),
        ' ',
    )
}

/// Whether the module an import line brings in is used in `code`: a star import always
/// is; an import with " as " is when the name after the last space occurs in the code;
/// any other import is when one of its names, trimmed of white space, occurs in the
/// code.
pub open spec fn module_is_used(line: Seq<char>, code: Seq<char>) -> bool {
    if contains_seq(line, "*"@) {
        true
    } else if contains_seq(line, " as "@) {
        contains_seq(code, split_on(line, ' ').last())
    } else {
        exists|k: int|
            0 <= k < import_names(line).len() && contains_seq(
                code,
                trimmed(#[trigger] import_names(line)[k]),
            )
    }
}

/// Whether the module imported by `line` is used in `code`.
pub fn module_used(line: &str, code: &str) -> (r: bool)
    ensures
        r == module_is_used(line@, code@),
{
    let l = chars_of(line);
    let c = chars_of(code);
    let star = chars_of("*");
    if contains(&l, &star) {
        return true;
    }
    let alias = chars_of(" as ");
    if contains(&l, &alias) {
        let spans = split_spans(&l, ' ');
        proof {
            lemma_split_on_nonempty(l@, ' ');
        }
        let (a, b) = spans[spans.len() - 1];
        let name = slice_chars(&l, a, b);
        return contains(&c, &name);
    }
    proof {
        reveal_strlit(",");
        reveal_strlit("from");
        reveal_strlit("import ");
    }
    let comma = chars_of(",");
    let from = chars_of("from");
    let import = chars_of("import ");
    let space = chars_of(" ");
    let r1 = replace_all(&l, &comma, &space);
    let r2 = replace_all(&r1, &from, &space);
    let r3 = replace_all(&r2, &import, &space);
    let ghost names = import_names(l@);
    assert(names == split_on(r3@, ' '));
    let spans = split_spans(&r3, ' ');
    let mut k: usize = 0;
    while k < spans.len()
        invariant
            k <= spans.len() == names.len(),
            names == split_on(r3@, ' '),
            names == import_names(line@),
            !contains_seq(line@, "*"@),
            !contains_seq(line@, " as "@),
            c@ == code@,
            forall|j: int|
                0 <= j < spans.len() ==> {
                    &&& (#[trigger] spans@[j]).0 <= spans@[j].1 <= r3.len()
                    &&& r3@.subrange(spans@[j].0 as int, spans@[j].1 as int) == names[j]
                },
            forall|j: int| 0 <= j < k ==> !contains_seq(code@, trimmed(#[trigger] names[j])),
        decreases spans.len() - k,
    {
        let (a, b) = spans[k];
        let piece = slice_chars(&r3, a, b);
        let (p, q) = trim_span(&piece);
        let name = slice_chars(&piece, p, q);
        if contains(&c, &name) {
            assert(name@ == trimmed(import_names(line@)[k as int]));
            return true;
        }
        k = k + 1;
    }
    false
}


/// Runs Python 3 snippets: the imports of the file that the snippet uses are added in
/// front of it, guarded so that a missing module does not stop the run, and at the
/// `File` level the code the snippet depends on is added too.
pub struct Python3_original {
    pub support_level: SupportLevel,
    pub data: DataHolder,
    pub code: String,
    pub imports: String,
    pub main_file_path: String,
}

/// An import line of the file that is kept: it imports ("import "), is not a comment,
/// and the module it imports is used in the file.
pub open spec fn import_is_kept(line: Seq<char>, contents: Seq<char>) -> bool {
    &&& contains_seq(line, "import "@)
    &&& (trimmed(line).len() == 0 || trimmed(line)[0] != '#')
    &&& module_is_used(line, contents)
}

/// An import line guarded so that a failing import does not stop the program.
pub open spec fn guarded_import(line: Seq<char>) -> Seq<char> {
    "\n\ntry:\n"@ + "\t"@ + line + "\nexcept:\n\t"@ + "print()\n"@
}

/// The guarded kept imports among the first `n` lines.
pub open spec fn imports_in_lines(lines: Seq<Seq<char>>, contents: Seq<char>, n: int) -> Seq<char>
    decreases n,
{
    if n <= 0 {
        Seq::empty()
    } else {
        imports_in_lines(lines, contents, n - 1) + if import_is_kept(lines[n - 1], contents) {
            guarded_import(lines[n - 1])
        } else {
            Seq::empty()
        }
    }
}

/// The guarded kept imports of a file, in the order of its lines.
pub open spec fn file_imports(contents: Seq<char>) -> Seq<char> {
    imports_in_lines(lines_of(contents), contents, lines_of(contents).len() as int)
}

/// The start of `line` that takes `n` bytes in UTF-8 (`line[..n]`).
pub open spec fn byte_prefix(line: Seq<char>, n: nat) -> Seq<char> {
    line.take(byte_prefix_index(line, n))
}

/// What line `i` of the file gives to the text of range `r`: nothing before its start
/// row, the whole line on its start row, the line up to byte column `end_col` on its end
/// row (when that is after the start row), the whole line in between, nothing after;
/// each piece is followed by a line feed.
pub open spec fn line_part(line: Seq<char>, i: int, r: Range) -> Seq<char> {
    if i < r.start_row {
        Seq::empty()
    } else if i == r.start_row {
        line + seq!['\n']
    } else if i == r.end_row {
        byte_prefix(line, r.end_col as nat) + seq!['\n']
    } else if i > r.end_row {
        Seq::empty()
    } else {
        line + seq!['\n']
    }
}

/// The text of range `r` taken from the first `n` lines.
pub open spec fn range_text(lines: Seq<Seq<char>>, r: Range, n: int) -> Seq<char>
    decreases n,
{
    if n <= 0 {
        Seq::empty()
    } else {
        range_text(lines, r, n - 1) + line_part(lines[n - 1], n - 1, r)
    }
}

/// The texts of the first `m` ranges, each followed by an empty line.
pub open spec fn ranges_text(lines: Seq<Seq<char>>, ranges: Seq<Range>, m: int) -> Seq<char>
    decreases m,
{
    if m <= 0 {
        Seq::empty()
    } else {
        ranges_text(lines, ranges, m - 1) + range_text(lines, ranges[m - 1], lines.len() as int)
            + seq!['\n']
    }
}

/// The code of the file that the snippet depends on: the text of each range, between
/// line feeds.
pub open spec fn dependencies_code(contents: Seq<char>, ranges: Seq<Range>) -> Seq<char> {
    seq!['\n'] + ranges_text(lines_of(contents), ranges, ranges.len() as int) + seq!['\n']
}

/// The end column of `r` can be cut at in its end row, where the text of `r` cuts it.
pub open spec fn range_fits(lines: Seq<Seq<char>>, r: Range) -> bool {
    (r.start_row < r.end_row && r.end_row < lines.len()) ==> has_byte_boundary(
        lines[r.end_row as int],
        r.end_col as nat,
    )
}

/// Every range can be cut out of the file.
pub open spec fn ranges_fit(contents: Seq<char>, ranges: Seq<Range>) -> bool {
    forall|m: int| 0 <= m < ranges.len() ==> range_fits(lines_of(contents), #[trigger] ranges[m])
}

/// The dependency ranges to use: those found, or none.
pub open spec fn ranges_or_none(dependencies: Option<Vec<Range>>) -> Seq<Range> {
    match dependencies {
        Some(v) => v@,
        None => Seq::empty(),
    }
}

/// The code a snippet becomes at the `File` level: the code it depends on, unindented,
/// then the snippet, unindented, then a line feed.
pub open spec fn file_level_code(
    contents: Seq<char>,
    ranges: Seq<Range>,
    snippet: Seq<char>,
) -> Seq<char> {
    unindented(seq!['\n'] + dependencies_code(contents, ranges)) + unindented(
        seq!['\n'] + snippet,
    ) + seq!['\n']
}

/// Appends the characters `a..b` of `text` to `out`.
fn append_part(out: &mut String, text: &str, a: usize, b: usize)
    requires
        a <= b <= text@.len(),
    ensures
        final(out)@ == old(out)@ + text@.subrange(a as int, b as int),
{
    let part = text.substring_char(a, b);
    out.append(part);
}

/// Whether every range can be cut out of `contents`.
pub fn ranges_fit_file(contents: &str, ranges: &Vec<Range>) -> (r: bool)
    ensures
        r == ranges_fit(contents@, ranges@),
{
    let s = chars_of(contents);
    let lines = line_spans(&s);
    let mut m: usize = 0;
    while m < ranges.len()
        invariant
            m <= ranges.len(),
            s@ == contents@,
            lines.len() == lines_of(s@).len(),
            forall|j: int|
                0 <= j < lines.len() ==> {
                    &&& (#[trigger] lines@[j]).0 <= lines@[j].1 <= s.len()
                    &&& s@.subrange(lines@[j].0 as int, lines@[j].1 as int) == lines_of(s@)[j]
                },
            forall|j: int| 0 <= j < m ==> range_fits(lines_of(contents@), #[trigger] ranges@[j]),
        decreases ranges.len() - m,
    {
        let r = ranges[m];
        if r.start_row < r.end_row && r.end_row < lines.len() {
            let (a, b) = lines[r.end_row];
            let ghost line = lines_of(s@)[r.end_row as int];
            match index_at_byte(&s, a, b, r.end_col) {
                Some(k) => {
                    assert(line.take(k - a) =~= s@.subrange(a as int, k as int));
                },
                None => {
                    assert forall|k: int| 0 <= k <= line.len() implies #[trigger] utf8_len(
                        line.take(k),
                    ) != r.end_col by {
                        assert(line.take(k) =~= s@.subrange(a as int, a + k));
                        assert(utf8_len(s@.subrange(a as int, a + k)) != r.end_col);
                    }
                    assert(!range_fits(lines_of(contents@), ranges@[m as int]));
                    return false;
                },
            }
        }
        m = m + 1;
    }
    true
}

/// The code of `contents` that `ranges` delimit.
fn dependencies_text(contents: &str, ranges: &Vec<Range>) -> (t: String)
    requires
        ranges_fit(contents@, ranges@),
    ensures
        t@ == dependencies_code(contents@, ranges@),
{
    proof {
        reveal_strlit("\n");
    }
    let s = chars_of(contents);
    let lines = line_spans(&s);
    let ghost ls = lines_of(s@);
    let mut out = "\n".to_owned();
    let mut m: usize = 0;
    while m < ranges.len()
        invariant
            m <= ranges.len(),
            s@ == contents@,
            ls == lines_of(s@),
            ranges_fit(contents@, ranges@),
            lines.len() == ls.len(),
            forall|j: int|
                0 <= j < lines.len() ==> {
                    &&& (#[trigger] lines@[j]).0 <= lines@[j].1 <= s.len()
                    &&& s@.subrange(lines@[j].0 as int, lines@[j].1 as int) == ls[j]
                },
            out@ == seq!['\n'] + ranges_text(ls, ranges@, m as int),
        decreases ranges.len() - m,
    {
        let r = ranges[m];
        assert(range_fits(ls, r));
        let ghost before = out@;
        let mut i: usize = 0;
        while i < lines.len()
            invariant
                i <= lines.len() == ls.len(),
                s@ == contents@,
                r == ranges@[m as int],
                range_fits(ls, r),
                forall|j: int|
                    0 <= j < lines.len() ==> {
                        &&& (#[trigger] lines@[j]).0 <= lines@[j].1 <= s.len()
                        &&& s@.subrange(lines@[j].0 as int, lines@[j].1 as int) == ls[j]
                    },
                out@ == before + range_text(ls, r, i as int),
            decreases lines.len() - i,
        {
            proof {
                reveal_strlit("\n");
            }
            let (a, b) = lines[i];
            let ghost line = ls[i as int];
            assert(range_text(ls, r, i + 1) == range_text(ls, r, i as int) + line_part(
                line,
                i as int,
                r,
            ));
            if i < r.start_row {
            } else if i == r.start_row {
                append_part(&mut out, contents, a, b);
                out.append("\n");
            } else if i == r.end_row {
                let ghost kk = byte_prefix_index(line, r.end_col as nat);
                proof {
                    crate::text::lemma_byte_prefix_index(line, r.end_col as nat);
                }
                match index_at_byte(&s, a, b, r.end_col) {
                    Some(k) => {
                        assert(line.take(k - a) =~= s@.subrange(a as int, k as int));
                        proof {
                            crate::text::lemma_byte_boundary_unique(line, r.end_col as nat, k - a);
                        }
                        append_part(&mut out, contents, a, k);
                        out.append("\n");
                    },
                    None => {
                        assert(line.take(kk) =~= s@.subrange(a as int, a + kk));
                        assert(false);
                    },
                }
            } else if i > r.end_row {
            } else {
                append_part(&mut out, contents, a, b);
                out.append("\n");
            }
            assert(out@ == before + range_text(ls, r, i + 1));
            i = i + 1;
        }
        proof {
            reveal_strlit("\n");
        }
        out.append("\n");
        assert(out@ =~= seq!['\n'] + ranges_text(ls, ranges@, m + 1));
        m = m + 1;
    }
    out.append("\n");
    out
}

impl Python3_original {
    /// Adds to the imports, guarded, each import line of the file (whose text is
    /// `contents`) that imports a module used in the file; nothing below the `Line`
    /// level.
    pub fn fetch_imports(&mut self, contents: &str)
        ensures
            final(self).imports@ == if old(self).support_level.rank() < SupportLevel::Line.rank() {
                old(self).imports@
            } else {
                old(self).imports@ + file_imports(contents@)
            },
            final(self).support_level == old(self).support_level,
            final(self).data == old(self).data,
            final(self).code == old(self).code,
            final(self).main_file_path == old(self).main_file_path,
    {
        if self.support_level < SupportLevel::Line {
            return;
        }
        let s = chars_of(contents);
        let lines = line_spans(&s);
        let ghost ls = lines_of(s@);
        let ghost start = self.imports@;
        let import = chars_of("import ");
        let mut i: usize = 0;
        while i < lines.len()
            invariant
                i <= lines.len() == ls.len(),
                s@ == contents@,
                ls == lines_of(s@),
                import@ == "import "@,
                forall|j: int|
                    0 <= j < lines.len() ==> {
                        &&& (#[trigger] lines@[j]).0 <= lines@[j].1 <= s.len()
                        &&& s@.subrange(lines@[j].0 as int, lines@[j].1 as int) == ls[j]
                    },
                self.imports@ == start + imports_in_lines(ls, contents@, i as int),
                self.support_level == old(self).support_level,
                self.data == old(self).data,
                self.code == old(self).code,
                self.main_file_path == old(self).main_file_path,
            decreases lines.len() - i,
        {
            let (a, b) = lines[i];
            let line_chars = slice_chars(&s, a, b);
            let line = contents.substring_char(a, b);
            let (p, q) = trim_span(&line_chars);
            let not_comment = p == q || line_chars[p] != '#';
            if contains(&line_chars, &import) && not_comment && module_used(line, contents) {
                let mut imports = self.imports.clone();
                imports.append("\n\ntry:\n");
                imports.append("\t");
                imports.append(line);
                imports.append("\nexcept:\n\t");
                imports.append("print()\n");
                self.imports = imports;
            }
            assert(self.imports@ =~= start + imports_in_lines(ls, contents@, i + 1));
            i = i + 1;
        }
    }
}


/// The last line of what a failed program printed on its error output, or all of it
/// when it holds no line.
pub open spec fn runtime_message(stderr: Seq<char>) -> Seq<char> {
    if lines_of(stderr).len() > 0 {
        lines_of(stderr).last()
    } else {
        stderr
    }
}

/// A failed run is reported by the last line of the program's error output, however
/// many lines come before it: after the last line feed (or at the start) a line `l`
/// followed by a final line feed, or by nothing when `l` is not empty.
pub proof fn lemma_runtime_message_is_last_line(p: Seq<char>, l: Seq<char>, ending: Seq<char>)
    requires
        p.len() == 0 || p.last() == '\n',
        forall|i: int| 0 <= i < l.len() ==> l[i] != '\n',
        (ending == seq!['\n'] && (l.len() == 0 || l.last() != '\r')) || (ending.len() == 0
            && l.len() > 0),
    ensures
        runtime_message(p + l + ending) == l,
{
    lemma_last_line(p, l, ending);
}

/// Keeping imports goes line by line: a line that holds "import " somewhere, whose
/// first character once trimmed is not '#', and whose module is used in the file adds
/// that line, guarded; any other line adds nothing.
pub proof fn lemma_import_line_kept(lines: Seq<Seq<char>>, contents: Seq<char>, n: int)
    requires
        0 <= n < lines.len(),
    ensures
        ({
            let line = lines[n];
            let kept = (exists|i: int|
                0 <= i && i + 7 <= line.len() && #[trigger] line.subrange(i, i + 7) == seq![
                    'i',
                    'm',
                    'p',
                    'o',
                    'r',
                    't',
                    ' ',
                ]) && (trimmed(line).len() == 0 || trimmed(line)[0] != '#') && module_is_used(
                line,
                contents,
            );
            &&& kept ==> imports_in_lines(lines, contents, n + 1) == imports_in_lines(
                lines,
                contents,
                n,
            ) + seq!['\n', '\n', 't', 'r', 'y', ':', '\n', '\t'] + line + seq![
                '\n',
                'e',
                'x',
                'c',
                'e',
                'p',
                't',
                ':',
                '\n',
                '\t',
                'p',
                'r',
                'i',
                'n',
                't',
                '(',
                ')',
                '\n',
            ]
            &&& !kept ==> imports_in_lines(lines, contents, n + 1) == imports_in_lines(
                lines,
                contents,
                n,
            )
        }),
{
    reveal_strlit("import ");
    reveal_strlit("\n\ntry:\n");
    reveal_strlit("\t");
    reveal_strlit("\nexcept:\n\t");
    reveal_strlit("print()\n");
    let line = lines[n];
    let imp = seq!['i', 'm', 'p', 'o', 'r', 't', ' '];
    assert("import "@ =~= imp);
    if contains_seq(line, "import "@) {
        let i = choose|i: int| #[trigger] occurs_at(line, "import "@, i);
        assert(line.subrange(i, i + 7) == imp);
    }
    if exists|i: int| 0 <= i && i + 7 <= line.len() && #[trigger] line.subrange(i, i + 7) == imp {
        let i = choose|i: int| 0 <= i && i + 7 <= line.len() && #[trigger] line.subrange(i, i + 7)
            == imp;
        assert(occurs_at(line, "import "@, i));
    }
    assert(guarded_import(line) =~= seq!['\n', '\n', 't', 'r', 'y', ':', '\n', '\t'] + line
        + seq!['\n', 'e', 'x', 'c', 'e', 'p', 't', ':', '\n', '\t', 'p', 'r', 'i', 'n', 't', '(', ')', '\n']);
    assert(imports_in_lines(lines, contents, n + 1) == imports_in_lines(lines, contents, n) + if import_is_kept(lines[n], contents) {
        guarded_import(lines[n])
    } else {
        Seq::<char>::empty()
    });
    assert(imports_in_lines(lines, contents, n) + Seq::<char>::empty() =~= imports_in_lines(lines, contents, n));
}

/// The text of a range goes row by row through the file: rows before its start row and
/// rows after both its start and end rows give nothing; its start row gives the whole
/// line; every row strictly
/// between start and end gives the whole line; an end row after the start row gives the
/// start of the line that takes `end_col` bytes; each given line is followed by a line
/// feed.
pub proof fn lemma_range_text_rows(lines: Seq<Seq<char>>, r: Range, i: int)
    requires
        0 <= i < lines.len(),
    ensures
        (i < r.start_row || (i > r.end_row && i > r.start_row)) ==> range_text(lines, r, i + 1) == range_text(
            lines,
            r,
            i,
        ),
        i == r.start_row ==> range_text(lines, r, i + 1) == range_text(lines, r, i) + lines[i]
            + seq!['\n'],
        r.start_row < i < r.end_row ==> range_text(lines, r, i + 1) == range_text(lines, r, i)
            + lines[i] + seq!['\n'],
        forall|k: int|
            r.start_row < i == r.end_row && 0 <= k <= lines[i].len() && #[trigger] utf8_len(
                lines[i].take(k),
            ) == r.end_col ==> range_text(lines, r, i + 1) == range_text(lines, r, i)
                + lines[i].take(k) + seq!['\n'],
{
    assert(range_text(lines, r, i + 1) == range_text(lines, r, i) + line_part(lines[i], i, r));
    assert(range_text(lines, r, i) + Seq::<char>::empty() =~= range_text(lines, r, i));
    assert forall|k: int|
        r.start_row < i == r.end_row && 0 <= k <= lines[i].len() && #[trigger] utf8_len(
            lines[i].take(k),
        ) == r.end_col implies range_text(lines, r, i + 1) == range_text(lines, r, i)
        + lines[i].take(k) + seq!['\n'] by {
        crate::text::lemma_byte_boundary_unique(lines[i], r.end_col as nat, k);
        assert(range_text(lines, r, i) + (lines[i].take(k) + seq!['\n']) =~= range_text(lines, r, i)
            + lines[i].take(k) + seq!['\n']);
    }
    assert(range_text(lines, r, i) + (lines[i] + seq!['\n']) =~= range_text(lines, r, i)
        + lines[i] + seq!['\n']);
}

impl Python3_original {
    /// Takes the code of the snippet. `contents` is the text of the edited file, `None`
    /// when it could not be read; `dependencies` the ranges the snippet depends on, `None`
    /// when they could not be found. The kept imports of the file are added first; at
    /// the `File` level the code of the dependencies comes before the snippet, both
    /// unindented.
    pub fn fetch_code(&mut self, contents: Option<&str>, dependencies: Option<Vec<Range>>) -> (r:
        Result<(), SniprunError>)
        requires
            old(self).support_level.rank() >= SupportLevel::File.rank() ==> contents is Some
                && ranges_fit(contents.unwrap()@, ranges_or_none(dependencies)),
        ensures
            r is Ok,
            final(self).imports@ == match contents {
                Some(c) => if old(self).support_level.rank() < SupportLevel::Line.rank() {
                    old(self).imports@
                } else {
                    old(self).imports@ + file_imports(c@)
                },
                None => old(self).imports@,
            },
            final(self).code@ == if old(self).support_level.rank() >= SupportLevel::File.rank() {
                file_level_code(
                    contents.unwrap()@,
                    ranges_or_none(dependencies),
                    selected_code(old(self).data, old(self).support_level),
                )
            } else {
                selected_code(old(self).data, old(self).support_level)
            },
            final(self).support_level == old(self).support_level,
            final(self).data == old(self).data,
            final(self).main_file_path == old(self).main_file_path,
    {
        match contents {
            Some(c) => self.fetch_imports(c),
            None => {},
        }
        self.code = select_code(&self.data, self.support_level);
        if self.support_level >= SupportLevel::File {
            let ranges = match dependencies {
                Some(v) => v,
                None => Vec::new(),
            };
            let file = match contents {
                Some(c) => c,
                None => "",
            };
            proof {
                reveal_strlit("\n");
            }
            let ghost snippet = self.code@;
            let to_add = dependencies_text(file, &ranges);
            let mut prefixed_deps = "\n".to_owned();
            prefixed_deps.append(to_add.as_str());
            assert(prefixed_deps@ =~= seq!['\n'] + dependencies_code(
                contents.unwrap()@,
                ranges_or_none(dependencies),
            ));
            let mut code = unindent(prefixed_deps.as_str());
            let mut prefixed_code = "\n".to_owned();
            prefixed_code.append(self.code.as_str());
            assert(prefixed_code@ =~= seq!['\n'] + snippet);
            let unindented_code = unindent(prefixed_code.as_str());
            code.append(unindented_code.as_str());
            code.append("\n");
            assert(code@ =~= file_level_code(
                contents.unwrap()@,
                ranges_or_none(dependencies),
                snippet,
            ));
            self.code = code;
        }
        Ok(())
    }

    /// What the run of the program comes to, given whether it succeeded and what it
    /// printed: its output, or the last line of its error output as a runtime error.
    pub fn execute_outcome(&self, success: bool, stdout: String, stderr: &str) -> (r: Result<
        String,
        SniprunError,
    >)
        ensures
            success ==> (r matches Ok(out) && out@ == stdout@),
            !success ==> (r matches Err(SniprunError::RuntimeError(m)) && m@ == runtime_message(
                stderr@,
            )),
    {
        if success {
            return Ok(stdout);
        }
        let s = chars_of(stderr);
        let lines = line_spans(&s);
        if lines.len() > 0 {
            let (a, b) = lines[lines.len() - 1];
            Err(SniprunError::RuntimeError(stderr.substring_char(a, b).to_owned()))
        } else {
            Err(SniprunError::RuntimeError(stderr.to_owned()))
        }
    }
}

impl Interpreter for Python3_original {
    open spec fn level_of(&self) -> SupportLevel {
        self.support_level
    }

    open spec fn data_of(&self) -> DataHolder {
        self.data
    }

    fn new_with_level(data: DataHolder, level: SupportLevel) -> (r: Box<Python3_original>)
        ensures
            r.data == data,
            r.support_level == level,
            r.code@.len() == 0,
            r.imports@.len() == 0,
            r.main_file_path@ == data.work_dir@ + "/rust_original"@ + "/main.py"@,
    {
        let mut rwd = data.work_dir.clone();
        rwd.append("/rust_original");
        let mut mfp = rwd;
        mfp.append("/main.py");
        Box::new(
            Python3_original {
                data,
                support_level: level,
                code: String::new(),
                imports: String::new(),
                main_file_path: mfp,
            },
        )
    }

    fn get_name() -> (name: String)
        ensures
            name@ == "Python3_original"@,
    {
        "Python3_original".to_owned()
    }

    fn get_supported_languages() -> (v: Vec<String>)
        ensures
            v@.map_values(|s: String| s@) == seq!["python"@, "python3"@, "py"@],
    {
        let mut v: Vec<String> = Vec::new();
        v.push("python".to_owned());
        v.push("python3".to_owned());
        v.push("py".to_owned());
        assert(v@.map_values(|s: String| s@) =~= seq!["python"@, "python3"@, "py"@]);
        v
    }

    fn get_current_level(&self) -> (l: SupportLevel)
        ensures
            l == self.support_level,
    {
        self.support_level
    }

    fn set_current_level(&mut self, level: SupportLevel)
        ensures
            final(self).support_level == level,
            final(self).data == old(self).data,
            final(self).code == old(self).code,
            final(self).imports == old(self).imports,
            final(self).main_file_path == old(self).main_file_path,
    {
        self.support_level = level;
    }

    fn get_data(&self) -> (d: DataHolder)
        ensures
            d == self.data,
    {
        self.data.clone()
    }

    fn get_max_support_level() -> (l: SupportLevel)
        ensures
            l == SupportLevel::File,
    {
        SupportLevel::File
    }

    /// Puts the guarded imports in front of the unindented code.
    fn add_boilerplate(&mut self) -> (r: Result<(), SniprunError>)
        ensures
            r is Ok,
            final(self).code@ == old(self).imports@ + unindented("\n"@ + old(self).code@),
            final(self).imports == old(self).imports,
            final(self).data == old(self).data,
            final(self).support_level == old(self).support_level,
            final(self).main_file_path == old(self).main_file_path,
    {
        let mut prefixed = "\n".to_owned();
        prefixed.append(self.code.as_str());
        let unindented_code = unindent(prefixed.as_str());
        let mut code = self.imports.clone();
        code.append(unindented_code.as_str());
        self.code = code;
        Ok(())
    }
}

} // verus!
