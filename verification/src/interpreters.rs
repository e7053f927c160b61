
pub mod python3_original;
pub mod rust_original;

use vstd::prelude::*;
use crate::data::DataHolder;
use crate::level::SupportLevel;
use crate::text::{chars_of, has_char_outside};


pub use python3_original::Python3_original;
pub use rust_original::Rust_original;

verus! {

/// `s` holds a character other than a space, a tab, a line feed or a carriage return.
pub open spec fn has_visible_char(s: Seq<char>) -> bool {
    exists|i: int| 0 <= i < s.len() && !seq![' ', '\t', '\n', '\r'].contains(#[trigger] s[i])
}

/// `s` holds a character other than a space.
pub open spec fn has_non_space(s: Seq<char>) -> bool {
    exists|i: int| 0 <= i < s.len() && #[trigger] s[i] != ' '
}

/// The code of a snippet as the editor gives it: the selected bloc when it is not blank
/// and the level runs blocs, else the current line when it is not all spaces and the
/// level runs lines, else nothing.
pub open spec fn selected_code(data: DataHolder, level: SupportLevel) -> Seq<char> {
    if has_visible_char(data.current_bloc@) && level.rank() >= SupportLevel::Bloc.rank() {
        data.current_bloc@
    } else if has_non_space(data.current_line@) && level.rank() >= SupportLevel::Line.rank() {
        data.current_line@
    } else {
        Seq::empty()
    }
}

/// The code of the snippet that `data` describes, at `level`.
pub fn select_code(data: &DataHolder, level: SupportLevel) -> (code: String)
    ensures
        code@ == selected_code(*data, level),
{
    let bloc = chars_of(data.current_bloc.as_str());
    let mut blanks: Vec<char> = Vec::new();
    blanks.push(' ');
    blanks.push('\t');
    blanks.push('\n');
    blanks.push('\r');
    assert(blanks@ =~= seq![' ', '\t', '\n', '\r']);
    let line = chars_of(data.current_line.as_str());
    let mut spaces: Vec<char> = Vec::new();
    spaces.push(' ');
    let level_rank = level.value();
    if has_char_outside(&bloc, &blanks) && level_rank >= 2 {
        data.current_bloc.clone()
    } else if has_char_outside(&line, &spaces) && level_rank >= 1 {
        assert forall|i: int| 0 <= i < line@.len() && !spaces@.contains(#[trigger] line@[i])
            implies line@[i] != ' ' by {
            assert(spaces@[0] == ' ');
        }
        data.current_line.clone()
    } else {
        proof {
            if has_non_space(line@) {
                let i = choose|i: int| 0 <= i < line@.len() && #[trigger] line@[i] != ' ';
                assert(!spaces@.contains(line@[i]));
            }
        }
        String::new()
    }
}


/// Which code a snippet runs: from the `Bloc` level up, a selected bloc holding a
/// character other than a space, tab, line feed or carriage return is run; otherwise,
/// from the `Line` level up, a current line holding a character other than a space
/// is run; otherwise nothing is.
pub proof fn lemma_selected_code_choice(data: DataHolder, level: SupportLevel)
    ensures
        level.rank() >= SupportLevel::Bloc.rank() && (exists|i: int|
            0 <= i < data.current_bloc@.len() && #[trigger] data.current_bloc@[i] != ' '
                && data.current_bloc@[i] != '\t' && data.current_bloc@[i] != '\n'
                && data.current_bloc@[i] != '\r') ==> selected_code(data, level)
            == data.current_bloc@,
        (level.rank() < SupportLevel::Bloc.rank() || forall|i: int|
            0 <= i < data.current_bloc@.len() ==> #[trigger] data.current_bloc@[i] == ' '
                || data.current_bloc@[i] == '\t' || data.current_bloc@[i] == '\n'
                || data.current_bloc@[i] == '\r') ==> ((level.rank()
            >= SupportLevel::Line.rank() && (exists|i: int|
            0 <= i < data.current_line@.len() && #[trigger] data.current_line@[i] != ' '))
            ==> selected_code(data, level) == data.current_line@),
        (level.rank() < SupportLevel::Line.rank() || ((forall|i: int|
            0 <= i < data.current_line@.len() ==> #[trigger] data.current_line@[i] == ' ') && (
        level.rank() < SupportLevel::Bloc.rank() || forall|i: int|
            0 <= i < data.current_bloc@.len() ==> #[trigger] data.current_bloc@[i] == ' '
                || data.current_bloc@[i] == '\t' || data.current_bloc@[i] == '\n'
                || data.current_bloc@[i] == '\r'))) ==> selected_code(data, level).len() == 0,
{
    let blanks = seq![' ', '\t', '\n', '\r'];
    assert forall|c: char| blanks.contains(c) <==> (c == ' ' || c == '\t' || c == '\n' || c == '\r') by {
        if c == ' ' { assert(blanks[0] == c); }
        if c == '\t' { assert(blanks[1] == c); }
        if c == '\n' { assert(blanks[2] == c); }
        if c == '\r' { assert(blanks[3] == c); }
    }
}

} // verus!
