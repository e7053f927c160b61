use vstd::prelude::*;

verus! {

/// What the editor tells an interpreter about the snippet to run.
pub struct DataHolder {
    /// the editor's file type of the current buffer
    pub filetype: String,
    /// the line under the cursor
    pub current_line: String,
    /// the selected bloc of code
    pub current_bloc: String,
    /// first and last line (counted from one) of the selection
    pub range: [i64; 2],
    /// path of the file being edited
    pub filepath: String,
    /// directory where interpreters keep their work files
    pub work_dir: String,
}

impl DataHolder {
    /// An empty selection, with no range and the default work directory.
    pub fn new() -> (d: DataHolder)
        ensures
            d.filetype@.len() == 0,
            d.current_line@.len() == 0,
            d.current_bloc@.len() == 0,
            d.range[0] == -1 && d.range[1] == -1,
            d.filepath@.len() == 0,
            d.work_dir@ == "/tmp/sniprun"@,
    {
        DataHolder {
            filetype: String::new(),
            current_line: String::new(),
            current_bloc: String::new(),
            range: [-1, -1],
            filepath: String::new(),
            work_dir: "/tmp/sniprun".to_owned(),
        }
    }
}

impl Clone for DataHolder {
    fn clone(&self) -> (d: Self)
        ensures
            d == *self,
    {
        DataHolder {
            filetype: self.filetype.clone(),
            current_line: self.current_line.clone(),
            current_bloc: self.current_bloc.clone(),
            range: self.range,
            filepath: self.filepath.clone(),
            work_dir: self.work_dir.clone(),
        }
    }
}

} // verus!
