use vstd::prelude::*;

verus! {

/// The shell that a generated script is written for.
#[derive(Clone, Copy, Debug, PartialEq, Eq, Structural)]
pub enum ScriptStyle {
    /// A POSIX shell script (`.sh`).
    Unix,
    /// A Windows batch file (`.cmd`).
    Windows,
}

/// The extension of a script file for the style.
pub open spec fn ext_spec(style: ScriptStyle) -> Seq<char> {
    match style {
        ScriptStyle::Unix => "sh"@,
        ScriptStyle::Windows => "cmd"@,
    }
}

/// What starts a line that is commented out.
pub open spec fn comment_prefix(style: ScriptStyle) -> Seq<char> {
    match style {
        ScriptStyle::Unix => "# "@,
        ScriptStyle::Windows => "REM "@,
    }
}

/// The command that deletes a file, with its trailing space.
pub open spec fn delete_word(style: ScriptStyle) -> Seq<char> {
    match style {
        ScriptStyle::Unix => "rm "@,
        ScriptStyle::Windows => "del "@,
    }
}

/// The statement that deletes the file at `path`, commented out when `cmt`.
pub open spec fn delete_statement(style: ScriptStyle, path: Seq<char>, cmt: bool) -> Seq<char> {
    (if cmt { comment_prefix(style) } else { Seq::<char>::empty() }) + delete_word(style) + "\""@ + path + "\""@
        + "\r\n"@
}

/// The statement that removes the empty folder at `path`.
pub open spec fn rmdir_statement(path: Seq<char>) -> Seq<char> {
    "rmdir "@ + "\""@ + path + "\""@ + "\r\n"@
}

/// The extension of a script file for the style.
pub fn default_ext(style: ScriptStyle) -> (s: &'static str)
    ensures
        s@ == ext_spec(style),
{
    match style {
        ScriptStyle::Unix => "sh",
        ScriptStyle::Windows => "cmd",
    }
}

/// The statement that deletes the file at `path`, commented out when `cmt`.
pub fn gen_delete_statement(style: ScriptStyle, path: &str, cmt: bool) -> (statment: String)
    ensures
        statment@ == delete_statement(style, path@, cmt),
{
    let mut statment = String::new();
    if cmt {
        match style {
            ScriptStyle::Unix => statment.append("# "),
            ScriptStyle::Windows => statment.append("REM "),
        }
    }
    match style {
        ScriptStyle::Unix => statment.append("rm "),
        ScriptStyle::Windows => statment.append("del "),
    }
    statment.append("\"");
    statment.append(path);
    statment.append("\"");
    statment.append("\r\n");
    statment
}

/// The statement that removes the empty folder at `path`.
pub fn gen_delete_empty_dir_statement(path: &str) -> (statment: String)
    ensures
        statment@ == rmdir_statement(path@),
{
    let mut statment = String::from_str("rmdir ");
    statment.append("\"");
    statment.append(path);
    statment.append("\"");
    statment.append("\r\n");
    statment
}

} // verus!
