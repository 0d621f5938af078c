//! Entries of a compilation database.

use vstd::prelude::*;

verus! {

/// One entry of a compilation database: a file and the compiler invocation
/// that builds it, given as one command line or as a list of arguments.
#[derive(Debug, Clone)]
pub struct CompileCommand {
    pub directory: String,
    pub file: String,
    pub command: Option<String>,
    pub arguments: Option<Vec<String>>,
    pub output: Option<String>,
}

/// What an entry holds, as plain sequences of characters.
pub struct CommandModel {
    pub directory: Seq<char>,
    pub file: Seq<char>,
    pub command: Option<Seq<char>>,
    pub arguments: Option<Seq<Seq<char>>>,
    pub output: Option<Seq<char>>,
}

impl View for CompileCommand {
    type V = CommandModel;

    open spec fn view(&self) -> CommandModel {
        CommandModel {
            directory: self.directory@,
            file: self.file@,
            command: self.command.deep_view(),
            arguments: self.arguments.deep_view(),
            output: self.output.deep_view(),
        }
    }
}

/// The models of a list of entries.
pub open spec fn command_models(commands: Seq<CompileCommand>) -> Seq<CommandModel> {
    Seq::new(commands.len(), |i: int| commands[i]@)
}

/// The entry that a header inherits from the translation unit `owner`: its
/// directory and its invocation, the header as the file, and no output.
pub open spec fn synthetic_entry(owner: CommandModel, header: Seq<char>) -> CommandModel {
    CommandModel {
        directory: owner.directory,
        file: header,
        command: owner.command,
        arguments: owner.arguments,
        output: None,
    }
}

/// A copy of a list of strings.
pub fn copy_strings(v: &Vec<String>) -> (r: Vec<String>)
    ensures
        r.deep_view() == v.deep_view(),
{
    let mut r: Vec<String> = Vec::new();
    let mut i: usize = 0;
    while i < v.len()
        invariant
            i <= v.len(),
            r.len() == i,
            forall|j: int| 0 <= j < i ==> r[j]@ == v[j]@,
        decreases v.len() - i,
    {
        r.push(v[i].clone());
        i += 1;
    }
    assert(r.deep_view() =~= v.deep_view());
    r
}

/// A copy of an optional string.
pub fn copy_text(t: &Option<String>) -> (r: Option<String>)
    ensures
        r.deep_view() == t.deep_view(),
{
    match t {
        Some(s) => Some(s.clone()),
        None => None,
    }
}

impl CompileCommand {
    /// A copy of the entry.
    pub fn duplicate(&self) -> (r: CompileCommand)
        ensures
            r@ == self@,
    {
        let arguments = match &self.arguments {
            Some(a) => Some(copy_strings(a)),
            None => None,
        };
        CompileCommand {
            directory: self.directory.clone(),
            file: self.file.clone(),
            command: copy_text(&self.command),
            arguments,
            output: copy_text(&self.output),
        }
    }

    /// The entry for `header`, found from the translation unit `self`.
    pub fn for_header(&self, header: String) -> (r: CompileCommand)
        ensures
            r@ == synthetic_entry(self@, header@),
    {
        let arguments = match &self.arguments {
            Some(a) => Some(copy_strings(a)),
            None => None,
        };
        CompileCommand {
            directory: self.directory.clone(),
            file: header,
            command: copy_text(&self.command),
            arguments,
            output: None,
        }
    }
}

} // verus!
