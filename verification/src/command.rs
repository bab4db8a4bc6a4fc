//! What the extractor finds in a file, before it is given a place in the
//! catalog.

use vstd::prelude::*;

verus! {

/// The two kinds of definition that the catalog holds.
#[derive(Debug, Clone, Copy, PartialEq, Eq, Structural)]
pub enum CommandType {
    Alias,
    Function,
}

/// One definition found in a file.
#[derive(Debug)]
pub struct Command {
    /// The name that the definition gives.
    pub name: String,
    /// Whether it is an alias or a function.
    pub command_type: CommandType,
    /// The text of the definition: the value of an alias, or the line that
    /// opens a function.
    pub body: String,
    /// Set where the value of an alias opens a quote that its line never
    /// closes; `body` is then the rest of the line.
    pub unterminated: bool,
}

/// What a [`Command`] holds, as mathematical values.
pub struct Fragment {
    pub name: Seq<char>,
    pub command_type: CommandType,
    pub body: Seq<char>,
    pub unterminated: bool,
}

impl View for Command {
    type V = Fragment;

    open spec fn view(&self) -> Fragment {
        Fragment {
            name: self.name@,
            command_type: self.command_type,
            body: self.body@,
            unterminated: self.unterminated,
        }
    }
}

impl Clone for Command {
    fn clone(&self) -> (r: Self)
        ensures
            r == *self,
    {
        Command {
            name: self.name.clone(),
            command_type: self.command_type,
            body: self.body.clone(),
            unterminated: self.unterminated,
        }
    }
}

/// The fragments of a sequence of commands.
pub open spec fn fragments_of(commands: Seq<Command>) -> Seq<Fragment> {
    commands.map_values(|c: Command| c@)
}

impl Command {
    /// An alias of the given name, with no body yet.
    pub fn new_alias(name: String) -> (r: Self)
        ensures
            r@ == (Fragment {
                name: name@,
                command_type: CommandType::Alias,
                body: Seq::empty(),
                unterminated: false,
            }),
    {
        Self { name, command_type: CommandType::Alias, body: String::new(), unterminated: false }
    }

    /// A function of the given name, with no body yet.
    pub fn new_function(name: String) -> (r: Self)
        ensures
            r@ == (Fragment {
                name: name@,
                command_type: CommandType::Function,
                body: Seq::empty(),
                unterminated: false,
            }),
    {
        Self {
            name,
            command_type: CommandType::Function,
            body: String::new(),
            unterminated: false,
        }
    }
}

} // verus!
