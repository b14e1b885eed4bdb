//! Commands and suggestions: the values the command registry stores and the
//! command palette displays.

use vstd::prelude::*;
use crate::keybindings::{Action, KeyContext};

verus! {

/// An editor command: a display name, a description, the action it
/// triggers, and the contexts it is available in (empty: available in all).
#[derive(Clone, Debug)]
pub struct Command {
    pub name: String,
    pub description: String,
    pub action: Action,
    pub contexts: Vec<KeyContext>,
}

/// The mathematical value of a `Command`.
pub struct CommandV {
    pub name: Seq<char>,
    pub description: Seq<char>,
    pub action: Action,
    pub contexts: Seq<KeyContext>,
}

impl View for Command {
    type V = CommandV;

    open spec fn view(&self) -> CommandV {
        CommandV {
            name: self.name@,
            description: self.description@,
            action: self.action,
            contexts: self.contexts@,
        }
    }
}

impl Command {
    /// An exact copy of this command.
    pub fn duplicate(&self) -> (r: Command)
        ensures
            r@ == self@,
    {
        let mut contexts: Vec<KeyContext> = Vec::new();
        let mut i: usize = 0;
        while i < self.contexts.len()
            invariant
                i <= self.contexts@.len(),
                contexts@ == self.contexts@.take(i as int),
            decreases self.contexts@.len() - i,
        {
            contexts.push(self.contexts[i]);
            proof {
                assert(contexts@ =~= self.contexts@.take(i as int + 1));
            }
            i += 1;
        }
        proof {
            assert(contexts@ =~= self.contexts@);
        }
        let r = Command {
            name: self.name.clone(),
            description: self.description.clone(),
            action: self.action,
            contexts,
        };
        proof {
            assert(r@ =~= self@);
        }
        r
    }
}

/// A palette suggestion: display text, an optional description, and whether
/// the suggested command is disabled in the current context.
#[derive(Clone, Debug)]
pub struct Suggestion {
    pub text: String,
    pub description: Option<String>,
    pub disabled: bool,
}

/// The mathematical value of a `Suggestion`.
pub struct SuggestionV {
    pub text: Seq<char>,
    pub description: Option<Seq<char>>,
    pub disabled: bool,
}

impl View for Suggestion {
    type V = SuggestionV;

    open spec fn view(&self) -> SuggestionV {
        SuggestionV {
            text: self.text@,
            description: match self.description {
                Some(ref d) => Some(d@),
                None => None,
            },
            disabled: self.disabled,
        }
    }
}

impl Suggestion {
    /// A suggestion with text, a description and a disabled marker.
    pub fn with_description_and_disabled(text: String, description: String, disabled: bool) -> (r:
        Suggestion)
        ensures
            r@.text == text@,
            r@.description == Some(description@),
            r@.disabled == disabled,
    {
        Suggestion { text, description: Some(description), disabled }
    }
}

impl Suggestion {
    /// An exact copy of this suggestion.
    pub fn duplicate(&self) -> (r: Suggestion)
        ensures
            r@ == self@,
    {
        let r = Suggestion {
            text: self.text.clone(),
            description: match &self.description {
                Some(d) => Some(d.clone()),
                None => None,
            },
            disabled: self.disabled,
        };
        proof {
            assert(r@ == self@);
        }
        r
    }
}

/// One named built-in command available in every context.
fn builtin(name: &str, description: &str, action: Action) -> (r: Command)
    ensures
        r@.name == name@,
        r@.description == description@,
        r@.action == action,
        r@.contexts.len() == 0,
{
    Command {
        name: name.to_owned(),
        description: description.to_owned(),
        action,
        contexts: Vec::new(),
    }
}

/// The built-in command set the registry starts from.
pub fn get_all_commands() -> (r: Vec<Command>)
    ensures
        r@.len() >= 1,
{
    let mut v: Vec<Command> = Vec::new();
    v.push(builtin("Open File", "Open a file for editing", Action::OpenFile));
    v.push(builtin("Save File", "Save the current buffer", Action::SaveFile));
    v.push(builtin("Save File As", "Save the current buffer under a new name", Action::SaveFileAs));
    v.push(builtin("New File", "Create a new empty buffer", Action::NewFile));
    v.push(builtin("Quit", "Leave the editor", Action::Quit));
    v.push(builtin("Show Help", "Show the keyboard shortcuts", Action::ShowHelp));
    v.push(builtin("Undo", "Undo the last edit", Action::Undo));
    v.push(builtin("Redo", "Redo the last undone edit", Action::Redo));
    v.push(builtin("Select All", "Select the whole buffer", Action::SelectAll));
    let mut focus_editor = builtin(
        "Focus Editor",
        "Move the focus back to the editor",
        Action::FocusEditor,
    );
    focus_editor.contexts.push(KeyContext::FileExplorer);
    v.push(focus_editor);
    v.push(
        builtin(
            "Focus File Explorer",
            "Move the focus to the file explorer",
            Action::FocusFileExplorer,
        ),
    );
    v
}

} // verus!
