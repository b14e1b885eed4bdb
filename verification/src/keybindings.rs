//! Key contexts and editor actions that commands are bound to.

use vstd::prelude::*;

verus! {

/// The UI context a key binding or command is valid in. A command with an
/// empty context list is available everywhere.
#[derive(Clone, Copy, PartialEq, Eq, Structural, Debug)]
pub enum KeyContext {
    Normal,
    Help,
    FileExplorer,
    Prompt,
}

/// The editor action a command triggers. Dispatching actions is the
/// surrounding editor's concern; the registry only stores them.
#[derive(Clone, Copy, PartialEq, Eq, Structural, Debug)]
pub enum Action {
    NoOp,
    OpenFile,
    SaveFile,
    SaveFileAs,
    NewFile,
    Quit,
    ShowHelp,
    Undo,
    Redo,
    SelectAll,
    FocusEditor,
    FocusFileExplorer,
}

} // verus!
