//! The command surface: the tagged command type and the line parser.

use vstd::prelude::*;
use crate::error::AppError;
use crate::strutil::{
    skip_ws_idx, token_end_idx, skip_ws, token_end, str_eq,
};

verus! {

/// A parsed command.
#[derive(Debug, Clone)]
pub enum Command {
    /// Select a file or directory.
    Add(String),
    /// Deselect a file or directory.
    Remove(String),
    /// Display the current selection and counts.
    ShowContext,
    /// Full refresh, then hand the merged document to the clipboard.
    Copy,
    /// Clear selection, cache, document and pending instruction.
    Reset,
    Help,
    Quit,
    /// Anything the parser does not recognise; carries the raw input.
    Unknown(String),
    /// Query the mode (no argument) or switch it (argument given).
    Mode(Option<String>),
    /// View or compose the pending instruction.
    Prompt,
    /// Clear the pending instruction.
    ResetPrompt,
    /// A raw input line routed into the pending instruction.
    AppendPromptText(String),
}

/// The mathematical shape of a command, over character sequences.
pub enum CommandView {
    Add(Seq<char>),
    Remove(Seq<char>),
    ShowContext,
    Copy,
    Reset,
    Help,
    Quit,
    Unknown(Seq<char>),
    Mode(Option<Seq<char>>),
    Prompt,
    ResetPrompt,
    AppendPromptText(Seq<char>),
}

impl View for Command {
    type V = CommandView;

    open spec fn view(&self) -> CommandView {
        match self {
            Command::Add(p) => CommandView::Add(p@),
            Command::Remove(p) => CommandView::Remove(p@),
            Command::ShowContext => CommandView::ShowContext,
            Command::Copy => CommandView::Copy,
            Command::Reset => CommandView::Reset,
            Command::Help => CommandView::Help,
            Command::Quit => CommandView::Quit,
            Command::Unknown(s) => CommandView::Unknown(s@),
            Command::Mode(o) => match o {
                Some(m) => CommandView::Mode(Some(m@)),
                None => CommandView::Mode(None),
            },
            Command::Prompt => CommandView::Prompt,
            Command::ResetPrompt => CommandView::ResetPrompt,
            Command::AppendPromptText(s) => CommandView::AppendPromptText(s@),
        }
    }
}

/// What [`parse`] returns for a given input line.  A line that does not
/// start with the command sigil is `Unknown`; otherwise the first
/// whitespace-separated token selects the command and the second, if
/// present, is its argument.  Everything after the second token is ignored.
pub open spec fn parse_spec(s: Seq<char>) -> CommandView {
    if s.len() == 0 || s[0] != '/' {
        CommandView::Unknown(s)
    } else {
        let a = skip_ws_idx(s, 0);
        let b = token_end_idx(s, a);
        let cmd = s.subrange(a, b);
        let c = skip_ws_idx(s, b);
        let e = token_end_idx(s, c);
        let has_arg = c < s.len();
        let arg = if has_arg { s.subrange(c, e) } else { Seq::<char>::empty() };
        if cmd == "/add"@ {
            CommandView::Add(arg)
        } else if cmd == "/remove"@ {
            CommandView::Remove(arg)
        } else if cmd == "/context"@ {
            CommandView::ShowContext
        } else if cmd == "/copy"@ {
            CommandView::Copy
        } else if cmd == "/reset"@ {
            CommandView::Reset
        } else if cmd == "/help"@ {
            CommandView::Help
        } else if cmd == "/quit"@ {
            CommandView::Quit
        } else if cmd == "/resetprompt"@ {
            CommandView::ResetPrompt
        } else if cmd == "/mode"@ {
            if has_arg {
                CommandView::Mode(Some(arg))
            } else {
                CommandView::Mode(None)
            }
        } else if cmd == "/prompt"@ {
            CommandView::Prompt
        } else {
            CommandView::Unknown(s)
        }
    }
}

/// Parses one input line.  Never fails: unrecognised input becomes
/// [`Command::Unknown`].
pub fn parse(input: &str) -> (r: Result<Command, AppError>)
    ensures
        r matches Ok(c) && c@ == parse_spec(input@),
{
    let len = input.unicode_len();
    if len == 0 || input.get_char(0) != '/' {
        return Ok(Command::Unknown(String::from_str(input)));
    }
    let a = skip_ws(input, 0);
    let b = token_end(input, a);
    let cmd = input.substring_char(a, b);
    proof {
        assert(cmd@ =~= input@.subrange(a as int, b as int));
    }
    let c = skip_ws(input, b);
    let e = token_end(input, c);
    let has_arg = c < len;
    let arg = if has_arg {
        String::from_str(input.substring_char(c, e))
    } else {
        String::new()
    };
    proof {
        if has_arg {
            assert(arg@ =~= input@.subrange(c as int, e as int));
        } else {
            assert(arg@ =~= Seq::<char>::empty());
        }
    }
    if str_eq(cmd, "/add") {
        Ok(Command::Add(arg))
    } else if str_eq(cmd, "/remove") {
        Ok(Command::Remove(arg))
    } else if str_eq(cmd, "/context") {
        Ok(Command::ShowContext)
    } else if str_eq(cmd, "/copy") {
        Ok(Command::Copy)
    } else if str_eq(cmd, "/reset") {
        Ok(Command::Reset)
    } else if str_eq(cmd, "/help") {
        Ok(Command::Help)
    } else if str_eq(cmd, "/quit") {
        Ok(Command::Quit)
    } else if str_eq(cmd, "/resetprompt") {
        Ok(Command::ResetPrompt)
    } else if str_eq(cmd, "/mode") {
        if has_arg {
            Ok(Command::Mode(Some(arg)))
        } else {
            Ok(Command::Mode(None))
        }
    } else if str_eq(cmd, "/prompt") {
        Ok(Command::Prompt)
    } else {
        Ok(Command::Unknown(String::from_str(input)))
    }
}

} // verus!
