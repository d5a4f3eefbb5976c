//! Input routing and the multi-line capture state machine.
//!
//! One persistent line reader feeds every raw input line through
//! [`route_line`]; while the editor is in multi-line capture, the whole
//! buffer is committed or cancelled as one unit.

use vstd::prelude::*;
use crate::command::{Command, CommandView, parse, parse_spec};
use crate::state::{AppState, ReplMode, ReplEditorMode};
use crate::strutil::{
    trimmed, trim_str, skip_ws, skip_ws_idx, is_ws, lemma_skip_ws_all, lemma_skip_ws_idx_stops,
    lemma_trim_front_skip, str_eq, trim_front, trim_back,
};

verus! {

/// `s` without one trailing newline, the way line splitting sees it.
pub open spec fn sans_trailing_newline(s: Seq<char>) -> Seq<char> {
    if s.len() > 0 && s.last() == '\n' {
        s.drop_last()
    } else {
        s
    }
}

/// Index of the last newline of `s`, or -1.
pub open spec fn last_nl_idx(s: Seq<char>) -> int
    decreases s.len(),
{
    if s.len() == 0 {
        -1
    } else if s.last() == '\n' {
        s.len() - 1
    } else {
        last_nl_idx(s.drop_last())
    }
}

pub proof fn lemma_last_nl_idx_bounds(s: Seq<char>)
    ensures
        -1 <= last_nl_idx(s) < s.len(),
    decreases s.len(),
{
    if s.len() > 0 && s.last() != '\n' {
        lemma_last_nl_idx_bounds(s.drop_last());
    }
}

/// The trailing captured line of a buffer.
pub open spec fn last_line(s: Seq<char>) -> Seq<char> {
    let b = sans_trailing_newline(s);
    b.skip(last_nl_idx(b) + 1)
}

/// The buffer with its trailing line removed.
pub open spec fn stripped_of_last_line(s: Seq<char>) -> Seq<char> {
    let b = sans_trailing_newline(s);
    if last_nl_idx(b) >= 0 {
        b.take(last_nl_idx(b))
    } else {
        Seq::<char>::empty()
    }
}

/// A multi-line capture is complete when its trailing line, trimmed, is the
/// sentinel token.
pub open spec fn submit_complete(s: Seq<char>) -> bool {
    trimmed(last_line(s)) == ":submit"@
}

/// What a committed capture stores as the pending instruction: the buffer
/// minus the sentinel line, or — if the sentinel is unexpectedly missing —
/// the whole buffer.
pub open spec fn committed_text(s: Seq<char>) -> Seq<char> {
    if submit_complete(s) {
        stripped_of_last_line(s)
    } else {
        sans_trailing_newline(s)
    }
}

/// Detects the sentinel that terminates a multi-line capture.
pub struct SubmitValidator;

impl SubmitValidator {
    /// Complete exactly when the trailing line, trimmed, is the sentinel.
    pub fn validate(&self, content: &str) -> (r: bool)
        ensures
            r == submit_complete(content@),
    {
        let (_lo, line) = split_last_line(content);
        let t = trim_str(line.as_str());
        str_eq(t.as_str(), ":submit")
    }
}

/// Splits off the trailing line: returns the length of the stripped part and
/// the trailing line itself.
fn split_last_line(content: &str) -> (r: (usize, String))
    ensures
        r.1@ == last_line(content@),
        r.0 as int == if last_nl_idx(sans_trailing_newline(content@)) >= 0 {
            last_nl_idx(sans_trailing_newline(content@))
        } else {
            0
        },
        r.0 <= content@.len(),
{
    let len = content.unicode_len();
    let blen = if len > 0 && content.get_char(len - 1) == '\n' {
        len - 1
    } else {
        len
    };
    let ghost b = sans_trailing_newline(content@);
    proof {
        assert(b =~= content@.take(blen as int));
        lemma_last_nl_idx_bounds(b);
        assert(b.take(blen as int) =~= b);
    }
    let mut j: usize = blen;
    loop
        invariant
            j <= blen,
            blen <= content@.len(),
            content@.len() == len,
            b == sans_trailing_newline(content@),
            b =~= content@.take(blen as int),
            last_nl_idx(b) == last_nl_idx(b.take(j as int)),
        decreases j,
    {
        if j == 0 {
            proof {
                assert(b.take(0) =~= Seq::<char>::empty());
                assert(last_nl_idx(b) == -1);
            }
            let line = String::from_str(content.substring_char(0, blen));
            proof {
                assert(line@ =~= b.skip(last_nl_idx(b) + 1));
            }
            return (0, line);
        }
        let c = content.get_char(j - 1);
        if c == '\n' {
            proof {
                assert(b.take(j as int).last() == '\n');
                assert(last_nl_idx(b) == j - 1);
            }
            let line = String::from_str(content.substring_char(j, blen));
            proof {
                assert(line@ =~= b.skip(last_nl_idx(b) + 1));
            }
            return (j - 1, line);
        }
        proof {
            assert(b.take(j as int).last() == content@[j - 1]);
            assert(b.take(j as int).drop_last() =~= b.take(j as int - 1));
        }
        j = j - 1;
    }
}

/// Commits a finished multi-line capture: the pending instruction becomes
/// the captured text minus the sentinel line, and the editor returns to
/// single-line input.  Nothing else moves.
pub fn commit_multiline(st: &mut AppState, buffer: &str)
    requires
        old(st).wf(),
    ensures
        final(st).wf(),
        final(st).prompt_text@ == committed_text(buffer@),
        final(st).editor_mode == ReplEditorMode::SingleLine,
        final(st).selected_paths == old(st).selected_paths,
        final(st).file_count == old(st).file_count,
        final(st).token_count == old(st).token_count,
        final(st).partial_docs == old(st).partial_docs,
        final(st).cached_xml == old(st).cached_xml,
        final(st).mode == old(st).mode,
{
    let len = content_body_len(buffer);
    let (cut, line) = split_last_line(buffer);
    let t = trim_str(line.as_str());
    let text = if str_eq(t.as_str(), ":submit") {
        String::from_str(buffer.substring_char(0, cut))
    } else {
        String::from_str(buffer.substring_char(0, len))
    };
    proof {
        let b = sans_trailing_newline(buffer@);
        lemma_last_nl_idx_bounds(b);
        if submit_complete(buffer@) {
            if last_nl_idx(b) >= 0 {
                assert(text@ =~= b.take(last_nl_idx(b)));
            } else {
                assert(text@ =~= Seq::<char>::empty());
            }
        } else {
            assert(text@ =~= b);
        }
    }
    st.prompt_text = text;
    st.editor_mode = ReplEditorMode::SingleLine;
}

/// Length of the buffer once one trailing newline is dropped.
fn content_body_len(content: &str) -> (r: usize)
    ensures
        r as int == sans_trailing_newline(content@).len(),
        r <= content@.len(),
{
    let len = content.unicode_len();
    if len > 0 && content.get_char(len - 1) == '\n' {
        len - 1
    } else {
        len
    }
}

/// Cancels an in-progress capture: the editor returns to single-line input
/// and the previously committed pending instruction stays untouched.
/// Returns true when the session should end instead (an interrupt outside
/// a capture quits).
pub fn handle_interrupt(st: &mut AppState) -> (quit: bool)
    requires
        old(st).wf(),
    ensures
        final(st).wf(),
        quit == (old(st).editor_mode == ReplEditorMode::SingleLine),
        old(st).editor_mode == ReplEditorMode::MultiLine ==> *final(st) == (AppState {
            editor_mode: ReplEditorMode::SingleLine,
            ..*old(st)
        }),
        old(st).editor_mode == ReplEditorMode::SingleLine ==> *final(st) == *old(st),
{
    match st.editor_mode {
        ReplEditorMode::MultiLine => {
            st.editor_mode = ReplEditorMode::SingleLine;
            false
        },
        ReplEditorMode::SingleLine => true,
    }
}

/// What one raw single-line input asks of the session loop.
pub enum LineAction {
    /// Blank input: nothing to do.
    Ignore,
    /// Reconfigure the editor for multi-line capture.
    EnterMultiline,
    /// Route this command through the executor.
    Dispatch(Command),
}

/// How a raw input line is routed, before any command is executed: blank
/// lines are skipped; in prompt mode a line that does not start with the
/// command sigil becomes an instruction append; the compose command issued
/// while already in prompt mode opens the multi-line capture directly.
pub open spec fn route_spec(mode: ReplMode, l: Seq<char>) -> LineActionView {
    if trimmed(l).len() == 0 {
        LineActionView::Ignore
    } else if mode == ReplMode::Prompt && l[0] != '/' {
        LineActionView::Dispatch(CommandView::AppendPromptText(l))
    } else {
        let c = parse_spec(l);
        if (c is Prompt) && mode == ReplMode::Prompt {
            LineActionView::EnterMultiline
        } else {
            LineActionView::Dispatch(c)
        }
    }
}

/// The mathematical shape of a [`LineAction`].
pub enum LineActionView {
    Ignore,
    EnterMultiline,
    Dispatch(CommandView),
}

impl View for LineAction {
    type V = LineActionView;

    open spec fn view(&self) -> LineActionView {
        match self {
            LineAction::Ignore => LineActionView::Ignore,
            LineAction::EnterMultiline => LineActionView::EnterMultiline,
            LineAction::Dispatch(c) => LineActionView::Dispatch(c@),
        }
    }
}

/// Routes one raw single-line input.
pub fn route_line(mode: &ReplMode, line: &str) -> (a: LineAction)
    ensures
        a@ == route_spec(*mode, line@),
{
    let len = line.unicode_len();
    let lo = skip_ws(line, 0);
    proof {
        lemma_trimmed_empty_iff(line@);
    }
    if lo == len {
        return LineAction::Ignore;
    }
    let is_cmd_sigil = line.get_char(0) == '/';
    let in_prompt = match mode {
        ReplMode::Prompt => true,
        ReplMode::Manual => false,
    };
    if in_prompt && !is_cmd_sigil {
        return LineAction::Dispatch(Command::AppendPromptText(String::from_str(line)));
    }
    let cmd = match parse(line) {
        Ok(c) => c,
        Err(e) => {
            return LineAction::Ignore;
        },
    };
    let is_prompt_cmd = match &cmd {
        Command::Prompt => true,
        _ => false,
    };
    if is_prompt_cmd && in_prompt {
        LineAction::EnterMultiline
    } else {
        LineAction::Dispatch(cmd)
    }
}

/// Puts the editor into multi-line capture; the caller pre-seeds the capture
/// buffer with the pending instruction.
pub fn enter_multiline(st: &mut AppState)
    requires
        old(st).wf(),
    ensures
        final(st).wf(),
        *final(st) == (AppState { editor_mode: ReplEditorMode::MultiLine, ..*old(st) }),
{
    st.editor_mode = ReplEditorMode::MultiLine;
}

/// A line is all whitespace exactly when scanning past whitespace exhausts it.
proof fn lemma_trimmed_empty_iff(s: Seq<char>)
    ensures
        (trimmed(s).len() == 0) == (skip_ws_idx(s, 0) == s.len()),
{
    let lo = skip_ws_idx(s, 0);
    crate::strutil::lemma_skip_ws_idx_bounds(s, 0);
    assert forall|j: int| 0 <= j < lo implies is_ws(s[j]) by {
        lemma_skip_ws_all(s, 0, j);
    }
    lemma_trim_front_skip(s, lo);
    lemma_skip_ws_idx_stops(s, 0);
    let t = s.skip(lo);
    assert(trim_front(s) == trim_front(t));
    assert(trim_front(t) == t);
    if lo == s.len() {
        assert(t.len() == 0);
        assert(trimmed(s).len() == 0);
    } else {
        assert(t.len() > 0 && !is_ws(t[0]));
        lemma_trim_back_keeps_head(t);
        assert(trimmed(s).len() > 0);
    }
}

proof fn lemma_trim_back_keeps_head(t: Seq<char>)
    requires
        t.len() > 0,
        !is_ws(t[0]),
    ensures
        trim_back(t).len() > 0,
    decreases t.len(),
{
    if is_ws(t.last()) {
        assert(t.len() > 1);
        assert(t.drop_last()[0] == t[0]);
        lemma_trim_back_keeps_head(t.drop_last());
    }
}

} // verus!
