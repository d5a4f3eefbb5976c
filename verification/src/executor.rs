//! The command router: the per-mode allow-list and the state transitions of
//! every command that needs no filesystem work.  Commands that do need it
//! (add, remove, copy) are answered with a directive telling the caller what
//! to resolve; the commits they lead to are verified operations here and in
//! the snippet manager.

use vstd::prelude::*;
use crate::command::{Command, CommandView};
use crate::state::{AppState, ReplMode, ReplEditorMode, string_views, distinct_seq};
use crate::strutil::{str_eq, str_eqi, seq_eqi};
use crate::xml::{virtual_key, with_instruction, append_instruction};

verus! {

/// The explicit per-mode allow-list.  File selection belongs to manual
/// mode, instruction handling to prompt mode; display, copy, mode switches,
/// help and quit are legal everywhere.
pub open spec fn valid_in_mode(cmd: CommandView, mode: ReplMode) -> bool {
    match mode {
        ReplMode::Manual => match cmd {
            CommandView::Add(p) => true,
            CommandView::Remove(p) => true,
            CommandView::ShowContext => true,
            CommandView::Copy => true,
            CommandView::Reset => true,
            CommandView::Help => true,
            CommandView::Quit => true,
            CommandView::Mode(m) => true,
            CommandView::ResetPrompt => true,
            CommandView::Prompt => true,
            CommandView::AppendPromptText(t) => false,
            CommandView::Unknown(u) => false,
        },
        ReplMode::Prompt => match cmd {
            CommandView::Mode(m) => true,
            CommandView::Prompt => true,
            CommandView::ShowContext => true,
            CommandView::Copy => true,
            CommandView::Help => true,
            CommandView::Quit => true,
            CommandView::AppendPromptText(t) => true,
            CommandView::ResetPrompt => true,
            CommandView::Add(p) => false,
            CommandView::Remove(p) => false,
            CommandView::Reset => false,
            CommandView::Unknown(u) => false,
        },
    }
}

/// Decides the allow-list.
pub fn is_command_valid_in_mode(cmd: &Command, mode: &ReplMode) -> (r: bool)
    ensures
        r == valid_in_mode(cmd@, *mode),
{
    match mode {
        ReplMode::Manual => match cmd {
            Command::AppendPromptText(_) | Command::Unknown(_) => false,
            _ => true,
        },
        ReplMode::Prompt => match cmd {
            Command::Add(_) | Command::Remove(_) | Command::Reset | Command::Unknown(_) => false,
            _ => true,
        },
    }
}

/// What the caller must do after routing one command.
pub enum Directive {
    /// The input was not a recognised command; print a notice.
    UnknownNotice,
    /// The command is outside the active mode's allow-list; print a notice.
    /// No state was mutated.
    Rejected,
    /// The command's state change is already committed.
    Done,
    /// Resolve this path to concrete files, then commit the add.
    ScanAdd(String),
    /// Resolve this path to concrete files, then commit the removal.
    ScanRemove(String),
    /// Re-read every selected file and run a full refresh, then hand the
    /// prepared text to the clipboard.
    CopyRefresh,
    /// Print the selection summary.
    ShowContext,
    /// Print the help text for the current mode.
    ShowHelp,
    /// Print the current mode.
    ShowMode,
    /// The mode was switched; print which one is active now.
    ModeSwitched,
    /// The mode argument named no known mode; print a notice.
    UnknownMode,
    /// Reconfigure the editor for multi-line capture, pre-seeded with the
    /// pending instruction.  The flag says whether the mode was auto-switched
    /// out of manual.
    EnterMultiline(bool),
    /// Stop the session loop.
    Quit,
}

/// The pending instruction after one appended line: separated from earlier
/// text by a newline, unless there was none.
pub open spec fn appended_prompt(p: Seq<char>, line: Seq<char>) -> Seq<char> {
    if p.len() == 0 {
        line
    } else {
        p + seq!['\n'] + line
    }
}

/// All fields except the pending instruction agree.
pub open spec fn same_but_prompt_text(a: AppState, b: AppState) -> bool {
    &&& b.selected_paths == a.selected_paths
    &&& b.file_count == a.file_count
    &&& b.token_count == a.token_count
    &&& b.partial_docs == a.partial_docs
    &&& b.cached_xml == a.cached_xml
    &&& b.mode == a.mode
    &&& b.editor_mode == a.editor_mode
}

/// Routes one command: checks the allow-list, commits every transition that
/// needs no collaborator, and answers what is left for the caller to do.
/// A command outside the active mode's allow-list, or an unknown command,
/// leaves the state exactly as it was.
pub fn execute_pure(st: &mut AppState, cmd: &Command) -> (r: Directive)
    requires
        old(st).wf(),
    ensures
        final(st).wf(),
        cmd@ matches CommandView::Unknown(u) ==> *final(st) == *old(st) && r is UnknownNotice,
        !(cmd@ is Unknown) && !valid_in_mode(cmd@, old(st).mode) ==> *final(st) == *old(st)
            && r is Rejected,
        valid_in_mode(cmd@, old(st).mode) ==> match cmd@ {
            CommandView::Add(p) => *final(st) == *old(st) && (r matches Directive::ScanAdd(q)
                && q@ == p),
            CommandView::Remove(p) => *final(st) == *old(st)
                && (r matches Directive::ScanRemove(q) && q@ == p),
            CommandView::ShowContext => *final(st) == *old(st) && r is ShowContext,
            CommandView::Copy => *final(st) == *old(st) && r is CopyRefresh,
            CommandView::Reset => r is Done && final(st).selected_paths@.len() == 0
                && final(st).file_count == 0 && final(st).token_count == 0
                && final(st).partial_docs@.len() == 0
                && final(st).cached_xml@ == Seq::<char>::empty()
                && final(st).prompt_text@ == Seq::<char>::empty()
                && final(st).mode == old(st).mode
                && final(st).editor_mode == old(st).editor_mode,
            CommandView::Help => *final(st) == *old(st) && r is ShowHelp,
            CommandView::Quit => *final(st) == *old(st) && r is Quit,
            CommandView::Mode(opt) => match opt {
                None => *final(st) == *old(st) && r is ShowMode,
                Some(m) => if seq_eqi(m, "manual"@) {
                    r is ModeSwitched && final(st).mode == ReplMode::Manual
                        && *final(st) == AppState { mode: ReplMode::Manual, ..*old(st) }
                } else if seq_eqi(m, "prompt"@) {
                    r is ModeSwitched && *final(st) == AppState {
                        mode: ReplMode::Prompt,
                        ..*old(st)
                    }
                } else {
                    *final(st) == *old(st) && r is UnknownMode
                },
            },
            CommandView::Prompt => (r matches Directive::EnterMultiline(sw)
                && sw == (old(st).mode is Manual)) && *final(st) == AppState {
                mode: ReplMode::Prompt,
                editor_mode: ReplEditorMode::MultiLine,
                ..*old(st)
            },
            CommandView::ResetPrompt => r is Done && same_but_prompt_text(*old(st), *final(st))
                && final(st).prompt_text@ == Seq::<char>::empty(),
            CommandView::AppendPromptText(line) => r is Done
                && same_but_prompt_text(*old(st), *final(st))
                && final(st).prompt_text@ == appended_prompt(old(st).prompt_text@, line),
            CommandView::Unknown(u) => true,
        },
{
    if let Command::Unknown(_) = cmd {
        return Directive::UnknownNotice;
    }
    if !is_command_valid_in_mode(cmd, &st.mode) {
        return Directive::Rejected;
    }
    match cmd {
        Command::Add(p) => Directive::ScanAdd(p.clone()),
        Command::Remove(p) => Directive::ScanRemove(p.clone()),
        Command::ShowContext => Directive::ShowContext,
        Command::Copy => Directive::CopyRefresh,
        Command::Reset => {
            st.selected_paths = Vec::new();
            st.file_count = 0;
            st.token_count = 0;
            st.partial_docs = Vec::new();
            st.cached_xml = String::new();
            st.prompt_text = String::new();
            proof {
                assert(st.selected_views() =~= Seq::<Seq<char>>::empty());
                assert(st.docs() =~= Seq::<(Seq<char>, Seq<char>)>::empty());
            }
            Directive::Done
        },
        Command::Help => Directive::ShowHelp,
        Command::Quit => Directive::Quit,
        Command::Mode(opt) => match opt {
            None => Directive::ShowMode,
            Some(m) => {
                if str_eqi(m.as_str(), "manual") {
                    st.mode = ReplMode::Manual;
                    Directive::ModeSwitched
                } else if str_eqi(m.as_str(), "prompt") {
                    st.mode = ReplMode::Prompt;
                    Directive::ModeSwitched
                } else {
                    Directive::UnknownMode
                }
            },
        },
        Command::Prompt => {
            let switched = match st.mode {
                ReplMode::Manual => true,
                ReplMode::Prompt => false,
            };
            st.mode = ReplMode::Prompt;
            st.editor_mode = ReplEditorMode::MultiLine;
            Directive::EnterMultiline(switched)
        },
        Command::ResetPrompt => {
            st.prompt_text = String::new();
            Directive::Done
        },
        Command::AppendPromptText(line) => {
            let mut t = clone_string(&st.prompt_text);
            if t.unicode_len() > 0 {
                t.append("\n");
            }
            t.append(line.as_str());
            proof {
                reveal_strlit("\n");
                assert(t@ =~= appended_prompt(old(st).prompt_text@, line@));
            }
            st.prompt_text = t;
            Directive::Done
        },
        Command::Unknown(_) => Directive::UnknownNotice,
    }
}

/// String clone with its view carried over.
fn clone_string(s: &String) -> (r: String)
    ensures
        r@ == s@,
{
    s.clone()
}

/// True when some element of `v` views as `s`.
fn contains_str(v: &Vec<String>, s: &str) -> (r: bool)
    ensures
        r == string_views(v@).contains(s@),
{
    let mut i: usize = 0;
    loop
        invariant
            i <= v@.len(),
            forall|j: int| 0 <= j < i ==> (#[trigger] string_views(v@)[j]) != s@,
        decreases v@.len() - i,
    {
        if i >= v.len() {
            proof {
                if string_views(v@).contains(s@) {
                    let w = choose|w: int| 0 <= w < v@.len() && string_views(v@)[w] == s@;
                }
            }
            return false;
        }
        if str_eq(v[i].as_str(), s) {
            proof {
                assert(string_views(v@)[i as int] == s@);
            }
            return true;
        }
        i = i + 1;
    }
}

/// The selection after an add: set-theoretic union with the scanned batch.
pub open spec fn selected_after_add(sel: Set<Seq<char>>, scanned: Seq<Seq<char>>) -> Set<
    Seq<char>,
> {
    sel.union(scanned.to_set())
}

/// The paths of a scanned batch that are new to the selection, in scan
/// order, keeping only the first occurrence of a repeated path.
pub open spec fn added_list(sel: Set<Seq<char>>, sc: Seq<Seq<char>>) -> Seq<Seq<char>>
    decreases sc.len(),
{
    if sc.len() == 0 {
        Seq::<Seq<char>>::empty()
    } else if sel.union(sc.drop_last().to_set()).contains(sc.last()) {
        added_list(sel, sc.drop_last())
    } else {
        added_list(sel, sc.drop_last()).push(sc.last())
    }
}

/// Law: adding paths that are all already selected changes nothing — the
/// resulting set is the old set, and not even the selection's order moves.
pub proof fn lemma_readd_is_noop(sel: Set<Seq<char>>, scanned: Seq<Seq<char>>)
    requires
        forall|i: int| 0 <= i < scanned.len() ==> sel.contains(#[trigger] scanned[i]),
    ensures
        selected_after_add(sel, scanned) == sel,
        added_list(sel, scanned) == Seq::<Seq<char>>::empty(),
    decreases scanned.len(),
{
    broadcast use vstd::seq_lib::group_seq_properties;
    assert forall|x: Seq<char>| scanned.to_set().contains(x) implies sel.contains(x) by {
        assert(scanned.contains(x));
        let w = choose|w: int| 0 <= w < scanned.len() && scanned[w] == x;
        assert(sel.contains(scanned[w]));
    }
    assert(selected_after_add(sel, scanned) =~= sel);
    if scanned.len() > 0 {
        assert(sel.contains(scanned.last()));
        assert(sel.union(scanned.drop_last().to_set()).contains(scanned.last()));
        lemma_readd_is_noop(sel, scanned.drop_last());
    }
}

/// Commits the resolved file list of an add command: the selection becomes
/// the union of the old selection and the batch — concretely, the new paths
/// are appended in scan order — the file count follows, and nothing else
/// moves.  Returns how many paths were new.
pub fn apply_add_paths(st: &mut AppState, scanned: &Vec<String>) -> (num_added: usize)
    requires
        old(st).wf(),
        forall|i: int| 0 <= i < scanned@.len()
            ==> (#[trigger] string_views(scanned@)[i]) != virtual_key(),
    ensures
        final(st).wf(),
        final(st).selected_set() == selected_after_add(
            old(st).selected_set(),
            string_views(scanned@),
        ),
        final(st).selected_views() == old(st).selected_views() + added_list(
            old(st).selected_set(),
            string_views(scanned@),
        ),
        final(st).file_count == final(st).selected_paths@.len(),
        num_added == final(st).file_count - old(st).file_count,
        final(st).token_count == old(st).token_count,
        final(st).partial_docs == old(st).partial_docs,
        final(st).cached_xml == old(st).cached_xml,
        final(st).mode == old(st).mode,
        final(st).prompt_text == old(st).prompt_text,
        final(st).editor_mode == old(st).editor_mode,
{
    broadcast use vstd::seq_lib::group_seq_properties;
    let ghost sc = string_views(scanned@);
    let init_count = st.selected_paths.len();
    let mut i: usize = 0;
    proof {
        assert(sc.take(0) =~= Seq::<Seq<char>>::empty());
        assert(st.selected_set() =~= selected_after_add(old(st).selected_set(), sc.take(0)))
            by {
            assert(sc.take(0).to_set() =~= Set::<Seq<char>>::empty());
            assert(selected_after_add(old(st).selected_set(), sc.take(0))
                =~= old(st).selected_set());
        }
        assert(st.selected_views() =~= old(st).selected_views() + added_list(
            old(st).selected_set(),
            sc.take(0),
        ));
    }
    while i < scanned.len()
        invariant
            i <= scanned@.len(),
            sc == string_views(scanned@),
            forall|j: int| 0 <= j < sc.len() ==> (#[trigger] sc[j]) != virtual_key(),
            old(st).wf(),
            st.file_count == st.selected_paths@.len(),
            distinct_seq(st.selected_views()),
            forall|j: int| 0 <= j < st.selected_views().len()
                ==> (#[trigger] st.selected_views()[j]) != virtual_key(),
            init_count <= st.selected_paths@.len(),
            init_count == old(st).selected_paths@.len(),
            st.selected_set() == selected_after_add(old(st).selected_set(), sc.take(i as int)),
            st.selected_views() == old(st).selected_views() + added_list(
                old(st).selected_set(),
                sc.take(i as int),
            ),
            st.token_count == old(st).token_count,
            st.partial_docs == old(st).partial_docs,
            st.cached_xml == old(st).cached_xml,
            st.mode == old(st).mode,
            st.prompt_text == old(st).prompt_text,
            st.editor_mode == old(st).editor_mode,
        decreases scanned@.len() - i,
    {
        let ghost pre = st.selected_views();
        let ghost al = added_list(old(st).selected_set(), sc.take(i as int));
        proof {
            assert(sc.take(i as int + 1) =~= sc.take(i as int).push(sc[i as int]));
            assert(sc.take(i as int + 1).drop_last() =~= sc.take(i as int));
            assert(sc.take(i as int + 1).last() == sc[i as int]);
            vstd::prelude::Seq::lemma_push_to_set_commute(sc.take(i as int), sc[i as int]);
        }
        if !contains_str(&st.selected_paths, scanned[i].as_str()) {
            proof {
                // the current selection is exactly the union the added-list
                // condition tests, so this path really is new
                assert(!st.selected_set().contains(sc[i as int]));
                assert(added_list(old(st).selected_set(), sc.take(i as int + 1)) == al.push(
                    sc[i as int],
                ));
            }
            st.selected_paths.push(clone_string(&scanned[i]));
            st.file_count = st.selected_paths.len();
            proof {
                assert(st.selected_views() =~= pre.push(sc[i as int]));
                vstd::prelude::Seq::lemma_push_to_set_commute(pre, sc[i as int]);
                assert(st.selected_set() =~= selected_after_add(
                    old(st).selected_set(),
                    sc.take(i as int + 1),
                ));
                assert(st.selected_views() =~= old(st).selected_views() + al.push(
                    sc[i as int],
                ));
                let nv = st.selected_views();
                assert forall|a: int, b: int| 0 <= a < b < nv.len() implies nv[a]
                    != nv[b] by {
                    if b == pre.len() {
                        assert(nv[a] == pre[a]);
                        if pre[a] == sc[i as int] {
                            assert(pre.contains(sc[i as int]));
                        }
                    }
                }
                assert forall|a: int| 0 <= a < nv.len() implies (#[trigger] nv[a])
                    != virtual_key() by {
                    if a < pre.len() {
                        assert(nv[a] == pre[a]);
                    } else {
                        assert(nv[a] == sc[i as int]);
                    }
                }
            }
        } else {
            proof {
                assert(st.selected_set().contains(sc[i as int])) by {
                    assert(st.selected_views().contains(sc[i as int]));
                }
                assert(st.selected_set() =~= selected_after_add(
                    old(st).selected_set(),
                    sc.take(i as int + 1),
                ));
                assert(added_list(old(st).selected_set(), sc.take(i as int + 1)) == al);
            }
        }
        i = i + 1;
    }
    st.file_count = st.selected_paths.len();
    proof {
        assert(sc.take(scanned@.len() as int) =~= sc);
        // the cache is untouched and the selection only grew, so every
        // fragment still belongs to a selected path or to the virtual key
        assert forall|j: int| 0 <= j < st.docs().len() implies (#[trigger] st.docs()[j].0)
            == virtual_key() || st.selected_set().contains(st.docs()[j].0) by {
            assert(st.docs()[j] == old(st).docs()[j]);
            if st.docs()[j].0 != virtual_key() {
                assert(old(st).selected_set().contains(old(st).docs()[j].0));
            }
        }
    }
    st.file_count - init_count
}

/// The predicate that keeps a path not slated for removal.
pub open spec fn keep_path(rm: Set<Seq<char>>) -> spec_fn(Seq<char>) -> bool {
    |p: Seq<char>| !rm.contains(p)
}

/// The predicate that keeps a cache entry whose key is not slated for removal.
pub open spec fn keep_doc(rm: Set<Seq<char>>) -> spec_fn((Seq<char>, Seq<char>)) -> bool {
    |p: (Seq<char>, Seq<char>)| !rm.contains(p.0)
}

/// Commits the resolved file list of a remove command: in one commit, the
/// named paths leave both the selection and the cache — no orphaned fragment
/// survives.  Returns how many paths were removed from the selection.
pub fn apply_remove_paths(st: &mut AppState, scanned: &Vec<String>) -> (num_removed: usize)
    requires
        old(st).wf(),
    ensures
        final(st).wf(),
        final(st).selected_views() == old(st).selected_views().filter(
            keep_path(string_views(scanned@).to_set()),
        ),
        final(st).docs() == old(st).docs().filter(keep_doc(string_views(scanned@).to_set())),
        final(st).selected_set() == old(st).selected_set().difference(
            string_views(scanned@).to_set(),
        ),
        final(st).file_count == final(st).selected_paths@.len(),
        num_removed == old(st).file_count - final(st).file_count,
        final(st).token_count == old(st).token_count,
        final(st).cached_xml == old(st).cached_xml,
        final(st).mode == old(st).mode,
        final(st).prompt_text == old(st).prompt_text,
        final(st).editor_mode == old(st).editor_mode,
{
    broadcast use vstd::seq_lib::group_seq_properties;
    let ghost rm = string_views(scanned@).to_set();
    let init_count = st.selected_paths.len();

    // retain the selection entries that are not being removed
    let mut kept: Vec<String> = Vec::new();
    let mut i: usize = 0;
    proof {
        let pv = st.selected_views();
        assert(pv.take(0).filter(keep_path(rm)) =~= Seq::<Seq<char>>::empty()) by {
            reveal(Seq::filter);
            assert(pv.take(0) =~= Seq::<Seq<char>>::empty());
        }
        assert(string_views(kept@) =~= Seq::<Seq<char>>::empty());
    }
    while i < st.selected_paths.len()
        invariant
            i <= st.selected_paths@.len(),
            rm == string_views(scanned@).to_set(),
            string_views(kept@) == st.selected_views().take(i as int).filter(keep_path(rm)),
            *st == *old(st),
        decreases st.selected_paths@.len() - i,
    {
        let ghost pv = st.selected_views();
        proof {
            assert(pv.take(i as int + 1) =~= pv.take(i as int).push(pv[i as int]));
            pv.take(i as int).lemma_filter_push(pv[i as int], keep_path(rm));
        }
        if !contains_str(scanned, st.selected_paths[i].as_str()) {
            kept.push(clone_string(&st.selected_paths[i]));
            proof {
                assert(!string_views(scanned@).contains(pv[i as int]));
                assert(!rm.contains(pv[i as int]));
                assert(string_views(kept@) =~= pv.take(i as int).filter(keep_path(rm)).push(
                    pv[i as int],
                ));
            }
        } else {
            proof {
                assert(rm.contains(pv[i as int]));
            }
        }
        i = i + 1;
    }
    proof {
        let pv = st.selected_views();
        assert(pv.take(pv.len() as int) =~= pv);
    }

    // retain the cache entries whose keys are not being removed
    let mut kept_docs: Vec<crate::xml::Snippet> = Vec::new();
    let mut k: usize = 0;
    proof {
        let dv = st.docs();
        assert(dv.take(0).filter(keep_doc(rm)) =~= Seq::<(Seq<char>, Seq<char>)>::empty())
            by {
            reveal(Seq::filter);
            assert(dv.take(0) =~= Seq::<(Seq<char>, Seq<char>)>::empty());
        }
        assert(crate::xml::views_of(kept_docs@) =~= Seq::<(Seq<char>, Seq<char>)>::empty());
    }
    while k < st.partial_docs.len()
        invariant
            k <= st.partial_docs@.len(),
            rm == string_views(scanned@).to_set(),
            crate::xml::views_of(kept_docs@) == st.docs().take(k as int).filter(keep_doc(rm)),
            *st == *old(st),
        decreases st.partial_docs@.len() - k,
    {
        let ghost dv = st.docs();
        proof {
            assert(dv.take(k as int + 1) =~= dv.take(k as int).push(dv[k as int]));
            dv.take(k as int).lemma_filter_push(dv[k as int], keep_doc(rm));
        }
        if !contains_str(scanned, st.partial_docs[k].path.as_str()) {
            kept_docs.push(st.partial_docs[k].duplicate());
            proof {
                assert(!rm.contains(dv[k as int].0));
                assert(crate::xml::views_of(kept_docs@) =~= dv.take(k as int).filter(
                    keep_doc(rm),
                ).push(dv[k as int]));
            }
        } else {
            proof {
                assert(rm.contains(dv[k as int].0));
            }
        }
        k = k + 1;
    }
    proof {
        let dv = st.docs();
        assert(dv.take(dv.len() as int) =~= dv);
    }

    st.selected_paths = kept;
    st.partial_docs = kept_docs;
    st.file_count = st.selected_paths.len();
    proof {
        lemma_filter_keeps_wf(old(st).selected_views(), old(st).docs(), rm);
        lemma_retained_to_set(old(st).selected_views(), rm);
        // a surviving fragment's key was kept out of the removal set, so it
        // is the virtual key or still sits in the filtered selection
        let fd = old(st).docs().filter(keep_doc(rm));
        assert forall|j: int| 0 <= j < fd.len() implies (#[trigger] fd[j].0) == virtual_key()
            || st.selected_set().contains(fd[j].0) by {
            old(st).docs().lemma_filter_pred(keep_doc(rm), j);
            assert(!rm.contains(fd[j].0));
            assert(fd.contains(fd[j]));
            old(st).docs().lemma_filter_contains_rev(keep_doc(rm), fd[j]);
            let w = choose|w: int| 0 <= w < old(st).docs().len() && old(st).docs()[w] == fd[j];
            if fd[j].0 != virtual_key() {
                assert(old(st).selected_set().contains(old(st).docs()[w].0));
                assert(st.selected_set() == old(st).selected_set().difference(rm));
            }
        }
    }
    init_count - st.selected_paths.len()
}

/// Filtering preserves any pairwise relation among the elements.
proof fn lemma_filter_pairwise<A>(s: Seq<A>, p: spec_fn(A) -> bool, r: spec_fn(A, A) -> bool)
    requires
        forall|i: int, j: int| 0 <= i < j < s.len() ==> r(#[trigger] s[i], #[trigger] s[j]),
    ensures
        forall|i: int, j: int| 0 <= i < j < s.filter(p).len()
            ==> r(#[trigger] s.filter(p)[i], #[trigger] s.filter(p)[j]),
    decreases s.len(),
{
    broadcast use vstd::seq_lib::group_seq_properties;
    reveal(Seq::filter);
    if s.len() > 0 {
        let prior = s.drop_last();
        let last = s.last();
        lemma_filter_pairwise(prior, p, r);
        let f = s.filter(p);
        let pf = prior.filter(p);
        assert forall|i: int, j: int| 0 <= i < j < f.len() implies r(
            #[trigger] f[i],
            #[trigger] f[j],
        ) by {
            if j < pf.len() {
                assert(f[i] == pf[i] && f[j] == pf[j]);
            } else {
                assert(p(last) && f[j] == last && f[i] == pf[i]);
                assert(pf.contains(pf[i]));
                prior.lemma_filter_contains_rev(p, pf[i]);
                let w = choose|w: int| 0 <= w < prior.len() && prior[w] == pf[i];
                assert(r(s[w], s[s.len() - 1]));
            }
        }
    }
}

/// Filtering preserves any property of single elements.
proof fn lemma_filter_elementwise<A>(s: Seq<A>, p: spec_fn(A) -> bool, q: spec_fn(A) -> bool)
    requires
        forall|i: int| 0 <= i < s.len() ==> q(#[trigger] s[i]),
    ensures
        forall|i: int| 0 <= i < s.filter(p).len() ==> q(#[trigger] s.filter(p)[i]),
{
    broadcast use vstd::seq_lib::group_seq_properties;
    broadcast use vstd::seq_lib::group_filter_ensures;
    let f = s.filter(p);
    assert forall|i: int| 0 <= i < f.len() implies q(#[trigger] f[i]) by {
        assert(f.contains(f[i]));
        s.lemma_filter_contains_rev(p, f[i]);
        let w = choose|w: int| 0 <= w < s.len() && s[w] == f[i];
        assert(q(s[w]));
    }
}

/// Filtering preserves distinctness, key uniqueness and fragment shape.
proof fn lemma_filter_keeps_wf(
    sel: Seq<Seq<char>>,
    docs: Seq<(Seq<char>, Seq<char>)>,
    rm: Set<Seq<char>>,
)
    requires
        distinct_seq(sel),
        crate::xml::unique_keys(docs),
        forall|i: int| 0 <= i < docs.len() ==> crate::xml::fragment_wf(#[trigger] docs[i].1),
        forall|i: int| 0 <= i < sel.len() ==> (#[trigger] sel[i]) != virtual_key(),
    ensures
        distinct_seq(sel.filter(keep_path(rm))),
        crate::xml::unique_keys(docs.filter(keep_doc(rm))),
        forall|i: int| 0 <= i < docs.filter(keep_doc(rm)).len()
            ==> crate::xml::fragment_wf(#[trigger] docs.filter(keep_doc(rm))[i].1),
        forall|i: int| 0 <= i < sel.filter(keep_path(rm)).len()
            ==> (#[trigger] sel.filter(keep_path(rm))[i]) != virtual_key(),
        sel.filter(keep_path(rm)).len() <= sel.len(),
{
    broadcast use vstd::seq_lib::group_filter_ensures;
    lemma_filter_pairwise(sel, keep_path(rm), |a: Seq<char>, b: Seq<char>| a != b);
    lemma_filter_pairwise(
        docs,
        keep_doc(rm),
        |a: (Seq<char>, Seq<char>), b: (Seq<char>, Seq<char>)| a.0 != b.0,
    );
    lemma_filter_elementwise(
        docs,
        keep_doc(rm),
        |a: (Seq<char>, Seq<char>)| crate::xml::fragment_wf(a.1),
    );
    lemma_filter_elementwise(sel, keep_path(rm), |a: Seq<char>| a != virtual_key());
}

/// Removing by filter computes a set difference on the selection.
proof fn lemma_retained_to_set(v: Seq<Seq<char>>, rm: Set<Seq<char>>)
    ensures
        v.filter(keep_path(rm)).to_set() == v.to_set().difference(rm),
{
    broadcast use vstd::seq_lib::group_seq_properties;
    broadcast use vstd::seq_lib::group_filter_ensures;
    let f = v.filter(keep_path(rm));
    assert forall|x: Seq<char>| f.to_set().contains(x) implies v.to_set().contains(x)
        && !rm.contains(x) by {
        assert(f.contains(x));
        let w = choose|w: int| 0 <= w < f.len() && f[w] == x;
        assert(keep_path(rm)(f[w]));
        v.lemma_filter_contains_rev(keep_path(rm), x);
    }
    assert forall|x: Seq<char>| v.to_set().contains(x) && !rm.contains(x)
        implies f.to_set().contains(x) by {
        assert(v.contains(x));
        let w = choose|w: int| 0 <= w < v.len() && v[w] == x;
        v.lemma_filter_contains(keep_path(rm), w);
        assert(f.contains(x));
    }
    assert(f.to_set() =~= v.to_set().difference(rm));
}

/// Prepares the text handed to the clipboard after a refresh: the merged
/// document, with the pending instruction spliced in (and written back to
/// the cached document) when one exists.
pub fn prepare_copy_text(st: &mut AppState) -> (r: String)
    requires
        old(st).wf(),
    ensures
        final(st).wf(),
        old(st).prompt_text@.len() == 0 ==> r@ == old(st).cached_xml@ && *final(st)
            == *old(st),
        old(st).prompt_text@.len() > 0 ==> r@ == with_instruction(
            old(st).cached_xml@,
            old(st).prompt_text@,
        ) && final(st).cached_xml@ == r@ && same_but_cached_xml(*old(st), *final(st)),
{
    if st.prompt_text.unicode_len() == 0 {
        return clone_string(&st.cached_xml);
    }
    let out = append_instruction(st.cached_xml.as_str(), st.prompt_text.as_str());
    st.cached_xml = clone_string(&out);
    out
}

/// All fields except the cached document agree.
pub open spec fn same_but_cached_xml(a: AppState, b: AppState) -> bool {
    &&& b.selected_paths == a.selected_paths
    &&& b.file_count == a.file_count
    &&& b.token_count == a.token_count
    &&& b.partial_docs == a.partial_docs
    &&& b.mode == a.mode
    &&& b.prompt_text == a.prompt_text
    &&& b.editor_mode == a.editor_mode
}

} // verus!
