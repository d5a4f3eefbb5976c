//! Shared session state: the selected path set, the snippet cache, the
//! merged document with its token count, and the mode flags.

use vstd::prelude::*;
use crate::xml::{Snippet, views_of, unique_keys, fragment_wf, virtual_key};

verus! {

/// Behavioural mode: file selection versus instruction composition.
#[derive(Clone, Copy, Debug, PartialEq, Eq, Structural)]
pub enum ReplMode {
    Manual,
    Prompt,
}

/// Whether input is read line by line or as an open multi-line capture.
#[derive(Clone, Copy, Debug, PartialEq, Eq, Structural)]
pub enum ReplEditorMode {
    SingleLine,
    MultiLine,
}

/// The views of a sequence of owned strings.
pub open spec fn string_views(v: Seq<String>) -> Seq<Seq<char>> {
    v.map_values(|p: String| p@)
}

/// No two elements are equal.
pub open spec fn distinct_seq(s: Seq<Seq<char>>) -> bool {
    forall|i: int, j: int| 0 <= i < j < s.len() ==> s[i] != s[j]
}

/// The whole session state behind the command router.
pub struct AppState {
    /// Selected real file paths; a set, its order carries no meaning.
    pub selected_paths: Vec<String>,
    /// Number of selected files; always `selected_paths.len()`.
    pub file_count: usize,
    /// Token count of the most recently merged document.
    pub token_count: usize,
    /// Per-path rendered fragments, including the virtual tree entry.
    pub partial_docs: Vec<Snippet>,
    /// The most recently merged full document.
    pub cached_xml: String,
    /// Current behavioural mode.
    pub mode: ReplMode,
    /// Accumulated instruction text.
    pub prompt_text: String,
    /// Current editor mode.
    pub editor_mode: ReplEditorMode,
}

impl AppState {
    /// The selected paths as a sequence of character sequences.
    pub open spec fn selected_views(self) -> Seq<Seq<char>> {
        string_views(self.selected_paths@)
    }

    /// The selected paths as a set.
    pub open spec fn selected_set(self) -> Set<Seq<char>> {
        self.selected_views().to_set()
    }

    /// The cache's contents as key/fragment pairs.
    pub open spec fn docs(self) -> Seq<(Seq<char>, Seq<char>)> {
        views_of(self.partial_docs@)
    }

    /// Structural invariant: counts agree, no duplicate paths, cache keys
    /// are unique, every cached fragment still carries the placeholder
    /// index, the virtual key never names a selected file, and every cache
    /// entry belongs to a selected path or to the virtual tree — a fragment
    /// for an unselected path never survives.
    pub open spec fn wf(self) -> bool {
        &&& self.file_count == self.selected_paths@.len()
        &&& distinct_seq(self.selected_views())
        &&& unique_keys(self.docs())
        &&& forall|i: int| 0 <= i < self.docs().len()
            ==> fragment_wf(#[trigger] self.docs()[i].1)
        &&& forall|i: int| 0 <= i < self.selected_views().len()
            ==> (#[trigger] self.selected_views()[i]) != virtual_key()
        &&& forall|i: int| 0 <= i < self.docs().len()
            ==> (#[trigger] self.docs()[i].0) == virtual_key() || self.selected_set().contains(
                self.docs()[i].0,
            )
    }

    /// A fresh session: everything empty, manual mode, single-line input.
    pub fn new() -> (s: Self)
        ensures
            s.wf(),
            s.selected_paths@ =~= Seq::<String>::empty(),
            s.file_count == 0,
            s.token_count == 0,
            s.partial_docs@ =~= Seq::<Snippet>::empty(),
            s.cached_xml@ =~= Seq::<char>::empty(),
            s.mode == ReplMode::Manual,
            s.prompt_text@ =~= Seq::<char>::empty(),
            s.editor_mode == ReplEditorMode::SingleLine,
    {
        let s = AppState {
            selected_paths: Vec::new(),
            file_count: 0,
            token_count: 0,
            partial_docs: Vec::new(),
            cached_xml: String::new(),
            mode: ReplMode::Manual,
            prompt_text: String::new(),
            editor_mode: ReplEditorMode::SingleLine,
        };
        proof {
            assert(s.selected_views() =~= Seq::<Seq<char>>::empty());
            assert(s.docs() =~= Seq::<(Seq<char>, Seq<char>)>::empty());
        }
        s
    }
}

} // verus!
