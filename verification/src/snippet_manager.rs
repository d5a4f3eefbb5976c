//! Cache mutation and the rebuild discipline.
//!
//! Adding files is a pure insert/overwrite of fragments that keep the
//! placeholder index; the virtual tree entry is refreshed under its sentinel
//! key; a rebuild merges the cache and recomputes the token count in the
//! same commit, so the two can never go stale relative to each other.

use vstd::prelude::*;
use crate::error::AppError;
use crate::state::AppState;
use crate::strutil::{spec_digits, str_eq};
use crate::tokenizer::{calculate_tokens_in_string, token_count_of};
use crate::xml::{
    Snippet, views_of, unique_keys, fragment_wf, fragment_of, virtual_key, merge_spec,
    generate_single_file_snippet, merge_all_snippets, lemma_fragment_of_wf,
    project_tree_virtual_path,
};

verus! {

/// One file handed to the cache: its path and its (possibly empty) content.
/// An unreadable file degrades to empty content before it gets here.
pub struct FileData {
    pub path: String,
    pub content: String,
}

impl View for FileData {
    type V = (Seq<char>, Seq<char>);

    open spec fn view(&self) -> (Seq<char>, Seq<char>) {
        (self.path@, self.content@)
    }
}

/// The views of a batch of files.
pub open spec fn file_views(files: Seq<FileData>) -> Seq<(Seq<char>, Seq<char>)> {
    files.map_values(|f: FileData| f@)
}

/// Insert-or-overwrite of one cache entry: an existing entry under the key
/// is dropped, and the new entry is appended.
pub open spec fn upsert(
    d: Seq<(Seq<char>, Seq<char>)>,
    k: Seq<char>,
    v: Seq<char>,
) -> Seq<(Seq<char>, Seq<char>)> {
    if exists|i: int| 0 <= i < d.len() && d[i].0 == k {
        d.remove(choose|i: int| 0 <= i < d.len() && d[i].0 == k).push((k, v))
    } else {
        d.push((k, v))
    }
}

/// [`upsert`] keeps keys unique and fragments well-formed.
pub proof fn lemma_upsert_wf(d: Seq<(Seq<char>, Seq<char>)>, k: Seq<char>, v: Seq<char>)
    requires
        unique_keys(d),
        forall|i: int| 0 <= i < d.len() ==> fragment_wf(#[trigger] d[i].1),
        fragment_wf(v),
    ensures
        unique_keys(upsert(d, k, v)),
        forall|i: int| 0 <= i < upsert(d, k, v).len()
            ==> fragment_wf(#[trigger] upsert(d, k, v)[i].1),
        forall|i: int| 0 <= i < upsert(d, k, v).len() ==> (#[trigger] upsert(d, k, v)[i].0)
            == k || exists|j: int| 0 <= j < d.len() && d[j] == upsert(d, k, v)[i],
        upsert(d, k, v).len() <= d.len() + 1,
{
    let u = upsert(d, k, v);
    if exists|i: int| 0 <= i < d.len() && d[i].0 == k {
        let w = choose|i: int| 0 <= i < d.len() && d[i].0 == k;
        let r = d.remove(w);
        assert(forall|i: int| 0 <= i < r.len() ==> r[i] == (if i < w {
            d[i]
        } else {
            d[i + 1]
        }));
        assert(forall|i: int| 0 <= i < r.len() ==> (#[trigger] r[i]).0 != k);
        assert(u == r.push((k, v)));
        assert forall|i: int, j: int| 0 <= i < j < u.len() implies (#[trigger] u[i]).0
            != (#[trigger] u[j]).0 by {
            if j < u.len() - 1 {
                assert(u[i] == r[i] && u[j] == r[j]);
            } else {
                assert(u[j].0 == k && u[i] == r[i]);
            }
        }
    } else {
        assert forall|i: int, j: int| 0 <= i < j < u.len() implies (#[trigger] u[i]).0
            != (#[trigger] u[j]).0 by {
            if j < u.len() - 1 {
                assert(u[i] == d[i] && u[j] == d[j]);
            } else {
                assert(u[j].0 == k && u[i] == d[i]);
                assert(!(exists|w: int| 0 <= w < d.len() && d[w].0 == k));
            }
        }
    }
}

/// Finds the cache entry under `path`, if any.
fn find_key(docs: &Vec<Snippet>, path: &str) -> (r: Option<usize>)
    ensures
        match r {
            Some(i) => i < docs@.len() && views_of(docs@)[i as int].0 == path@,
            None => forall|j: int| 0 <= j < docs@.len()
                ==> (#[trigger] views_of(docs@)[j]).0 != path@,
        },
{
    let mut i: usize = 0;
    loop
        invariant
            i <= docs@.len(),
            forall|j: int| 0 <= j < i ==> (#[trigger] views_of(docs@)[j]).0 != path@,
        decreases docs@.len() - i,
    {
        if i >= docs.len() {
            return None;
        }
        if str_eq(docs[i].path.as_str(), path) {
            return Some(i);
        }
        i = i + 1;
    }
}

/// Inserts or overwrites one fragment under `path`.
fn upsert_snippet(docs: &mut Vec<Snippet>, path: &str, frag: String)
    requires
        unique_keys(views_of(old(docs)@)),
    ensures
        views_of(final(docs)@) == upsert(views_of(old(docs)@), path@, frag@),
{
    let ghost d = views_of(docs@);
    match find_key(docs, path) {
        Some(i) => {
            proof {
                assert(d[i as int].0 == path@);
                let w = choose|w: int| 0 <= w < d.len() && d[w].0 == path@;
                assert(w == i as int);
            }
            docs.remove(i);
            docs.push(Snippet { path: String::from_str(path), text: frag });
            proof {
                assert(views_of(docs@) =~= d.remove(i as int).push((path@, frag@)));
            }
        },
        None => {
            docs.push(Snippet { path: String::from_str(path), text: frag });
            proof {
                assert(!(exists|w: int| 0 <= w < d.len() && d[w].0 == path@));
                assert(views_of(docs@) =~= d.push((path@, frag@)));
            }
        },
    }
}

/// The cache after a batch of files is rendered and inserted in order.
pub open spec fn docs_after_add(
    d: Seq<(Seq<char>, Seq<char>)>,
    files: Seq<(Seq<char>, Seq<char>)>,
) -> Seq<(Seq<char>, Seq<char>)>
    decreases files.len(),
{
    if files.len() == 0 {
        d
    } else {
        docs_after_add(
            upsert(d, files[0].0, fragment_of(spec_digits(0), files[0].0, files[0].1)),
            files.drop_first(),
        )
    }
}

proof fn lemma_docs_after_add_snoc(
    d: Seq<(Seq<char>, Seq<char>)>,
    files: Seq<(Seq<char>, Seq<char>)>,
    i: int,
)
    requires
        0 <= i < files.len(),
    ensures
        docs_after_add(d, files.take(i + 1)) == upsert(
            docs_after_add(d, files.take(i)),
            files[i].0,
            fragment_of(spec_digits(0), files[i].0, files[i].1),
        ),
    decreases i,
{
    let u0 = upsert(d, files[0].0, fragment_of(spec_digits(0), files[0].0, files[0].1));
    if i == 0 {
        let t1 = files.take(1);
        assert(t1[0] == files[0]);
        assert(t1.drop_first() =~= Seq::<(Seq<char>, Seq<char>)>::empty());
        assert(files.take(0) =~= Seq::<(Seq<char>, Seq<char>)>::empty());
        assert(docs_after_add(u0, t1.drop_first()) == u0);
        assert(docs_after_add(d, files.take(0)) == d);
        assert(docs_after_add(d, t1) == u0);
    } else {
        let t = files.drop_first();
        lemma_docs_after_add_snoc(u0, t, i - 1);
        assert(files.take(i + 1)[0] == files[0]);
        assert(files.take(i)[0] == files[0]);
        assert(files.take(i + 1).drop_first() =~= t.take(i));
        assert(files.take(i).drop_first() =~= t.take(i - 1));
        assert(t[i - 1] == files[i]);
        assert(docs_after_add(d, files.take(i + 1)) == docs_after_add(u0, t.take(i)));
        assert(docs_after_add(d, files.take(i)) == docs_after_add(u0, t.take(i - 1)));
    }
}

/// Groups the cache operations: incremental add, tree refresh, rebuild.
pub struct SnippetManager;

impl SnippetManager {
    /// Renders a fragment for each file and inserts it, overwriting any
    /// earlier fragment for the same path.  A pure insert: no renumbering.
    /// Only selected paths get a fragment, so the cache never holds an
    /// orphaned entry.
    pub fn add_files_snippet(st: &mut AppState, files: &Vec<FileData>)
        requires
            old(st).wf(),
            forall|i: int| 0 <= i < files@.len() ==> old(st).selected_set().contains(
                (#[trigger] file_views(files@)[i]).0,
            ),
        ensures
            final(st).wf(),
            final(st).docs() == docs_after_add(old(st).docs(), file_views(files@)),
            final(st).selected_paths == old(st).selected_paths,
            final(st).file_count == old(st).file_count,
            final(st).token_count == old(st).token_count,
            final(st).cached_xml == old(st).cached_xml,
            final(st).mode == old(st).mode,
            final(st).prompt_text == old(st).prompt_text,
            final(st).editor_mode == old(st).editor_mode,
    {
        let ghost d0 = st.docs();
        let ghost fv = file_views(files@);
        let mut i: usize = 0;
        proof {
            assert(fv.take(0) =~= Seq::<(Seq<char>, Seq<char>)>::empty());
        }
        while i < files.len()
            invariant
                i <= files@.len(),
                fv == file_views(files@),
                forall|j: int| 0 <= j < fv.len() ==> old(st).selected_set().contains(
                    (#[trigger] fv[j]).0,
                ),
                st.docs() == docs_after_add(d0, fv.take(i as int)),
                unique_keys(st.docs()),
                forall|j: int| 0 <= j < st.docs().len()
                    ==> fragment_wf(#[trigger] st.docs()[j].1),
                forall|j: int| 0 <= j < st.docs().len() ==> (#[trigger] st.docs()[j].0)
                    == virtual_key() || st.selected_set().contains(st.docs()[j].0),
                st.selected_paths == old(st).selected_paths,
                st.file_count == old(st).file_count,
                st.token_count == old(st).token_count,
                st.cached_xml == old(st).cached_xml,
                st.mode == old(st).mode,
                st.prompt_text == old(st).prompt_text,
                st.editor_mode == old(st).editor_mode,
                old(st).wf(),
            decreases files@.len() - i,
        {
            let f = &files[i];
            let ghost pre = st.docs();
            let frag = generate_single_file_snippet(f.path.as_str(), f.content.as_str(), 0);
            proof {
                lemma_fragment_of_wf(f.path@, f.content@);
                lemma_upsert_wf(st.docs(), f.path@, frag@);
            }
            upsert_snippet(&mut st.partial_docs, f.path.as_str(), frag);
            proof {
                lemma_docs_after_add_snoc(d0, fv, i as int);
                assert(fv[i as int] == (f.path@, f.content@));
                // the inserted key is a selected path; every other entry
                // carries over from before the insert
                assert forall|j: int| 0 <= j < st.docs().len() implies
                    (#[trigger] st.docs()[j].0) == virtual_key()
                    || st.selected_set().contains(st.docs()[j].0) by {
                    if st.docs()[j].0 != f.path@ {
                        let w = choose|w: int| 0 <= w < pre.len() && pre[w] == st.docs()[j];
                    } else {
                        assert(st.selected_set().contains(fv[i as int].0));
                    }
                }
            }
            i = i + 1;
        }
        proof {
            assert(fv.take(files@.len() as int) =~= fv);
        }
    }

    /// Re-renders the virtual tree entry from the given tree text and stores
    /// it under the sentinel key.
    pub fn update_project_tree_snippet(st: &mut AppState, tree_text: &str)
        requires
            old(st).wf(),
        ensures
            final(st).wf(),
            final(st).docs() == upsert(
                old(st).docs(),
                virtual_key(),
                fragment_of(spec_digits(0), virtual_key(), tree_text@),
            ),
            final(st).selected_paths == old(st).selected_paths,
            final(st).file_count == old(st).file_count,
            final(st).token_count == old(st).token_count,
            final(st).cached_xml == old(st).cached_xml,
            final(st).mode == old(st).mode,
            final(st).prompt_text == old(st).prompt_text,
            final(st).editor_mode == old(st).editor_mode,
    {
        let vp = project_tree_virtual_path();
        let ghost pre = st.docs();
        let frag = generate_single_file_snippet(vp, tree_text, 0);
        proof {
            lemma_fragment_of_wf(virtual_key(), tree_text@);
            lemma_upsert_wf(st.docs(), virtual_key(), frag@);
        }
        upsert_snippet(&mut st.partial_docs, vp, frag);
        proof {
            assert forall|j: int| 0 <= j < st.docs().len() implies (#[trigger] st.docs()[j].0)
                == virtual_key() || st.selected_set().contains(st.docs()[j].0) by {
                if st.docs()[j].0 != virtual_key() {
                    let w = choose|w: int| 0 <= w < pre.len() && pre[w] == st.docs()[j];
                }
            }
        }
    }

    /// Merges the cache and recomputes the token count, committing both
    /// together.  Success is owed — the tokenizer is embedded — and were a
    /// failure ever surfaced, nothing at all would be committed.
    pub fn rebuild_and_recalc(st: &mut AppState) -> (r: Result<(), AppError>)
        requires
            old(st).wf(),
            old(st).docs().len() + 2 <= usize::MAX,
        ensures
            final(st).wf(),
            r is Ok,
            r matches Ok(u) ==> {
                &&& final(st).cached_xml@ == merge_spec(old(st).docs())
                &&& final(st).token_count as nat == token_count_of(final(st).cached_xml@)
            },
            r matches Err(e) ==> e == AppError::TokenizerUnavailable && *final(st) == *old(st),
            final(st).selected_paths == old(st).selected_paths,
            final(st).file_count == old(st).file_count,
            final(st).partial_docs == old(st).partial_docs,
            final(st).mode == old(st).mode,
            final(st).prompt_text == old(st).prompt_text,
            final(st).editor_mode == old(st).editor_mode,
    {
        let merged = merge_all_snippets(&st.partial_docs);
        match calculate_tokens_in_string(merged.as_str()) {
            Ok(n) => {
                st.cached_xml = merged;
                st.token_count = n;
                Ok(())
            },
            Err(e) => Err(e),
        }
    }

    /// Full refresh: drop every fragment, re-render all given files, refresh
    /// the tree entry, then merge and recount.
    pub fn full_refresh(st: &mut AppState, files: &Vec<FileData>, tree_text: &str) -> (r: Result<
        (),
        AppError,
    >)
        requires
            old(st).wf(),
            files@.len() + 3 <= usize::MAX,
            forall|i: int| 0 <= i < files@.len() ==> old(st).selected_set().contains(
                (#[trigger] file_views(files@)[i]).0,
            ),
        ensures
            final(st).wf(),
            r is Ok,
            final(st).docs() == upsert(
                docs_after_add(Seq::<(Seq<char>, Seq<char>)>::empty(), file_views(files@)),
                virtual_key(),
                fragment_of(spec_digits(0), virtual_key(), tree_text@),
            ),
            r matches Ok(u) ==> {
                &&& final(st).cached_xml@ == merge_spec(final(st).docs())
                &&& final(st).token_count as nat == token_count_of(final(st).cached_xml@)
            },
            r matches Err(e) ==> {
                &&& e == AppError::TokenizerUnavailable
                &&& final(st).cached_xml == old(st).cached_xml
                &&& final(st).token_count == old(st).token_count
            },
            final(st).selected_paths == old(st).selected_paths,
            final(st).file_count == old(st).file_count,
            final(st).mode == old(st).mode,
            final(st).prompt_text == old(st).prompt_text,
            final(st).editor_mode == old(st).editor_mode,
    {
        st.partial_docs.clear();
        proof {
            assert(st.docs() =~= Seq::<(Seq<char>, Seq<char>)>::empty());
            lemma_docs_after_add_len(
                Seq::<(Seq<char>, Seq<char>)>::empty(),
                file_views(files@),
            );
        }
        Self::add_files_snippet(st, files);
        Self::update_project_tree_snippet(st, tree_text);
        Self::rebuild_and_recalc(st)
    }
}

/// Adding a batch grows the cache by at most one entry per file.
pub proof fn lemma_docs_after_add_len(
    d: Seq<(Seq<char>, Seq<char>)>,
    files: Seq<(Seq<char>, Seq<char>)>,
)
    ensures
        docs_after_add(d, files).len() <= d.len() + files.len(),
    decreases files.len(),
{
    if files.len() > 0 {
        let d1 = upsert(d, files[0].0, fragment_of(spec_digits(0), files[0].0, files[0].1));
        assert(d1.len() <= d.len() + 1);
        lemma_docs_after_add_len(d1, files.drop_first());
    }
}

} // verus!
