//! Rendered document fragments and the merge engine.
//!
//! Every cache entry holds one fragment: the file's content wrapped in a
//! `document` element whose `index` attribute starts out as the placeholder
//! `0`.  Merging renumbers the fragments — the virtual tree entry gets index
//! 1, real files get 2..N in ascending path order — and concatenates them
//! inside one `documents` root element.  The merged text is a pure function
//! of the cache's contents, independent of insertion order.

use vstd::prelude::*;
use vstd::multiset::Multiset;
use crate::strutil::{
    lex_lt, lex_le, spec_digits, str_lt, str_eq, usize_to_string,
    lemma_lex_lt_connected, lemma_lex_lt_irreflexive, lemma_lex_lt_transitive,
    lemma_lex_lt_asymmetric,
};

verus! {

/// The reserved cache key of the virtual project-tree entry.
pub open spec fn virtual_key() -> Seq<char> {
    "__PROJECT_TREE__"@
}

/// The reserved sentinel path under which the rendered project tree is cached.
pub fn project_tree_virtual_path() -> (r: &'static str)
    ensures
        r@ == virtual_key(),
{
    "__PROJECT_TREE__"
}

/// One cache entry: a path (or the virtual key) and its rendered fragment.
pub struct Snippet {
    pub path: String,
    pub text: String,
}

impl View for Snippet {
    type V = (Seq<char>, Seq<char>);

    open spec fn view(&self) -> (Seq<char>, Seq<char>) {
        (self.path@, self.text@)
    }
}

impl Snippet {
    /// A deep copy whose view equals this entry's view.
    pub fn duplicate(&self) -> (r: Snippet)
        ensures
            r@ == self@,
    {
        Snippet { path: self.path.clone(), text: self.text.clone() }
    }
}

/// The views of a sequence of cache entries.
pub open spec fn views_of(docs: Seq<Snippet>) -> Seq<(Seq<char>, Seq<char>)> {
    docs.map_values(|s: Snippet| s@)
}

/// The opening text of a fragment, up to the index attribute's value.
pub open spec fn doc_open_prefix() -> Seq<char> {
    "<document index=\""@
}

/// `c` with a newline appended unless it is empty or already ends in one.
pub open spec fn newline_terminated(c: Seq<char>) -> Seq<char> {
    if c.len() == 0 {
        c
    } else if c.last() == '\n' {
        c
    } else {
        c.push('\n')
    }
}

/// The full fragment text for a path and its content under a given index.
pub open spec fn fragment_of(idx: Seq<char>, path: Seq<char>, content: Seq<char>) -> Seq<char> {
    doc_open_prefix() + idx + "\">\n<source>"@ + path + "</source>\n<document_content>\n"@
        + newline_terminated(content) + "</document_content>\n</document>"@
}

/// A cached fragment: it still carries the placeholder index `0`.
pub open spec fn fragment_wf(f: Seq<char>) -> bool {
    &&& f.len() > doc_open_prefix().len()
    &&& f.take(doc_open_prefix().len() as int) == doc_open_prefix()
    &&& f[doc_open_prefix().len() as int] == '0'
}

/// `f` with the placeholder index value replaced by `idx`.
pub open spec fn renumbered(f: Seq<char>, idx: Seq<char>) -> Seq<char> {
    doc_open_prefix() + idx + f.skip(doc_open_prefix().len() as int + 1)
}

/// Fragments fresh from [`generate_single_file_snippet`] carry the placeholder.
pub proof fn lemma_fragment_of_wf(path: Seq<char>, content: Seq<char>)
    ensures
        fragment_wf(fragment_of(spec_digits(0), path, content)),
{
    let f = fragment_of(spec_digits(0), path, content);
    let p = doc_open_prefix();
    assert(f.take(p.len() as int) =~= p);
    assert(f[p.len() as int] == spec_digits(0)[0]);
}

/// Renders one file (or the virtual tree) as a self-contained fragment.
pub fn generate_single_file_snippet(path: &str, content: &str, index: usize) -> (r: String)
    ensures
        r@ == fragment_of(spec_digits(index as int), path@, content@),
{
    let mut s = String::from_str("<document index=\"");
    let idx = usize_to_string(index);
    s.append(idx.as_str());
    s.append("\">\n<source>");
    s.append(path);
    s.append("</source>\n<document_content>\n");
    let clen = content.unicode_len();
    if clen > 0 {
        s.append(content);
        let last = content.get_char(clen - 1);
        if last != '\n' {
            s.append("\n");
        }
    }
    s.append("</document_content>\n</document>");
    proof {
        reveal_strlit("\n");
        if content@.len() > 0 && content@.last() != '\n' {
            assert(content@ + "\n"@ =~= newline_terminated(content@));
        }
        assert(s@ =~= fragment_of(spec_digits(index as int), path@, content@));
    }
    s
}

/// Rewrites the fragment's embedded index attribute value in place.
pub fn set_fragment_index(f: &str, index: usize) -> (r: String)
    requires
        fragment_wf(f@),
    ensures
        r@ == renumbered(f@, spec_digits(index as int)),
{
    let mut s = String::from_str("<document index=\"");
    proof {
        reveal_strlit("<document index=\"");
        assert(s@.len() == 17);
        assert(doc_open_prefix().len() == 17);
    }
    let idx = usize_to_string(index);
    s.append(idx.as_str());
    let flen = f.unicode_len();
    let rest = f.substring_char(18, flen);
    s.append(rest);
    proof {
        assert(rest@ =~= f@.skip(doc_open_prefix().len() as int + 1));
        assert(s@ =~= renumbered(f@, spec_digits(index as int)));
    }
    s
}

/// No two cache entries share a key.
pub open spec fn unique_keys(d: Seq<(Seq<char>, Seq<char>)>) -> bool {
    forall|i: int, j: int| 0 <= i < j < d.len() ==> d[i].0 != d[j].0
}

/// Keys are strictly increasing.
pub open spec fn strict_sorted(d: Seq<(Seq<char>, Seq<char>)>) -> bool {
    forall|i: int, j: int| 0 <= i < j < d.len() ==> lex_lt(d[i].0, d[j].0)
}

/// Entries other than the virtual tree entry.
pub open spec fn is_real() -> spec_fn((Seq<char>, Seq<char>)) -> bool {
    |p: (Seq<char>, Seq<char>)| p.0 != virtual_key()
}

/// Total order on entries: by key, ties broken by fragment text.
pub open spec fn pair_le() -> spec_fn((Seq<char>, Seq<char>), (Seq<char>, Seq<char>)) -> bool {
    |x: (Seq<char>, Seq<char>), y: (Seq<char>, Seq<char>)|
        lex_lt(x.0, y.0) || (x.0 == y.0 && lex_le(x.1, y.1))
}

pub proof fn lemma_pair_le_total_ordering()
    ensures
        vstd::relations::total_ordering(pair_le()),
{
    let leq = pair_le();
    assert forall|a: (Seq<char>, Seq<char>)| #[trigger] leq(a, a) by {
    }
    assert forall|a: (Seq<char>, Seq<char>), b: (Seq<char>, Seq<char>)|
        #[trigger] leq(a, b) && #[trigger] leq(b, a) implies a == b by {
        if lex_lt(a.0, b.0) {
            lemma_lex_lt_asymmetric(a.0, b.0);
            lemma_lex_lt_irreflexive(a.0);
        } else {
            assert(a.0 == b.0);
            if lex_lt(b.0, a.0) {
                lemma_lex_lt_irreflexive(a.0);
            }
            if a.1 != b.1 {
                lemma_lex_lt_asymmetric(a.1, b.1);
            }
        }
    }
    assert forall|a: (Seq<char>, Seq<char>), b: (Seq<char>, Seq<char>), c: (Seq<char>, Seq<char>)|
        #[trigger] leq(a, b) && #[trigger] leq(b, c) implies leq(a, c) by {
        if lex_lt(a.0, b.0) && lex_lt(b.0, c.0) {
            lemma_lex_lt_transitive(a.0, b.0, c.0);
        } else if a.0 == b.0 && b.0 == c.0 {
            if a.1 != b.1 && b.1 != c.1 {
                lemma_lex_lt_transitive(a.1, b.1, c.1);
            }
        }
    }
    assert forall|a: (Seq<char>, Seq<char>), b: (Seq<char>, Seq<char>)|
        #[trigger] leq(a, b) || #[trigger] leq(b, a) by {
        lemma_lex_lt_connected(a.0, b.0);
        if a.0 == b.0 {
            lemma_lex_lt_connected(a.1, b.1);
        }
    }
}

/// Whether the cache holds the virtual tree entry.
pub open spec fn has_virtual(d: Seq<(Seq<char>, Seq<char>)>) -> bool {
    exists|i: int| 0 <= i < d.len() && d[i].0 == virtual_key()
}

/// The virtual tree entry's fragment.
pub open spec fn virtual_frag(d: Seq<(Seq<char>, Seq<char>)>) -> Seq<char> {
    let i = choose|i: int| 0 <= i < d.len() && d[i].0 == virtual_key();
    d[i].1
}

/// The non-virtual entries in ascending order.
pub open spec fn sorted_reals(d: Seq<(Seq<char>, Seq<char>)>) -> Seq<(Seq<char>, Seq<char>)> {
    d.filter(is_real()).sort_by(pair_le())
}

/// Concatenation of fragments renumbered `base`, `base + 1`, ..., each
/// followed by a newline.
pub open spec fn frag_concat(reals: Seq<(Seq<char>, Seq<char>)>, base: int) -> Seq<char>
    decreases reals.len(),
{
    if reals.len() == 0 {
        Seq::<char>::empty()
    } else {
        renumbered(reals[0].1, spec_digits(base)) + seq!['\n']
            + frag_concat(reals.drop_first(), base + 1)
    }
}

/// The merged document of a cache: the virtual entry first under index 1,
/// then the real entries under 2..N in ascending path order, wrapped in the
/// `documents` root element.
pub open spec fn merge_spec(d: Seq<(Seq<char>, Seq<char>)>) -> Seq<char> {
    "<documents>\n"@
        + (if has_virtual(d) {
            renumbered(virtual_frag(d), spec_digits(1)) + seq!['\n']
        } else {
            Seq::<char>::empty()
        })
        + frag_concat(sorted_reals(d), 2)
        + "</documents>"@
}

proof fn lemma_frag_concat_snoc(s: Seq<(Seq<char>, Seq<char>)>, k: int, base: int)
    requires
        0 <= k < s.len(),
    ensures
        frag_concat(s.take(k + 1), base)
            == frag_concat(s.take(k), base) + renumbered(s[k].1, spec_digits(base + k))
                + seq!['\n'],
    decreases k,
{
    let a = frag_concat(s.take(k + 1), base);
    if k == 0 {
        assert(s.take(1)[0] == s[0]);
        assert(s.take(1).drop_first() =~= Seq::<(Seq<char>, Seq<char>)>::empty());
        assert(s.take(0) =~= Seq::<(Seq<char>, Seq<char>)>::empty());
        assert(frag_concat(Seq::<(Seq<char>, Seq<char>)>::empty(), base + 1)
            == Seq::<char>::empty());
        assert(frag_concat(s.take(0), base) == Seq::<char>::empty());
        assert(a =~= frag_concat(s.take(0), base) + renumbered(s[0].1, spec_digits(base))
            + seq!['\n']);
    } else {
        let t = s.drop_first();
        lemma_frag_concat_snoc(t, k - 1, base + 1);
        assert(s.take(k + 1).drop_first() =~= t.take(k));
        assert(s.take(k).drop_first() =~= t.take(k - 1));
        assert(t[k - 1] == s[k]);
        let head = renumbered(s[0].1, spec_digits(base)) + seq!['\n'];
        assert(a == renumbered(s.take(k + 1)[0].1, spec_digits(base)) + seq!['\n']
            + frag_concat(t.take(k), base + 1));
        assert(frag_concat(s.take(k), base) == renumbered(s[0].1, spec_digits(base))
            + seq!['\n'] + frag_concat(t.take(k - 1), base + 1));
        assert(a =~= frag_concat(s.take(k), base) + renumbered(s[k].1, spec_digits(base + k))
            + seq!['\n']);
    }
}

/// Finds the position at which `path` belongs in a key-sorted cache slice.
fn find_insert_pos(sorted: &Vec<Snippet>, path: &str) -> (p: usize)
    requires
        strict_sorted(views_of(sorted@)),
    ensures
        p <= sorted@.len(),
        forall|j: int| 0 <= j < p ==> !lex_lt(path@, #[trigger] views_of(sorted@)[j].0),
        p < sorted@.len() ==> lex_lt(path@, views_of(sorted@)[p as int].0),
{
    let mut p: usize = 0;
    loop
        invariant
            p <= sorted@.len(),
            forall|j: int| 0 <= j < p ==> !lex_lt(path@, #[trigger] views_of(sorted@)[j].0),
        decreases sorted@.len() - p,
    {
        if p >= sorted.len() {
            return p;
        }
        if str_lt(path, sorted[p].path.as_str()) {
            proof {
                assert(views_of(sorted@)[p as int].0 == sorted@[p as int].path@);
            }
            return p;
        }
        p = p + 1;
    }
}

/// Merges the cache into one document.  The result is determined by the
/// cache's contents alone; see [`lemma_merge_insertion_order_irrelevant`].
pub fn merge_all_snippets(docs: &Vec<Snippet>) -> (r: String)
    requires
        unique_keys(views_of(docs@)),
        forall|i: int| 0 <= i < docs@.len() ==> fragment_wf(#[trigger] views_of(docs@)[i].1),
        docs@.len() + 2 <= usize::MAX,
    ensures
        r@ == merge_spec(views_of(docs@)),
{
    broadcast use vstd::seq_lib::group_seq_properties;
    broadcast use vstd::seq_lib::group_to_multiset_ensures;
    broadcast use vstd::seq_lib::group_seq_lib_default;
    broadcast use vstd::seq::Seq::lemma_filter_push;

    let ghost d = views_of(docs@);
    proof {
        assert forall|i: int| 0 <= i < docs@.len() implies (#[trigger] d[i])
            == (docs@[i].path@, docs@[i].text@) by {
        }
        assert(d.take(0).filter(is_real()) =~= Seq::<(Seq<char>, Seq<char>)>::empty()) by {
            reveal(Seq::filter);
        }
    }

    // Split off the virtual entry and collect the real entries.
    let mut vidx: Option<usize> = None;
    let mut reals: Vec<Snippet> = Vec::new();
    let mut i: usize = 0;
    while i < docs.len()
        invariant
            i <= docs@.len(),
            d == views_of(docs@),
            unique_keys(d),
            forall|j: int| 0 <= j < docs@.len() ==> fragment_wf(#[trigger] d[j].1),
            match vidx {
                Some(v) => v < i && d[v as int].0 == virtual_key(),
                None => forall|j: int| 0 <= j < i ==> (#[trigger] d[j]).0 != virtual_key(),
            },
            views_of(reals@) == d.take(i as int).filter(is_real()),
            reals@.len() <= i,
        decreases docs@.len() - i,
    {
        let s = &docs[i];
        proof {
            assert(s@ == d[i as int]);
            let tk = d.take(i as int);
            assert(d.take(i as int + 1) =~= tk.push(d[i as int]));
            tk.lemma_filter_push(d[i as int], is_real());
        }
        if str_eq(s.path.as_str(), "__PROJECT_TREE__") {
            vidx = Some(i);
            proof {
                assert(!is_real()(d[i as int]));
            }
        } else {
            reals.push(s.duplicate());
            proof {
                assert(is_real()(d[i as int]));
                assert(views_of(reals@) =~= d.take(i as int).filter(is_real()).push(
                    d[i as int]));
            }
        }
        i = i + 1;
    }
    proof {
        assert(d.take(docs@.len() as int) =~= d);
    }
    let ghost rd = d.filter(is_real());
    proof {
        assert(views_of(reals@) == rd);
        // keys among the real entries are unique
        assert forall|a: int, b: int| 0 <= a < b < rd.len()
            implies (#[trigger] rd[a]).0 != (#[trigger] rd[b]).0 by {
            lemma_filter_entries_distinct_keys(d, a, b);
        }
        // every real entry keeps its placeholder shape
        assert forall|j: int| 0 <= j < rd.len()
            implies fragment_wf((#[trigger] rd[j]).1) by {
            assert(rd.contains(rd[j]));
            d.lemma_filter_contains_rev(is_real(), rd[j]);
            let w = choose|w: int| 0 <= w < d.len() && d[w] == rd[j];
            assert(fragment_wf(d[w].1));
        }
    }

    // Sort the real entries by path.
    let mut sorted: Vec<Snippet> = Vec::new();
    let mut k: usize = 0;
    while k < reals.len()
        invariant
            k <= reals@.len(),
            views_of(reals@) == rd,
            unique_keys(rd),
            forall|j: int| 0 <= j < rd.len() ==> fragment_wf(#[trigger] rd[j].1),
            strict_sorted(views_of(sorted@)),
            views_of(sorted@).to_multiset() == rd.take(k as int).to_multiset(),
            forall|j: int| 0 <= j < sorted@.len()
                ==> fragment_wf(#[trigger] views_of(sorted@)[j].1),
            sorted@.len() == k,
        decreases reals@.len() - k,
    {
        let s = &reals[k];
        let p = find_insert_pos(&sorted, s.path.as_str());
        let ghost sv = views_of(sorted@);
        proof {
            assert(s@ == rd[k as int]);
            // the new key is distinct from every key already placed
            assert forall|j: int| 0 <= j < sv.len() implies (#[trigger] sv[j]).0
                != s.path@ by {
                assert(sv.contains(sv[j]));
                sv.to_multiset_ensures();
                rd.take(k as int).to_multiset_ensures();
                assert(sv.to_multiset().count(sv[j]) > 0);
                assert(rd.take(k as int).contains(sv[j]));
                let w = choose|w: int| 0 <= w < k && rd.take(k as int)[w] == sv[j];
                assert(rd[w] == sv[j]);
            }
        }
        sorted.insert(p, s.duplicate());
        proof {
            let nv = views_of(sorted@);
            assert(nv =~= sv.insert(p as int, rd[k as int]));
            assert(rd.take(k as int + 1) =~= rd.take(k as int).push(rd[k as int]));
            vstd::seq_lib::to_multiset_insert(sv, p as int, rd[k as int]);
            vstd::seq_lib::to_multiset_build(rd.take(k as int), rd[k as int]);
            assert(nv.to_multiset() =~= rd.take(k as int + 1).to_multiset());
            // strict order is preserved around the insertion point
            assert forall|a: int, b: int| 0 <= a < b < nv.len()
                implies lex_lt((#[trigger] nv[a]).0, (#[trigger] nv[b]).0) by {
                let x = rd[k as int];
                if a < p && b == p {
                    lemma_lex_lt_connected(sv[a].0, x.0);
                } else if a == p && b > p {
                    if p < sv.len() {
                        if b - 1 > p {
                            lemma_lex_lt_transitive(x.0, sv[p as int].0, sv[b - 1].0);
                        }
                    }
                } else if a < p && b > p {
                    assert(lex_lt(sv[a].0, sv[b - 1].0));
                }
            }
        }
        k = k + 1;
    }
    proof {
        assert(rd.take(rd.len() as int) =~= rd);
    }
    let ghost sv = views_of(sorted@);
    proof {
        // the sorted vector is exactly the specification's sorted sequence
        lemma_pair_le_total_ordering();
        rd.lemma_sort_by_ensures(pair_le());
        assert forall|a: int, b: int| 0 <= a <= b < sv.len()
            implies pair_le()(#[trigger] sv[a], #[trigger] sv[b]) by {
            if a < b {
                assert(lex_lt(sv[a].0, sv[b].0));
            }
        }
        assert(vstd::relations::sorted_by(sv, pair_le()));
        vstd::seq_lib::lemma_sorted_unique(sv, rd.sort_by(pair_le()), pair_le());
        assert(sv == sorted_reals(d));
    }

    // Assemble the output.
    let mut out = String::from_str("<documents>\n");
    let ghost vpart: Seq<char> = if has_virtual(d) {
        renumbered(virtual_frag(d), spec_digits(1)) + seq!['\n']
    } else {
        Seq::<char>::empty()
    };
    match vidx {
        Some(v) => {
            let f = set_fragment_index(docs[v].text.as_str(), 1);
            out.append(f.as_str());
            out.append("\n");
            proof {
                reveal_strlit("\n");
                assert(has_virtual(d));
                let c = choose|c: int| 0 <= c < d.len() && d[c].0 == virtual_key();
                assert(c == v as int);
                assert(virtual_frag(d) == d[v as int].1);
                assert(out@ =~= "<documents>\n"@ + vpart);
            }
        },
        None => {
            proof {
                if has_virtual(d) {
                    let c = choose|c: int| 0 <= c < d.len() && d[c].0 == virtual_key();
                    assert(d[c].0 != virtual_key());
                }
                assert(out@ =~= "<documents>\n"@ + vpart);
            }
        },
    }
    let mut m: usize = 0;
    proof {
        assert(sv.take(0) =~= Seq::<(Seq<char>, Seq<char>)>::empty());
    }
    while m < sorted.len()
        invariant
            m <= sorted@.len(),
            sorted@.len() + 2 <= usize::MAX,
            sv == views_of(sorted@),
            forall|j: int| 0 <= j < sv.len() ==> fragment_wf(#[trigger] sv[j].1),
            out@ == "<documents>\n"@ + vpart + frag_concat(sv.take(m as int), 2),
        decreases sorted@.len() - m,
    {
        proof {
            assert(sv[m as int].1 == sorted@[m as int].text@);
            assert(fragment_wf(sv[m as int].1));
        }
        let f = set_fragment_index(sorted[m].text.as_str(), m + 2);
        out.append(f.as_str());
        out.append("\n");
        proof {
            reveal_strlit("\n");
            lemma_frag_concat_snoc(sv, m as int, 2);
            assert(f@ == renumbered(sv[m as int].1, spec_digits(2 + m as int)));
            assert(out@ =~= "<documents>\n"@ + vpart + frag_concat(sv.take(m as int + 1), 2));
        }
        m = m + 1;
    }
    out.append("</documents>");
    proof {
        assert(sv.take(sv.len() as int) =~= sv);
        assert(out@ =~= merge_spec(d));
    }
    out
}

proof fn lemma_filter_entries_distinct_keys(d: Seq<(Seq<char>, Seq<char>)>, a: int, b: int)
    requires
        unique_keys(d),
        0 <= a < b < d.filter(is_real()).len(),
    ensures
        d.filter(is_real())[a].0 != d.filter(is_real())[b].0,
    decreases d.len(),
{
    broadcast use vstd::seq_lib::group_seq_lib_default;
    broadcast use vstd::seq_lib::group_seq_properties;
    broadcast use vstd::seq::Seq::lemma_filter_push;
    let f = d.filter(is_real());
    if d.len() > 0 {
        let last = d.last();
        let prior = d.drop_last();
        assert(d =~= prior.push(last));
        assert(prior.push(last).filter(is_real()) == if is_real()(last) {
            prior.filter(is_real()).push(last)
        } else {
            prior.filter(is_real())
        });
        if is_real()(last) {
            assert(f =~= prior.filter(is_real()).push(last));
            let pf = prior.filter(is_real());
            if b < pf.len() {
                lemma_filter_entries_distinct_keys(prior, a, b);
            } else {
                // f[b] is the last element of d; f[a] comes from the prior part
                assert(f[b] == last);
                assert(pf[a] == f[a]);
                lemma_filter_element_has_index(prior, a);
                let w = choose|w: int| 0 <= w < prior.len() && prior[w] == pf[a];
                assert(d[w] == pf[a]);
                assert(d[w].0 != d[d.len() - 1].0);
            }
        } else {
            assert(f =~= prior.filter(is_real()));
            lemma_filter_entries_distinct_keys(prior, a, b);
        }
    }
}

proof fn lemma_filter_element_has_index(d: Seq<(Seq<char>, Seq<char>)>, a: int)
    requires
        0 <= a < d.filter(is_real()).len(),
    ensures
        exists|w: int| 0 <= w < d.len() && d[w] == d.filter(is_real())[a],
{
    broadcast use vstd::seq_lib::group_filter_ensures;
    assert(d.filter(is_real()).contains(d.filter(is_real())[a]));
    let x = d.filter(is_real())[a];
    assert(d.contains(x)) by {
        d.lemma_filter_contains_rev(is_real(), x);
    }
}

/// Law: merging is a pure function of the cache's contents.  Two caches that
/// hold the same entries — in any order — merge to the same document.
pub proof fn lemma_merge_insertion_order_irrelevant(
    d1: Seq<(Seq<char>, Seq<char>)>,
    d2: Seq<(Seq<char>, Seq<char>)>,
)
    requires
        unique_keys(d1),
        unique_keys(d2),
        d1.to_multiset() == d2.to_multiset(),
    ensures
        merge_spec(d1) == merge_spec(d2),
{
    broadcast use vstd::seq_lib::group_to_multiset_ensures;
    // the virtual entry part agrees
    assert(has_virtual(d1) == has_virtual(d2) && (has_virtual(d1) ==> virtual_frag(d1)
        == virtual_frag(d2))) by {
        lemma_virtual_part_determined(d1, d2);
    }
    // the sorted real part agrees
    lemma_filter_multiset_eq(d1, d2, is_real());
    lemma_pair_le_total_ordering();
    d1.filter(is_real()).lemma_sort_by_ensures(pair_le());
    d2.filter(is_real()).lemma_sort_by_ensures(pair_le());
    vstd::seq_lib::lemma_sorted_unique(
        d1.filter(is_real()).sort_by(pair_le()),
        d2.filter(is_real()).sort_by(pair_le()),
        pair_le(),
    );
    assert(sorted_reals(d1) == sorted_reals(d2));
}

proof fn lemma_virtual_part_determined(
    d1: Seq<(Seq<char>, Seq<char>)>,
    d2: Seq<(Seq<char>, Seq<char>)>,
)
    requires
        unique_keys(d1),
        unique_keys(d2),
        d1.to_multiset() == d2.to_multiset(),
    ensures
        has_virtual(d1) == has_virtual(d2),
        has_virtual(d1) ==> virtual_frag(d1) == virtual_frag(d2),
{
    broadcast use vstd::seq_lib::group_to_multiset_ensures;
    broadcast use vstd::seq_lib::group_seq_properties;
    if has_virtual(d1) {
        let i = choose|i: int| 0 <= i < d1.len() && d1[i].0 == virtual_key();
        assert(d1.contains(d1[i]));
        assert(d2.to_multiset().contains(d1[i]));
        assert(d2.contains(d1[i]));
        assert(has_virtual(d2));
        let j = choose|j: int| 0 <= j < d2.len() && d2[j].0 == virtual_key();
        // both chosen entries are present in both caches; unique keys force them equal
        assert(d2.contains(d2[j]));
        assert(d1.to_multiset().contains(d2[j]));
        assert(d1.contains(d2[j]));
        let w = choose|w: int| 0 <= w < d1.len() && d1[w] == d2[j];
        assert(d1[w].0 == virtual_key());
        assert(w == i);
        assert(virtual_frag(d1) == d1[i].1);
        assert(virtual_frag(d2) == d2[j].1);
    } else {
        if has_virtual(d2) {
            let j = choose|j: int| 0 <= j < d2.len() && d2[j].0 == virtual_key();
            assert(d2.contains(d2[j]));
            assert(d1.to_multiset().contains(d2[j]));
            assert(d1.contains(d2[j]));
            let w = choose|w: int| 0 <= w < d1.len() && d1[w] == d2[j];
            assert(d1[w].0 == virtual_key());
            assert(has_virtual(d1));
        }
    }
}

proof fn lemma_filter_multiset_eq<A>(d1: Seq<A>, d2: Seq<A>, p: spec_fn(A) -> bool)
    requires
        d1.to_multiset() == d2.to_multiset(),
    ensures
        d1.filter(p).to_multiset() == d2.filter(p).to_multiset(),
    decreases d1.len(),
{
    broadcast use vstd::seq_lib::group_to_multiset_ensures;
    broadcast use vstd::seq_lib::group_seq_lib_default;
    broadcast use vstd::seq_lib::group_seq_properties;
    broadcast use vstd::seq_lib::lemma_multiset_commutative;
    broadcast use vstd::seq::Seq::lemma_filter_push;
    if d1.len() == 0 {
        assert(d2.to_multiset().len() == 0);
        assert(d2.len() == 0);
        assert(d1.filter(p) =~= d2.filter(p)) by {
            reveal(Seq::filter);
        }
    } else {
        let x = d1.last();
        let d1p = d1.drop_last();
        assert(d1 =~= d1p.push(x));
        assert(d1p.push(x).filter(p) == if p(x) {
            d1p.filter(p).push(x)
        } else {
            d1p.filter(p)
        });
        assert(d1.to_multiset().contains(x));
        assert(d2.contains(x));
        let j = choose|j: int| 0 <= j < d2.len() && d2[j] == x;
        let d2p = d2.remove(j);
        assert(d2p.to_multiset() =~= d2.to_multiset().remove(x));
        assert(d1p.to_multiset() =~= d1.to_multiset().remove(x));
        lemma_filter_multiset_eq(d1p, d2p, p);
        // removing one element removes at most its filtered copy
        lemma_filter_remove_multiset(d2, j, p);
        assert(d1.filter(p) =~= if p(x) { d1p.filter(p).push(x) } else { d1p.filter(p) });
        if p(x) {
            assert(d1.filter(p).to_multiset() =~= d1p.filter(p).to_multiset().insert(x));
            assert(d2.filter(p).to_multiset() =~= d2p.filter(p).to_multiset().insert(x));
        }
    }
}

proof fn lemma_filter_remove_multiset<A>(d: Seq<A>, j: int, p: spec_fn(A) -> bool)
    requires
        0 <= j < d.len(),
    ensures
        d.filter(p).to_multiset() == if p(d[j]) {
            d.remove(j).filter(p).to_multiset().insert(d[j])
        } else {
            d.remove(j).filter(p).to_multiset()
        },
{
    broadcast use vstd::seq_lib::group_to_multiset_ensures;
    broadcast use vstd::seq_lib::group_seq_lib_default;
    broadcast use vstd::seq_lib::lemma_multiset_commutative;
    reveal(Seq::filter);
    let x = d[j];
    let front = d.take(j);
    let mid = seq![x];
    let back = d.skip(j + 1);
    assert(d =~= front + mid + back);
    assert(d.remove(j) =~= front + back);
    assert((front + mid + back).filter(p) =~= (front + mid).filter(p) + back.filter(p));
    assert((front + mid).filter(p) =~= front.filter(p) + mid.filter(p));
    assert((front + back).filter(p) =~= front.filter(p) + back.filter(p));
    assert(mid.drop_last() =~= Seq::<A>::empty());
    assert(mid.last() == x);
    assert(Seq::<A>::empty().filter(p) == Seq::<A>::empty());
    assert(mid.filter(p) =~= if p(x) { mid } else { Seq::<A>::empty() });
    if p(x) {
        assert(d.filter(p).to_multiset() =~= front.filter(p).to_multiset().add(
            mid.to_multiset().add(back.filter(p).to_multiset())));
        assert(mid.to_multiset() =~= Multiset::<A>::empty().insert(x));
        assert(d.remove(j).filter(p).to_multiset() =~= front.filter(p).to_multiset().add(
            back.filter(p).to_multiset()));
        assert(d.filter(p).to_multiset() =~= d.remove(j).filter(p).to_multiset().insert(x));
    } else {
        assert(d.filter(p).to_multiset() =~= front.filter(p).to_multiset().add(
            back.filter(p).to_multiset()));
        assert(d.remove(j).filter(p).to_multiset() =~= front.filter(p).to_multiset().add(
            back.filter(p).to_multiset()));
    }
}

/// True when `suf` is a suffix of `s`.
pub open spec fn ends_with(s: Seq<char>, suf: Seq<char>) -> bool {
    suf.len() <= s.len() && s.skip(s.len() - suf.len()) == suf
}

/// The merged document with a trailing instruction element spliced in just
/// before the root element closes.
pub open spec fn with_instruction(xml: Seq<char>, prompt: Seq<char>) -> Seq<char> {
    let tag = "\n<instruction>\n"@ + prompt + "\n</instruction>"@;
    if ends_with(xml, "</documents>"@) {
        xml.take(xml.len() - "</documents>"@.len()) + tag + "</documents>"@
    } else {
        xml + tag + "\n</documents>"@
    }
}

/// Splices the pending instruction into a merged document.
pub fn append_instruction(xml: &str, prompt: &str) -> (r: String)
    ensures
        r@ == with_instruction(xml@, prompt@),
{
    let xlen = xml.unicode_len();
    let suf = "</documents>";
    let slen = suf.unicode_len();
    let ghost tag = "\n<instruction>\n"@ + prompt@ + "\n</instruction>"@;
    if slen <= xlen {
        let tail = xml.substring_char(xlen - slen, xlen);
        proof {
            assert(tail@ =~= xml@.skip(xml@.len() - suf@.len()));
        }
        if str_eq(tail, suf) {
            let head = xml.substring_char(0, xlen - slen);
            let mut out = String::from_str(head);
            out.append("\n<instruction>\n");
            out.append(prompt);
            out.append("\n</instruction>");
            out.append("</documents>");
            proof {
                assert(head@ =~= xml@.take(xml@.len() - "</documents>"@.len()));
                assert(out@ =~= with_instruction(xml@, prompt@));
            }
            return out;
        }
    }
    let mut out = String::from_str(xml);
    out.append("\n<instruction>\n");
    out.append(prompt);
    out.append("\n</instruction>");
    out.append("\n</documents>");
    proof {
        assert(!ends_with(xml@, "</documents>"@));
        assert(out@ =~= with_instruction(xml@, prompt@));
    }
    out
}

} // verus!
