//! The tree renderer: a deterministic ASCII directory tree from the set of
//! walked entries.
//!
//! Each entry is a path below the root, given as its list of components.
//! Entries are ordered component-wise; within one directory the children
//! sort by name, and a child is "last" exactly when it is the greatest of
//! its siblings.  A line's prefix marks, ancestor by ancestor, whether that
//! ancestor was itself a last child.  The output depends only on the set of
//! entries, not on the order they are handed in.

use vstd::prelude::*;
use crate::state::string_views;
use crate::strutil::{
    lex_lt, lex_le, str_lt, str_eq, lemma_lex_lt_connected, lemma_lex_lt_irreflexive,
    lemma_lex_lt_transitive, lemma_lex_lt_asymmetric,
};

verus! {

/// The component-sequence views of a batch of entries.
pub open spec fn entry_views(v: Seq<Vec<String>>) -> Seq<Seq<Seq<char>>> {
    v.map_values(|e: Vec<String>| string_views(e@))
}

/// Strict component-wise order on entries: compare component by component,
/// shorter prefixes first.  Parents therefore precede their children.
pub open spec fn comp_lt(a: Seq<Seq<char>>, b: Seq<Seq<char>>) -> bool
    decreases a.len(),
{
    if b.len() == 0 {
        false
    } else if a.len() == 0 {
        true
    } else if lex_lt(a[0], b[0]) {
        true
    } else if a[0] == b[0] {
        comp_lt(a.drop_first(), b.drop_first())
    } else {
        false
    }
}

pub open spec fn comp_le(a: Seq<Seq<char>>, b: Seq<Seq<char>>) -> bool {
    comp_lt(a, b) || a == b
}

pub proof fn lemma_comp_lt_irreflexive(a: Seq<Seq<char>>)
    ensures
        !comp_lt(a, a),
    decreases a.len(),
{
    if a.len() > 0 {
        lemma_lex_lt_irreflexive(a[0]);
        lemma_comp_lt_irreflexive(a.drop_first());
    }
}

pub proof fn lemma_comp_lt_connected(a: Seq<Seq<char>>, b: Seq<Seq<char>>)
    ensures
        comp_lt(a, b) || comp_lt(b, a) || a == b,
    decreases a.len(),
{
    if a.len() == 0 || b.len() == 0 {
        if a.len() == 0 && b.len() == 0 {
            assert(a =~= b);
        }
    } else {
        lemma_lex_lt_connected(a[0], b[0]);
        if a[0] == b[0] {
            lemma_comp_lt_connected(a.drop_first(), b.drop_first());
            if !comp_lt(a, b) && !comp_lt(b, a) {
                assert(a.drop_first() == b.drop_first());
                assert(a.len() == b.len());
                assert forall|i: int| 0 <= i < a.len() implies a[i] == b[i] by {
                    if i > 0 {
                        assert(a[i] == a.drop_first()[i - 1]);
                        assert(b[i] == b.drop_first()[i - 1]);
                    }
                }
                assert(a =~= b);
            }
        }
    }
}

pub proof fn lemma_comp_lt_transitive(a: Seq<Seq<char>>, b: Seq<Seq<char>>, c: Seq<Seq<char>>)
    requires
        comp_lt(a, b),
        comp_lt(b, c),
    ensures
        comp_lt(a, c),
    decreases a.len(),
{
    if a.len() == 0 {
        assert(b.len() > 0 && c.len() > 0);
    } else {
        assert(b.len() > 0 && c.len() > 0);
        if lex_lt(a[0], b[0]) && lex_lt(b[0], c[0]) {
            lemma_lex_lt_transitive(a[0], b[0], c[0]);
        } else if a[0] == b[0] && b[0] == c[0] {
            lemma_comp_lt_transitive(a.drop_first(), b.drop_first(), c.drop_first());
        }
    }
}

pub proof fn lemma_comp_lt_asymmetric(a: Seq<Seq<char>>, b: Seq<Seq<char>>)
    requires
        comp_lt(a, b),
    ensures
        !comp_lt(b, a),
{
    if comp_lt(b, a) {
        lemma_comp_lt_transitive(a, b, a);
        lemma_comp_lt_irreflexive(a);
    }
}

/// [`comp_le`] as a relation value.
pub open spec fn comp_le_fn() -> spec_fn(Seq<Seq<char>>, Seq<Seq<char>>) -> bool {
    |a: Seq<Seq<char>>, b: Seq<Seq<char>>| comp_le(a, b)
}

pub proof fn lemma_comp_le_total_ordering()
    ensures
        vstd::relations::total_ordering(comp_le_fn()),
{
    let leq = comp_le_fn();
    assert forall|a: Seq<Seq<char>>, b: Seq<Seq<char>>|
        #[trigger] leq(a, b) && #[trigger] leq(b, a) implies a == b by {
        if a != b {
            lemma_comp_lt_asymmetric(a, b);
        }
    }
    assert forall|a: Seq<Seq<char>>, b: Seq<Seq<char>>, c: Seq<Seq<char>>|
        #[trigger] leq(a, b) && #[trigger] leq(b, c) implies leq(a, c) by {
        if a != b && b != c {
            lemma_comp_lt_transitive(a, b, c);
        }
    }
    assert forall|a: Seq<Seq<char>>, b: Seq<Seq<char>>| #[trigger] leq(a, b) || #[trigger] leq(
        b,
        a,
    ) by {
        lemma_comp_lt_connected(a, b);
    }
}

proof fn lemma_comp_lt_step(a: Seq<Seq<char>>, b: Seq<Seq<char>>, i: int)
    requires
        0 <= i < a.len(),
        i < b.len(),
        a[i] == b[i],
    ensures
        comp_lt(a.skip(i), b.skip(i)) == comp_lt(a.skip(i + 1), b.skip(i + 1)),
{
    let x = a.skip(i);
    let y = b.skip(i);
    assert(x.len() > 0 && y.len() > 0);
    assert(x[0] == y[0]);
    lemma_lex_lt_irreflexive(x[0]);
    assert(x.drop_first() =~= a.skip(i + 1));
    assert(y.drop_first() =~= b.skip(i + 1));
}

/// Decides [`comp_lt`] on entries.
fn entry_lt(a: &Vec<String>, b: &Vec<String>) -> (r: bool)
    ensures
        r == comp_lt(string_views(a@), string_views(b@)),
{
    let ghost av = string_views(a@);
    let ghost bv = string_views(b@);
    let alen = a.len();
    let blen = b.len();
    let mut i: usize = 0;
    proof {
        assert(av.skip(0) =~= av);
        assert(bv.skip(0) =~= bv);
    }
    loop
        invariant
            i <= alen,
            i <= blen,
            alen == av.len(),
            blen == bv.len(),
            av == string_views(a@),
            bv == string_views(b@),
            comp_lt(av, bv) == comp_lt(av.skip(i as int), bv.skip(i as int)),
        decreases alen - i,
    {
        if i >= blen {
            proof {
                assert(bv.skip(i as int).len() == 0);
            }
            return false;
        }
        if i >= alen {
            proof {
                assert(av.skip(i as int).len() == 0);
                assert(bv.skip(i as int).len() > 0);
            }
            return true;
        }
        if str_eq(a[i].as_str(), b[i].as_str()) {
            proof {
                lemma_comp_lt_step(av, bv, i as int);
            }
            i = i + 1;
        } else {
            let lt = str_lt(a[i].as_str(), b[i].as_str());
            proof {
                assert(av.skip(i as int)[0] == av[i as int]);
                assert(bv.skip(i as int)[0] == bv[i as int]);
                lemma_lex_lt_connected(av[i as int], bv[i as int]);
            }
            return lt;
        }
    }
}

/// A deep copy of one entry.
fn entry_dup(e: &Vec<String>) -> (r: Vec<String>)
    ensures
        string_views(r@) == string_views(e@),
{
    let mut out: Vec<String> = Vec::new();
    let mut i: usize = 0;
    while i < e.len()
        invariant
            i <= e@.len(),
            string_views(out@) =~= string_views(e@).take(i as int),
        decreases e@.len() - i,
    {
        let ghost prev = string_views(out@);
        let mut c = String::new();
        c.append(e[i].as_str());
        proof {
            assert(c@ =~= e@[i as int]@);
        }
        out.push(c);
        proof {
            assert(string_views(out@) =~= prev.push(c@));
            assert(prev.push(c@) =~= string_views(e@).take(i as int + 1));
            assert(string_views(out@) =~= string_views(e@).take(i as int + 1));
        }
        i = i + 1;
    }
    proof {
        assert(string_views(e@).take(e@.len() as int) =~= string_views(e@));
    }
    out
}

/// `o` is a sibling of the (possible) entry `a`: same depth, same parent.
pub open spec fn sibling(es: Seq<Seq<Seq<char>>>, a: Seq<Seq<char>>, o: Seq<Seq<char>>) -> bool {
    es.contains(o) && o.len() == a.len() && o.take(a.len() - 1) == a.take(a.len() - 1)
}

/// `a` is the last of its siblings: every sibling's name is at most its own.
pub open spec fn is_last_spec(es: Seq<Seq<Seq<char>>>, a: Seq<Seq<char>>) -> bool
    recommends
        a.len() >= 1,
{
    forall|o: Seq<Seq<char>>| #[trigger] sibling(es, a, o) ==> lex_le(o.last(), a.last())
}

/// The per-ancestor prefix piece: blank below a last child, a continuation
/// marker otherwise.
pub open spec fn chunk(es: Seq<Seq<Seq<char>>>, a: Seq<Seq<char>>) -> Seq<char> {
    if is_last_spec(es, a) {
        "    "@
    } else {
        "│   "@
    }
}

/// The prefix built from the ancestors of depth 1..k of `e`.
pub open spec fn prefix_up_to(es: Seq<Seq<Seq<char>>>, e: Seq<Seq<char>>, k: int) -> Seq<char>
    decreases k,
{
    if k <= 0 {
        Seq::<char>::empty()
    } else {
        prefix_up_to(es, e, k - 1) + chunk(es, e.take(k))
    }
}

/// The branch glyph of an entry.
pub open spec fn branch_of(es: Seq<Seq<Seq<char>>>, e: Seq<Seq<char>>) -> Seq<char> {
    if is_last_spec(es, e) {
        "└── "@
    } else {
        "├── "@
    }
}

/// One rendered line.
pub open spec fn line_spec(es: Seq<Seq<Seq<char>>>, e: Seq<Seq<char>>) -> Seq<char>
    recommends
        e.len() >= 1,
{
    prefix_up_to(es, e, e.len() - 1) + branch_of(es, e) + e.last()
}

/// The first `m` lines, each preceded by a newline.
pub open spec fn lines_upto(es: Seq<Seq<Seq<char>>>, m: int) -> Seq<char>
    decreases m,
{
    if m <= 0 {
        Seq::<char>::empty()
    } else {
        lines_upto(es, m - 1) + seq!['\n'] + line_spec(es, es[m - 1])
    }
}

/// The whole tree text: the root name on its own line, then one line per
/// entry in sorted order.
pub open spec fn render_tree(root: Seq<char>, es: Seq<Seq<Seq<char>>>) -> Seq<char> {
    root + lines_upto(es, es.len() as int)
}

/// The canonical order of a batch of entries.
pub open spec fn sorted_entries(es: Seq<Seq<Seq<char>>>) -> Seq<Seq<Seq<char>>> {
    es.sort_by(comp_le_fn())
}

/// No two entries are the same path.
pub open spec fn distinct_entries(es: Seq<Seq<Seq<char>>>) -> bool {
    forall|i: int, j: int| 0 <= i < j < es.len() ==> es[i] != es[j]
}

/// Entries are strictly increasing.
pub open spec fn strict_entries(es: Seq<Seq<Seq<char>>>) -> bool {
    forall|i: int, j: int| 0 <= i < j < es.len() ==> comp_lt(es[i], es[j])
}

/// Finds where `e` belongs in a sorted batch.
fn find_entry_pos(sorted: &Vec<Vec<String>>, e: &Vec<String>) -> (p: usize)
    requires
        strict_entries(entry_views(sorted@)),
    ensures
        p <= sorted@.len(),
        forall|j: int| 0 <= j < p ==> !comp_lt(string_views(e@), #[trigger] entry_views(
            sorted@,
        )[j]),
        p < sorted@.len() ==> comp_lt(string_views(e@), entry_views(sorted@)[p as int]),
{
    let mut p: usize = 0;
    loop
        invariant
            p <= sorted@.len(),
            forall|j: int| 0 <= j < p ==> !comp_lt(string_views(e@), #[trigger] entry_views(
                sorted@,
            )[j]),
        decreases sorted@.len() - p,
    {
        if p >= sorted.len() {
            return p;
        }
        if entry_lt(e, &sorted[p]) {
            proof {
                assert(entry_views(sorted@)[p as int] == string_views(sorted@[p as int]@));
            }
            return p;
        }
        p = p + 1;
    }
}

/// Sorts a batch of distinct entries into the canonical order.
fn sort_entries(entries: &Vec<Vec<String>>) -> (r: Vec<Vec<String>>)
    requires
        distinct_entries(entry_views(entries@)),
    ensures
        entry_views(r@) == sorted_entries(entry_views(entries@)),
{
    broadcast use vstd::seq_lib::group_seq_properties;
    broadcast use vstd::seq_lib::group_to_multiset_ensures;

    let ghost ev = entry_views(entries@);
    let mut sorted: Vec<Vec<String>> = Vec::new();
    let mut k: usize = 0;
    while k < entries.len()
        invariant
            k <= entries@.len(),
            ev == entry_views(entries@),
            distinct_entries(ev),
            strict_entries(entry_views(sorted@)),
            entry_views(sorted@).to_multiset() == ev.take(k as int).to_multiset(),
            sorted@.len() == k,
        decreases entries@.len() - k,
    {
        let e = &entries[k];
        let p = find_entry_pos(&sorted, e);
        let ghost sv = entry_views(sorted@);
        proof {
            assert(string_views(e@) == ev[k as int]);
            assert forall|j: int| 0 <= j < sv.len() implies (#[trigger] sv[j])
                != ev[k as int] by {
                assert(sv.contains(sv[j]));
                sv.to_multiset_ensures();
                ev.take(k as int).to_multiset_ensures();
                assert(sv.to_multiset().count(sv[j]) > 0);
                assert(ev.take(k as int).contains(sv[j]));
                let w = choose|w: int| 0 <= w < k && ev.take(k as int)[w] == sv[j];
                assert(ev[w] == sv[j]);
            }
        }
        sorted.insert(p, entry_dup(e));
        proof {
            let nv = entry_views(sorted@);
            assert(nv =~= sv.insert(p as int, ev[k as int]));
            assert(ev.take(k as int + 1) =~= ev.take(k as int).push(ev[k as int]));
            vstd::seq_lib::to_multiset_insert(sv, p as int, ev[k as int]);
            vstd::seq_lib::to_multiset_build(ev.take(k as int), ev[k as int]);
            assert(nv.to_multiset() =~= ev.take(k as int + 1).to_multiset());
            let x = ev[k as int];
            assert forall|a: int, b: int| 0 <= a < b < nv.len() implies comp_lt(
                #[trigger] nv[a],
                #[trigger] nv[b],
            ) by {
                if a < p && b == p {
                    lemma_comp_lt_connected(sv[a], x);
                } else if a == p && b > p {
                    if p < sv.len() {
                        if b - 1 > p {
                            lemma_comp_lt_transitive(x, sv[p as int], sv[b - 1]);
                        }
                    }
                } else if a < p && b > p {
                    assert(comp_lt(sv[a], sv[b - 1]));
                }
            }
        }
        k = k + 1;
    }
    proof {
        assert(ev.take(ev.len() as int) =~= ev);
        let sv = entry_views(sorted@);
        lemma_comp_le_total_ordering();
        ev.lemma_sort_by_ensures(comp_le_fn());
        assert forall|a: int, b: int| 0 <= a <= b < sv.len() implies comp_le_fn()(
            #[trigger] sv[a],
            #[trigger] sv[b],
        ) by {
            if a < b {
                assert(comp_lt(sv[a], sv[b]));
            }
        }
        assert(vstd::relations::sorted_by(sv, comp_le_fn()));
        vstd::seq_lib::lemma_sorted_unique(sv, ev.sort_by(comp_le_fn()), comp_le_fn());
    }
    sorted
}

/// The first `k` components of two entries agree.
fn prefix_eq_upto(a: &Vec<String>, b: &Vec<String>, k: usize) -> (r: bool)
    requires
        k <= a@.len(),
        k <= b@.len(),
    ensures
        r == (string_views(a@).take(k as int) == string_views(b@).take(k as int)),
{
    let ghost av = string_views(a@);
    let ghost bv = string_views(b@);
    let mut i: usize = 0;
    loop
        invariant
            i <= k,
            k <= av.len(),
            k <= bv.len(),
            av == string_views(a@),
            bv == string_views(b@),
            forall|j: int| 0 <= j < i ==> av[j] == bv[j],
        decreases k - i,
    {
        if i >= k {
            proof {
                assert(av.take(k as int) =~= bv.take(k as int));
            }
            return true;
        }
        if !str_eq(a[i].as_str(), b[i].as_str()) {
            proof {
                if av.take(k as int) == bv.take(k as int) {
                    assert(av.take(k as int)[i as int] == bv.take(k as int)[i as int]);
                }
            }
            return false;
        }
        i = i + 1;
    }
}

/// Whether the ancestor of depth `d` of `e` is the last of its siblings
/// within the batch.
fn is_last_at(entries: &Vec<Vec<String>>, e: &Vec<String>, d: usize) -> (r: bool)
    requires
        1 <= d <= e@.len(),
    ensures
        r == is_last_spec(entry_views(entries@), string_views(e@).take(d as int)),
{
    broadcast use vstd::seq_lib::group_seq_properties;
    let ghost es = entry_views(entries@);
    let ghost a = string_views(e@).take(d as int);
    let mut i: usize = 0;
    loop
        invariant
            i <= entries@.len(),
            es == entry_views(entries@),
            a == string_views(e@).take(d as int),
            1 <= d <= e@.len(),
            a.len() == d,
            forall|j: int| 0 <= j < i && sibling(es, a, #[trigger] es[j]) ==> lex_le(
                es[j].last(),
                a.last(),
            ),
        decreases entries@.len() - i,
    {
        if i >= entries.len() {
            proof {
                assert forall|o: Seq<Seq<char>>| #[trigger] sibling(es, a, o) implies lex_le(
                    o.last(),
                    a.last(),
                ) by {
                    assert(es.contains(o));
                    let w = choose|w: int| 0 <= w < es.len() && es[w] == o;
                    assert(sibling(es, a, es[w]));
                }
            }
            return true;
        }
        let o = &entries[i];
        if o.len() == d {
            if prefix_eq_upto(o, e, d - 1) {
                if str_lt(e[d - 1].as_str(), o[d - 1].as_str()) {
                    proof {
                        let ov = string_views(o@);
                        assert(es[i as int] == ov);
                        assert(ov.take(d as int - 1) =~= string_views(o@).take(d as int - 1));
                        assert(a.take(d as int - 1) =~= string_views(e@).take(d as int - 1));
                        assert(sibling(es, a, ov));
                        assert(ov.last() == ov[d - 1]);
                        assert(a.last() == string_views(e@)[d - 1]);
                        lemma_lex_lt_asymmetric(a.last(), ov.last());
                        assert(!lex_le(ov.last(), a.last()));
                    }
                    return false;
                }
                proof {
                    let ov = string_views(o@);
                    assert(es[i as int] == ov);
                    assert(ov.last() == ov[d - 1]);
                    assert(a.last() == string_views(e@)[d - 1]);
                    lemma_lex_lt_connected(ov.last(), a.last());
                }
            } else {
                proof {
                    let ov = string_views(o@);
                    assert(es[i as int] == ov);
                    if sibling(es, a, ov) {
                        assert(ov.take(d as int - 1) == a.take(d as int - 1));
                        assert(a.take(d as int - 1) =~= string_views(e@).take(d as int - 1));
                    }
                }
            }
        } else {
            proof {
                assert(es[i as int].len() != d);
            }
        }
        i = i + 1;
    }
}

/// Law: the rendered tree is a pure function of the set of walked entries.
/// Two walks that produce the same entries — in any order — render the same
/// text.
pub proof fn lemma_tree_input_order_irrelevant(
    root: Seq<char>,
    e1: Seq<Seq<Seq<char>>>,
    e2: Seq<Seq<Seq<char>>>,
)
    requires
        e1.to_multiset() == e2.to_multiset(),
    ensures
        render_tree(root, sorted_entries(e1)) == render_tree(root, sorted_entries(e2)),
{
    lemma_comp_le_total_ordering();
    e1.lemma_sort_by_ensures(comp_le_fn());
    e2.lemma_sort_by_ensures(comp_le_fn());
    vstd::seq_lib::lemma_sorted_unique(
        e1.sort_by(comp_le_fn()),
        e2.sort_by(comp_le_fn()),
        comp_le_fn(),
    );
    assert(sorted_entries(e1) == sorted_entries(e2));
}

/// Renders the directory tree.  The entries are the walked paths below the
/// root, each as its non-empty list of components; the result is the same
/// whatever order they arrive in, because they are sorted first.
pub fn generate_project_tree_string(root_name: &str, entries: &Vec<Vec<String>>) -> (r: String)
    requires
        distinct_entries(entry_views(entries@)),
        forall|i: int| 0 <= i < entries@.len() ==> (#[trigger] entry_views(entries@)[i]).len()
            >= 1,
    ensures
        r@ == render_tree(root_name@, sorted_entries(entry_views(entries@))),
{
    let sorted = sort_entries(entries);
    let ghost es = entry_views(sorted@);
    proof {
        lemma_comp_le_total_ordering();
        entry_views(entries@).lemma_sort_by_ensures(comp_le_fn());
        assert forall|i: int| 0 <= i < es.len() implies (#[trigger] es[i]).len() >= 1 by {
            assert(es.contains(es[i]));
            broadcast use vstd::seq_lib::group_seq_properties;
            assert(entry_views(entries@).contains(es[i]));
            let w = choose|w: int| 0 <= w < entry_views(entries@).len() && entry_views(
                entries@,
            )[w] == es[i];
        }
    }
    let mut out = String::from_str(root_name);
    let mut m: usize = 0;
    while m < sorted.len()
        invariant
            m <= sorted@.len(),
            es == entry_views(sorted@),
            forall|i: int| 0 <= i < es.len() ==> (#[trigger] es[i]).len() >= 1,
            out@ == root_name@ + lines_upto(es, m as int),
        decreases sorted@.len() - m,
    {
        let e = &sorted[m];
        let elen = e.len();
        proof {
            assert(es[m as int] == string_views(e@));
            assert(es[m as int].len() >= 1);
        }
        out.append("\n");
        let ghost base = root_name@ + lines_upto(es, m as int) + seq!['\n'];
        proof {
            reveal_strlit("\n");
            assert(out@ =~= base);
            assert(prefix_up_to(es, string_views(e@), 0) == Seq::<char>::empty());
        }
        let mut d: usize = 1;
        while d < elen
            invariant
                1 <= d <= elen,
                elen == e@.len(),
                elen >= 1,
                es == entry_views(sorted@),
                m < sorted@.len(),
                e == &sorted@[m as int],
                es[m as int] == string_views(e@),
                out@ == base + prefix_up_to(es, string_views(e@), d as int - 1),
            decreases elen - d,
        {
            if is_last_at(&sorted, e, d) {
                out.append("    ");
            } else {
                out.append("│   ");
            }
            proof {
                assert(out@ =~= base + prefix_up_to(es, string_views(e@), d as int));
            }
            d = d + 1;
        }
        if is_last_at(&sorted, e, elen) {
            out.append("└── ");
        } else {
            out.append("├── ");
        }
        out.append(e[elen - 1].as_str());
        proof {
            let ev = string_views(e@);
            assert(ev.take(elen as int) =~= ev);
            assert(ev.last() == e@[elen - 1]@);
            assert(out@ =~= root_name@ + lines_upto(es, m as int + 1));
        }
        m = m + 1;
    }
    proof {
        assert(out@ == root_name@ + lines_upto(es, es.len() as int));
    }
    out
}

} // verus!
