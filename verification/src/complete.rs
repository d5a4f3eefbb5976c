//! Pure suggestion logic behind the interactive completer: the command-name
//! candidates for a partial command, and the selected paths matching a
//! partial argument of the deselect command.

use vstd::prelude::*;
use crate::state::string_views;
use crate::strutil::{is_prefix, str_has_prefix};

verus! {

/// The command names offered for completion.
pub open spec fn completion_commands() -> Seq<Seq<char>> {
    seq!["/add"@, "/remove"@, "/context"@, "/copy"@, "/help"@, "/quit"@]
}

/// Keeps the candidates the typed text is a prefix of.
pub open spec fn prefixed(p: Seq<char>) -> spec_fn(Seq<char>) -> bool {
    |c: Seq<char>| is_prefix(p, c)
}

/// Appends `cand` to the suggestions when the typed text is its prefix,
/// keeping the filtered-list shape of the accumulator.
fn push_if_prefix(out: &mut Vec<String>, cand: &'static str, input: &str, acc: Ghost<Seq<Seq<char>>>)
    requires
        string_views(old(out)@) == acc@.filter(prefixed(input@)),
    ensures
        string_views(final(out)@) == acc@.push(cand@).filter(prefixed(input@)),
{
    proof {
        acc@.lemma_filter_push(cand@, prefixed(input@));
    }
    if str_has_prefix(cand, input) {
        out.push(String::from_str(cand));
        proof {
            assert(string_views(out@) =~= acc@.filter(prefixed(input@)).push(cand@));
        }
    }
}

/// The command names that start with the typed text, in their fixed order.
pub fn suggest_commands(input: &str) -> (r: Vec<String>)
    ensures
        string_views(r@) == completion_commands().filter(prefixed(input@)),
{
    let mut out: Vec<String> = Vec::new();
    let ghost e = Seq::<Seq<char>>::empty();
    proof {
        reveal(Seq::filter);
        assert(string_views(out@) =~= e.filter(prefixed(input@)));
    }
    push_if_prefix(&mut out, "/add", input, Ghost(e));
    let ghost s1 = e.push("/add"@);
    push_if_prefix(&mut out, "/remove", input, Ghost(s1));
    let ghost s2 = s1.push("/remove"@);
    push_if_prefix(&mut out, "/context", input, Ghost(s2));
    let ghost s3 = s2.push("/context"@);
    push_if_prefix(&mut out, "/copy", input, Ghost(s3));
    let ghost s4 = s3.push("/copy"@);
    push_if_prefix(&mut out, "/help", input, Ghost(s4));
    let ghost s5 = s4.push("/help"@);
    push_if_prefix(&mut out, "/quit", input, Ghost(s5));
    proof {
        assert(s5.push("/quit"@) =~= completion_commands());
    }
    out
}

/// The selected paths that start with the typed partial path, in selection
/// order.
pub fn suggest_context_paths(selected: &Vec<String>, partial: &str) -> (r: Vec<String>)
    ensures
        string_views(r@) == string_views(selected@).filter(prefixed(partial@)),
{
    let ghost sv = string_views(selected@);
    let ghost p = prefixed(partial@);
    let mut out: Vec<String> = Vec::new();
    let mut i: usize = 0;
    proof {
        reveal(Seq::filter);
        assert(sv.take(0) =~= Seq::<Seq<char>>::empty());
        assert(string_views(out@) =~= sv.take(0).filter(p));
    }
    while i < selected.len()
        invariant
            i <= selected@.len(),
            sv == string_views(selected@),
            p == prefixed(partial@),
            string_views(out@) == sv.take(i as int).filter(p),
        decreases selected@.len() - i,
    {
        proof {
            assert(sv.take(i as int + 1) =~= sv.take(i as int).push(sv[i as int]));
            sv.take(i as int).lemma_filter_push(sv[i as int], p);
        }
        if str_has_prefix(selected[i].as_str(), partial) {
            let mut copy = String::new();
            copy.append(selected[i].as_str());
            out.push(copy);
            proof {
                assert(string_views(out@) =~= sv.take(i as int).filter(p).push(sv[i as int]));
            }
        }
        i = i + 1;
    }
    proof {
        assert(sv.take(selected@.len() as int) =~= sv);
    }
    out
}

} // verus!
