//! The ignore policy: which paths the enumerator and the tree renderer
//! leave out.  The walker applies the version-control ignore files itself;
//! this module holds the policy's own predicate over a single path, used to
//! judge individual files.  Paths are written with `/` separators.

use vstd::prelude::*;
use crate::strutil::str_eq;

verus! {

/// The composable ignore policy.
#[derive(Debug, Clone, Copy, PartialEq, Eq, Structural)]
pub struct IgnoreConfig {
    /// Skip hidden files and directories.
    pub ignore_hidden: bool,
    /// Honour version-control ignore files (consumed by the walker).
    pub use_gitignore: bool,
    /// Skip the well-known large dependency directory.
    pub ignore_node_modules: bool,
}

impl Default for IgnoreConfig {
    /// Everything is filtered by default.
    fn default() -> (r: Self)
        ensures
            r.ignore_hidden,
            r.use_gitignore,
            r.ignore_node_modules,
    {
        IgnoreConfig { ignore_hidden: true, use_gitignore: true, ignore_node_modules: true }
    }
}

/// Index of the last `/` of `s`, or -1.
pub open spec fn last_sep_idx(s: Seq<char>) -> int
    decreases s.len(),
{
    if s.len() == 0 {
        -1
    } else if s.last() == '/' {
        s.len() - 1
    } else {
        last_sep_idx(s.drop_last())
    }
}

pub proof fn lemma_last_sep_idx_bounds(s: Seq<char>)
    ensures
        -1 <= last_sep_idx(s) < s.len(),
    decreases s.len(),
{
    if s.len() > 0 && s.last() != '/' {
        lemma_last_sep_idx_bounds(s.drop_last());
    }
}

/// The file name of a path: what follows the last separator.
pub open spec fn file_name_of(s: Seq<char>) -> Seq<char> {
    s.skip(last_sep_idx(s) + 1)
}

/// A hidden entry: its file name starts with a dot.
pub open spec fn is_hidden(s: Seq<char>) -> bool {
    file_name_of(s).len() > 0 && file_name_of(s)[0] == '.'
}

/// `name` occurs as one whole path component of `s`.
pub open spec fn component_at(s: Seq<char>, name: Seq<char>, i: int) -> bool {
    &&& 0 <= i
    &&& i + name.len() <= s.len()
    &&& s.subrange(i, i + name.len() as int) == name
    &&& (i == 0 || s[i - 1] == '/')
    &&& (i + name.len() == s.len() || s[i + name.len() as int] == '/')
}

pub open spec fn has_component(s: Seq<char>, name: Seq<char>) -> bool {
    exists|i: int| component_at(s, name, i)
}

/// What the policy ignores on its own: hidden entries when configured, and
/// any path with the dependency directory among its components.
pub open spec fn should_ignore_spec(cfg: IgnoreConfig, s: Seq<char>) -> bool {
    ||| cfg.ignore_hidden && is_hidden(s)
    ||| cfg.ignore_node_modules && has_component(s, "node_modules"@)
}

impl IgnoreConfig {
    /// Judges a single path against the policy.
    pub fn should_ignore_path(&self, path: &str) -> (r: bool)
        ensures
            r == should_ignore_spec(*self, path@),
    {
        if self.ignore_hidden {
            let name_start = find_last_sep(path);
            if name_start < path.unicode_len() {
                if path.get_char(name_start) == '.' {
                    proof {
                        assert(file_name_of(path@)[0] == path@[name_start as int]);
                    }
                    return true;
                }
            }
            proof {
                lemma_last_sep_idx_bounds(path@);
                if is_hidden(path@) {
                    assert(file_name_of(path@)[0] == path@[last_sep_idx(path@) + 1]);
                }
            }
        }
        if self.ignore_node_modules {
            proof {
                reveal_strlit("node_modules");
            }
            if has_component_exec(path, "node_modules") {
                return true;
            }
        }
        false
    }
}

/// Finds the position just past the last separator.
fn find_last_sep(s: &str) -> (r: usize)
    ensures
        r as int == last_sep_idx(s@) + 1,
        r <= s@.len(),
{
    let len = s.unicode_len();
    let mut j: usize = len;
    proof {
        assert(s@.take(len as int) =~= s@);
        lemma_last_sep_idx_bounds(s@);
    }
    loop
        invariant
            j <= len,
            len == s@.len(),
            last_sep_idx(s@) == last_sep_idx(s@.take(j as int)),
        decreases j,
    {
        if j == 0 {
            proof {
                assert(s@.take(0) =~= Seq::<char>::empty());
            }
            return 0;
        }
        let c = s.get_char(j - 1);
        if c == '/' {
            proof {
                assert(s@.take(j as int).last() == '/');
            }
            return j;
        }
        proof {
            assert(s@.take(j as int).last() == s@[j - 1]);
            assert(s@.take(j as int).drop_last() =~= s@.take(j as int - 1));
        }
        j = j - 1;
    }
}

/// Scans for `name` as a whole path component.
fn has_component_exec(s: &str, name: &str) -> (r: bool)
    requires
        name@.len() >= 1,
    ensures
        r == has_component(s@, name@),
{
    let slen = s.unicode_len();
    let nlen = name.unicode_len();
    if nlen > slen {
        proof {
            assert forall|i: int| !component_at(s@, name@, i) by {}
        }
        return false;
    }
    let mut i: usize = 0;
    while i <= slen - nlen
        invariant
            nlen <= slen,
            slen == s@.len(),
            nlen == name@.len(),
            i <= slen - nlen + 1,
            1 <= nlen,
            forall|k: int| 0 <= k < i ==> !component_at(s@, name@, k),
        decreases slen - i,
    {
        let left_ok = i == 0 || s.get_char(i - 1) == '/';
        let right_ok = i + nlen == slen || s.get_char(i + nlen) == '/';
        if left_ok && right_ok {
            let piece = s.substring_char(i, i + nlen);
            proof {
                assert(piece@ =~= s@.subrange(i as int, i as int + name@.len() as int));
            }
            if str_eq(piece, name) {
                proof {
                    assert(component_at(s@, name@, i as int));
                }
                return true;
            }
        }
        i = i + 1;
    }
    proof {
        assert forall|k: int| !component_at(s@, name@, k) by {
            if 0 <= k <= s@.len() - name@.len() {
                assert(k < i);
            }
        }
    }
    false
}

} // verus!
