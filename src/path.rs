use vstd::prelude::*;

verus! {

/// The parent directory of a path, as `std::path::Path::parent` finds it.
pub uninterp spec fn parent_of(p: Seq<char>) -> Option<Seq<char>>;

/// Relies on `std::path::Path::parent`: the path without its final
/// component, or `None` for a root, a prefix or the empty path. What is left
/// is a part of the text that ends before that component, so it is shorter.
#[verifier::external_body]
pub(crate) fn parent_dir(p: &String) -> (r: Option<String>)
    ensures
        match r {
            Some(q) => parent_of(p@) == Some(q@) && q@.len() < p@.len(),
            None => parent_of(p@) is None,
        },
{
    match std::path::Path::new(p.as_str()).parent() {
        Some(q) => Some(q.to_string_lossy().into_owned()),
        None => None,
    }
}

/// The ancestor chain of `p`: `p`, its parent, the parent of that, and so on
/// up to the first path without a parent.
pub open spec fn ancestors(p: Seq<char>) -> Seq<Seq<char>>
    decreases p.len(),
{
    match parent_of(p) {
        Some(q) => if q.len() < p.len() {
            seq![p] + ancestors(q)
        } else {
            seq![p]
        },
        None => seq![p],
    }
}

/// The chain starts at the path itself.
pub proof fn lemma_ancestors_start(p: Seq<char>)
    ensures
        ancestors(p).len() > 0,
        ancestors(p)[0] == p,
{
}

/// Past its first element, the chain of a path is the chain of its parent.
pub proof fn lemma_ancestors_step(p: Seq<char>, q: Seq<char>)
    requires
        parent_of(p) == Some(q),
        q.len() < p.len(),
    ensures
        ancestors(p) == seq![p] + ancestors(q),
        ancestors(p).drop_first() == ancestors(q),
{
    assert((seq![p] + ancestors(q)).drop_first() =~= ancestors(q));
}

/// A path without a parent is its own whole chain.
pub proof fn lemma_ancestors_last(p: Seq<char>)
    requires
        parent_of(p) is None,
    ensures
        ancestors(p) == seq![p],
{
}

/// Walks from `p` up to the root, listing each directory on the way.
pub fn ancestor_chain(p: &String) -> (r: Vec<String>)
    ensures
        r@.map_values(|s: String| s@) == ancestors(p@),
{
    let mut out: Vec<String> = Vec::new();
    let mut curr: String = p.clone();
    assert(out@.map_values(|s: String| s@) + ancestors(curr@) =~= ancestors(p@));
    loop
        invariant
            out@.map_values(|s: String| s@) + ancestors(curr@) == ancestors(p@),
        decreases curr@.len(),
    {
        let ghost before = out@.map_values(|s: String| s@);
        let ghost c = curr@;
        let next = parent_dir(&curr);
        out.push(curr);
        assert(out@.map_values(|s: String| s@) =~= before.push(c));
        match next {
            Some(q) => {
                proof {
                    lemma_ancestors_step(c, q@);
                    assert(before.push(c) + ancestors(q@) =~= before + (seq![c] + ancestors(q@)));
                }
                curr = q;
            },
            None => {
                proof {
                    lemma_ancestors_last(c);
                    assert(before.push(c) =~= before + seq![c]);
                }
                return out;
            },
        }
    }
}

} // verus!
