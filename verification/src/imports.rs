//! The module system's record of imported files: each file is read at most
//! once per compilation.
use vstd::prelude::*;
use crate::text::{chars_eq, chars_of};

verus! {

/// The paths of a record, as character sequences.
pub open spec fn paths_view(v: Seq<String>) -> Seq<Seq<char>> {
    v.map_values(|p: String| p@)
}

/// Marks `path` as imported.  Returns whether it was new: a new path is
/// added at the end of the record, and one already there leaves the record
/// as it was (the file is then skipped).
pub fn begin_import(imported: &mut Vec<String>, path: &str) -> (fresh: bool)
    ensures
        fresh == !paths_view(old(imported)@).contains(path@),
        paths_view(final(imported)@) == if fresh {
            paths_view(old(imported)@).push(path@)
        } else {
            paths_view(old(imported)@)
        },
        paths_view(old(imported)@).no_duplicates() ==> paths_view(final(imported)@).no_duplicates(),
{
    let p = chars_of(path);
    let mut k: usize = 0;
    while k < imported.len()
        invariant
            k <= imported@.len(),
            p@ == path@,
            forall|j: int| 0 <= j < k ==> imported@[j]@ != path@,
        decreases imported.len() - k,
    {
        let q = chars_of(imported[k].as_str());
        if chars_eq(&p, q.as_slice()) {
            assert(paths_view(imported@)[k as int] == path@);
            return false;
        }
        k += 1;
    }
    assert(!paths_view(imported@).contains(path@)) by {
        if paths_view(imported@).contains(path@) {
            let j = choose|j: int| 0 <= j < imported@.len() && paths_view(imported@)[j] == path@;
            assert(imported@[j]@ == path@);
        }
    }
    let ghost before = imported@;
    imported.push(path.to_string());
    assert(paths_view(imported@) =~= paths_view(before).push(path@));
    assert(paths_view(before).no_duplicates() ==> paths_view(imported@).no_duplicates()) by {
        let v = paths_view(imported@);
        if paths_view(before).no_duplicates() {
            assert forall|i: int, j: int| 0 <= i < v.len() && 0 <= j < v.len() && i != j implies v[i] != v[j] by {
                if i < before.len() && j < before.len() {
                    assert(v[i] == paths_view(before)[i] && v[j] == paths_view(before)[j]);
                } else if i == before.len() {
                    assert(v[i] == path@);
                    assert(v[j] == paths_view(before)[j]);
                    assert(paths_view(before).contains(paths_view(before)[j]));
                } else {
                    assert(v[j] == path@);
                    assert(v[i] == paths_view(before)[i]);
                    assert(paths_view(before).contains(paths_view(before)[i]));
                }
            }
        }
    }
    true
}

} // verus!
