//! Sorting a batch of changes by the file that each is for.

use vstd::prelude::*;
use crate::encoding::same_text;
use crate::file::Change;

verus! {

/// The changes among the first `n` of `changes` that are for `path`, in the
/// order in which they stand in the batch.
pub open spec fn changes_for<'a>(changes: Seq<Change>, path: Seq<char>, n: int) -> Seq<&'a Change>
    decreases n,
{
    if n <= 0 {
        Seq::empty()
    } else if changes[n - 1].path() == path {
        changes_for(changes, path, n - 1).push(&changes[n - 1])
    } else {
        changes_for(changes, path, n - 1)
    }
}

/// The paths that the first `n` of `changes` name, each once, in the order
/// in which they first appear.
pub open spec fn changed_paths(changes: Seq<Change>, n: int) -> Seq<Seq<char>>
    decreases n,
{
    if n <= 0 {
        Seq::empty()
    } else {
        let before = changed_paths(changes, n - 1);
        if before.contains(changes[n - 1].path()) {
            before
        } else {
            before.push(changes[n - 1].path())
        }
    }
}

/// `changed_paths` names every path of the batch once, and no other; the
/// changes for a path that it names are at least one, and for any other path
/// there are none.
pub proof fn lemma_changed_paths(changes: Seq<Change>, n: int)
    requires
        0 <= n <= changes.len(),
    ensures
        forall|g: int, h: int|
            0 <= g < h < changed_paths(changes, n).len() ==> changed_paths(changes, n)[g]
                != changed_paths(changes, n)[h],
        forall|j: int|
            0 <= j < n ==> changed_paths(changes, n).contains(#[trigger] changes[j].path()),
        forall|path: Seq<char>|
            changed_paths(changes, n).contains(path) <==> #[trigger] changes_for(
                changes,
                path,
                n,
            ).len() > 0,
    decreases n,
{
    if n > 0 {
        lemma_changed_paths(changes, n - 1);
        let before = changed_paths(changes, n - 1);
        let now = changed_paths(changes, n);
        let last = changes[n - 1].path();
        assert forall|j: int| 0 <= j < n implies now.contains(#[trigger] changes[j].path()) by {
            if j < n - 1 {
                let g = choose|g: int| 0 <= g < before.len() && before[g] == changes[j].path();
                assert(now[g] == changes[j].path());
            } else if before.contains(last) {
            } else {
                assert(now[now.len() - 1] == last);
            }
        }
        assert forall|path: Seq<char>| now.contains(path) <==> #[trigger] changes_for(
            changes,
            path,
            n,
        ).len() > 0 by {
            let earlier = changes_for(changes, path, n - 1);
            assert(before.contains(path) <==> earlier.len() > 0);
            if path == last {
                assert(now.contains(changes[n - 1].path()));
                assert(changes_for(changes, path, n) == earlier.push(&changes[n - 1]));
            } else {
                assert(changes_for(changes, path, n) == earlier);
                if now.contains(path) {
                    let g = choose|g: int| 0 <= g < now.len() && now[g] == path;
                    assert(g < before.len());
                    assert(before[g] == path);
                }
                if before.contains(path) {
                    let g = choose|g: int| 0 <= g < before.len() && before[g] == path;
                    assert(now[g] == path);
                }
            }
        }
    }
}

/// Groups the changes of a batch by the file that each is for. The groups
/// come in the order in which their files first appear in the batch, and
/// within a group the changes keep the order that they have in the batch.
pub fn coalesce_changes<'a>(changes: &'a [Change]) -> (groups: Vec<(&'a str, Vec<&'a Change>)>)
    ensures
        groups@.len() == changed_paths(changes@, changes@.len() as int).len(),
        forall|g: int|
            0 <= g < groups@.len() ==> {
                &&& (#[trigger] groups@[g]).0@ == changed_paths(
                    changes@,
                    changes@.len() as int,
                )[g]
                &&& groups@[g].1@ == changes_for(changes@, groups@[g].0@, changes@.len() as int)
            },
{
    let mut groups: Vec<(&'a str, Vec<&'a Change>)> = Vec::new();
    let mut i: usize = 0;
    while i < changes.len()
        invariant
            i <= changes@.len(),
            groups@.len() == changed_paths(changes@, i as int).len(),
            forall|g: int|
                0 <= g < groups@.len() ==> {
                    &&& (#[trigger] groups@[g]).0@ == changed_paths(changes@, i as int)[g]
                    &&& groups@[g].1@ == changes_for(changes@, groups@[g].0@, i as int)
                },
        decreases changes@.len() - i,
    {
        let change = &changes[i];
        let path = change.file();
        let ghost before = changed_paths(changes@, i as int);
        proof {
            lemma_changed_paths(changes@, i as int);
        }
        let mut found: Option<usize> = None;
        let mut g: usize = 0;
        while g < groups.len() && found.is_none()
            invariant
                g <= groups@.len(),
                groups@.len() == before.len(),
                forall|h: int| 0 <= h < groups@.len() ==> (#[trigger] groups@[h]).0@ == before[h],
                match found {
                    Some(at) => at < groups@.len() && before[at as int] == path@,
                    None => forall|h: int| 0 <= h < g ==> before[h] != path@,
                },
            decreases groups@.len() - g + (if found is None { 1int } else { 0int }),
        {
            if same_text(groups[g].0, path) {
                found = Some(g);
            } else {
                g = g + 1;
            }
        }
        match found {
            Some(at) => {
                let ghost old_groups = groups@;
                groups[at].1.push(change);
                assert(groups@[at as int].0 == old_groups[at as int].0);
                assert forall|h: int| 0 <= h < groups@.len() implies {
                    &&& (#[trigger] groups@[h]).0@ == changed_paths(changes@, i + 1)[h]
                    &&& groups@[h].1@ == changes_for(changes@, groups@[h].0@, i + 1)
                } by {
                    if h != at {
                        assert(groups@[h] == old_groups[h]);
                    }
                }
            },
            None => {
                let mut list: Vec<&'a Change> = Vec::new();
                list.push(change);
                groups.push((path, list));
                assert(changes_for(changes@, path@, i as int).len() == 0);
                assert(list@ =~= changes_for(changes@, path@, i + 1));
            },
        }
        i = i + 1;
    }
    groups
}

} // verus!
