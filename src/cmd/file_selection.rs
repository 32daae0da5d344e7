use rand::seq::SliceRandom;
use vstd::prelude::*;

use crate::api::classification::Selection;
use crate::cmd::directory_listing::FileEntry;

verus! {

/// How many candidates the selector is shown at most. The cap bounds the
/// size of the request; the candidates are taken in discovery order, which is
/// therefore a weak priority.
pub const SELECTION_LIMIT: usize = 30;

pub open spec fn path_views(v: Seq<String>) -> Seq<Seq<char>> {
    v.map_values(|s: String| s@)
}

/// The paths the selector is shown: those of the first `SELECTION_LIMIT`
/// candidates, in order.
pub open spec fn bounded_paths(files: Seq<FileEntry>) -> Seq<Seq<char>> {
    let n = if files.len() < SELECTION_LIMIT {
        files.len() as int
    } else {
        SELECTION_LIMIT as int
    };
    files.take(n).map_values(|f: FileEntry| f.path@)
}

/// The candidates whose path the selector named, in candidate order.
pub open spec fn chosen_files(files: Seq<FileEntry>, chosen: Seq<Seq<char>>) -> Seq<FileEntry>
    decreases files.len(),
{
    if files.len() == 0 {
        Seq::empty()
    } else if chosen.contains(files.last().path@) {
        chosen_files(files.drop_last(), chosen).push(files.last())
    } else {
        chosen_files(files.drop_last(), chosen)
    }
}

/// The result of selection for a selector answer: every candidate when it
/// named nothing, else the candidates it named.
pub open spec fn narrowed(files: Seq<FileEntry>, chosen: Seq<Seq<char>>) -> Seq<FileEntry> {
    if chosen.len() == 0 {
        files
    } else {
        chosen_files(files, chosen)
    }
}

/// The paths to send to the selector.
pub fn selection_request(files: &Vec<FileEntry>) -> (r: Vec<String>)
    ensures
        path_views(r@) == bounded_paths(files@),
{
    let n = if files.len() < SELECTION_LIMIT {
        files.len()
    } else {
        SELECTION_LIMIT
    };
    let mut r: Vec<String> = Vec::new();
    let mut i: usize = 0;
    while i < n
        invariant
            i <= n,
            n <= files.len(),
            n == if files.len() < SELECTION_LIMIT {
                files.len()
            } else {
                SELECTION_LIMIT
            },
            path_views(r@) == files@.take(i as int).map_values(|f: FileEntry| f.path@),
        decreases n - i,
    {
        let ghost before = r@;
        r.push(files[i].path.clone());
        proof {
            assert(files@.take(i + 1) =~= files@.take(i as int).push(files@[i as int]));
            assert(path_views(r@) =~= path_views(before).push(files@[i as int].path@));
        }
        i += 1;
        assert(path_views(r@) =~= files@.take(i as int).map_values(|f: FileEntry| f.path@));
    }
    r
}

fn names_path(chosen: &Vec<String>, path: &String) -> (r: bool)
    ensures
        r == path_views(chosen@).contains(path@),
{
    let mut i: usize = 0;
    while i < chosen.len()
        invariant
            i <= chosen.len(),
            forall|j: int| 0 <= j < i ==> chosen@[j]@ != path@,
        decreases chosen.len() - i,
    {
        if chosen[i] == *path {
            assert(path_views(chosen@)[i as int] == path@);
            return true;
        }
        i += 1;
    }
    proof {
        if path_views(chosen@).contains(path@) {
            let j = choose|j: int| 0 <= j < chosen@.len() && path_views(chosen@)[j] == path@;
            assert(chosen@[j]@ == path@);
        }
    }
    false
}

/// Narrows the candidates to the selector's answer. An empty answer means no
/// preference: every candidate is kept, not only those that were sent.
pub fn narrow_to_selection(files: Vec<FileEntry>, selection: &Selection) -> (r: Vec<FileEntry>)
    ensures
        r@ == narrowed(files@, path_views(selection.files@)),
{
    if selection.files.len() == 0 {
        return files;
    }
    let mut r: Vec<FileEntry> = Vec::new();
    let mut i: usize = 0;
    while i < files.len()
        invariant
            i <= files.len(),
            selection.files.len() > 0,
            r@ == chosen_files(files@.take(i as int), path_views(selection.files@)),
        decreases files.len() - i,
    {
        proof {
            assert(files@.take(i + 1).drop_last() =~= files@.take(i as int));
            assert(files@.take(i + 1).last() == files@[i as int]);
        }
        if names_path(&selection.files, &files[i].path) {
            r.push(FileEntry { path: files[i].path.clone(), size: files[i].size });
        }
        i += 1;
    }
    assert(files@.take(i as int) =~= files@);
    r
}

/// Selection once the selector has answered: a failed call is passed on
/// unchanged rather than replaced by a fallback; a successful one narrows
/// the candidates.
pub fn resolve_selection<E>(files: Vec<FileEntry>, response: Result<Selection, E>) -> (r: Result<
    Vec<FileEntry>,
    E,
>)
    ensures
        response matches Ok(s) ==> r matches Ok(v) && v@ == narrowed(files@, path_views(s.files@)),
        response matches Err(e) ==> r matches Err(e2) && e2 == e,
{
    match response {
        Ok(selection) => Ok(narrow_to_selection(files, &selection)),
        Err(e) => Err(e),
    }
}

/// Relies on rand's `SliceRandom::shuffle`: it permutes the slice in place
/// by swaps, drawing from the thread-local generator.
#[verifier::external_body]
fn shuffle_in_place(files: &mut Vec<FileEntry>)
    ensures
        final(files)@.to_multiset() == old(files)@.to_multiset(),
{
    files.shuffle(&mut rand::thread_rng());
}

/// The candidates in a random order, so that the selection bound does not
/// always favour the same files.
pub fn shuffled_candidates(files: Vec<FileEntry>) -> (r: Vec<FileEntry>)
    ensures
        r@.to_multiset() == files@.to_multiset(),
{
    let mut v = files;
    shuffle_in_place(&mut v);
    v
}

/// An empty selector answer keeps the whole candidate list, not only the
/// part that was sent.
pub proof fn lemma_empty_answer_keeps_all(files: Seq<FileEntry>)
    ensures
        narrowed(files, Seq::empty()) == files,
{
}

proof fn lemma_unnamed_files_dropped(files: Seq<FileEntry>, p: Seq<char>)
    requires
        forall|i: int| 0 <= i < files.len() ==> files[i].path@ != p,
    ensures
        chosen_files(files, seq![p]) == Seq::<FileEntry>::empty(),
    decreases files.len(),
{
    if files.len() > 0 {
        assert(files.last() == files[files.len() - 1]);
        assert(!seq![p].contains(files.last().path@)) by {
            assert(seq![p][0] == p);
        }
        lemma_unnamed_files_dropped(files.drop_last(), p);
    }
}

/// When the selector names the path of one candidate, and candidate paths are
/// distinct, selection yields exactly that candidate.
pub proof fn lemma_single_answer_keeps_that_file(files: Seq<FileEntry>, k: int)
    requires
        0 <= k < files.len(),
        forall|a: int, b: int| 0 <= a < b < files.len() ==> files[a].path@ != files[b].path@,
    ensures
        narrowed(files, seq![files[k].path@]) == seq![files[k]],
    decreases files.len(),
{
    let p = files[k].path@;
    assert(seq![p].len() == 1);
    assert(seq![p][0] == p);
    let rest = files.drop_last();
    if k == files.len() - 1 {
        assert forall|i: int| 0 <= i < rest.len() implies rest[i].path@ != p by {
            assert(rest[i] == files[i]);
        }
        lemma_unnamed_files_dropped(rest, p);
        assert(seq![p].contains(files.last().path@));
        assert(chosen_files(files, seq![p]) =~= seq![files[k]]);
    } else {
        assert(files.last() == files[files.len() - 1]);
        assert(!seq![p].contains(files.last().path@));
        assert(rest[k] == files[k]);
        lemma_single_answer_keeps_that_file(rest, k);
    }
}

} // verus!
