use vstd::prelude::*;
use crate::model::TypstFile;
use crate::paths::opt_view;
use crate::text::{insert_sorted, strictly_sorted, views_of};

verus! {

broadcast use vstd::string::group_string_axioms;

/// The decks the files belong to.
pub open spec fn file_deck_set(files: Seq<TypstFile>) -> Set<Seq<char>> {
    Set::new(|d: Seq<char>| exists|i: int| 0 <= i < files.len() && #[trigger] files[i].deck@ == d)
}

/// The files of one deck, in their order.
pub open spec fn deck_files(files: Seq<TypstFile>, deck: Seq<char>) -> Seq<TypstFile>
    decreases files.len(),
{
    if files.len() == 0 {
        Seq::empty()
    } else {
        let p = deck_files(files.drop_last(), deck);
        if files.last().deck@ == deck {
            p.push(files.last())
        } else {
            p
        }
    }
}

/// The deck names of a grouping.
pub open spec fn group_decks(g: Seq<(String, Vec<TypstFile>)>) -> Seq<Seq<char>> {
    Seq::new(g.len(), |i: int| g[i].0@)
}

fn files_of_deck(files: &[TypstFile], deck: &String) -> (r: Vec<TypstFile>)
    ensures
        r@ == deck_files(files@, deck@),
{
    let mut out: Vec<TypstFile> = Vec::new();
    let mut i: usize = 0;
    assert(files@.take(0) =~= Seq::<TypstFile>::empty());
    while i < files.len()
        invariant
            i <= files.len(),
            out@ == deck_files(files@.take(i as int), deck@),
        decreases files.len() - i,
    {
        assert(files@.take(i + 1).drop_last() =~= files@.take(i as int));
        if files[i].deck == *deck {
            out.push(files[i].duplicate());
        }
        i += 1;
    }
    assert(files@.take(files.len() as int) =~= files@);
    out
}

/// The files grouped by deck: the decks sorted, each once, each with its files in
/// their order.
pub fn files_by_deck(files: &[TypstFile]) -> (r: Vec<(String, Vec<TypstFile>)>)
    ensures
        strictly_sorted(group_decks(r@)),
        group_decks(r@).to_set() == file_deck_set(files@),
        forall|i: int| 0 <= i < r@.len() ==> (#[trigger] r@[i]).1@ == deck_files(files@, r@[i].0@),
{
    let mut decks: Vec<String> = Vec::new();
    let mut i: usize = 0;
    assert(views_of(decks@).to_set() =~= Set::<Seq<char>>::empty());
    while i < files.len()
        invariant
            i <= files.len(),
            strictly_sorted(views_of(decks@)),
            views_of(decks@).to_set() == Set::new(
                |d: Seq<char>| exists|k: int| 0 <= k < i && #[trigger] files@[k].deck@ == d,
            ),
        decreases files.len() - i,
    {
        insert_sorted(&mut decks, files[i].deck.clone());
        assert(views_of(decks@).to_set() =~= Set::new(
            |d: Seq<char>| exists|k: int| 0 <= k < i + 1 && #[trigger] files@[k].deck@ == d,
        )) by {
            assert(files@[i as int].deck@ == files[i as int].deck@);
        }
        i += 1;
    }
    assert(views_of(decks@).to_set() =~= file_deck_set(files@));
    let mut groups: Vec<(String, Vec<TypstFile>)> = Vec::new();
    let mut j: usize = 0;
    while j < decks.len()
        invariant
            j <= decks.len(),
            groups@.len() == j,
            forall|k: int| 0 <= k < j ==> (#[trigger] groups@[k]).0@ == views_of(decks@)[k],
            forall|k: int| 0 <= k < j ==> (#[trigger] groups@[k]).1@ == deck_files(files@, groups@[k].0@),
        decreases decks.len() - j,
    {
        let members = files_of_deck(files, &decks[j]);
        groups.push((decks[j].clone(), members));
        j += 1;
    }
    assert(group_decks(groups@) =~= views_of(decks@));
    groups
}

/// Index of the first file with the given path, or -1.
pub open spec fn path_index(files: Seq<TypstFile>, path: Seq<char>) -> int
    decreases files.len(),
{
    if files.len() == 0 {
        -1
    } else if path_index(files.drop_last(), path) >= 0 {
        path_index(files.drop_last(), path)
    } else if files.last().path@ == path {
        files.len() - 1
    } else {
        -1
    }
}

pub proof fn lemma_path_index(files: Seq<TypstFile>, path: Seq<char>)
    ensures
        -1 <= path_index(files, path) < files.len(),
        path_index(files, path) >= 0 ==> files[path_index(files, path)].path@ == path,
    decreases files.len(),
{
    if files.len() > 0 {
        lemma_path_index(files.drop_last(), path);
    }
}

/// The file the preview shows: the active file when the workspace has it, else the
/// first file; -1 for an empty workspace.
pub open spec fn spec_preview_index(files: Seq<TypstFile>, active: Option<Seq<char>>) -> int {
    let k = match active {
        Some(p) => path_index(files, p),
        None => -1,
    };
    if k >= 0 {
        k
    } else if files.len() > 0 {
        0
    } else {
        -1
    }
}

proof fn lemma_path_index_extends(files: Seq<TypstFile>, path: Seq<char>, i: int)
    requires
        0 <= i <= files.len(),
        path_index(files.take(i), path) >= 0,
    ensures
        path_index(files, path) == path_index(files.take(i), path),
    decreases files.len() - i,
{
    if i < files.len() {
        assert(files.take(i + 1).drop_last() =~= files.take(i));
        lemma_path_index_extends(files, path, i + 1);
    } else {
        assert(files.take(i) =~= files);
    }
}

/// Which file the preview shows, by index.
pub fn preview_index(files: &[TypstFile], active: &Option<String>) -> (r: Option<usize>)
    ensures
        match r {
            Some(k) => k as int == spec_preview_index(files@, opt_view(*active)) && k < files.len(),
            None => spec_preview_index(files@, opt_view(*active)) == -1,
        },
{
    if let Some(p) = active {
        let mut i: usize = 0;
        while i < files.len()
            invariant
                i <= files.len(),
                opt_view(*active) == Some(p@),
                path_index(files@.take(i as int), p@) < 0,
            decreases files.len() - i,
        {
            assert(files@.take(i + 1).drop_last() =~= files@.take(i as int));
            if files[i].path == *p {
                assert(files@.take(i + 1).last() == files@[i as int]);
                assert(path_index(files@.take(i + 1), p@) == i);
                proof {
                    lemma_path_index_extends(files@, p@, i as int + 1);
                }
                return Some(i);
            }
            i += 1;
        }
        assert(files@.take(files.len() as int) =~= files@);
    }
    if files.len() > 0 {
        Some(0)
    } else {
        None
    }
}

} // verus!
