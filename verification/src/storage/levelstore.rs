//! The files of each level.
use vstd::prelude::*;
use vstd::string::*;
use crate::storage::constant::MAXIMUM_LEVEL_FILES;
use crate::text;

verus! {

/// The names of files.
pub open spec fn names(files: Seq<String>) -> Seq<Seq<char>> {
    Seq::new(files.len(), |i: int| files[i]@)
}

/// The names of the files of levels.
pub open spec fn all_names(store: Seq<Vec<String>>) -> Seq<Seq<Seq<char>>> {
    Seq::new(store.len(), |i: int| names(store[i]@))
}

/// The files of each level; the first level is level 0.
pub struct Levelstore {
    store: Vec<Vec<String>>,
}

impl View for Levelstore {
    type V = Seq<Seq<Seq<char>>>;

    closed spec fn view(&self) -> Seq<Seq<Seq<char>>> {
        all_names(self.store@)
    }
}

/// Levels up to `level`, the missing ones without files.
pub open spec fn padded(levels: Seq<Seq<Seq<char>>>, level: int) -> Seq<Seq<Seq<char>>> {
    if levels.len() > level {
        levels
    } else {
        levels + Seq::new((level + 1 - levels.len()) as nat, |i: int| seq![])
    }
}

/// A copy of names.
fn copy_names(files: &Vec<String>) -> (out: Vec<String>)
    ensures
        names(out@) == names(files@),
{
    let mut out: Vec<String> = Vec::new();
    let mut i: usize = 0;
    while i < files.len()
        invariant
            i <= files@.len(),
            out@.len() == i,
            forall|j: int| 0 <= j < i ==> (#[trigger] out@[j])@ == files@[j]@,
        decreases files@.len() - i,
    {
        out.push(files[i].clone());
        i = i + 1;
    }
    assert(names(out@) =~= names(files@));
    out
}

impl Levelstore {
    /// No levels.
    pub fn new() -> (s: Levelstore)
        ensures
            s@ == Seq::<Seq<Seq<char>>>::empty(),
    {
        let s = Levelstore { store: Vec::new() };
        assert(s@ =~= Seq::<Seq<Seq<char>>>::empty());
        s
    }

    /// Puts a file behind those of its level. Where the level has more files than it
    /// may have, all of them come back: they are to be merged.
    pub fn add_file(&mut self, level: usize, filename: &String) -> (r: Option<Vec<String>>)
        requires
            level < usize::MAX,
        ensures
            final(self)@ == padded(old(self)@, level as int).update(
                level as int,
                padded(old(self)@, level as int)[level as int].push(filename@),
            ),
            match r {
                Some(files) => final(self)@[level as int].len() > MAXIMUM_LEVEL_FILES && names(
                    files@,
                ) == final(self)@[level as int],
                None => final(self)@[level as int].len() <= MAXIMUM_LEVEL_FILES,
            },
    {
        let ghost before = self@;
        while self.store.len() <= level
            invariant
                level < usize::MAX,
                before == old(self)@,
                self@ == (if before.len() > level {
                    before
                } else {
                    before + Seq::new((self.store@.len() - before.len()) as nat, |i: int| seq![])
                }),
                self.store@.len() >= before.len(),
                self.store@.len() <= level + 1 || self.store@.len() == before.len(),
            decreases level + 1 - self.store@.len(),
        {
            let ghost now = self@;
            let empty: Vec<String> = Vec::new();
            self.store.push(empty);
            proof {
                assert(names(empty@) =~= seq![]);
                assert(self@ =~= now.push(seq![]));
                assert(before + Seq::new((self.store@.len() - before.len()) as nat, |i: int| seq![])
                    =~= now.push(seq![]));
            }
        }
        let ghost full = self@;
        assert(full =~= padded(before, level as int));
        let mut files: Vec<String> = Vec::new();
        std::mem::swap(&mut files, &mut self.store[level]);
        let ghost held = names(files@);
        assert(held == full[level as int]);
        files.push(filename.clone());
        assert(names(files@) =~= held.push(filename@));
        let r: Option<Vec<String>> = if files.len() > MAXIMUM_LEVEL_FILES {
            Some(copy_names(&files))
        } else {
            None
        };
        std::mem::swap(&mut files, &mut self.store[level]);
        assert(self@ =~= full.update(level as int, held.push(filename@)));
        r
    }

    /// The files of a level.
    pub fn get_files(&self, level: usize) -> (r: Option<&Vec<String>>)
        ensures
            match r {
                Some(files) => level < self@.len() && names(files@) == self@[level as int],
                None => level >= self@.len(),
            },
    {
        if level < self.store.len() {
            Some(&self.store[level])
        } else {
            None
        }
    }

    /// Takes all files with a name out of a level.
    pub fn remove_file(&mut self, level: usize, filename: &[u8])
        ensures
            level >= old(self)@.len() ==> final(self)@ == old(self)@,
            level < old(self)@.len() ==> final(self)@ == old(self)@.update(
                level as int,
                old(self)@[level as int].filter(|n: Seq<char>| n != text::utf8_lossy(filename@)),
            ),
    {
        if level >= self.store.len() {
            return ;
        }
        let ghost before = self@;
        let name: String = text::from_utf8_lossy(filename);
        let ghost keep = |n: Seq<char>| n != text::utf8_lossy(filename@);
        let mut files: Vec<String> = Vec::new();
        std::mem::swap(&mut files, &mut self.store[level]);
        let ghost all = names(files@);
        assert(all == before[level as int]);
        let mut kept: Vec<String> = Vec::new();
        let mut i: usize = 0;
        proof {
            reveal_with_fuel(Seq::filter, 1);
            assert(names(kept@) =~= all.take(0).filter(keep));
        }
        while i < files.len()
            invariant
                i <= files@.len(),
                all == names(files@),
                name@ == text::utf8_lossy(filename@),
                keep == (|n: Seq<char>| n != text::utf8_lossy(filename@)),
                names(kept@) == all.take(i as int).filter(keep),
            decreases files@.len() - i,
        {
            let ghost so_far = names(kept@);
            proof {
                reveal_with_fuel(Seq::filter, 1);
                assert(all.take(i + 1).drop_last() =~= all.take(i as int));
                assert(all.take(i + 1).last() == files@[i as int]@);
            }
            if !text::same_text(files[i].as_str(), name.as_str()) {
                kept.push(files[i].clone());
                assert(names(kept@) =~= so_far.push(files@[i as int]@));
            }
            i = i + 1;
        }
        assert(all.take(i as int) =~= all);
        std::mem::swap(&mut kept, &mut self.store[level]);
        assert(self@ =~= before.update(level as int, all.filter(keep)));
    }
}

/// Room for a level leaves the levels that are there as they are, and adds empty ones up
/// to it.
pub proof fn law_padded_keeps_levels(levels: Seq<Seq<Seq<char>>>, level: nat, i: int)
    ensures
        padded(levels, level as int).len() > level,
        padded(levels, level as int).len() == levels.len() || padded(levels, level as int).len()
            == level + 1,
        0 <= i < levels.len() ==> padded(levels, level as int)[i] == levels[i],
        levels.len() <= i <= level ==> padded(levels, level as int)[i].len() == 0,
{
}

} // verus!
