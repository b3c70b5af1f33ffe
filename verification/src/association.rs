//! Which directory has which declaration.

use crate::declaration::{Rule, TaggerFile};
use crate::string_set::{keyed, lemma_keyed_at, lemma_keyed_insert, lemma_keyed_update, StringSet};
use crate::text::{compare, Rank};
use vstd::prelude::*;
use vstd::string::*;

verus! {

/// The two names under which a file is the declaration of its directory.
pub open spec fn is_tagger_name(name: Seq<char>) -> bool {
    name == ".tagger.yaml"@ || name == "tagger.yaml"@
}

/// Whether a file of this name is the declaration of its directory. The
/// name has to be one of the two exactly.
pub fn is_tagger_file_name(name: &str) -> (r: bool)
    ensures
        r == is_tagger_name(name@),
{
    match compare(name, ".tagger.yaml") {
        Rank::Same => true,
        _ => match compare(name, "tagger.yaml") {
            Rank::Same => true,
            _ => false,
        },
    }
}

/// The mapping that a sequence of directories with their declarations
/// leaves behind when each is entered in turn: where a directory comes more
/// than once, its last declaration stands.
pub open spec fn associated(found: Seq<(Seq<char>, Seq<Rule>)>) -> Map<Seq<char>, Seq<Rule>>
    decreases found.len(),
{
    if found.len() == 0 {
        Map::empty()
    } else {
        associated(found.drop_last()).insert(found.last().0, found.last().1)
    }
}

/// The directories and declarations of a vector, in mathematical form.
pub open spec fn pairs_of(found: Seq<(String, TaggerFile)>) -> Seq<(Seq<char>, Seq<Rule>)> {
    found.map_values(|pair: (String, TaggerFile)| (pair.0@, pair.1@))
}

/// A mapping from the paths of directories to their declarations. Only a
/// directory that holds a declaration of its own has an entry.
#[derive(Debug)]
pub struct Association {
    directories: StringSet,
    declarations: Vec<TaggerFile>,
}

impl View for Association {
    type V = Map<Seq<char>, Seq<Rule>>;

    closed spec fn view(&self) -> Map<Seq<char>, Seq<Rule>> {
        keyed(self.directories.members(), self.declarations@).map_values(
            |declaration: TaggerFile| declaration@,
        )
    }
}

impl Association {
    /// The directories are ascending, and each has its declaration.
    pub closed spec fn wf(&self) -> bool {
        &&& self.directories.wf()
        &&& self.declarations@.len() == self.directories.members().len()
    }

    /// The directories, in ascending order.
    pub closed spec fn directories(&self) -> Seq<Seq<char>> {
        self.directories.members()
    }

    /// The directory at place `i` maps to the declaration at place `i`.
    proof fn lemma_entry(&self, i: int)
        requires
            self.wf(),
            0 <= i < self.directories().len(),
        ensures
            self@.contains_key(self.directories()[i]),
            self@[self.directories()[i]] == self.declarations@[i]@,
    {
        lemma_keyed_at(self.directories.members(), self.declarations@, i);
    }

    /// The directories are those that have a declaration.
    pub proof fn lemma_directories(&self)
        requires
            self.wf(),
        ensures
            self.directories().to_set() == self@.dom(),
    {
        assert(self.directories().to_set() =~= self@.dom());
    }

    /// The empty mapping.
    pub fn new() -> (r: Association)
        ensures
            r.wf(),
            r@ == Map::<Seq<char>, Seq<Rule>>::empty(),
    {
        let r = Association { directories: StringSet::new(), declarations: Vec::new() };
        assert(r@ =~= Map::<Seq<char>, Seq<Rule>>::empty());
        r
    }

    /// Gives `directory` the declaration `declaration`, in place of the one
    /// it had, if it had one.
    pub fn insert(&mut self, directory: String, declaration: TaggerFile)
        requires
            old(self).wf(),
        ensures
            final(self).wf(),
            final(self)@ == old(self)@.insert(directory@, declaration@),
    {
        let ghost keys = self.directories.members();
        let ghost values = self.declarations@;
        let ghost key = directory@;
        let (i, added) = self.directories.place(directory);
        if added {
            proof {
                lemma_keyed_insert(keys, values, i as int, key, declaration);
            }
            self.declarations.insert(i, declaration);
        } else {
            proof {
                lemma_keyed_update(keys, values, i as int, declaration);
            }
            self.declarations[i] = declaration;
        }
        assert(self@ =~= old(self)@.insert(key, declaration@));
    }

    /// The declaration of `directory`, if it has one of its own.
    pub fn get(&self, directory: &str) -> (r: Option<&TaggerFile>)
        requires
            self.wf(),
        ensures
            r is Some <==> self@.contains_key(directory@),
            r matches Some(declaration) ==> declaration@ == self@[directory@],
    {
        match self.directories.find(directory) {
            Some(i) => {
                proof {
                    self.lemma_entry(i as int);
                }
                Some(&self.declarations[i])
            },
            None => None,
        }
    }

    /// The number of directories that have a declaration.
    pub fn len(&self) -> (n: usize)
        ensures
            n == self.directories().len(),
    {
        self.directories.len()
    }

    /// The directory at place `i` of the ascending order.
    pub fn directory(&self, i: usize) -> (directory: &String)
        requires
            i < self.directories().len(),
        ensures
            directory@ == self.directories()[i as int],
    {
        self.directories.get(i)
    }
}

/// Enters each directory with its declaration, in the order found.
pub fn generate_taggers(found: Vec<(String, TaggerFile)>) -> (taggers: Association)
    ensures
        taggers.wf(),
        taggers@ == associated(pairs_of(found@)),
{
    let ghost all = pairs_of(found@);
    let mut taggers = Association::new();
    proof {
        assert(all.take(0) =~= Seq::<(Seq<char>, Seq<Rule>)>::empty());
    }
    for pair in it: found.into_iter()
        invariant
            all == pairs_of(found@),
            it.seq() == found@,
            taggers.wf(),
            taggers@ == associated(all.take(it.index())),
    {
        proof {
            let i = it.index();
            assert(all.take(i + 1).drop_last() =~= all.take(i));
            assert(all.take(i + 1).last() == (pair.0@, pair.1@));
        }
        let (directory, declaration) = pair;
        taggers.insert(directory, declaration);
    }
    proof {
        assert(all.take(all.len() as int) =~= all);
    }
    taggers
}

} // verus!
