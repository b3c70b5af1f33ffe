//! Resolution of one tree: every declared directory's direct children are
//! evaluated against every query, and the hits are gathered by label.

use crate::association::{is_tagger_file_name, is_tagger_name, Association};
use crate::declaration::{
    declaration_hits, facts_of, lemma_directory_tag_marks_directory, lemma_hits_are_sound,
    lemma_single_file_pattern_hit, Child, Entry, Fact, Hit, Rule, TaggerFile,
};
use crate::pattern::{regex_matches, sources_of, Pattern};
use crate::tagged::{tagged, TaggedFiles};
use vstd::prelude::*;
use vstd::string::*;

verus! {

/// A directory and its direct children.
#[derive(Debug)]
pub struct Listing {
    pub directory: String,
    pub children: Vec<Entry>,
}

/// A listing in mathematical form.
pub struct Contents {
    pub directory: Seq<char>,
    pub children: Seq<Child>,
}

impl View for Listing {
    type V = Contents;

    open spec fn view(&self) -> Contents {
        Contents { directory: self.directory@, children: children_of(self.children@) }
    }
}

/// The entries of a vector, in mathematical form.
pub open spec fn children_of(entries: Seq<Entry>) -> Seq<Child> {
    entries.map_values(|e: Entry| e@)
}

/// The listings of a vector, in mathematical form.
pub open spec fn contents_of(listings: Seq<Listing>) -> Seq<Contents> {
    listings.map_values(|l: Listing| l@)
}

/// The hits of one child under any of the queries.
pub open spec fn child_facts(
    rules: Seq<Rule>,
    directory: Seq<char>,
    child: Child,
    queries: Seq<Seq<char>>,
) -> Set<Fact> {
    Set::new(
        |f: Fact|
            exists|k: int|
                0 <= k < queries.len() && declaration_hits(
                    rules,
                    #[trigger] queries[k],
                    directory,
                    child,
                ).contains(f),
    )
}

/// The hits of the children of one directory. A child that is itself a
/// declaration file is passed over.
pub open spec fn directory_facts(
    rules: Seq<Rule>,
    directory: Seq<char>,
    children: Seq<Child>,
    queries: Seq<Seq<char>>,
) -> Set<Fact> {
    Set::new(
        |f: Fact|
            exists|j: int|
                0 <= j < children.len() && !is_tagger_name((#[trigger] children[j]).name)
                    && child_facts(rules, directory, children[j], queries).contains(f),
    )
}

/// The hits of a tree. A listed directory counts only if it has a
/// declaration of its own, and only its own children are evaluated. Rules
/// are evaluated child by child, so a directory without a child that is
/// evaluated has no hit, not even from a directory tag.
pub open spec fn tree_facts(
    taggers: Map<Seq<char>, Seq<Rule>>,
    listings: Seq<Contents>,
    queries: Seq<Seq<char>>,
) -> Set<Fact> {
    Set::new(
        |f: Fact|
            exists|i: int|
                0 <= i < listings.len() && taggers.contains_key((#[trigger] listings[i]).directory)
                    && directory_facts(
                    taggers[listings[i].directory],
                    listings[i].directory,
                    listings[i].children,
                    queries,
                ).contains(f),
    )
}

/// One more query adds the hits under that query.
pub proof fn lemma_child_facts_push(
    rules: Seq<Rule>,
    directory: Seq<char>,
    child: Child,
    queries: Seq<Seq<char>>,
    query: Seq<char>,
)
    ensures
        child_facts(rules, directory, child, queries.push(query)) == child_facts(
            rules,
            directory,
            child,
            queries,
        ).union(declaration_hits(rules, query, directory, child).to_set()),
{
    let more = queries.push(query);
    let lhs = child_facts(rules, directory, child, more);
    let rhs = child_facts(rules, directory, child, queries).union(
        declaration_hits(rules, query, directory, child).to_set(),
    );
    assert forall|f: Fact| lhs.contains(f) <==> rhs.contains(f) by {
        if lhs.contains(f) {
            let k = choose|k: int|
                0 <= k < more.len() && declaration_hits(
                    rules,
                    #[trigger] more[k],
                    directory,
                    child,
                ).contains(f);
            if k < queries.len() {
                assert(more[k] == queries[k]);
            }
        }
        if rhs.contains(f) {
            if declaration_hits(rules, query, directory, child).contains(f) {
                assert(more[queries.len() as int] == query);
            } else {
                let k = choose|k: int|
                    0 <= k < queries.len() && declaration_hits(
                        rules,
                        #[trigger] queries[k],
                        directory,
                        child,
                    ).contains(f);
                assert(more[k] == queries[k]);
            }
        }
    }
    assert(lhs =~= rhs);
}

/// One more child adds the hits of that child, unless it is a declaration
/// file.
pub proof fn lemma_directory_facts_push(
    rules: Seq<Rule>,
    directory: Seq<char>,
    children: Seq<Child>,
    child: Child,
    queries: Seq<Seq<char>>,
)
    ensures
        directory_facts(rules, directory, children.push(child), queries) == directory_facts(
            rules,
            directory,
            children,
            queries,
        ).union(
            if is_tagger_name(child.name) {
                Set::empty()
            } else {
                child_facts(rules, directory, child, queries)
            },
        ),
{
    let more = children.push(child);
    let own = if is_tagger_name(child.name) {
        Set::<Fact>::empty()
    } else {
        child_facts(rules, directory, child, queries)
    };
    let lhs = directory_facts(rules, directory, more, queries);
    let rhs = directory_facts(rules, directory, children, queries).union(own);
    assert forall|f: Fact| lhs.contains(f) <==> rhs.contains(f) by {
        if lhs.contains(f) {
            let j = choose|j: int|
                0 <= j < more.len() && !is_tagger_name((#[trigger] more[j]).name) && child_facts(
                    rules,
                    directory,
                    more[j],
                    queries,
                ).contains(f);
            if j < children.len() {
                assert(more[j] == children[j]);
            }
        }
        if rhs.contains(f) {
            if own.contains(f) {
                assert(more[children.len() as int] == child);
            } else {
                let j = choose|j: int|
                    0 <= j < children.len() && !is_tagger_name((#[trigger] children[j]).name)
                        && child_facts(rules, directory, children[j], queries).contains(f);
                assert(more[j] == children[j]);
            }
        }
    }
    assert(lhs =~= rhs);
}

/// One more listing adds the hits of its directory, if that has a
/// declaration.
pub proof fn lemma_tree_facts_push(
    taggers: Map<Seq<char>, Seq<Rule>>,
    listings: Seq<Contents>,
    listing: Contents,
    queries: Seq<Seq<char>>,
)
    ensures
        tree_facts(taggers, listings.push(listing), queries) == tree_facts(
            taggers,
            listings,
            queries,
        ).union(
            if taggers.contains_key(listing.directory) {
                directory_facts(
                    taggers[listing.directory],
                    listing.directory,
                    listing.children,
                    queries,
                )
            } else {
                Set::empty()
            },
        ),
{
    let more = listings.push(listing);
    let own = if taggers.contains_key(listing.directory) {
        directory_facts(taggers[listing.directory], listing.directory, listing.children, queries)
    } else {
        Set::<Fact>::empty()
    };
    let lhs = tree_facts(taggers, more, queries);
    let rhs = tree_facts(taggers, listings, queries).union(own);
    assert forall|f: Fact| lhs.contains(f) <==> rhs.contains(f) by {
        if lhs.contains(f) {
            let i = choose|i: int|
                0 <= i < more.len() && taggers.contains_key((#[trigger] more[i]).directory)
                    && directory_facts(
                    taggers[more[i].directory],
                    more[i].directory,
                    more[i].children,
                    queries,
                ).contains(f);
            if i < listings.len() {
                assert(more[i] == listings[i]);
            }
        }
        if rhs.contains(f) {
            if own.contains(f) {
                assert(more[listings.len() as int] == listing);
            } else {
                let i = choose|i: int|
                    0 <= i < listings.len() && taggers.contains_key(
                        (#[trigger] listings[i]).directory,
                    ) && directory_facts(
                        taggers[listings[i].directory],
                        listings[i].directory,
                        listings[i].children,
                        queries,
                    ).contains(f);
                assert(more[i] == listings[i]);
            }
        }
    }
    assert(lhs =~= rhs);
}

/// A child that comes once more adds nothing: however many children are
/// gone through, a hit counts once.
pub proof fn lemma_repeated_child_adds_nothing(
    rules: Seq<Rule>,
    directory: Seq<char>,
    children: Seq<Child>,
    j: int,
    queries: Seq<Seq<char>>,
)
    requires
        0 <= j < children.len(),
    ensures
        directory_facts(rules, directory, children.push(children[j]), queries) == directory_facts(
            rules,
            directory,
            children,
            queries,
        ),
{
    lemma_directory_facts_push(rules, directory, children, children[j], queries);
    let before = directory_facts(rules, directory, children, queries);
    let after = directory_facts(rules, directory, children.push(children[j]), queries);
    assert(after =~= before);
}

/// A directory tag marks the directory of its declaration under each of its
/// labels that a query matches, as soon as the directory is listed with one
/// child that is no declaration file.
pub proof fn lemma_directory_tag_in_tree(
    taggers: Map<Seq<char>, Seq<Rule>>,
    listings: Seq<Contents>,
    queries: Seq<Seq<char>>,
    i: int,
    j: int,
    k: int,
    r: int,
    label: Seq<char>,
)
    requires
        0 <= i < listings.len(),
        taggers.contains_key(listings[i].directory),
        0 <= j < listings[i].children.len(),
        !is_tagger_name(listings[i].children[j].name),
        0 <= k < queries.len(),
        0 <= r < taggers[listings[i].directory].len(),
        taggers[listings[i].directory][r] is DirectoryTag,
        taggers[listings[i].directory][r]->DirectoryTag_labels.contains(label),
        regex_matches(queries[k], label),
    ensures
        tree_facts(taggers, listings, queries).contains((label, listings[i].directory)),
{
    let directory = listings[i].directory;
    let rules = taggers[directory];
    let child = listings[i].children[j];
    lemma_directory_tag_marks_directory(rules, r, label, queries[k], directory, child);
    assert(child_facts(rules, directory, child, queries).contains((label, directory)));
    assert(directory_facts(rules, directory, listings[i].children, queries).contains(
        (label, directory),
    ));
}

/// Nothing is inherited: every hit of a tree stems from a listed directory
/// that has a declaration of its own and from one of its own children. It
/// marks that directory, or that child if it is a regular file, under a
/// label that one of the queries matches.
pub proof fn lemma_tree_facts_are_sound(
    taggers: Map<Seq<char>, Seq<Rule>>,
    listings: Seq<Contents>,
    queries: Seq<Seq<char>>,
    fact: Fact,
)
    requires
        tree_facts(taggers, listings, queries).contains(fact),
    ensures
        exists|i: int, j: int, k: int|
            #![trigger listings[i].children[j], queries[k]]
            {
                &&& 0 <= i < listings.len()
                &&& taggers.contains_key(listings[i].directory)
                &&& 0 <= j < listings[i].children.len()
                &&& !is_tagger_name(listings[i].children[j].name)
                &&& 0 <= k < queries.len()
                &&& regex_matches(queries[k], fact.0)
                &&& (fact.1 == listings[i].directory || (listings[i].children[j].is_file
                    && fact.1 == listings[i].children[j].path))
            },
{
    let i = choose|i: int|
        0 <= i < listings.len() && taggers.contains_key((#[trigger] listings[i]).directory)
            && directory_facts(
            taggers[listings[i].directory],
            listings[i].directory,
            listings[i].children,
            queries,
        ).contains(fact);
    let directory = listings[i].directory;
    let rules = taggers[directory];
    let children = listings[i].children;
    let j = choose|j: int|
        0 <= j < children.len() && !is_tagger_name((#[trigger] children[j]).name) && child_facts(
            rules,
            directory,
            children[j],
            queries,
        ).contains(fact);
    let k = choose|k: int|
        0 <= k < queries.len() && declaration_hits(
            rules,
            #[trigger] queries[k],
            directory,
            children[j],
        ).contains(fact);
    lemma_hits_are_sound(rules, queries[k], directory, children[j], fact);
    assert(listings[i].children[j] == children[j]);
}

/// A tree of one declared directory, whose declaration is one file pattern
/// with one label, and which holds one regular file whose name the pattern
/// matches beside any number of declaration files, resolves under one query
/// that matches the label to one label with one path: that of the file.
pub proof fn lemma_single_file_tree(
    pattern: Seq<char>,
    label: Seq<char>,
    query: Seq<char>,
    directory: Seq<char>,
    declaration_files: Seq<Child>,
    child: Child,
)
    requires
        forall|j: int|
            0 <= j < declaration_files.len() ==> is_tagger_name((#[trigger] declaration_files[j]).name),
        child.is_file,
        !is_tagger_name(child.name),
        regex_matches(pattern, child.name),
        regex_matches(query, label),
    ensures
        tree_facts(
            map![directory => seq![Rule::FilePattern { pattern, labels: seq![label] }]],
            seq![Contents { directory, children: declaration_files.push(child) }],
            seq![query],
        ) == set![(label, child.path)],
        tagged(set![(label, child.path)]) == map![label => set![child.path]],
{
    let rules = seq![Rule::FilePattern { pattern, labels: seq![label] }];
    let taggers = map![directory => rules];
    let children = declaration_files.push(child);
    let listing = Contents { directory, children };
    let queries = seq![query];
    let none = Seq::<Seq<char>>::empty();
    lemma_single_file_pattern_hit(pattern, label, query, directory, child);
    // the one child under the one query
    assert(queries =~= none.push(query));
    lemma_child_facts_push(rules, directory, child, none, query);
    assert(child_facts(rules, directory, child, none) =~= Set::<Fact>::empty());
    let one = seq![(label, child.path)];
    assert(one[0] == (label, child.path));
    assert forall|f: Fact| one.to_set().contains(f) <==> f == (label, child.path) by {
        if one.to_set().contains(f) {
            let i = choose|i: int| 0 <= i < one.len() && one[i] == f;
        }
    }
    assert(one.to_set() =~= set![(label, child.path)]);
    assert(child_facts(rules, directory, child, queries) =~= set![(label, child.path)]);
    // the declaration files add nothing
    lemma_directory_facts_push(rules, directory, declaration_files, child, queries);
    assert(directory_facts(rules, directory, declaration_files, queries) =~= Set::<Fact>::empty());
    assert(directory_facts(rules, directory, children, queries) =~= set![(label, child.path)]);
    // the one listing
    let no_listing = Seq::<Contents>::empty();
    assert(seq![listing] =~= no_listing.push(listing));
    lemma_tree_facts_push(taggers, no_listing, listing, queries);
    assert(tree_facts(taggers, no_listing, queries) =~= Set::<Fact>::empty());
    assert(tree_facts(taggers, seq![listing], queries) =~= set![(label, child.path)]);
    let facts = set![(label, child.path)];
    assert forall|l: Seq<char>| tagged(facts).contains_key(l) <==> l == label by {
        if l == label {
            assert(facts.contains((label, child.path)));
        }
    }
    assert(tagged(facts)[label] =~= set![child.path]);
    assert(tagged(facts) =~= map![label => set![child.path]]);
}

/// Hits stay within what was listed: where the path of every listed
/// directory and of every listed child begins with `root`, so does the path
/// of every hit.
pub proof fn lemma_hits_lie_under_root(
    taggers: Map<Seq<char>, Seq<Rule>>,
    listings: Seq<Contents>,
    queries: Seq<Seq<char>>,
    root: Seq<char>,
    fact: Fact,
)
    requires
        forall|i: int|
            0 <= i < listings.len() ==> root.is_prefix_of((#[trigger] listings[i]).directory),
        forall|i: int, j: int|
            0 <= i < listings.len() && 0 <= j < listings[i].children.len() ==> root.is_prefix_of(
                (#[trigger] listings[i].children[j]).path,
            ),
        tree_facts(taggers, listings, queries).contains(fact),
    ensures
        root.is_prefix_of(fact.1),
{
    lemma_tree_facts_are_sound(taggers, listings, queries, fact);
    let (i, j, k) = choose|i: int, j: int, k: int|
        #![trigger listings[i].children[j], queries[k]]
        {
            &&& 0 <= i < listings.len()
            &&& taggers.contains_key(listings[i].directory)
            &&& 0 <= j < listings[i].children.len()
            &&& !is_tagger_name(listings[i].children[j].name)
            &&& 0 <= k < queries.len()
            &&& regex_matches(queries[k], fact.0)
            &&& (fact.1 == listings[i].directory || (listings[i].children[j].is_file
                && fact.1 == listings[i].children[j].path))
        };
    assert(root.is_prefix_of(listings[i].directory));
    assert(root.is_prefix_of(listings[i].children[j].path));
}

/// Records each of `hits`.
fn add_hits(index: &mut TaggedFiles, hits: &Vec<Hit>)
    requires
        old(index).wf(),
    ensures
        final(index).wf(),
        final(index).facts() == old(index).facts().union(facts_of(hits@).to_set()),
{
    let ghost all = facts_of(hits@);
    let n = hits.len();
    let mut i: usize = 0;
    proof {
        assert(all.take(0).to_set() =~= Set::<Fact>::empty());
        assert(index.facts() =~= index.facts().union(all.take(0).to_set()));
    }
    while i < n
        invariant
            i <= n,
            n == hits@.len(),
            all == facts_of(hits@),
            index.wf(),
            index.facts() == old(index).facts().union(all.take(i as int).to_set()),
        decreases n - i,
    {
        index.add(hits[i].label.as_str(), hits[i].path.as_str());
        proof {
            assert(all.take(i + 1) =~= all.take(i as int).push(all[i as int]));
            all.take(i as int).lemma_push_to_set_commute(all[i as int]);
            assert(index.facts() =~= old(index).facts().union(all.take(i + 1).to_set()));
        }
        i += 1;
    }
    proof {
        assert(all.take(n as int) =~= all);
    }
}

/// Records the hits of one child under each of the queries.
fn add_child(
    index: &mut TaggedFiles,
    declaration: &TaggerFile,
    directory: &str,
    child: &Entry,
    tags: &Vec<Pattern>,
)
    requires
        old(index).wf(),
    ensures
        final(index).wf(),
        final(index).facts() == old(index).facts().union(
            child_facts(declaration@, directory@, child@, sources_of(tags@)),
        ),
{
    let ghost all = sources_of(tags@);
    let n = tags.len();
    let mut k: usize = 0;
    proof {
        assert(index.facts() =~= index.facts().union(
            child_facts(declaration@, directory@, child@, all.take(0)),
        ));
    }
    while k < n
        invariant
            k <= n,
            n == tags@.len(),
            all == sources_of(tags@),
            index.wf(),
            index.facts() == old(index).facts().union(
                child_facts(declaration@, directory@, child@, all.take(k as int)),
            ),
        decreases n - k,
    {
        let hits = declaration.has_match(&tags[k], directory, child);
        add_hits(index, &hits);
        proof {
            assert(all.take(k + 1) =~= all.take(k as int).push(all[k as int]));
            lemma_child_facts_push(
                declaration@,
                directory@,
                child@,
                all.take(k as int),
                all[k as int],
            );
            assert(index.facts() =~= old(index).facts().union(
                child_facts(declaration@, directory@, child@, all.take(k + 1)),
            ));
        }
        k += 1;
    }
    proof {
        assert(all.take(n as int) =~= all);
    }
}

/// Records the hits of the children of one directory.
fn add_directory(
    index: &mut TaggedFiles,
    declaration: &TaggerFile,
    listing: &Listing,
    tags: &Vec<Pattern>,
)
    requires
        old(index).wf(),
    ensures
        final(index).wf(),
        final(index).facts() == old(index).facts().union(
            directory_facts(declaration@, listing@.directory, listing@.children, sources_of(tags@)),
        ),
{
    let ghost all = listing@.children;
    let ghost queries = sources_of(tags@);
    let n = listing.children.len();
    let mut j: usize = 0;
    proof {
        assert(index.facts() =~= index.facts().union(
            directory_facts(declaration@, listing@.directory, all.take(0), queries),
        ));
    }
    while j < n
        invariant
            j <= n,
            n == listing.children@.len(),
            all == listing@.children,
            queries == sources_of(tags@),
            index.wf(),
            index.facts() == old(index).facts().union(
                directory_facts(declaration@, listing@.directory, all.take(j as int), queries),
            ),
        decreases n - j,
    {
        let child = &listing.children[j];
        proof {
            assert(all.take(j + 1) =~= all.take(j as int).push(all[j as int]));
            lemma_directory_facts_push(
                declaration@,
                listing@.directory,
                all.take(j as int),
                all[j as int],
                queries,
            );
        }
        if !is_tagger_file_name(child.name.as_str()) {
            add_child(index, declaration, listing.directory.as_str(), child, tags);
        }
        proof {
            assert(index.facts() =~= old(index).facts().union(
                directory_facts(declaration@, listing@.directory, all.take(j + 1), queries),
            ));
        }
        j += 1;
    }
    proof {
        assert(all.take(n as int) =~= all);
    }
}

/// Resolves one tree: for every listed directory that has a declaration of
/// its own, every direct child but the declaration files is evaluated
/// against every query, and each hit is recorded under its label.
pub fn process_directory_tree(
    taggers: &Association,
    listings: &Vec<Listing>,
    tags: &Vec<Pattern>,
) -> (tag_hits: TaggedFiles)
    requires
        taggers.wf(),
    ensures
        tag_hits.wf(),
        tag_hits.facts() == tree_facts(taggers@, contents_of(listings@), sources_of(tags@)),
        tag_hits@ == tagged(tree_facts(taggers@, contents_of(listings@), sources_of(tags@))),
{
    let ghost all = contents_of(listings@);
    let ghost queries = sources_of(tags@);
    let mut tag_hits = TaggedFiles::new();
    let n = listings.len();
    let mut i: usize = 0;
    proof {
        assert(tag_hits.facts() =~= tree_facts(taggers@, all.take(0), queries));
    }
    while i < n
        invariant
            i <= n,
            n == listings@.len(),
            all == contents_of(listings@),
            queries == sources_of(tags@),
            taggers.wf(),
            tag_hits.wf(),
            tag_hits.facts() == tree_facts(taggers@, all.take(i as int), queries),
        decreases n - i,
    {
        let listing = &listings[i];
        proof {
            assert(all.take(i + 1) =~= all.take(i as int).push(all[i as int]));
            lemma_tree_facts_push(taggers@, all.take(i as int), all[i as int], queries);
        }
        match taggers.get(listing.directory.as_str()) {
            Some(declaration) => {
                add_directory(&mut tag_hits, declaration, listing, tags);
            },
            None => {},
        }
        proof {
            assert(tag_hits.facts() =~= tree_facts(taggers@, all.take(i + 1), queries));
        }
        i += 1;
    }
    proof {
        assert(all.take(n as int) =~= all);
        tag_hits.lemma_view_of_facts();
    }
    tag_hits
}

} // verus!
