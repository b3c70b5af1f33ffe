//! The index that resolution builds: for each label, the set of paths that
//! carry it.

use crate::declaration::Fact;
use crate::string_set::{
    keyed, lemma_ascending_distinct, lemma_keyed_at, lemma_keyed_insert, lemma_keyed_update,
    StringSet,
};
use crate::text::{ascending, join, joined, texts_of};
use vstd::prelude::*;
use vstd::string::*;

verus! {

/// The facts that a mapping from labels to sets of paths holds.
pub open spec fn facts_in(m: Map<Seq<char>, Set<Seq<char>>>) -> Set<Fact> {
    Set::new(|f: Fact| m.contains_key(f.0) && m[f.0].contains(f.1))
}

/// The mapping that a set of facts amounts to: each label that occurs, with
/// the paths it occurs with.
pub open spec fn tagged(facts: Set<Fact>) -> Map<Seq<char>, Set<Seq<char>>> {
    Map::new(
        |label: Seq<char>| exists|path: Seq<char>| facts.contains((label, path)),
        |label: Seq<char>| Set::new(|path: Seq<char>| facts.contains((label, path))),
    )
}

/// The paths that `m` holds under `label`: none where the label is absent.
pub open spec fn paths_under(m: Map<Seq<char>, Set<Seq<char>>>, label: Seq<char>) -> Set<
    Seq<char>,
> {
    if m.contains_key(label) {
        m[label]
    } else {
        Set::empty()
    }
}

/// Two mappings taken together: a label of either, with the paths that
/// either holds under it.
pub open spec fn united(
    a: Map<Seq<char>, Set<Seq<char>>>,
    b: Map<Seq<char>, Set<Seq<char>>>,
) -> Map<Seq<char>, Set<Seq<char>>> {
    Map::new(
        |label: Seq<char>| a.contains_key(label) || b.contains_key(label),
        |label: Seq<char>| paths_under(a, label).union(paths_under(b, label)),
    )
}

/// Any number of mappings taken together: the labels that occur in one of
/// them, each with all the paths that occur under it.
pub open spec fn merged(maps: Seq<Map<Seq<char>, Set<Seq<char>>>>) -> Map<
    Seq<char>,
    Set<Seq<char>>,
> {
    Map::new(
        |label: Seq<char>| exists|i: int| 0 <= i < maps.len() && (#[trigger] maps[i]).contains_key(label),
        |label: Seq<char>|
            Set::new(
                |path: Seq<char>|
                    exists|i: int|
                        0 <= i < maps.len() && (#[trigger] maps[i]).contains_key(label)
                            && maps[i][label].contains(path),
            ),
    )
}

/// The paths that stand under every label, where there is a label at all.
pub open spec fn common_paths(m: Map<Seq<char>, Set<Seq<char>>>) -> Set<Seq<char>> {
    Set::new(
        |path: Seq<char>|
            (exists|label: Seq<char>| m.contains_key(label)) && (forall|label: Seq<char>|
                m.contains_key(label) ==> (#[trigger] m[label]).contains(path)),
    )
}

/// The mappings of a sequence of results.
pub open spec fn views_of(results: Seq<TaggedFiles>) -> Seq<Map<Seq<char>, Set<Seq<char>>>> {
    results.map_values(|t: TaggedFiles| t@)
}

/// A report in mathematical form: keys, each with its paths.
pub type Report = Seq<(Seq<char>, Seq<Seq<char>>)>;

/// The report that a vector of keys and paths stands for.
pub open spec fn report_of(entries: Seq<(String, Vec<String>)>) -> Report {
    entries.map_values(|e: (String, Vec<String>)| (e.0@, texts_of(e.1@)))
}

/// Taking one more mapping into account is uniting with it.
pub proof fn lemma_merged_push(
    maps: Seq<Map<Seq<char>, Set<Seq<char>>>>,
    m: Map<Seq<char>, Set<Seq<char>>>,
)
    ensures
        merged(maps.push(m)) == united(merged(maps), m),
{
    let all = maps.push(m);
    let lhs = merged(all);
    let rhs = united(merged(maps), m);
    assert forall|label: Seq<char>| lhs.contains_key(label) <==> rhs.contains_key(label) by {
        if lhs.contains_key(label) {
            let i = choose|i: int| 0 <= i < all.len() && (#[trigger] all[i]).contains_key(label);
            if i < maps.len() {
                assert(maps[i].contains_key(label));
            }
        }
        if rhs.contains_key(label) {
            if m.contains_key(label) {
                assert(all[maps.len() as int].contains_key(label));
            } else {
                let i = choose|i: int|
                    0 <= i < maps.len() && (#[trigger] maps[i]).contains_key(label);
                assert(all[i].contains_key(label));
            }
        }
    }
    assert forall|label: Seq<char>| lhs.contains_key(label) implies lhs[label] =~= rhs[label] by {
        assert forall|path: Seq<char>| lhs[label].contains(path) <==> rhs[label].contains(
            path,
        ) by {
            if lhs[label].contains(path) {
                let i = choose|i: int|
                    0 <= i < all.len() && (#[trigger] all[i]).contains_key(label)
                        && all[i][label].contains(path);
                if i < maps.len() {
                    assert(maps[i].contains_key(label) && maps[i][label].contains(path));
                    assert(merged(maps).contains_key(label));
                    assert(merged(maps)[label].contains(path));
                }
            }
            if rhs[label].contains(path) {
                if paths_under(m, label).contains(path) {
                    assert(all[maps.len() as int].contains_key(label));
                    assert(all[maps.len() as int][label].contains(path));
                } else {
                    assert(merged(maps).contains_key(label));
                    let i = choose|i: int|
                        0 <= i < maps.len() && (#[trigger] maps[i]).contains_key(label)
                            && maps[i][label].contains(path);
                    assert(all[i].contains_key(label) && all[i][label].contains(path));
                }
            }
        }
    }
    assert(lhs =~= rhs);
}

/// Merging is the union of facts: a fact holds of the merged mapping
/// exactly when it holds of one of the mappings.
pub proof fn lemma_merged_facts(maps: Seq<Map<Seq<char>, Set<Seq<char>>>>, fact: Fact)
    ensures
        facts_in(merged(maps)).contains(fact) <==> exists|i: int|
            0 <= i < maps.len() && facts_in(#[trigger] maps[i]).contains(fact),
{
    if facts_in(merged(maps)).contains(fact) {
        let i = choose|i: int|
            0 <= i < maps.len() && (#[trigger] maps[i]).contains_key(fact.0)
                && maps[i][fact.0].contains(fact.1);
        assert(facts_in(maps[i]).contains(fact));
    }
    if exists|i: int| 0 <= i < maps.len() && facts_in(#[trigger] maps[i]).contains(fact) {
        let i = choose|i: int| 0 <= i < maps.len() && facts_in(#[trigger] maps[i]).contains(fact);
        assert(maps[i].contains_key(fact.0) && maps[i][fact.0].contains(fact.1));
    }
}

/// No label occurs in two of the mappings.
pub open spec fn disjoint_labels(maps: Seq<Map<Seq<char>, Set<Seq<char>>>>) -> bool {
    forall|i: int, j: int, label: Seq<char>|
        0 <= i < maps.len() && 0 <= j < maps.len() && i != j && #[trigger] maps[i].contains_key(
            label,
        ) ==> !#[trigger] maps[j].contains_key(label)
}

/// The labels of the merged mapping are those of all the mappings.
pub proof fn lemma_merged_labels(maps: Seq<Map<Seq<char>, Set<Seq<char>>>>, label: Seq<char>)
    ensures
        merged(maps).contains_key(label) <==> exists|i: int|
            0 <= i < maps.len() && (#[trigger] maps[i]).contains_key(label),
{
}

/// Where no label occurs in two of the mappings, merging keeps them apart:
/// under a label the merged mapping holds the paths of the one mapping
/// that has the label, and none of another.
pub proof fn lemma_merged_disjoint(
    maps: Seq<Map<Seq<char>, Set<Seq<char>>>>,
    i: int,
    label: Seq<char>,
)
    requires
        disjoint_labels(maps),
        0 <= i < maps.len(),
        maps[i].contains_key(label),
    ensures
        merged(maps).contains_key(label),
        merged(maps)[label] == maps[i][label],
{
    let all = merged(maps)[label];
    assert forall|path: Seq<char>| all.contains(path) <==> maps[i][label].contains(path) by {
        if all.contains(path) {
            let j = choose|j: int|
                0 <= j < maps.len() && (#[trigger] maps[j]).contains_key(label)
                    && maps[j][label].contains(path);
            assert(j == i);
        }
    }
    assert(all =~= maps[i][label]);
}

/// The paths under every label are among the paths under each label.
pub proof fn lemma_common_paths_within_each(
    m: Map<Seq<char>, Set<Seq<char>>>,
    label: Seq<char>,
)
    requires
        m.contains_key(label),
    ensures
        common_paths(m).subset_of(m[label]),
{
}

/// A mapping from labels to the sets of paths that carry them. Labels and
/// paths are held in ascending order, and every label has a path.
#[derive(Debug)]
pub struct TaggedFiles {
    labels: StringSet,
    hits: Vec<StringSet>,
}

impl View for TaggedFiles {
    type V = Map<Seq<char>, Set<Seq<char>>>;

    closed spec fn view(&self) -> Map<Seq<char>, Set<Seq<char>>> {
        keyed(self.labels.members(), self.hits@).map_values(|paths: StringSet| paths@)
    }
}

impl Default for TaggedFiles {
    /// The empty mapping.
    fn default() -> (r: TaggedFiles)
        ensures
            r.wf(),
            r@ == Map::<Seq<char>, Set<Seq<char>>>::empty(),
    {
        TaggedFiles::new()
    }
}

impl TaggedFiles {
    /// The labels are ascending, and each has its set of paths, which is
    /// ascending.
    closed spec fn shaped(&self) -> bool {
        &&& self.labels.wf()
        &&& self.hits@.len() == self.labels.members().len()
        &&& forall|i: int| 0 <= i < self.hits@.len() ==> (#[trigger] self.hits@[i]).wf()
    }

    /// Every set of paths but the one at place `i` has a member.
    closed spec fn filled_but(&self, i: int) -> bool {
        forall|k: int|
            0 <= k < self.hits@.len() && k != i ==> (#[trigger] self.hits@[k]).members().len() > 0
    }

    /// The labels are ascending, and each has its set of paths, which is
    /// ascending and not empty.
    pub closed spec fn wf(&self) -> bool {
        &&& self.shaped()
        &&& self.filled_but(-1)
    }

    /// The labels, in ascending order.
    pub closed spec fn labels(&self) -> Seq<Seq<char>> {
        self.labels.members()
    }

    /// The paths under the label at place `i`, in ascending order.
    pub closed spec fn paths(&self, i: int) -> Seq<Seq<char>> {
        self.hits@[i].members()
    }

    /// The facts held: the pairs of a label and a path under it.
    pub open spec fn facts(&self) -> Set<Fact> {
        facts_in(self@)
    }

    /// The label at place `i` maps to the paths at place `i`.
    proof fn lemma_entry(&self, i: int)
        requires
            self.shaped(),
            0 <= i < self.labels().len(),
        ensures
            self@.contains_key(self.labels()[i]),
            self@[self.labels()[i]] == self.hits@[i]@,
    {
        lemma_keyed_at(self.labels.members(), self.hits@, i);
    }

    /// How the mapping is laid out: by ascending labels, each with its
    /// paths in ascending order.
    pub proof fn lemma_layout(&self)
        requires
            self.wf(),
        ensures
            ascending(self.labels()),
            self.labels().to_set() == self@.dom(),
            forall|i: int|
                0 <= i < self.labels().len() ==> {
                    &&& ascending(#[trigger] self.paths(i))
                    &&& self.paths(i).len() > 0
                    &&& self.paths(i).to_set() == self@[self.labels()[i]]
                },
    {
        assert(self.labels().to_set() =~= self@.dom());
        assert forall|i: int| 0 <= i < self.labels().len() implies {
            &&& ascending(#[trigger] self.paths(i))
            &&& self.paths(i).len() > 0
            &&& self.paths(i).to_set() == self@[self.labels()[i]]
        } by {
            self.lemma_entry(i);
            assert(self.hits@[i].wf());
        }
    }

    /// Every label has a path, so the mapping is that of its facts.
    pub proof fn lemma_view_of_facts(&self)
        requires
            self.wf(),
        ensures
            self@ == tagged(self.facts()),
    {
        let m = self@;
        let t = tagged(self.facts());
        assert forall|label: Seq<char>| m.contains_key(label) implies t.contains_key(label) by {
            let i = self.labels.members().index_of(label);
            self.lemma_entry(i);
            assert(self.hits@[i].wf());
            let p = self.hits@[i].members()[0];
            assert(self.hits@[i]@.contains(p));
            assert(self.facts().contains((label, p)));
        }
        assert forall|label: Seq<char>| m.contains_key(label) implies m[label] =~= t[label] by {
            assert forall|p: Seq<char>| m[label].contains(p) <==> t[label].contains(p) by {
                assert(m[label].contains(p) <==> self.facts().contains((label, p)));
            }
        }
        assert(m =~= t);
    }

    /// The empty mapping.
    pub fn new() -> (r: TaggedFiles)
        ensures
            r.wf(),
            r@ == Map::<Seq<char>, Set<Seq<char>>>::empty(),
            r.facts() == Set::<Fact>::empty(),
    {
        let r = TaggedFiles { labels: StringSet::new(), hits: Vec::new() };
        assert(r@ =~= Map::<Seq<char>, Set<Seq<char>>>::empty());
        assert(r.facts() =~= Set::<Fact>::empty());
        r
    }

    /// Makes sure that `tag` is a label, with no paths if it was none, and
    /// returns its place.
    fn slot(&mut self, tag: &str) -> (i: usize)
        requires
            old(self).shaped(),
        ensures
            final(self).shaped(),
            i < final(self).labels().len(),
            final(self).labels()[i as int] == tag@,
            final(self)@ == old(self)@.insert(tag@, paths_under(old(self)@, tag@)),
            old(self).filled_but(-1) ==> final(self).filled_but(i as int),
    {
        let ghost keys = self.labels.members();
        let ghost values = self.hits@;
        let (i, added) = self.labels.place(tag.to_owned());
        if added {
            let none = StringSet::new();
            proof {
                lemma_keyed_insert(keys, values, i as int, tag@, none);
                values.insert_ensures(i as int, none);
            }
            self.hits.insert(i, none);
        } else {
            proof {
                lemma_keyed_at(keys, values, i as int);
            }
        }
        assert(self@ =~= old(self)@.insert(tag@, paths_under(old(self)@, tag@)));
        i
    }

    /// The mapping after the paths at place `i` have been replaced.
    proof fn lemma_replaced(before: TaggedFiles, after: TaggedFiles, i: int)
        requires
            before.shaped(),
            0 <= i < before.labels().len(),
            after.labels == before.labels,
            after.hits@ == before.hits@.update(i, after.hits@[i]),
            after.hits@[i].wf(),
        ensures
            after.shaped(),
            after@ == before@.insert(before.labels()[i], after.hits@[i]@),
            before.filled_but(i) && after.hits@[i].members().len() > 0 ==> after.wf(),
    {
        lemma_keyed_update(before.labels.members(), before.hits@, i, after.hits@[i]);
        assert(after@ =~= before@.insert(before.labels()[i], after.hits@[i]@));
    }

    /// Records that `hit` carries `tag`.
    pub fn add(&mut self, tag: &str, hit: &str)
        requires
            old(self).wf(),
        ensures
            final(self).wf(),
            final(self)@ == old(self)@.insert(tag@, paths_under(old(self)@, tag@).insert(hit@)),
            final(self).facts() == old(self).facts().insert((tag@, hit@)),
    {
        let i = self.slot(tag);
        let ghost mid = *self;
        self.hits[i].insert(hit.to_owned());
        proof {
            let grown = self.hits@[i as int];
            assert(grown@.contains(hit@));
            assert(grown.members().len() > 0);
            mid.lemma_entry(i as int);
            Self::lemma_replaced(mid, *self, i as int);
            assert(self@ =~= old(self)@.insert(
                tag@,
                paths_under(old(self)@, tag@).insert(hit@),
            ));
            lemma_facts_insert(old(self)@, tag@, hit@);
        }
    }

    /// Records that each of `paths` carries `tag`.
    pub fn add_all(&mut self, tag: &str, paths: &StringSet)
        requires
            old(self).wf(),
            paths.wf(),
            paths.members().len() > 0,
        ensures
            final(self).wf(),
            final(self)@ == old(self)@.insert(tag@, paths_under(old(self)@, tag@).union(paths@)),
    {
        let i = self.slot(tag);
        let ghost mid = *self;
        self.hits[i].extend(paths);
        proof {
            let grown = self.hits@[i as int];
            assert(grown@.contains(paths.members()[0]));
            assert(grown.members().len() > 0);
            mid.lemma_entry(i as int);
            Self::lemma_replaced(mid, *self, i as int);
            assert(self@ =~= old(self)@.insert(
                tag@,
                paths_under(old(self)@, tag@).union(paths@),
            ));
        }
    }

    /// The number of labels.
    pub fn len(&self) -> (n: usize)
        ensures
            n == self.labels().len(),
    {
        self.labels.len()
    }

    /// The label at place `i` of the ascending order.
    pub fn label(&self, i: usize) -> (label: &String)
        requires
            self.wf(),
            i < self.labels().len(),
        ensures
            label@ == self.labels()[i as int],
    {
        self.labels.get(i)
    }

    /// The paths under the label at place `i`.
    pub fn hits(&self, i: usize) -> (paths: &StringSet)
        requires
            self.wf(),
            i < self.labels().len(),
        ensures
            paths.wf(),
            paths.members() == self.paths(i as int),
            paths@ == self@[self.labels()[i as int]],
    {
        proof {
            self.lemma_entry(i as int);
        }
        &self.hits[i]
    }
}

impl TaggedFiles {
    /// The labels with their paths, both in ascending order.
    pub open spec fn report(&self) -> Report {
        Seq::new(self.labels().len(), |i: int| (self.labels()[i], self.paths(i)))
    }

    /// The report leaves out no label: each stands there with all its
    /// paths.
    pub proof fn lemma_report_holds_every_label(&self, label: Seq<char>)
        requires
            self.wf(),
            self@.contains_key(label),
        ensures
            exists|i: int|
                0 <= i < self.report().len() && (#[trigger] self.report()[i]).0 == label
                    && self.report()[i].1.to_set() == self@[label],
    {
        self.lemma_layout();
        assert(self.labels().to_set().contains(label));
        let i = choose|i: int| 0 <= i < self.labels().len() && self.labels()[i] == label;
        assert(self.paths(i).to_set() == self@[self.labels()[i]]);
        assert(self.report()[i].0 == label);
    }

    /// Takes in every fact of `other`.
    pub fn absorb(&mut self, other: &TaggedFiles)
        requires
            old(self).wf(),
            other.wf(),
        ensures
            final(self).wf(),
            final(self)@ == united(old(self)@, other@),
    {
        let n = other.len();
        let mut j: usize = 0;
        proof {
            assert(other.labels().take(0).to_set() =~= Set::<Seq<char>>::empty());
            let none = other@.restrict(other.labels().take(0).to_set());
            assert forall|label: Seq<char>| self@.contains_key(label) implies self@[label]
                =~= united(self@, none)[label] by {}
            assert(self@ =~= united(self@, none));
        }
        while j < n
            invariant
                j <= n,
                n == other.labels().len(),
                other.wf(),
                self.wf(),
                self@ == united(
                    old(self)@,
                    other@.restrict(other.labels().take(j as int).to_set()),
                ),
            decreases n - j,
        {
            let ghost l = other.labels();
            let ghost seen = l.take(j as int).to_set();
            proof {
                other.lemma_layout();
                assert(l.take(j + 1) =~= l.take(j as int).push(l[j as int]));
                l.take(j as int).lemma_push_to_set_commute(l[j as int]);
                if seen.contains(l[j as int]) {
                    let k = choose|k: int|
                        0 <= k < l.take(j as int).len() && l.take(j as int)[k] == l[j as int];
                    lemma_ascending_distinct(l, k, j as int);
                }
                assert(other@.dom().contains(l[j as int]));
            }
            self.add_all(other.label(j).as_str(), other.hits(j));
            proof {
                let next = united(old(self)@, other@.restrict(l.take(j + 1).to_set()));
                assert forall|label: Seq<char>| self@.contains_key(label) implies self@[label]
                    =~= next[label] by {}
                assert(self@ =~= next);
            }
            j += 1;
        }
        proof {
            other.lemma_layout();
            assert(other.labels().take(n as int) =~= other.labels());
            assert(other@.restrict(other@.dom()) =~= other@);
        }
    }

    /// The labels with their paths, both in ascending order.
    pub fn entries(&self) -> (r: Vec<(String, Vec<String>)>)
        requires
            self.wf(),
        ensures
            report_of(r@) == self.report(),
    {
        let mut r: Vec<(String, Vec<String>)> = Vec::new();
        let n = self.len();
        let mut i: usize = 0;
        while i < n
            invariant
                i <= n,
                n == self.labels().len(),
                self.wf(),
                report_of(r@) == self.report().take(i as int),
            decreases n - i,
        {
            let ghost before = r@;
            let entry = (self.label(i).clone(), self.hits(i).to_vec());
            r.push(entry);
            proof {
                assert(report_of(r@) =~= report_of(before).push((entry.0@, texts_of(entry.1@))));
                assert(self.report().take(i + 1) =~= self.report().take(i as int).push(
                    self.report()[i as int],
                ));
            }
            i += 1;
        }
        proof {
            assert(self.report().take(n as int) =~= self.report());
        }
        r
    }
}

/// Takes the results of several roots together.
pub fn merge(results: &Vec<TaggedFiles>) -> (r: TaggedFiles)
    requires
        forall|i: int| 0 <= i < results@.len() ==> (#[trigger] results@[i]).wf(),
    ensures
        r.wf(),
        r@ == merged(views_of(results@)),
{
    let ghost all = views_of(results@);
    let mut r = TaggedFiles::new();
    let n = results.len();
    let mut i: usize = 0;
    proof {
        assert(r@ =~= merged(all.take(0)));
    }
    while i < n
        invariant
            i <= n,
            n == results@.len(),
            all == views_of(results@),
            forall|i: int| 0 <= i < results@.len() ==> (#[trigger] results@[i]).wf(),
            r.wf(),
            r@ == merged(all.take(i as int)),
        decreases n - i,
    {
        proof {
            assert(all.take(i + 1) =~= all.take(i as int).push(all[i as int]));
            lemma_merged_push(all.take(i as int), all[i as int]);
        }
        r.absorb(&results[i]);
        i += 1;
    }
    proof {
        assert(all.take(n as int) =~= all);
    }
    r
}

/// The paths that stand under every label of `map`; none where it has no
/// label.
pub fn get_intersection_of_tag_hits(map: TaggedFiles) -> (r: StringSet)
    requires
        map.wf(),
    ensures
        r.wf(),
        r@ == common_paths(map@),
{
    let mut r = StringSet::new();
    let n = map.len();
    if n == 0 {
        proof {
            map.lemma_layout();
            assert forall|label: Seq<char>| !map@.contains_key(label) by {
                if map@.contains_key(label) {
                    assert(map.labels().to_set().contains(label));
                }
            }
            assert(r@ =~= common_paths(map@));
        }
        return r;
    }
    r.extend(map.hits(0));
    let mut i: usize = 1;
    proof {
        assert(r@ =~= map@[map.labels()[0]]);
    }
    while i < n
        invariant
            1 <= i <= n,
            n == map.labels().len(),
            map.wf(),
            r.wf(),
            forall|path: Seq<char>|
                r@.contains(path) <==> forall|k: int|
                    0 <= k < i ==> (#[trigger] map@[map.labels()[k]]).contains(path),
        decreases n - i,
    {
        r = r.intersection(map.hits(i));
        i += 1;
    }
    proof {
        map.lemma_layout();
        let l = map.labels();
        assert(map@.contains_key(l[0])) by {
            assert(l.to_set().contains(l[0]));
        }
        assert forall|path: Seq<char>| r@.contains(path) <==> common_paths(map@).contains(
            path,
        ) by {
            if r@.contains(path) {
                assert forall|label: Seq<char>| map@.contains_key(label) implies (
                #[trigger] map@[label]).contains(path) by {
                    assert(l.to_set().contains(label));
                    let k = choose|k: int| 0 <= k < l.len() && l[k] == label;
                    assert(map@[l[k]].contains(path));
                }
            }
            if common_paths(map@).contains(path) {
                assert forall|k: int| 0 <= k < n implies (#[trigger] map@[l[k]]).contains(
                    path,
                ) by {
                    assert(l.to_set().contains(l[k]));
                }
            }
        }
        assert(r@ =~= common_paths(map@));
    }
    r
}

/// Turns the merged results into what is reported.
///
/// With `or` set, every label is reported with its paths. Without it, there
/// is one entry: under the queries, joined by a comma and a space, stand the
/// paths that carry every label.
pub fn combine(aggregated: TaggedFiles, queries: &Vec<String>, or: bool) -> (report: Vec<
    (String, Vec<String>),
>)
    requires
        aggregated.wf(),
    ensures
        or ==> report_of(report@) == aggregated.report(),
        !or ==> {
            &&& report_of(report@).len() == 1
            &&& report_of(report@)[0].0 == joined(texts_of(queries@), ", "@)
            &&& ascending(report_of(report@)[0].1)
            &&& report_of(report@)[0].1.to_set() == common_paths(aggregated@)
        },
{
    if or {
        aggregated.entries()
    } else {
        let key = join(queries, ", ");
        let common = get_intersection_of_tag_hits(aggregated);
        let paths = common.to_vec();
        let mut report: Vec<(String, Vec<String>)> = Vec::new();
        report.push((key, paths));
        report
    }
}

/// One more path under a label is one more fact.
pub proof fn lemma_facts_insert(
    m: Map<Seq<char>, Set<Seq<char>>>,
    label: Seq<char>,
    path: Seq<char>,
)
    ensures
        facts_in(m.insert(label, paths_under(m, label).insert(path))) == facts_in(m).insert(
            (label, path),
        ),
{
    let after = m.insert(label, paths_under(m, label).insert(path));
    assert forall|f: Fact| facts_in(after).contains(f) <==> facts_in(m).insert(
        (label, path),
    ).contains(f) by {
        if f.0 == label {
            assert(after[label].contains(f.1) <==> (f.1 == path || paths_under(m, label).contains(
                f.1,
            )));
        }
    }
    assert(facts_in(after) =~= facts_in(m).insert((label, path)));
}

} // verus!
