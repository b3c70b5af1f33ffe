//! Declarations: the rules that the declaration file of one directory
//! states, and their evaluation against one child of that directory.

use crate::pattern::{regex_matches, regex_valid, Pattern, PatternError};
use crate::text::texts_of;
use vstd::prelude::*;
use vstd::string::*;

verus! {

/// A rule in mathematical form.
pub enum Rule {
    /// Governs the regular files whose name matches `pattern`.
    FilePattern { pattern: Seq<char>, labels: Seq<Seq<char>> },
    /// Governs the directory that holds the declaration.
    DirectoryTag { labels: Seq<Seq<char>> },
}

/// A hit in mathematical form: the label that matched, and the path it marks.
pub type Fact = (Seq<char>, Seq<char>);

/// A rule as it is written down: the file name pattern is still plain text.
#[derive(Debug, PartialEq, Eq)]
pub enum TaggerLineRaw {
    Tag(String, Vec<String>),
    DirTag(Vec<String>),
}

/// A rule whose file name pattern has been compiled.
#[derive(Debug)]
pub enum TaggerLine {
    Tag(Pattern, Vec<String>),
    DirTag(Vec<String>),
}

/// The declaration of one directory: its rules, in the order written.
#[derive(Debug)]
pub struct TaggerFile(pub Vec<TaggerLine>);

/// What the evaluation reads of one child of a directory.
#[derive(Debug)]
pub struct Entry {
    /// The last component of the path.
    pub name: String,
    /// The whole path.
    pub path: String,
    /// Whether the entry is a regular file.
    pub is_file: bool,
}

/// An entry in mathematical form.
pub struct Child {
    pub name: Seq<char>,
    pub path: Seq<char>,
    pub is_file: bool,
}

/// A label that matched a query, and the path that carries it.
#[derive(Debug, PartialEq, Eq)]
pub struct Hit {
    pub label: String,
    pub path: String,
}

impl View for TaggerLineRaw {
    type V = Rule;

    open spec fn view(&self) -> Rule {
        match self {
            TaggerLineRaw::Tag(pattern, labels) => Rule::FilePattern {
                pattern: pattern@,
                labels: texts_of(labels@),
            },
            TaggerLineRaw::DirTag(labels) => Rule::DirectoryTag { labels: texts_of(labels@) },
        }
    }
}

impl View for TaggerLine {
    type V = Rule;

    open spec fn view(&self) -> Rule {
        match self {
            TaggerLine::Tag(pattern, labels) => Rule::FilePattern {
                pattern: pattern@,
                labels: texts_of(labels@),
            },
            TaggerLine::DirTag(labels) => Rule::DirectoryTag { labels: texts_of(labels@) },
        }
    }
}

impl View for TaggerFile {
    type V = Seq<Rule>;

    open spec fn view(&self) -> Seq<Rule> {
        compiled_rules_of(self.0@)
    }
}

impl View for Entry {
    type V = Child;

    open spec fn view(&self) -> Child {
        Child { name: self.name@, path: self.path@, is_file: self.is_file }
    }
}

impl View for Hit {
    type V = Fact;

    open spec fn view(&self) -> Fact {
        (self.label@, self.path@)
    }
}

/// The hits of a vector, in mathematical form.
pub open spec fn facts_of(hits: Seq<Hit>) -> Seq<Fact> {
    hits.map_values(|h: Hit| h@)
}

/// The rules of a sequence of compiled rules.
pub open spec fn compiled_rules_of(lines: Seq<TaggerLine>) -> Seq<Rule> {
    lines.map_values(|line: TaggerLine| line@)
}

/// The rules of a sequence of written rules.
pub open spec fn rules_of(lines: Seq<TaggerLineRaw>) -> Seq<Rule> {
    lines.map_values(|line: TaggerLineRaw| line@)
}

/// A rule can be used unless it has a file name pattern that does not compile.
pub open spec fn usable(rule: Rule) -> bool {
    match rule {
        Rule::FilePattern { pattern, .. } => regex_valid(pattern),
        Rule::DirectoryTag { .. } => true,
    }
}

/// The file name pattern of a rule that cannot be used.
pub open spec fn refused_pattern(rule: Rule) -> Seq<char> {
    match rule {
        Rule::FilePattern { pattern, .. } => pattern,
        Rule::DirectoryTag { .. } => Seq::empty(),
    }
}

/// The predicate `usable`.
pub open spec fn is_usable() -> spec_fn(Rule) -> bool {
    |rule: Rule| usable(rule)
}

/// The negation of `usable`.
pub open spec fn is_refused() -> spec_fn(Rule) -> bool {
    |rule: Rule| !usable(rule)
}

/// The function `refused_pattern`.
pub open spec fn to_refused_pattern() -> spec_fn(Rule) -> Seq<char> {
    |rule: Rule| refused_pattern(rule)
}

/// The patterns that a sequence of errors names.
pub open spec fn patterns_of(errors: Seq<PatternError>) -> Seq<Seq<char>> {
    errors.map_values(|e: PatternError| e.pattern@)
}

/// Tells whether a label matches `query`.
pub open spec fn label_matcher(query: Seq<char>) -> spec_fn(Seq<char>) -> bool {
    |label: Seq<char>| regex_matches(query, label)
}

/// Makes the hit of a label at `path`.
pub open spec fn hit_at(path: Seq<char>) -> spec_fn(Seq<char>) -> Fact {
    |label: Seq<char>| (label, path)
}

/// One hit at `path` for each of `labels` that matches `query`, in order.
pub open spec fn label_hits(labels: Seq<Seq<char>>, query: Seq<char>, path: Seq<char>) -> Seq<
    Fact,
> {
    labels.filter(label_matcher(query)).map_values(hit_at(path))
}

/// The hits of one rule of the declaration of `directory`, for one of its
/// children and one query.
///
/// A file pattern speaks only of regular files whose name it matches, and
/// marks the file itself. A directory tag marks `directory`, whatever the
/// child is.
pub open spec fn rule_hits(rule: Rule, query: Seq<char>, directory: Seq<char>, child: Child) -> Seq<
    Fact,
> {
    match rule {
        Rule::FilePattern { pattern, labels } => if child.is_file && regex_matches(
            pattern,
            child.name,
        ) {
            label_hits(labels, query, child.path)
        } else {
            Seq::empty()
        },
        Rule::DirectoryTag { labels } => label_hits(labels, query, directory),
    }
}

/// Evaluates one rule: `rule_hits` with all but the rule fixed.
pub open spec fn rule_evaluator(query: Seq<char>, directory: Seq<char>, child: Child) -> spec_fn(
    Rule,
) -> Seq<Fact> {
    |rule: Rule| rule_hits(rule, query, directory, child)
}

/// The hits of a declaration: those of its rules, each on its own merits,
/// in the order of the rules.
pub open spec fn declaration_hits(
    rules: Seq<Rule>,
    query: Seq<char>,
    directory: Seq<char>,
    child: Child,
) -> Seq<Fact> {
    rules.flat_map(rule_evaluator(query, directory, child))
}

/// A label has a hit at `path` exactly when it is one of `labels` and
/// matches `query`.
pub proof fn lemma_label_hits(
    labels: Seq<Seq<char>>,
    query: Seq<char>,
    path: Seq<char>,
    fact: Fact,
)
    ensures
        label_hits(labels, query, path).contains(fact) <==> (fact.1 == path && labels.contains(
            fact.0,
        ) && regex_matches(query, fact.0)),
{
    let chosen = labels.filter(label_matcher(query));
    let hits = label_hits(labels, query, path);
    if hits.contains(fact) {
        let i = choose|i: int| 0 <= i < hits.len() && hits[i] == fact;
        assert(hits[i] == (chosen[i], path));
        labels.lemma_filter_pred(label_matcher(query), i);
        assert(chosen.contains(chosen[i]));
        labels.lemma_filter_contains_rev(label_matcher(query), chosen[i]);
    }
    if fact.1 == path && labels.contains(fact.0) && regex_matches(query, fact.0) {
        let j = choose|j: int| 0 <= j < labels.len() && labels[j] == fact.0;
        labels.lemma_filter_contains(label_matcher(query), j);
        let i = choose|i: int| 0 <= i < chosen.len() && chosen[i] == fact.0;
        assert(hits[i] == fact);
    }
}

/// Each rule is evaluated on its own merits: the hits of a declaration are
/// those of its rules, and no rule takes away the hits of another.
pub proof fn lemma_declaration_hits(
    rules: Seq<Rule>,
    query: Seq<char>,
    directory: Seq<char>,
    child: Child,
    fact: Fact,
)
    ensures
        declaration_hits(rules, query, directory, child).contains(fact) <==> exists|r: int|
            0 <= r < rules.len() && rule_hits(#[trigger] rules[r], query, directory, child).contains(
                fact,
            ),
    decreases rules.len(),
{
    let evaluate = rule_evaluator(query, directory, child);
    if rules.len() == 0 {
        assert(rules.map_values(evaluate) =~= Seq::<Seq<Fact>>::empty());
        assert(declaration_hits(rules, query, directory, child) =~= Seq::<Fact>::empty());
    } else {
        let front = rules.drop_last();
        let last = rules.last();
        assert(rules =~= front.push(last));
        front.lemma_flat_map_push(evaluate, last);
        lemma_declaration_hits(front, query, directory, child, fact);
        let all = declaration_hits(rules, query, directory, child);
        let before = declaration_hits(front, query, directory, child);
        let own = rule_hits(last, query, directory, child);
        assert(all =~= before + own);
        if all.contains(fact) {
            let i = choose|i: int| 0 <= i < all.len() && all[i] == fact;
            if i < before.len() {
                assert(before[i] == fact);
                let r = choose|r: int|
                    0 <= r < front.len() && rule_hits(
                        #[trigger] front[r],
                        query,
                        directory,
                        child,
                    ).contains(fact);
                assert(rules[r] == front[r]);
            } else {
                assert(own[i - before.len()] == fact);
                assert(rules[rules.len() - 1] == last);
            }
        }
        if exists|r: int|
            0 <= r < rules.len() && rule_hits(#[trigger] rules[r], query, directory, child).contains(
                fact,
            ) {
            let r = choose|r: int|
                0 <= r < rules.len() && rule_hits(
                    #[trigger] rules[r],
                    query,
                    directory,
                    child,
                ).contains(fact);
            if r < front.len() {
                assert(front[r] == rules[r]);
                let i = choose|i: int| 0 <= i < before.len() && before[i] == fact;
                assert(all[i] == fact);
            } else {
                let i = choose|i: int| 0 <= i < own.len() && own[i] == fact;
                assert(all[before.len() + i] == fact);
            }
        }
    }
}

/// A directory tag marks the directory of its declaration under every one
/// of its labels that matches the query, whatever the child is that the
/// declaration is evaluated for.
pub proof fn lemma_directory_tag_marks_directory(
    rules: Seq<Rule>,
    r: int,
    label: Seq<char>,
    query: Seq<char>,
    directory: Seq<char>,
    child: Child,
)
    requires
        0 <= r < rules.len(),
        rules[r] is DirectoryTag,
        rules[r]->DirectoryTag_labels.contains(label),
        regex_matches(query, label),
    ensures
        declaration_hits(rules, query, directory, child).contains((label, directory)),
{
    lemma_label_hits(rules[r]->DirectoryTag_labels, query, directory, (label, directory));
    lemma_declaration_hits(rules, query, directory, child, (label, directory));
}

/// What a directory tag yields does not depend on the child.
pub proof fn lemma_directory_tag_ignores_child(
    rule: Rule,
    query: Seq<char>,
    directory: Seq<char>,
    one: Child,
    other: Child,
)
    requires
        rule is DirectoryTag,
    ensures
        rule_hits(rule, query, directory, one) == rule_hits(rule, query, directory, other),
{
}

/// A file pattern yields nothing for a child that is not a regular file,
/// whatever its name.
pub proof fn lemma_file_pattern_passes_over_non_files(
    rule: Rule,
    query: Seq<char>,
    directory: Seq<char>,
    child: Child,
)
    requires
        rule is FilePattern,
        !child.is_file,
    ensures
        rule_hits(rule, query, directory, child) == Seq::<Fact>::empty(),
{
}

/// A file pattern marks the file itself: a regular file whose name the
/// pattern matches is hit under every label of the rule that matches the
/// query.
pub proof fn lemma_file_pattern_marks_file(
    rules: Seq<Rule>,
    r: int,
    label: Seq<char>,
    query: Seq<char>,
    directory: Seq<char>,
    child: Child,
)
    requires
        0 <= r < rules.len(),
        rules[r] is FilePattern,
        child.is_file,
        regex_matches(rules[r]->pattern, child.name),
        rules[r]->FilePattern_labels.contains(label),
        regex_matches(query, label),
    ensures
        declaration_hits(rules, query, directory, child).contains((label, child.path)),
{
    lemma_label_hits(rules[r]->FilePattern_labels, query, child.path, (label, child.path));
    lemma_declaration_hits(rules, query, directory, child, (label, child.path));
}

/// Every hit carries a label that the query matches, and marks either the
/// child, which is then a regular file, or the directory.
pub proof fn lemma_hits_are_sound(
    rules: Seq<Rule>,
    query: Seq<char>,
    directory: Seq<char>,
    child: Child,
    fact: Fact,
)
    requires
        declaration_hits(rules, query, directory, child).contains(fact),
    ensures
        regex_matches(query, fact.0),
        fact.1 == directory || (child.is_file && fact.1 == child.path),
{
    lemma_declaration_hits(rules, query, directory, child, fact);
    let r = choose|r: int|
        0 <= r < rules.len() && rule_hits(#[trigger] rules[r], query, directory, child).contains(
            fact,
        );
    match rules[r] {
        Rule::FilePattern { pattern, labels } => {
            lemma_label_hits(labels, query, child.path, fact);
        },
        Rule::DirectoryTag { labels } => {
            lemma_label_hits(labels, query, directory, fact);
        },
    }
}

/// A declaration of one file pattern with one label gives one hit for a
/// regular file whose name the pattern matches, under a query that matches
/// the label: the label, at the path of the file itself and not at that of
/// its directory.
pub proof fn lemma_single_file_pattern_hit(
    pattern: Seq<char>,
    label: Seq<char>,
    query: Seq<char>,
    directory: Seq<char>,
    child: Child,
)
    requires
        child.is_file,
        regex_matches(pattern, child.name),
        regex_matches(query, label),
    ensures
        declaration_hits(
            seq![Rule::FilePattern { pattern, labels: seq![label] }],
            query,
            directory,
            child,
        ) == seq![(label, child.path)],
{
    let labels = seq![label];
    let rules = seq![Rule::FilePattern { pattern, labels }];
    reveal(Seq::filter);
    assert(labels.drop_last() =~= Seq::<Seq<char>>::empty());
    assert(labels.filter(label_matcher(query)) =~= labels);
    assert(label_hits(labels, query, child.path) =~= seq![(label, child.path)]);
    rules.lemma_flat_map_singleton(rule_evaluator(query, directory, child));
}

/// A rule whose pattern does not compile takes nothing away from the
/// others: the declaration made of the rules that can be used has the hits
/// of each of them, and no other hit.
pub proof fn lemma_usable_rules_hit(
    rules: Seq<Rule>,
    query: Seq<char>,
    directory: Seq<char>,
    child: Child,
    fact: Fact,
)
    ensures
        declaration_hits(rules.filter(is_usable()), query, directory, child).contains(fact)
            <==> exists|r: int|
            0 <= r < rules.len() && usable(#[trigger] rules[r]) && rule_hits(
                rules[r],
                query,
                directory,
                child,
            ).contains(fact),
{
    let kept = rules.filter(is_usable());
    lemma_declaration_hits(kept, query, directory, child, fact);
    if declaration_hits(kept, query, directory, child).contains(fact) {
        let k = choose|k: int|
            0 <= k < kept.len() && rule_hits(#[trigger] kept[k], query, directory, child).contains(
                fact,
            );
        rules.lemma_filter_pred(is_usable(), k);
        assert(kept.contains(kept[k]));
        rules.lemma_filter_contains_rev(is_usable(), kept[k]);
        let r = choose|r: int| 0 <= r < rules.len() && rules[r] == kept[k];
        assert(usable(rules[r]) && rule_hits(rules[r], query, directory, child).contains(fact));
    }
    if exists|r: int|
        0 <= r < rules.len() && usable(#[trigger] rules[r]) && rule_hits(
            rules[r],
            query,
            directory,
            child,
        ).contains(fact) {
        let r = choose|r: int|
            0 <= r < rules.len() && usable(#[trigger] rules[r]) && rule_hits(
                rules[r],
                query,
                directory,
                child,
            ).contains(fact);
        rules.lemma_filter_contains(is_usable(), r);
        let k = choose|k: int| 0 <= k < kept.len() && kept[k] == rules[r];
        assert(rule_hits(kept[k], query, directory, child).contains(fact));
    }
}

/// Appends to `hits` one hit at `path` for each label that `query` matches.
fn push_label_hits(labels: &Vec<String>, query: &Pattern, path: &str, hits: &mut Vec<Hit>)
    ensures
        facts_of(final(hits)@) == facts_of(old(hits)@) + label_hits(
            texts_of(labels@),
            query@,
            path@,
        ),
{
    let ghost all = texts_of(labels@);
    let ghost start = facts_of(hits@);
    let n = labels.len();
    let mut i: usize = 0;
    proof {
        reveal(Seq::filter);
        assert(all.take(0) =~= Seq::<Seq<char>>::empty());
        assert(label_hits(all.take(0), query@, path@) =~= Seq::<Fact>::empty());
        assert(start + Seq::<Fact>::empty() =~= start);
    }
    while i < n
        invariant
            i <= n,
            n == labels@.len(),
            all == texts_of(labels@),
            facts_of(hits@) == start + label_hits(all.take(i as int), query@, path@),
        decreases n - i,
    {
        let ghost before = hits@;
        let ghost seen = all.take(i as int);
        proof {
            assert(all.take(i + 1) =~= seen.push(all[i as int]));
            seen.lemma_filter_push(all[i as int], label_matcher(query@));
        }
        if query.is_match(labels[i].as_str()) {
            let hit = Hit { label: labels[i].clone(), path: path.to_owned() };
            hits.push(hit);
            proof {
                assert(facts_of(hits@) =~= facts_of(before).push(hit@));
                seen.filter(label_matcher(query@)).lemma_push_map_commute(
                    hit_at(path@),
                    all[i as int],
                );
                assert(facts_of(hits@) =~= start + label_hits(all.take(i + 1), query@, path@));
            }
        }
        i += 1;
    }
    proof {
        assert(all.take(n as int) =~= all);
    }
}

impl TaggerLine {
    /// Compiles the file name pattern of a written rule. The rule is refused
    /// exactly when it has a pattern that does not compile; the error then
    /// names that pattern.
    pub fn try_from(input: TaggerLineRaw) -> (r: Result<TaggerLine, PatternError>)
        ensures
            r is Ok <==> usable(input@),
            r matches Ok(line) ==> line@ == input@,
            r matches Err(e) ==> e.pattern@ == refused_pattern(input@),
    {
        match input {
            TaggerLineRaw::Tag(pattern, labels) => {
                match Pattern::new(pattern.as_str()) {
                    Ok(compiled) => Ok(TaggerLine::Tag(compiled, labels)),
                    Err(e) => Err(e),
                }
            },
            TaggerLineRaw::DirTag(labels) => Ok(TaggerLine::DirTag(labels)),
        }
    }
}

impl TaggerFile {
    /// Builds a declaration from its written rules. A rule whose file name
    /// pattern does not compile is left out, and the rest is kept in order.
    /// Beside the declaration come the errors of the rules left out, in
    /// order too.
    pub fn new(lines: Vec<TaggerLineRaw>) -> (r: (TaggerFile, Vec<PatternError>))
        ensures
            r.0@ == rules_of(lines@).filter(is_usable()),
            patterns_of(r.1@) == rules_of(lines@).filter(is_refused()).map_values(
                to_refused_pattern(),
            ),
    {
        let ghost all = rules_of(lines@);
        let mut kept: Vec<TaggerLine> = Vec::new();
        let mut dropped: Vec<PatternError> = Vec::new();
        proof {
            reveal(Seq::filter);
            assert(all.take(0) =~= Seq::<Rule>::empty());
            assert(compiled_rules_of(kept@) =~= all.take(0).filter(is_usable()));
            assert(patterns_of(dropped@) =~= all.take(0).filter(is_refused()).map_values(
                to_refused_pattern(),
            ));
        }
        for line in it: lines.into_iter()
            invariant
                all == rules_of(lines@),
                it.seq() == lines@,
                compiled_rules_of(kept@) == all.take(it.index()).filter(is_usable()),
                patterns_of(dropped@) == all.take(it.index()).filter(is_refused()).map_values(
                    to_refused_pattern(),
                ),
        {
            let ghost i = it.index();
            let ghost seen = all.take(i);
            let ghost kept_before = kept@;
            let ghost dropped_before = dropped@;
            proof {
                assert(line@ == all[i]);
                assert(all.take(i + 1) =~= seen.push(all[i]));
                seen.lemma_filter_push(all[i], is_usable());
                seen.lemma_filter_push(all[i], is_refused());
            }
            match TaggerLine::try_from(line) {
                Ok(compiled) => {
                    kept.push(compiled);
                    assert(compiled_rules_of(kept@) =~= compiled_rules_of(kept_before).push(
                        compiled@,
                    ));
                },
                Err(e) => {
                    dropped.push(e);
                    proof {
                        assert(patterns_of(dropped@) =~= patterns_of(dropped_before).push(
                            e.pattern@,
                        ));
                        seen.filter(is_refused()).lemma_push_map_commute(
                            to_refused_pattern(),
                            all[i],
                        );
                    }
                },
            }
        }
        proof {
            assert(all.take(all.len() as int) =~= all);
        }
        (TaggerFile(kept), dropped)
    }

    /// The hits of this declaration, which is that of `directory`, for one
    /// child of that directory and one query.
    pub fn has_match(&self, target_tag: &Pattern, directory: &str, target_file: &Entry) -> (hits:
        Vec<Hit>)
        ensures
            facts_of(hits@) == declaration_hits(self@, target_tag@, directory@, target_file@),
    {
        let ghost evaluate = rule_evaluator(target_tag@, directory@, target_file@);
        let mut hits: Vec<Hit> = Vec::new();
        let n = self.0.len();
        let mut i: usize = 0;
        proof {
            assert(self@.take(0) =~= Seq::<Rule>::empty());
            assert(self@.take(0).flat_map(evaluate) =~= Seq::<Fact>::empty());
            assert(facts_of(hits@) =~= Seq::<Fact>::empty());
        }
        while i < n
            invariant
                i <= n,
                n == self.0@.len(),
                evaluate == rule_evaluator(target_tag@, directory@, target_file@),
                facts_of(hits@) == self@.take(i as int).flat_map(evaluate),
            decreases n - i,
        {
            let ghost before = facts_of(hits@);
            proof {
                self@.lemma_flat_map_take_append(evaluate, i as int);
            }
            match &self.0[i] {
                TaggerLine::Tag(pattern, labels) => {
                    if target_file.is_file && pattern.is_match(target_file.name.as_str()) {
                        push_label_hits(labels, target_tag, target_file.path.as_str(), &mut hits);
                    } else {
                        assert(before + Seq::<Fact>::empty() =~= before);
                    }
                },
                TaggerLine::DirTag(labels) => {
                    push_label_hits(labels, target_tag, directory, &mut hits);
                },
            }
            i += 1;
        }
        proof {
            assert(self@.take(n as int) =~= self@);
        }
        hits
    }
}

} // verus!
