//! Name patterns and the predicate that decides whether a name satisfies one.

use vstd::prelude::*;
use crate::engines::{regex_find, regex_search, wildcard_matches, wildcard_test};
use crate::text::same_text;

verus! {

/// How a criterion selects entry names.
///
/// Any value is legal: an empty `Any` or `AnyNamed` list simply matches
/// nothing, and so does a `Regex` whose pattern does not compile.
#[derive(Debug, PartialEq, Eq)]
pub enum EntryName {
    /// The name itself.
    Exact(String),
    /// Any one of these names.
    Any(Vec<String>),
    /// Any one of these patterns.
    AnyNamed(Vec<EntryName>),
    /// A regular expression that must match somewhere in the name.
    Regex(String),
    /// A wildcard pattern that must cover the whole name.
    Wildmatch(String),
}

/// The mathematical content of an `EntryName`.
pub enum NamePattern {
    Exact(Seq<char>),
    Any(Seq<Seq<char>>),
    AnyNamed(Seq<NamePattern>),
    Regex(Seq<char>),
    Wildmatch(Seq<char>),
}

impl View for EntryName {
    type V = NamePattern;

    open spec fn view(&self) -> NamePattern
        decreases self,
    {
        match self {
            EntryName::Exact(name) => NamePattern::Exact(name@),
            EntryName::Any(names) => NamePattern::Any(
                Seq::new(names.len() as nat, |i: int| names[i]@),
            ),
            EntryName::AnyNamed(patterns) => NamePattern::AnyNamed(
                // The bounds test is what shows that the nested view is
                // taken of a smaller value.
                Seq::new(
                    patterns.len() as nat,
                    |i: int|
                        if 0 <= i < patterns.len() {
                            patterns[i]@
                        } else {
                            NamePattern::Any(Seq::empty())
                        },
                ),
            ),
            EntryName::Regex(pattern) => NamePattern::Regex(pattern@),
            EntryName::Wildmatch(pattern) => NamePattern::Wildmatch(pattern@),
        }
    }
}

/// What a regular-expression outcome means for a name: only a pattern that
/// compiled and found a match accepts it.
pub open spec fn regex_accepts(outcome: Option<bool>) -> bool {
    outcome == Some(true)
}

impl NamePattern {
    /// The name-matching predicate.
    ///
    /// * `Exact` accepts the very same text and nothing else.
    /// * `Any` accepts a name that equals one of its elements.
    /// * `AnyNamed` accepts a name that one of its nested patterns accepts.
    /// * `Regex` accepts a name in which the compiled pattern finds a match;
    ///   the match need not span the whole name unless the pattern anchors
    ///   it. A pattern that does not compile accepts nothing.
    /// * `Wildmatch` accepts a name that the wildcard pattern covers
    ///   entirely.
    pub open spec fn accepts(self, name: Seq<char>) -> bool
        decreases self,
    {
        match self {
            NamePattern::Exact(wanted) => name == wanted,
            NamePattern::Any(names) => names.contains(name),
            NamePattern::AnyNamed(patterns) => any_accepts(patterns, name),
            NamePattern::Regex(pattern) => regex_accepts(regex_search(pattern, name)),
            NamePattern::Wildmatch(pattern) => wildcard_matches(pattern, name),
        }
    }
}

/// Whether at least one pattern of the list accepts the name.
pub open spec fn any_accepts(patterns: Seq<NamePattern>, name: Seq<char>) -> bool
    decreases patterns,
{
    exists|i: int| 0 <= i < patterns.len() && (#[trigger] patterns[i]).accepts(name)
}

/// The list with every nested `AnyNamed` replaced, at any depth, by the
/// patterns it holds, in order.
pub open spec fn flatten(patterns: Seq<NamePattern>) -> Seq<NamePattern>
    decreases patterns,
{
    if patterns.len() == 0 {
        Seq::empty()
    } else {
        flatten(patterns.drop_last()) + match patterns.last() {
            NamePattern::AnyNamed(nested) => flatten(nested),
            leaf => seq![leaf],
        }
    }
}

/// A pattern nested in an `AnyNamed` is structurally smaller than the
/// `AnyNamed` itself.
proof fn lemma_nested_is_smaller(outer: &EntryName, i: int)
    requires
        outer is AnyNamed,
        0 <= i < outer->AnyNamed_0.len(),
    ensures
        decreases_to!(outer => outer->AnyNamed_0[i]),
{
}

/// Decides what a regular-expression outcome means for a name: `None` (the
/// pattern did not compile) and `Some(false)` reject it, `Some(true)`
/// accepts it.
pub fn regex_verdict(outcome: Option<bool>) -> (accepted: bool)
    ensures
        accepted == regex_accepts(outcome),
{
    match outcome {
        Some(found) => found,
        None => false,
    }
}

impl EntryName {
    /// Decides whether a candidate name satisfies this pattern.
    pub fn matches(&self, name: &str) -> (accepted: bool)
        ensures
            accepted == self@.accepts(name@),
        decreases self,
    {
        match self {
            EntryName::Exact(wanted) => same_text(wanted.as_str(), name),
            EntryName::Any(names) => {
                let mut i: usize = 0;
                while i < names.len()
                    invariant
                        0 <= i <= names.len(),
                        self@ is Any,
                        self@->Any_0.len() == names.len(),
                        forall|j: int| 0 <= j < names.len() ==> self@->Any_0[j] == names[j]@,
                        forall|j: int| 0 <= j < i ==> self@->Any_0[j] != name@,
                    decreases names.len() - i,
                {
                    if same_text(names[i].as_str(), name) {
                        assert(self@->Any_0[i as int] == name@);
                        return true;
                    }
                    i += 1;
                }
                false
            },
            EntryName::AnyNamed(patterns) => {
                let mut i: usize = 0;
                while i < patterns.len()
                    invariant
                        0 <= i <= patterns.len(),
                        *self == EntryName::AnyNamed(*patterns),
                        self@ is AnyNamed,
                        self@->AnyNamed_0.len() == patterns.len(),
                        forall|j: int|
                            0 <= j < patterns.len() ==> self@->AnyNamed_0[j] == patterns[j]@,
                        forall|j: int| 0 <= j < i ==> !self@->AnyNamed_0[j].accepts(name@),
                    decreases patterns.len() - i,
                {
                    proof {
                        lemma_nested_is_smaller(self, i as int);
                    }
                    if patterns[i].matches(name) {
                        assert(self@->AnyNamed_0[i as int].accepts(name@));
                        return true;
                    }
                    i += 1;
                }
                false
            },
            EntryName::Regex(pattern) => regex_verdict(regex_find(pattern.as_str(), name)),
            EntryName::Wildmatch(pattern) => wildcard_test(pattern.as_str(), name),
        }
    }
}

impl Clone for EntryName {
    /// A deep copy: the result stands for the same pattern.
    fn clone(&self) -> (copy: Self)
        ensures
            copy@ == self@,
        decreases self,
    {
        match self {
            EntryName::Exact(name) => EntryName::Exact(name.clone()),
            EntryName::Any(names) => {
                let mut copies: Vec<String> = Vec::new();
                let mut i: usize = 0;
                while i < names.len()
                    invariant
                        0 <= i <= names.len(),
                        copies.len() == i,
                        forall|j: int| 0 <= j < i ==> copies[j]@ == names[j]@,
                    decreases names.len() - i,
                {
                    copies.push(names[i].clone());
                    i += 1;
                }
                let copy = EntryName::Any(copies);
                assert(copy@->Any_0 =~= self@->Any_0);
                copy
            },
            EntryName::AnyNamed(patterns) => {
                let mut copies: Vec<EntryName> = Vec::new();
                let mut i: usize = 0;
                while i < patterns.len()
                    invariant
                        0 <= i <= patterns.len(),
                        copies.len() == i,
                        *self == EntryName::AnyNamed(*patterns),
                        forall|j: int| 0 <= j < i ==> copies[j]@ == patterns[j]@,
                    decreases patterns.len() - i,
                {
                    proof {
                        lemma_nested_is_smaller(self, i as int);
                    }
                    copies.push(patterns[i].clone());
                    i += 1;
                }
                let copy = EntryName::AnyNamed(copies);
                assert(copy@->AnyNamed_0 =~= self@->AnyNamed_0);
                copy
            },
            EntryName::Regex(pattern) => EntryName::Regex(pattern.clone()),
            EntryName::Wildmatch(pattern) => EntryName::Wildmatch(pattern.clone()),
        }
    }
}

/// `Exact` accepts a name exactly when the name is the wanted text.
pub proof fn lemma_exact_accepts_only_itself(wanted: Seq<char>, name: Seq<char>)
    ensures
        NamePattern::Exact(wanted).accepts(name) <==> name == wanted,
{
}

/// `Any` accepts a name exactly when the name equals one of the listed
/// names; in particular an empty list accepts nothing.
pub proof fn lemma_any_accepts_listed_names(names: Seq<Seq<char>>, name: Seq<char>)
    ensures
        NamePattern::Any(names).accepts(name) <==> exists|i: int|
            0 <= i < names.len() && names[i] == name,
        names.len() == 0 ==> !NamePattern::Any(names).accepts(name),
{
}

/// `AnyNamed` accepts a name exactly when one of its nested patterns does;
/// in particular an empty list accepts nothing.
pub proof fn lemma_any_named_accepts_some_nested(patterns: Seq<NamePattern>, name: Seq<char>)
    ensures
        NamePattern::AnyNamed(patterns).accepts(name) <==> exists|i: int|
            0 <= i < patterns.len() && (#[trigger] patterns[i]).accepts(name),
        patterns.len() == 0 ==> !NamePattern::AnyNamed(patterns).accepts(name),
{
}

/// A list of one pattern accepts what that pattern accepts.
pub proof fn lemma_any_accepts_single(pattern: NamePattern, name: Seq<char>)
    ensures
        any_accepts(seq![pattern], name) <==> pattern.accepts(name),
{
    let single = seq![pattern];
    if any_accepts(single, name) {
        let i = choose|i: int| 0 <= i < single.len() && (#[trigger] single[i]).accepts(name);
        assert(single[i] == pattern);
    }
    if pattern.accepts(name) {
        assert(single[0].accepts(name));
    }
}

/// Joining two lists joins what they accept.
pub proof fn lemma_any_accepts_concat(
    left: Seq<NamePattern>,
    right: Seq<NamePattern>,
    name: Seq<char>,
)
    ensures
        any_accepts(left + right, name) <==> any_accepts(left, name) || any_accepts(right, name),
{
    let joined = left + right;
    if any_accepts(joined, name) {
        let i = choose|i: int| 0 <= i < joined.len() && (#[trigger] joined[i]).accepts(name);
        if i < left.len() {
            assert(left[i].accepts(name));
        } else {
            assert(right[i - left.len()].accepts(name));
        }
    }
    if any_accepts(left, name) {
        let i = choose|i: int| 0 <= i < left.len() && (#[trigger] left[i]).accepts(name);
        assert(joined[i].accepts(name));
    }
    if any_accepts(right, name) {
        let i = choose|i: int| 0 <= i < right.len() && (#[trigger] right[i]).accepts(name);
        assert(joined[left.len() + i].accepts(name));
    }
}

/// Nesting is associative: an `AnyNamed` inside an `AnyNamed` list may be
/// replaced by its own elements, spliced in at the same place, without
/// changing which names are accepted.
pub proof fn lemma_any_named_splice(
    before: Seq<NamePattern>,
    nested: Seq<NamePattern>,
    after: Seq<NamePattern>,
    name: Seq<char>,
)
    ensures
        NamePattern::AnyNamed(before + seq![NamePattern::AnyNamed(nested)] + after).accepts(name)
            <==> NamePattern::AnyNamed(before + nested + after).accepts(name),
{
    let wrapped = seq![NamePattern::AnyNamed(nested)];
    lemma_any_accepts_single(NamePattern::AnyNamed(nested), name);
    lemma_any_accepts_concat(before, wrapped, name);
    lemma_any_accepts_concat(before + wrapped, after, name);
    lemma_any_accepts_concat(before, nested, name);
    lemma_any_accepts_concat(before + nested, after, name);
}

/// Flattening every nested `AnyNamed`, to any depth, does not change which
/// names a list accepts.
pub proof fn lemma_flatten_preserves_matching(patterns: Seq<NamePattern>, name: Seq<char>)
    ensures
        any_accepts(flatten(patterns), name) <==> any_accepts(patterns, name),
        NamePattern::AnyNamed(flatten(patterns)).accepts(name) <==> NamePattern::AnyNamed(
            patterns,
        ).accepts(name),
    decreases patterns,
{
    if patterns.len() > 0 {
        let front = patterns.drop_last();
        let last = patterns.last();
        let tail = match last {
            NamePattern::AnyNamed(nested) => flatten(nested),
            leaf => seq![leaf],
        };
        lemma_flatten_preserves_matching(front, name);
        assert(any_accepts(tail, name) <==> last.accepts(name)) by {
            match last {
                NamePattern::AnyNamed(nested) => lemma_flatten_preserves_matching(nested, name),
                leaf => lemma_any_accepts_single(leaf, name),
            }
        }
        lemma_any_accepts_single(last, name);
        lemma_any_accepts_concat(flatten(front), tail, name);
        lemma_any_accepts_concat(front, seq![last], name);
        assert(front + seq![last] =~= patterns);
    }
}

} // verus!
