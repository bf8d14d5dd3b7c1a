//! Banks of regular expressions, matched in one pass.

use regex::RegexSet;
use vstd::prelude::*;

use crate::config::{named_views, NamedPattern};
use crate::errors::{Result, SshError};
use crate::text::{has_part, has_suffix, joined2, joined3, lemma_has_part, lemma_views_push, views};

verus! {

// ---------------------------------------------------------------------------
// The regex crate
// ---------------------------------------------------------------------------

/// `regex::RegexSet`, a collection of regular expressions in a fixed order.
#[verifier::external_type_specification]
#[verifier::external_body]
pub struct ExRegexSet(regex::RegexSet);

/// The expressions that a set was built from, in order.
pub uninterp spec fn set_patterns(set: RegexSet) -> Seq<Seq<char>>;

/// Whether `regex::Regex::is_match` finds a match of an expression anywhere in a
/// text.
pub uninterp spec fn regex_finds(pattern: Seq<char>, text: Seq<char>) -> bool;

/// What `regex::Regex::new` has against an expression; nothing where it
/// compiles.
pub uninterp spec fn regex_fault(pattern: Seq<char>) -> Option<Seq<char>>;

/// What `regex::RegexSet::new` has against a list of expressions; nothing where
/// it compiles.
pub uninterp spec fn regex_set_fault(patterns: Seq<Seq<char>>) -> Option<Seq<char>>;

/// `regex::Regex::new`: whether the expression compiles under the crate's
/// default limits, and how its error reads where it does not.
#[verifier::external_body]
pub(crate) fn compile_regex(pattern: &str) -> (r: core::result::Result<(), String>)
    ensures
        match r {
            Ok(_) => regex_fault(pattern@) is None,
            Err(e) => regex_fault(pattern@) == Some(e@),
        },
{
    match regex::Regex::new(pattern) {
        Ok(_) => Ok(()),
        Err(e) => Err(e.to_string()),
    }
}

/// `regex::RegexSet::new`: the set holds the expressions in the order in which
/// they were given.
#[verifier::external_body]
fn compile_set(patterns: &Vec<String>) -> (r: core::result::Result<RegexSet, String>)
    ensures
        match r {
            Ok(set) => regex_set_fault(views(patterns@)) is None && set_patterns(set) == views(
                patterns@,
            ),
            Err(e) => regex_set_fault(views(patterns@)) == Some(e@),
        },
{
    RegexSet::new(patterns).map_err(|e| e.to_string())
}

/// `regex::RegexSet::matches`, of which the first index is taken: the indices of
/// the expressions that match come in ascending order.
#[verifier::external_body]
fn first_in_set(set: &RegexSet, text: &str) -> (r: Option<usize>)
    ensures
        match r {
            Some(i) => i < set_patterns(*set).len() && regex_finds(
                set_patterns(*set)[i as int],
                text@,
            ) && forall|j: int|
                0 <= j < i ==> !regex_finds(#[trigger] set_patterns(*set)[j], text@),
            None => forall|j: int|
                0 <= j < set_patterns(*set).len() ==> !regex_finds(
                    #[trigger] set_patterns(*set)[j],
                    text@,
                ),
        },
{
    set.matches(text).iter().next()
}

// ---------------------------------------------------------------------------
// Banks
// ---------------------------------------------------------------------------

/// A pattern that is known to compile.
#[derive(Debug, Clone)]
pub struct CompiledPattern {
    pub name: String,
    pub pattern: String,
}

/// The names and expressions of a list of patterns.
pub open spec fn compiled_views(s: Seq<CompiledPattern>) -> Seq<(Seq<char>, Seq<char>)> {
    Seq::new(s.len(), |i: int| (s[i].name@, s[i].pattern@))
}

/// The expressions of a list of patterns.
pub open spec fn expressions(s: Seq<(Seq<char>, Seq<char>)>) -> Seq<Seq<char>> {
    Seq::new(s.len(), |i: int| s[i].1)
}

/// `p` is the first of `bank` that matches `text`.
pub open spec fn first_match(bank: Seq<(Seq<char>, Seq<char>)>, text: Seq<char>) -> Option<
    (Seq<char>, Seq<char>),
>
    decreases bank.len(),
{
    if bank.len() == 0 {
        None
    } else if regex_finds(bank[0].1, text) {
        Some(bank[0])
    } else {
        first_match(bank.skip(1), text)
    }
}

proof fn lemma_first_match_at(bank: Seq<(Seq<char>, Seq<char>)>, text: Seq<char>, i: int)
    requires
        0 <= i <= bank.len(),
        forall|j: int| 0 <= j < i ==> !regex_finds((#[trigger] bank[j]).1, text),
        i < bank.len() ==> regex_finds(bank[i].1, text),
    ensures
        first_match(bank, text) == (if i < bank.len() {
            Some(bank[i])
        } else {
            None
        }),
    decreases bank.len(),
{
    if bank.len() > 0 && i > 0 {
        let rest = bank.skip(1);
        assert(!regex_finds(bank[0].1, text));
        assert forall|j: int| 0 <= j < i - 1 implies !regex_finds((#[trigger] rest[j]).1, text) by {
            assert(rest[j] == bank[j + 1]);
        }
        lemma_first_match_at(rest, text, i - 1);
    }
}

/// Vector of named patterns + a `RegexSet` over the same patterns: one pass says
/// which of them match.
#[derive(Debug)]
pub struct PatternBank {
    patterns: Vec<CompiledPattern>,
    set: RegexSet,
}

impl View for PatternBank {
    type V = Seq<(Seq<char>, Seq<char>)>;

    closed spec fn view(&self) -> Seq<(Seq<char>, Seq<char>)> {
        compiled_views(self.patterns@)
    }
}

impl PatternBank {
    #[verifier::type_invariant]
    spec fn same_patterns(self) -> bool {
        set_patterns(self.set) == expressions(compiled_views(self.patterns@))
    }

    pub fn new(patterns: Vec<CompiledPattern>) -> (r: Result<Self>)
        ensures
            match r {
                Ok(b) => b@ == compiled_views(patterns@) && regex_set_fault(
                    expressions(compiled_views(patterns@)),
                ) is None,
                Err(e) => e is Config && regex_set_fault(
                    expressions(compiled_views(patterns@)),
                ) is Some && e->Config_0@ == set_error_text(
                    regex_set_fault(expressions(compiled_views(patterns@)))->0,
                ),
            },
    {
        let ghost all = expressions(compiled_views(patterns@));
        let mut texts: Vec<String> = Vec::new();
        let mut i: usize = 0;
        assert(views(texts@) =~= all.take(0));
        while i < patterns.len()
            invariant
                i <= patterns@.len(),
                all == expressions(compiled_views(patterns@)),
                views(texts@) == all.take(i as int),
            decreases patterns@.len() - i,
        {
            let text = patterns[i].pattern.clone();
            proof {
                lemma_views_push(texts@, text);
                assert(all.take(i + 1) =~= all.take(i as int).push(all[i as int]));
            }
            texts.push(text);
            i = i + 1;
        }
        assert(all.take(i as int) =~= all);
        match compile_set(&texts) {
            Ok(set) => Ok(PatternBank { patterns, set }),
            Err(e) => Err(SshError::Config(joined2("regex set compile failed: ", e.as_str()))),
        }
    }

    /// The first pattern that matches.
    pub fn matched(&self, cmd: &str) -> (r: Option<&CompiledPattern>)
        ensures
            match r {
                Some(p) => first_match(self@, cmd@) == Some((p.name@, p.pattern@)),
                None => first_match(self@, cmd@) is None,
            },
    {
        proof {
            use_type_invariant(&*self);
        }
        let ghost bank = self@;
        match first_in_set(&self.set, cmd) {
            Some(i) => {
                proof {
                    assert forall|j: int| 0 <= j < i implies !regex_finds(
                        (#[trigger] bank[j]).1,
                        cmd@,
                    ) by {
                        assert(set_patterns(self.set)[j] == bank[j].1);
                    }
                    lemma_first_match_at(bank, cmd@, i as int);
                }
                Some(&self.patterns[i])
            },
            None => {
                proof {
                    assert forall|j: int| 0 <= j < bank.len() implies !regex_finds(
                        (#[trigger] bank[j]).1,
                        cmd@,
                    ) by {
                        assert(set_patterns(self.set)[j] == bank[j].1);
                    }
                    lemma_first_match_at(bank, cmd@, bank.len() as int);
                }
                None
            },
        }
    }
}

pub open spec fn set_error_text(why: Seq<char>) -> Seq<char> {
    "regex set compile failed: "@ + why
}

/// How a pattern that does not compile is reported.
pub open spec fn bad_pattern_text(name: Seq<char>, why: Seq<char>) -> Seq<char> {
    "bad regex in guard '"@ + name + "': "@ + why
}

/// What is wrong with the first pattern of a list that does not compile.
pub open spec fn patterns_fault(s: Seq<(Seq<char>, Seq<char>)>) -> Option<Seq<char>>
    decreases s.len(),
{
    if s.len() == 0 {
        None
    } else {
        match regex_fault(s[0].1) {
            Some(why) => Some(bad_pattern_text(s[0].0, why)),
            None => patterns_fault(s.skip(1)),
        }
    }
}

fn compile_one(p: &NamedPattern) -> (r: Result<CompiledPattern>)
    ensures
        match r {
            Ok(c) => regex_fault(p.pattern@) is None && c.name@ == p.name@ && c.pattern@
                == p.pattern@,
            Err(e) => regex_fault(p.pattern@) is Some && e is Config && e->Config_0@
                == bad_pattern_text(p.name@, regex_fault(p.pattern@)->0),
        },
{
    match compile_regex(p.pattern.as_str()) {
        Ok(_) => Ok(CompiledPattern { name: p.name.clone(), pattern: p.pattern.clone() }),
        Err(e) => {
            let mut m = joined3("bad regex in guard '", p.name.as_str(), "': ");
            m.push_str(e.as_str());
            Err(SshError::Config(m))
        },
    }
}

/// Compiles `patterns`, in order, behind those that are compiled already.
pub(crate) fn compile_all(out: Vec<CompiledPattern>, patterns: &Vec<NamedPattern>) -> (r: Result<
    Vec<CompiledPattern>,
>)
    ensures
        match r {
            Ok(v) => patterns_fault(named_views(patterns@)) is None && compiled_views(v@)
                == compiled_views(out@) + named_views(patterns@),
            Err(e) => e is Config && patterns_fault(named_views(patterns@)) == Some(
                e->Config_0@,
            ),
        },
{
    let ghost before = compiled_views(out@);
    let ghost all = named_views(patterns@);
    let mut out = out;
    let mut i: usize = 0;
    proof {
        assert(all.skip(0) =~= all);
        assert(before + all.take(0) =~= before);
    }
    while i < patterns.len()
        invariant
            i <= patterns@.len(),
            all == named_views(patterns@),
            patterns_fault(all) == patterns_fault(all.skip(i as int)),
            compiled_views(out@) == before + all.take(i as int),
        decreases patterns@.len() - i,
    {
        proof {
            assert(all.skip(i as int)[0] == all[i as int]);
            assert(all.skip(i as int).skip(1) =~= all.skip(i + 1));
            assert(all.take(i + 1) =~= all.take(i as int).push(all[i as int]));
        }
        match compile_one(&patterns[i]) {
            Ok(c) => {
                let ghost earlier = compiled_views(out@);
                out.push(c);
                assert(compiled_views(out@) =~= earlier.push(all[i as int]));
                assert(before + all.take(i + 1) =~= earlier.push(all[i as int]));
            },
            Err(e) => {
                return Err(e);
            },
        }
        i = i + 1;
    }
    assert(all.take(i as int) =~= all);
    assert(all.skip(i as int) =~= Seq::empty());
    Ok(out)
}

/// Patterns that all compile are accepted; where one does not, the first such
/// pattern is reported, by its name and with what is wrong with it.
pub proof fn law_first_bad_pattern_is_reported(s: Seq<(Seq<char>, Seq<char>)>, i: int)
    requires
        0 <= i <= s.len(),
        forall|k: int| 0 <= k < i ==> regex_fault((#[trigger] s[k]).1) is None,
        i < s.len() ==> regex_fault(s[i].1) is Some,
    ensures
        i == s.len() ==> patterns_fault(s) is None,
        i < s.len() ==> patterns_fault(s) is Some,
        i < s.len() ==> has_part(patterns_fault(s)->0, s[i].0),
        i < s.len() ==> has_suffix(patterns_fault(s)->0, regex_fault(s[i].1)->0),
    decreases s.len(),
{
    if s.len() > 0 {
        if i == 0 {
            let a = "bad regex in guard '"@;
            let b = "': "@;
            let (name, why) = (s[0].0, regex_fault(s[0].1)->0);
            let all = bad_pattern_text(name, why);
            lemma_has_part(a, name, b + why);
            assert(all =~= a + name + (b + why));
            assert(all.skip(all.len() - why.len()) =~= why);
        } else {
            let rest = s.skip(1);
            assert forall|k: int| 0 <= k < i - 1 implies regex_fault(
                (#[trigger] rest[k]).1,
            ) is None by {
                assert(rest[k] == s[k + 1]);
            }
            assert(s[0] == s[0]);
            law_first_bad_pattern_is_reported(rest, i - 1);
        }
    }
}

} // verus!
