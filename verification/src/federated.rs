//! The federated dispatch helper: well-known client probe queries are
//! matched against a set of regular expressions, and the first match
//! answers with a pre-canned schema and block.

use vstd::prelude::*;

use crate::bloom::TableSchema;
use crate::value::DataBlock;

verus! {

/// Whether the regular expression matches the text; matching is a
/// pure function of the pattern and the text.
pub uninterp spec fn regex_matches(pattern: Seq<char>, text: Seq<char>) -> bool;

/// Whether the patterns together build a regular-expression set —
/// each must compile, and the compiled set must fit the library's
/// limits, so this is a property of the whole list.
pub uninterp spec fn regex_patterns_ok(patterns: Seq<Seq<char>>) -> bool;

/// Relies on `regex::bytes::RegexSet`: building the set succeeds for
/// exactly the lists this crate's limits accept, and `matches` then
/// reports, for each pattern, whether it matches the text.
#[verifier::external_body]
fn regex_set_matches(patterns: &Vec<String>, text: &str) -> (r: Option<Vec<bool>>)
    ensures
        match r {
            Option::Some(flags) => {
                &&& regex_patterns_ok(patterns.deep_view())
                &&& flags@.len() == patterns@.len()
                &&& forall|i: int|
                    0 <= i < flags@.len() ==> #[trigger] flags@[i] == regex_matches(
                        patterns@[i]@,
                        text@,
                    )
            },
            Option::None => !regex_patterns_ok(patterns.deep_view()),
        },
{
    let pats: Vec<&str> = patterns.iter().map(|s| s.as_str()).collect();
    match regex::bytes::RegexSet::new(&pats) {
        Ok(set) => {
            let m = set.matches(text.as_bytes());
            let mut flags: Vec<bool> = Vec::with_capacity(patterns.len());
            for i in 0..patterns.len() {
                flags.push(m.matched(i));
            }
            Option::Some(flags)
        },
        Err(_) => Option::None,
    }
}

/// The rules' patterns, as the matcher sees them.
pub open spec fn rule_patterns(rules: Seq<(String, Option<(TableSchema, DataBlock)>)>) -> Seq<
    Seq<char>,
> {
    Seq::new(rules.len(), |i: int| rules[i].0@)
}

/// Consulted before planning: answers well-known probe queries.
pub struct FederatedHelper {}

impl FederatedHelper {
    /// Answer the query from the first rule whose pattern matches: a
    /// rule carrying data answers with it, one carrying none answers
    /// with an empty schema and block. No match — or patterns that
    /// build no regular-expression set — answers nothing.
    #[verifier::loop_isolation(false)]
    pub fn block_match_rule(query: &str, rules: Vec<(String, Option<(TableSchema, DataBlock)>)>)
        -> (r: Option<(TableSchema, DataBlock)>)
        ensures
            regex_patterns_ok(rule_patterns(rules@)) ==> {
                if exists|i: int|
                    0 <= i < rules@.len() && regex_matches((#[trigger] rules@[i].0)@, query@) {
                    exists|i: int|
                        {
                            &&& 0 <= i < rules@.len()
                            &&& regex_matches((#[trigger] rules@[i].0)@, query@)
                            &&& forall|j: int|
                                0 <= j < i ==> !regex_matches((#[trigger] rules@[j].0)@, query@)
                            &&& match rules@[i].1 {
                                Option::Some(pair) => r == Option::Some(pair),
                                Option::None => r is Some && r.unwrap().0@.len() == 0
                                    && r.unwrap().1@.len() == 0,
                            }
                        }
                } else {
                    r is None
                }
            },
            !regex_patterns_ok(rule_patterns(rules@)) ==> r is None,
    {
        let mut patterns: Vec<String> = Vec::new();
        let mut k: usize = 0;
        while k < rules.len()
            invariant
                0 <= k <= rules@.len(),
                patterns@.len() == k,
                forall|t: int| 0 <= t < k ==> (#[trigger] patterns@[t])@ == rules@[t].0@,
            decreases rules@.len() - k,
        {
            patterns.push(crate::value::clone_string(&rules[k].0));
            k += 1;
        }
        proof {
            assert forall|t: int| 0 <= t < patterns.deep_view().len() implies #[trigger] patterns.deep_view()[t]
                == rule_patterns(rules@)[t] by {
                assert(patterns.deep_view()[t] == patterns@[t]@);
            }
            assert(patterns.deep_view() =~~= rule_patterns(rules@));
        }
        let flags = match regex_set_matches(&patterns, query) {
            Option::Some(f) => f,
            Option::None => {
                return Option::None;
            },
        };
        let mut rest = rules;
        let ghost rules0 = rest@;
        let mut index: usize = 0;
        while rest.len() > 0
            invariant
                0 <= index <= rules0.len(),
                rest@ =~= rules0.skip(index as int),
                flags@.len() == rules0.len(),
                forall|t: int|
                    0 <= t < flags@.len() ==> #[trigger] flags@[t] == regex_matches(
                        rules0[t].0@,
                        query@,
                    ),
                forall|t: int| 0 <= t < index ==> !regex_matches((#[trigger] rules0[t].0)@, query@),
            decreases rest@.len(),
        {
            let rule = rest.remove(0);
            proof {
                assert(rule == rules0[index as int]);
                assert(rest@ =~= rules0.skip(index as int + 1));
            }
            if flags[index] {
                match rule.1 {
                    Option::None => {
                        let empty_schema = TableSchema { fields: Vec::new() };
                        let empty_block = DataBlock::empty();
                        proof {
                            assert(empty_schema@ =~= Seq::<crate::bloom::TableFieldView>::empty());
                        }
                        return Option::Some((empty_schema, empty_block));
                    },
                    Option::Some(pair) => {
                        return Option::Some(pair);
                    },
                }
            }
            index += 1;
        }
        proof {
            assert(rules0.skip(index as int).len() == 0);
            assert(index == rules0.len());
        }
        Option::None
    }
}

} // verus!
