//! The user's own rules: a name and a regular expression each. Compiling an expression
//! is left to the regular-expression engine; what it says of each rule comes in as a
//! list of failures, one entry per rule, `None` where the expression compiles.
use vstd::prelude::*;

use crate::json::{json_array, parse_array, text_member, text_members};
use crate::text::{
    blank, is_blank, is_white_space, join3, law_blank_is_all_white_space, trim, trimmed,
};

verus! {

/// A rule as it is edited and stored. Its name is the label and the tag of what it
/// matches.
#[derive(Debug)]
pub struct RuleConfig {
    pub name: String,
    pub pattern: String,
    pub enabled: bool,
}

impl Clone for RuleConfig {
    fn clone(&self) -> (r: Self)
        ensures
            r == *self,
    {
        RuleConfig {
            name: self.name.clone(),
            pattern: self.pattern.clone(),
            enabled: self.enabled,
        }
    }
}

/// A stored rule that does not say whether it is enabled is.
pub fn default_true() -> (r: bool)
    ensures
        r,
{
    true
}

/// A rule whose expression compiles.
#[derive(Debug)]
pub struct CompiledRule {
    pub name: String,
    pub pattern: String,
}

impl Clone for CompiledRule {
    fn clone(&self) -> (r: Self)
        ensures
            r == *self,
    {
        CompiledRule { name: self.name.clone(), pattern: self.pattern.clone() }
    }
}

/// A rule whose expression does not compile, and why.
pub struct RuleCompileError {
    pub name: String,
    pub error: String,
}

/// Whether the rule lacks a name or an expression.
pub open spec fn is_unfilled(rule: RuleConfig) -> bool {
    is_blank(rule.name@) || rule.pattern@.len() == 0
}

/// What is wrong with an enabled rule: it has no name, it has no expression, or its
/// expression does not compile.
pub open spec fn fault(rule: RuleConfig, failure: Option<String>) -> Option<Seq<char>> {
    if !rule.enabled {
        None
    } else if is_blank(rule.name@) {
        Some("A rule is enabled but has no name."@)
    } else if rule.pattern@.len() == 0 {
        Some("Rule \""@ + trimmed(rule.name@) + "\" is enabled but has no pattern."@)
    } else {
        match failure {
            Some(e) => Some("Rule \""@ + trimmed(rule.name@) + "\": "@ + e@),
            None => None,
        }
    }
}

/// Whether rule `i` is the first with a fault, and `e` says which.
pub open spec fn is_first_fault(
    rules: Seq<RuleConfig>,
    failures: Seq<Option<String>>,
    i: int,
    e: Seq<char>,
) -> bool {
    &&& 0 <= i < rules.len()
    &&& fault(rules[i], failures[i]) == Some(e)
    &&& forall|j: int| 0 <= j < i ==> fault(#[trigger] rules[j], failures[j]) is None
}

/// Whether `e` says what is wrong with the first rule with a fault.
pub open spec fn has_first_fault(
    rules: Seq<RuleConfig>,
    failures: Seq<Option<String>>,
    e: Seq<char>,
) -> bool {
    exists|i: int| #[trigger] is_first_fault(rules, failures, i, e)
}

/// Whether no rule has a fault.
pub open spec fn are_faultless(rules: Seq<RuleConfig>, failures: Seq<Option<String>>) -> bool {
    forall|i: int| 0 <= i < rules.len() ==> fault(#[trigger] rules[i], failures[i]) is None
}

/// What is wrong with an enabled rule.
fn find_fault(rule: &RuleConfig, failure: &Option<String>) -> (r: Option<String>)
    ensures
        match r {
            Some(e) => fault(*rule, *failure) == Some(e@),
            None => fault(*rule, *failure) is None,
        },
{
    if !rule.enabled {
        return None;
    }
    let name = trim(rule.name.as_str());
    if name.as_str().is_empty() {
        return Some("A rule is enabled but has no name.".to_owned());
    }
    if rule.pattern.as_str().is_empty() {
        return Some(join3("Rule \"", name.as_str(), "\" is enabled but has no pattern."));
    }
    match failure {
        Some(e) => {
            let mut message = join3("Rule \"", name.as_str(), "\": ");
            message.append(e.as_str());
            Some(message)
        },
        None => None,
    }
}

/// Checks the rules that are about to be stored: every enabled one needs a name and an
/// expression that compiles. The error names the first that lacks one. Rules that are
/// not enabled are left alone.
pub fn validate_rules(rules: &Vec<RuleConfig>, failures: &Vec<Option<String>>) -> (r: Result<
    (),
    String,
>)
    requires
        rules@.len() == failures@.len(),
    ensures
        match r {
            Ok(()) => are_faultless(rules@, failures@),
            Err(e) => has_first_fault(rules@, failures@, e@),
        },
{
    let mut i: usize = 0;
    while i < rules.len()
        invariant
            rules@.len() == failures@.len(),
            i <= rules@.len(),
            forall|j: int| 0 <= j < i ==> fault(#[trigger] rules@[j], failures@[j]) is None,
        decreases rules@.len() - i,
    {
        match find_fault(&rules[i], &failures[i]) {
            Some(e) => {
                assert(is_first_fault(rules@, failures@, i as int, e@));
                return Err(e);
            },
            None => {},
        }
        i += 1;
    }
    Ok(())
}

/// The names and expressions of the rules that are applied: the enabled ones that are
/// filled in and compile.
pub open spec fn applied(rules: Seq<RuleConfig>, failures: Seq<Option<String>>) -> Seq<
    (Seq<char>, Seq<char>),
>
    decreases rules.len(),
{
    if rules.len() == 0 {
        Seq::empty()
    } else {
        let k = rules.len() - 1;
        let front = applied(rules.drop_last(), failures);
        let rule = rules.last();
        if rule.enabled && !is_unfilled(rule) && failures[k] is None {
            front.push((rule.name@, rule.pattern@))
        } else {
            front
        }
    }
}

/// The names of the enabled rules that are filled in and do not compile, and why.
pub open spec fn rejected(rules: Seq<RuleConfig>, failures: Seq<Option<String>>) -> Seq<
    (Seq<char>, Seq<char>),
>
    decreases rules.len(),
{
    if rules.len() == 0 {
        Seq::empty()
    } else {
        let k = rules.len() - 1;
        let front = rejected(rules.drop_last(), failures);
        let rule = rules.last();
        match failures[k] {
            Some(e) => if rule.enabled && !is_unfilled(rule) {
                front.push((rule.name@, e@))
            } else {
                front
            },
            None => front,
        }
    }
}

/// Compiled rules as pairs of a name and an expression.
pub open spec fn compiled_views(v: Seq<CompiledRule>) -> Seq<(Seq<char>, Seq<char>)> {
    v.map_values(|c: CompiledRule| (c.name@, c.pattern@))
}

/// Errors as pairs of a name and a reason.
pub open spec fn error_views(v: Seq<RuleCompileError>) -> Seq<(Seq<char>, Seq<char>)> {
    v.map_values(|e: RuleCompileError| (e.name@, e.error@))
}

/// Parts the enabled rules that are filled in into those that compile and those that
/// do not.
pub fn compile_rules(rules: &Vec<RuleConfig>, failures: &Vec<Option<String>>) -> (r: (
    Vec<CompiledRule>,
    Vec<RuleCompileError>,
))
    requires
        rules@.len() == failures@.len(),
    ensures
        compiled_views(r.0@) == applied(rules@, failures@),
        error_views(r.1@) == rejected(rules@, failures@),
{
    let mut compiled: Vec<CompiledRule> = Vec::new();
    let mut errors: Vec<RuleCompileError> = Vec::new();
    let mut i: usize = 0;
    assert(rules@.take(0) =~= Seq::empty());
    assert(compiled_views(compiled@) =~= Seq::empty());
    assert(error_views(errors@) =~= Seq::empty());
    while i < rules.len()
        invariant
            rules@.len() == failures@.len(),
            i <= rules@.len(),
            compiled_views(compiled@) == applied(rules@.take(i as int), failures@),
            error_views(errors@) == rejected(rules@.take(i as int), failures@),
        decreases rules@.len() - i,
    {
        assert(rules@.take(i + 1).drop_last() =~= rules@.take(i as int));
        let rule = &rules[i];
        if rule.enabled && !blank(rule.name.as_str()) && !rule.pattern.as_str().is_empty() {
            match &failures[i] {
                Some(e) => {
                    let error = RuleCompileError { name: rule.name.clone(), error: e.clone() };
                    assert(error_views(errors@.push(error)) =~= error_views(errors@).push(
                        (error.name@, error.error@),
                    ));
                    errors.push(error);
                },
                None => {
                    let kept = CompiledRule {
                        name: rule.name.clone(),
                        pattern: rule.pattern.clone(),
                    };
                    assert(compiled_views(compiled@.push(kept)) =~= compiled_views(compiled@).push(
                        (kept.name@, kept.pattern@),
                    ));
                    compiled.push(kept);
                },
            }
        }
        i += 1;
    }
    assert(rules@.take(i as int) =~= rules@);
    (compiled, errors)
}

/// The names and expressions of the enabled rules.
pub open spec fn enabled_rules(rules: Seq<RuleConfig>) -> Seq<(Seq<char>, Seq<char>)>
    decreases rules.len(),
{
    if rules.len() == 0 {
        Seq::empty()
    } else {
        let front = enabled_rules(rules.drop_last());
        if rules.last().enabled {
            front.push((rules.last().name@, rules.last().pattern@))
        } else {
            front
        }
    }
}

/// Rules that pass the check are all applied, and none of them is reported: nothing
/// that is stored is dropped without a word when it is loaded.
pub proof fn law_checked_rules_are_applied(
    rules: Seq<RuleConfig>,
    failures: Seq<Option<String>>,
)
    requires
        rules.len() == failures.len(),
        are_faultless(rules, failures),
    ensures
        applied(rules, failures) == enabled_rules(rules),
        rejected(rules, failures).len() == 0,
{
    lemma_faultless_prefix(rules, failures);
}

/// The same of the first rules of a list.
proof fn lemma_faultless_prefix(rules: Seq<RuleConfig>, failures: Seq<Option<String>>)
    requires
        rules.len() <= failures.len(),
        are_faultless(rules, failures),
    ensures
        applied(rules, failures) == enabled_rules(rules),
        rejected(rules, failures).len() == 0,
    decreases rules.len(),
{
    if rules.len() > 0 {
        let front = rules.drop_last();
        assert forall|i: int| 0 <= i < front.len() implies fault(
            #[trigger] front[i],
            failures[i],
        ) is None by {
            assert(front[i] == rules[i]);
        }
        lemma_faultless_prefix(front, failures);
        assert(fault(rules[rules.len() - 1], failures[rules.len() - 1]) is None);
    }
}

/// A rule as a document gives it: its name and its expression, where they are texts.
pub struct RuleEntry {
    pub name: Option<String>,
    pub pattern: Option<String>,
}

/// The text, or the empty one where there is none.
pub open spec fn text_or_empty(t: Option<Seq<char>>) -> Seq<char> {
    match t {
        Some(s) => s,
        None => Seq::empty(),
    }
}

/// The entry as mathematical values: its name, trimmed, and its expression.
pub open spec fn entry_spec(name: Option<Seq<char>>, pattern: Option<Seq<char>>) -> (
    Seq<char>,
    Seq<char>,
) {
    (trimmed(text_or_empty(name)), text_or_empty(pattern))
}

/// The rules among the entries: those with a name and an expression, enabled.
pub open spec fn usable(entries: Seq<(Seq<char>, Seq<char>)>) -> Seq<(Seq<char>, Seq<char>)>
    decreases entries.len(),
{
    if entries.len() == 0 {
        Seq::empty()
    } else {
        let front = usable(entries.drop_last());
        let last = entries.last();
        if last.0.len() > 0 && last.1.len() > 0 {
            front.push(last)
        } else {
            front
        }
    }
}

/// The positions of the entries that lack a name or an expression.
pub open spec fn unusable(entries: Seq<(Seq<char>, Seq<char>)>) -> Seq<int>
    decreases entries.len(),
{
    if entries.len() == 0 {
        Seq::empty()
    } else {
        let front = unusable(entries.drop_last());
        let last = entries.last();
        if last.0.len() > 0 && last.1.len() > 0 {
            front
        } else {
            front.push(entries.len() - 1)
        }
    }
}

/// What was read of a document of rules: the rules, the positions of the entries that
/// were passed over, and why the whole document was ignored, where it was.
pub struct ParsedRules {
    pub rules: Vec<RuleConfig>,
    pub skipped: Vec<usize>,
    pub ignored: Option<String>,
}

/// The names and expressions of rules.
pub open spec fn rule_texts(v: Seq<RuleConfig>) -> Seq<(Seq<char>, Seq<char>)> {
    v.map_values(|r: RuleConfig| (r.name@, r.pattern@))
}

impl ParsedRules {
    /// Whether this is what was read of the entries: the usable ones, all enabled.
    pub open spec fn is_read_of(self, entries: Seq<(Seq<char>, Seq<char>)>) -> bool {
        &&& rule_texts(self.rules@) == usable(entries)
        &&& forall|i: int| 0 <= i < self.rules@.len() ==> (#[trigger] self.rules@[i]).enabled
        &&& self.skipped@.map_values(|p: usize| p as int) == unusable(entries)
    }

    /// Whether this is what was read of a document, given what the parser made of it: the
    /// usable entries of an array; no rules, and the reason, where it is no array.
    pub open spec fn is_read_of_document(
        self,
        parsed: Result<Seq<Map<Seq<char>, Seq<char>>>, Seq<char>>,
    ) -> bool {
        match parsed {
            Ok(items) => self.is_read_of(document_entries(items)) && self.ignored is None,
            Err(e) => {
                &&& self.is_read_of(Seq::empty())
                &&& self.ignored matches Some(why) && why@ == e
            },
        }
    }
}

impl RuleEntry {
    /// The entry as mathematical values.
    pub open spec fn spec_of(self) -> (Seq<char>, Seq<char>) {
        entry_spec(
            match self.name {
                Some(s) => Some(s@),
                None => None,
            },
            match self.pattern {
                Some(s) => Some(s@),
                None => None,
            },
        )
    }
}

/// The entries as mathematical values.
pub open spec fn entry_specs(v: Seq<RuleEntry>) -> Seq<(Seq<char>, Seq<char>)> {
    v.map_values(|e: RuleEntry| e.spec_of())
}

/// Reads the rules among the entries. An entry without a name or an expression is
/// passed over, and its position noted.
pub fn collect_rules(entries: &Vec<RuleEntry>) -> (r: ParsedRules)
    ensures
        r.is_read_of(entry_specs(entries@)),
        r.ignored is None,
{
    let mut rules: Vec<RuleConfig> = Vec::new();
    let mut skipped: Vec<usize> = Vec::new();
    let ghost specs = entry_specs(entries@);
    let mut i: usize = 0;
    assert(specs.take(0) =~= Seq::empty());
    assert(rule_texts(rules@) =~= Seq::empty());
    assert(skipped@.map_values(|p: usize| p as int) =~= Seq::empty());
    while i < entries.len()
        invariant
            specs == entry_specs(entries@),
            i <= entries@.len(),
            rule_texts(rules@) == usable(specs.take(i as int)),
            forall|j: int| 0 <= j < rules@.len() ==> (#[trigger] rules@[j]).enabled,
            skipped@.map_values(|p: usize| p as int) == unusable(specs.take(i as int)),
        decreases entries@.len() - i,
    {
        assert(specs.take(i + 1).drop_last() =~= specs.take(i as int));
        assert(specs.take(i + 1).last() == specs[i as int]);
        let name = match &entries[i].name {
            Some(s) => trim(s.as_str()),
            None => {
                assert(trimmed(Seq::<char>::empty()) =~= Seq::<char>::empty());
                String::new()
            },
        };
        let pattern = match &entries[i].pattern {
            Some(s) => s.clone(),
            None => String::new(),
        };
        if name.as_str().is_empty() || pattern.as_str().is_empty() {
            assert(skipped@.push(i).map_values(|p: usize| p as int) =~= skipped@.map_values(
                |p: usize| p as int,
            ).push(i as int));
            skipped.push(i);
        } else {
            let rule = RuleConfig { name, pattern, enabled: true };
            assert(rule_texts(rules@.push(rule)) =~= rule_texts(rules@).push(
                (rule.name@, rule.pattern@),
            ));
            rules.push(rule);
        }
        i += 1;
    }
    assert(specs.take(i as int) =~= specs);
    ParsedRules { rules, skipped, ignored: None }
}

/// The entry that an object gives: under `name` and under `pattern`, where it holds
/// texts there.
pub open spec fn document_entry(m: Map<Seq<char>, Seq<char>>) -> (Seq<char>, Seq<char>) {
    entry_spec(
        if m.contains_key("name"@) {
            Some(m["name"@])
        } else {
            None
        },
        if m.contains_key("pattern"@) {
            Some(m["pattern"@])
        } else {
            None
        },
    )
}

/// The entries that the elements of an array of objects give.
pub open spec fn document_entries(items: Seq<Map<Seq<char>, Seq<char>>>) -> Seq<
    (Seq<char>, Seq<char>),
> {
    items.map_values(|m: Map<Seq<char>, Seq<char>>| document_entry(m))
}

/// Reads a document of rules: a JSON array of objects with a `name` and a `pattern`. A
/// document that is no array has no rules.
pub fn parse_rules(json: &str) -> (r: ParsedRules)
    ensures
        r.is_read_of_document(json_array(json@)),
{
    let items = match parse_array(json) {
        Ok(items) => items,
        Err(e) => {
            let none = no_rules();
            return ParsedRules { rules: none.rules, skipped: none.skipped, ignored: Some(e) };
        },
    };
    let mut entries: Vec<RuleEntry> = Vec::new();
    let ghost members = items@.map_values(|v: serde_json::Value| text_members(v));
    let mut i: usize = 0;
    while i < items.len()
        invariant
            members == items@.map_values(|v: serde_json::Value| text_members(v)),
            i <= items@.len(),
            entry_specs(entries@) == document_entries(members).take(i as int),
        decreases items@.len() - i,
    {
        let entry = RuleEntry {
            name: text_member(&items[i], "name"),
            pattern: text_member(&items[i], "pattern"),
        };
        assert(members[i as int] == text_members(items@[i as int]));
        assert(entry.spec_of() == document_entries(members)[i as int]);
        assert(entry_specs(entries@.push(entry)) =~= entry_specs(entries@).push(entry.spec_of()));
        assert(document_entries(members).take(i + 1) =~= document_entries(members).take(
            i as int,
        ).push(document_entries(members)[i as int]));
        entries.push(entry);
        i += 1;
    }
    assert(document_entries(members).take(i as int) =~= document_entries(members));
    collect_rules(&entries)
}

/// The rules that a variable of the environment gives: none where it is not set or
/// blank.
pub fn rules_from_env(document: Option<&str>) -> (r: ParsedRules)
    ensures
        match document {
            Some(json) if !is_blank(json@) => r.is_read_of_document(json_array(json@)),
            _ => r.is_read_of(Seq::empty()) && r.ignored is None,
        },
{
    match document {
        Some(json) => if !blank(json) {
            parse_rules(json)
        } else {
            no_rules()
        },
        None => no_rules(),
    }
}

/// No rules.
fn no_rules() -> (r: ParsedRules)
    ensures
        r.is_read_of(Seq::empty()),
        r.ignored is None,
{
    let entries: Vec<RuleEntry> = Vec::new();
    assert(entry_specs(entries@) =~= Seq::empty());
    collect_rules(&entries)
}

/// What is wrong with a rule. One that is not enabled is left alone; an enabled one is at
/// fault exactly where its name is nothing but white space, its expression is empty or the
/// expression does not compile, and what is said of it names the rule, where it has a name.
pub proof fn law_fault_of_a_rule(rule: RuleConfig, failure: Option<String>)
    ensures
        fault(rule, failure) is Some <==> rule.enabled && {
            ||| forall|i: int| 0 <= i < rule.name@.len() ==> is_white_space(#[trigger] rule.name@[i])
            ||| rule.pattern@.len() == 0
            ||| failure is Some
        },
        rule.enabled && (forall|i: int|
            0 <= i < rule.name@.len() ==> is_white_space(#[trigger] rule.name@[i])) ==> fault(
            rule,
            failure,
        ) == Some("A rule is enabled but has no name."@),
        rule.enabled && (exists|i: int|
            0 <= i < rule.name@.len() && !is_white_space(#[trigger] rule.name@[i])) ==> {
            &&& rule.pattern@.len() == 0 ==> fault(rule, failure) == Some(
                "Rule \""@ + trimmed(rule.name@) + "\" is enabled but has no pattern."@,
            )
            &&& rule.pattern@.len() > 0 && failure is Some ==> fault(rule, failure) == Some(
                "Rule \""@ + trimmed(rule.name@) + "\": "@ + failure->Some_0@,
            )
        },
{
    law_blank_is_all_white_space(rule.name@);
}

/// Rules pass the check exactly where none of them is at fault; else what is said is said
/// of one of them, and none before it is at fault.
pub proof fn law_check_stops_at_the_first_fault(
    rules: Seq<RuleConfig>,
    failures: Seq<Option<String>>,
    e: Seq<char>,
) -> (i: int)
    ensures
        are_faultless(rules, failures) <==> forall|j: int|
            0 <= j < rules.len() ==> fault(#[trigger] rules[j], failures[j]) is None,
        are_faultless(rules, failures) ==> !has_first_fault(rules, failures, e),
        has_first_fault(rules, failures, e) ==> {
            &&& 0 <= i < rules.len()
            &&& fault(rules[i], failures[i]) == Some(e)
            &&& forall|j: int| 0 <= j < i ==> fault(#[trigger] rules[j], failures[j]) is None
        },
{
    let i = choose|i: int| #[trigger] is_first_fault(rules, failures, i, e);
    if has_first_fault(rules, failures, e) {
        assert(is_first_fault(rules, failures, i, e));
        assert(fault(rules[i], failures[i]) is Some);
    }
    i
}

/// The rules that are applied are exactly those that are enabled, have a name that is not
/// only white space and an expression, and compile; each is applied once, as it is written,
/// in the order of the list.
pub proof fn law_rules_that_can_be_are_applied(
    rules: Seq<RuleConfig>,
    failures: Seq<Option<String>>,
) -> (at: Seq<int>)
    ensures
        at.len() == applied(rules, failures).len(),
        forall|k: int|
            0 <= k < at.len() ==> {
                &&& 0 <= #[trigger] at[k] < rules.len()
                &&& rules[at[k]].enabled
                &&& !is_blank(rules[at[k]].name@)
                &&& rules[at[k]].pattern@.len() > 0
                &&& failures[at[k]] is None
                &&& applied(rules, failures)[k] == (
                    rules[at[k]].name@,
                    rules[at[k]].pattern@,
                )
            },
        forall|j: int, k: int| 0 <= j < k < at.len() ==> #[trigger] at[j] < #[trigger] at[k],
        forall|i: int|
            #![trigger rules[i]]
            0 <= i < rules.len() && rules[i].enabled && !is_blank(rules[i].name@)
                && rules[i].pattern@.len() > 0 && failures[i] is None ==> at.contains(i),
    decreases rules.len(),
{
    if rules.len() == 0 {
        Seq::empty()
    } else {
        let front = rules.drop_last();
        let last = rules.len() - 1;
        let before = law_rules_that_can_be_are_applied(front, failures);
        let rule = rules[last];
        let at = if rule.enabled && !is_blank(rule.name@) && rule.pattern@.len() > 0
            && failures[last] is None {
            before.push(last)
        } else {
            before
        };
        assert forall|k: int| 0 <= k < before.len() implies #[trigger] at[k] == before[k] && front[at[k]]
            == rules[at[k]] && 0 <= at[k] < last by {}
        assert forall|i: int|
            #![trigger rules[i]]
            0 <= i < rules.len() && rules[i].enabled && !is_blank(rules[i].name@)
                && rules[i].pattern@.len() > 0 && failures[i] is None implies at.contains(i) by {
            if i < last {
                assert(front[i] == rules[i]);
                assert(before.contains(i));
                let k = choose|k: int| 0 <= k < before.len() && before[k] == i;
                assert(at[k] == i);
            } else {
                assert(at[before.len() as int] == i);
            }
        }
        at
    }
}

/// The rules that are reported are exactly those that are enabled, have a name that is not
/// only white space and an expression, and do not compile; each is reported once, with why,
/// in the order of the list.
pub proof fn law_rules_that_do_not_compile_are_reported(
    rules: Seq<RuleConfig>,
    failures: Seq<Option<String>>,
) -> (at: Seq<int>)
    ensures
        at.len() == rejected(rules, failures).len(),
        forall|k: int|
            0 <= k < at.len() ==> {
                &&& 0 <= #[trigger] at[k] < rules.len()
                &&& rules[at[k]].enabled
                &&& !is_blank(rules[at[k]].name@)
                &&& rules[at[k]].pattern@.len() > 0
                &&& failures[at[k]] matches Some(e) && rejected(rules, failures)[k] == (
                    rules[at[k]].name@,
                    e@,
                )
            },
        forall|j: int, k: int| 0 <= j < k < at.len() ==> #[trigger] at[j] < #[trigger] at[k],
        forall|i: int|
            #![trigger rules[i]]
            0 <= i < rules.len() && rules[i].enabled && !is_blank(rules[i].name@)
                && rules[i].pattern@.len() > 0 && failures[i] is Some ==> at.contains(i),
    decreases rules.len(),
{
    if rules.len() == 0 {
        Seq::empty()
    } else {
        let front = rules.drop_last();
        let last = rules.len() - 1;
        let before = law_rules_that_do_not_compile_are_reported(front, failures);
        let rule = rules[last];
        let at = if rule.enabled && !is_blank(rule.name@) && rule.pattern@.len() > 0
            && failures[last] is Some {
            before.push(last)
        } else {
            before
        };
        assert forall|k: int| 0 <= k < before.len() implies #[trigger] at[k] == before[k] && front[at[k]]
            == rules[at[k]] && 0 <= at[k] < last by {}
        assert forall|i: int|
            #![trigger rules[i]]
            0 <= i < rules.len() && rules[i].enabled && !is_blank(rules[i].name@)
                && rules[i].pattern@.len() > 0 && failures[i] is Some implies at.contains(i) by {
            if i < last {
                assert(front[i] == rules[i]);
                assert(before.contains(i));
                let k = choose|k: int| 0 <= k < before.len() && before[k] == i;
                assert(at[k] == i);
            } else {
                assert(at[before.len() as int] == i);
            }
        }
        at
    }
}

/// The enabled rules of a list are those of its first part, then those of the rest; one
/// alone is where it is enabled.
pub proof fn law_enabled_rules_are_sifted(
    a: Seq<RuleConfig>,
    b: Seq<RuleConfig>,
    rule: RuleConfig,
)
    ensures
        enabled_rules(a + b) == enabled_rules(a) + enabled_rules(b),
        rule.enabled ==> enabled_rules(seq![rule]) == seq![(rule.name@, rule.pattern@)],
        !rule.enabled ==> enabled_rules(seq![rule]).len() == 0,
    decreases b.len(),
{
    if b.len() == 0 {
        assert(a + b =~= a);
        assert(enabled_rules(a) + enabled_rules(b) =~= enabled_rules(a));
    } else {
        assert((a + b).drop_last() =~= a + b.drop_last());
        law_enabled_rules_are_sifted(a, b.drop_last(), rule);
        assert(enabled_rules(a + b) =~= enabled_rules(a) + enabled_rules(b));
    }
    let one = seq![rule];
    assert(one.drop_last() =~= Seq::empty());
    assert(enabled_rules(one.drop_last()) =~= Seq::empty());
    if rule.enabled {
        assert(enabled_rules(one) =~= seq![(rule.name@, rule.pattern@)]);
    }
}

/// Of the entries of a document those with a name and an expression are rules, in order;
/// every other one is passed over, and where it stands is noted. An entry of a list is the
/// same in a longer one, its place counted on.
pub proof fn law_entries_are_rules_or_passed_over(
    entries: Seq<(Seq<char>, Seq<char>)>,
    e: (Seq<char>, Seq<char>),
)
    ensures
        usable(Seq::empty()) == Seq::<(Seq<char>, Seq<char>)>::empty(),
        unusable(Seq::empty()) == Seq::<int>::empty(),
        e.0.len() > 0 && e.1.len() > 0 ==> {
            &&& usable(entries.push(e)) == usable(entries).push(e)
            &&& unusable(entries.push(e)) == unusable(entries)
        },
        e.0.len() == 0 || e.1.len() == 0 ==> {
            &&& usable(entries.push(e)) == usable(entries)
            &&& unusable(entries.push(e)) == unusable(entries).push(entries.len() as int)
        },
        usable(entries).len() + unusable(entries).len() == entries.len(),
    decreases entries.len(),
{
    assert(entries.push(e).drop_last() =~= entries);
    if entries.len() > 0 {
        law_entries_are_rules_or_passed_over(entries.drop_last(), entries.last());
        assert(entries.drop_last().push(entries.last()) =~= entries);
    }
}

/// An entry of a document has the text under `name`, without the white space around it, and
/// the text under `pattern` as it is; it has no name, or no expression, where there is no
/// text.
pub proof fn law_entry_is_read_by_its_keys(items: Seq<Map<Seq<char>, Seq<char>>>, i: int)
    requires
        0 <= i < items.len(),
    ensures
        document_entries(items).len() == items.len(),
        items[i].contains_key("name"@) ==> document_entries(items)[i].0 == trimmed(
            items[i]["name"@],
        ),
        !items[i].contains_key("name"@) ==> document_entries(items)[i].0.len() == 0,
        items[i].contains_key("pattern"@) ==> document_entries(items)[i].1
            == items[i]["pattern"@],
        !items[i].contains_key("pattern"@) ==> document_entries(items)[i].1.len() == 0,
{
}

/// What is read of a document are its usable entries, each an enabled rule with the name
/// and the expression of the entry, in order; a document that is no array has no rules, and
/// why is said.
pub proof fn law_rules_of_a_document_are_enabled(
    read: ParsedRules,
    parsed: Result<Seq<Map<Seq<char>, Seq<char>>>, Seq<char>>,
    i: int,
)
    requires
        read.is_read_of_document(parsed),
        0 <= i < read.rules@.len(),
    ensures
        parsed is Ok,
        read.ignored is None,
        read.rules@.len() == usable(document_entries(parsed->Ok_0)).len(),
        read.rules@[i].enabled,
        read.rules@[i].name@ == usable(document_entries(parsed->Ok_0))[i].0,
        read.rules@[i].pattern@ == usable(document_entries(parsed->Ok_0))[i].1,
        read.skipped@.len() == unusable(document_entries(parsed->Ok_0)).len(),
{
    assert(rule_texts(read.rules@).len() == read.rules@.len());
    assert(rule_texts(read.rules@)[i] == (read.rules@[i].name@, read.rules@[i].pattern@));
    if parsed is Err {
        assert(usable(Seq::empty()).len() == 0);
    }
}

/// Of a document that is no array nothing is read, and the reason is kept; of any other
/// there is no such reason, and every entry that is passed over is noted by its place.
pub proof fn law_reason_is_kept_where_nothing_is_read(
    read: ParsedRules,
    parsed: Result<Seq<Map<Seq<char>, Seq<char>>>, Seq<char>>,
)
    requires
        read.is_read_of_document(parsed),
    ensures
        read.ignored is Some <==> parsed is Err,
        parsed matches Err(e) ==> {
            &&& read.ignored->Some_0@ == e
            &&& read.rules@.len() == 0
            &&& read.skipped@.len() == 0
        },
        parsed matches Ok(items) ==> {
            &&& read.rules@.len() + read.skipped@.len() == items.len()
            &&& forall|k: int|
                0 <= k < read.skipped@.len() ==> #[trigger] read.skipped@[k] == unusable(
                    document_entries(items),
                )[k]
        },
{
    let places = read.skipped@.map_values(|p: usize| p as int);
    assert(rule_texts(read.rules@).len() == read.rules@.len());
    assert(places.len() == read.skipped@.len());
    match parsed {
        Ok(items) => {
            let entries = document_entries(items);
            law_entries_are_rules_or_passed_over(entries, (Seq::empty(), Seq::empty()));
            assert forall|k: int| 0 <= k < read.skipped@.len() implies #[trigger] read.skipped@[k]
                == unusable(entries)[k] by {
                assert(places[k] == read.skipped@[k]);
            }
        },
        Err(_) => {
            assert(usable(Seq::empty()).len() == 0);
            assert(unusable(Seq::empty()).len() == 0);
        },
    }
}

/// An entry has its name without the white space around it and its expression as it is, and
/// none where it gives none.
pub proof fn law_entry_has_its_name_trimmed(entries: Seq<RuleEntry>, i: int)
    requires
        0 <= i < entries.len(),
    ensures
        entry_specs(entries).len() == entries.len(),
        entries[i].name matches Some(s) ==> entry_specs(entries)[i].0 == trimmed(s@),
        entries[i].name is None ==> entry_specs(entries)[i].0.len() == 0,
        entries[i].pattern matches Some(s) ==> entry_specs(entries)[i].1 == s@,
        entries[i].pattern is None ==> entry_specs(entries)[i].1.len() == 0,
{
}

} // verus!
