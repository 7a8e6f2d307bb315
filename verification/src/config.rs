//! Which conflict policy holds for which table.
use vstd::prelude::*;

use crate::merge::ConflictPolicy;
use crate::text::{chars_of, same_text};

verus! {

/// The policy of every table whose name matches a pattern.
#[derive(Debug, Clone)]
pub struct PolicyRule {
    pub pattern: String,
    pub policy: ConflictPolicy,
}

/// Conflict policies by table name.
///
/// A pattern is a table name in which `*` stands for any run of characters. The
/// first rule whose pattern matches a table decides; a table that no rule matches
/// is left to [`ConflictPolicy::Abort`].
#[derive(Debug, Clone)]
pub struct PolicyConfig {
    pub rules: Vec<PolicyRule>,
}

/// Why a configuration cannot be used.
#[derive(Debug, Clone)]
pub enum ConfigError {
    /// The text is not a TOML document; what the parser says of it.
    Malformed(String),
    /// A top-level key that is not `policies`.
    UnknownKey(String),
    /// `policies` is not a table.
    PoliciesNotATable,
    /// The entry for a pattern is not a string.
    PolicyNotAString(String),
    /// The entry for `pattern` names a policy that does not exist.
    UnknownPolicy { pattern: String, policy: String },
}

/// A top-level key of a TOML document and the entries of the table under it, if it
/// is a table.
#[derive(Debug, Clone)]
pub struct Section {
    pub key: String,
    pub entries: Option<Vec<SectionEntry>>,
}

/// A key of a table and the string under it, if it is a string.
#[derive(Debug, Clone)]
pub struct SectionEntry {
    pub key: String,
    pub text: Option<String>,
}

/// A [`ConfigError`] as a mathematical value.
pub enum ConfigErrorModel {
    Malformed(Seq<char>),
    UnknownKey(Seq<char>),
    PoliciesNotATable,
    PolicyNotAString(Seq<char>),
    UnknownPolicy { pattern: Seq<char>, policy: Seq<char> },
}

/// Rules, or why there are none.
pub type RulesModel = Result<Seq<(Seq<char>, ConflictPolicy)>, ConfigErrorModel>;

/// The keys of a table, each with the string under it.
pub type EntriesModel = Seq<(Seq<char>, Option<Seq<char>>)>;

/// The top-level keys of a document, each with the table under it.
pub type DocumentModel = Seq<(Seq<char>, Option<EntriesModel>)>;

impl View for ConfigError {
    type V = ConfigErrorModel;

    open spec fn view(&self) -> ConfigErrorModel {
        match self {
            ConfigError::Malformed(message) => ConfigErrorModel::Malformed(message@),
            ConfigError::UnknownKey(key) => ConfigErrorModel::UnknownKey(key@),
            ConfigError::PoliciesNotATable => ConfigErrorModel::PoliciesNotATable,
            ConfigError::PolicyNotAString(pattern) => ConfigErrorModel::PolicyNotAString(pattern@),
            ConfigError::UnknownPolicy { pattern, policy } => ConfigErrorModel::UnknownPolicy {
                pattern: pattern@,
                policy: policy@,
            },
        }
    }
}

/// The rules as mathematical values.
pub open spec fn rule_models(rules: Seq<PolicyRule>) -> Seq<(Seq<char>, ConflictPolicy)> {
    Seq::new(rules.len(), |i: int| (rules[i].pattern@, rules[i].policy))
}

impl View for PolicyConfig {
    type V = Seq<(Seq<char>, ConflictPolicy)>;

    open spec fn view(&self) -> Seq<(Seq<char>, ConflictPolicy)> {
        rule_models(self.rules@)
    }
}

/// The configuration, or why there is none, as a mathematical value.
pub open spec fn outcome(r: Result<PolicyConfig, ConfigError>) -> RulesModel {
    match r {
        Ok(config) => Ok(config@),
        Err(error) => Err(error@),
    }
}

/// The entry as a mathematical value.
pub open spec fn entry_model(entry: SectionEntry) -> (Seq<char>, Option<Seq<char>>) {
    (
        entry.key@,
        match entry.text {
            Some(text) => Some(text@),
            None => None,
        },
    )
}

/// The entries as mathematical values.
pub open spec fn entry_models(entries: Seq<SectionEntry>) -> EntriesModel {
    Seq::new(entries.len(), |i: int| entry_model(entries[i]))
}

/// The section as a mathematical value.
pub open spec fn section_model(section: Section) -> (Seq<char>, Option<EntriesModel>) {
    (
        section.key@,
        match section.entries {
            Some(entries) => Some(entry_models(entries@)),
            None => None,
        },
    )
}

/// The sections as mathematical values.
pub open spec fn section_models(sections: Seq<Section>) -> DocumentModel {
    Seq::new(sections.len(), |i: int| section_model(sections[i]))
}

/// The pattern matches the whole name.
pub open spec fn matches_name(pattern: Seq<char>, name: Seq<char>) -> bool
    decreases pattern.len() + name.len(),
{
    if pattern.len() == 0 {
        name.len() == 0
    } else if pattern[0] == '*' {
        ||| matches_name(pattern.skip(1), name)
        ||| name.len() > 0 && matches_name(pattern, name.skip(1))
    } else {
        name.len() > 0 && pattern[0] == name[0] && matches_name(pattern.skip(1), name.skip(1))
    }
}

/// The policy of the first rule that matches the table, else `Abort`.
pub open spec fn policy_in(
    rules: Seq<(Seq<char>, ConflictPolicy)>,
    table: Seq<char>,
) -> ConflictPolicy
    decreases rules.len(),
{
    if rules.len() == 0 {
        ConflictPolicy::Abort
    } else if matches_name(rules[0].0, table) {
        rules[0].1
    } else {
        policy_in(rules.skip(1), table)
    }
}

/// The policy that a word of the configuration names.
pub open spec fn policy_named(word: Seq<char>) -> Option<ConflictPolicy> {
    if word == "abort"@ {
        Some(ConflictPolicy::Abort)
    } else if word == "ours"@ {
        Some(ConflictPolicy::Ours)
    } else if word == "theirs"@ {
        Some(ConflictPolicy::Theirs)
    } else if word == "append-only"@ {
        Some(ConflictPolicy::AppendOnly)
    } else {
        None
    }
}

/// The rules followed by those of the outcome, unless that is a refusal.
pub open spec fn followed_by(
    rules: Seq<(Seq<char>, ConflictPolicy)>,
    more: RulesModel,
) -> RulesModel {
    match more {
        Ok(rest) => Ok(rules + rest),
        Err(error) => Err(error),
    }
}

/// The rule that an entry of the table `policies` states.
pub open spec fn rule_of(entry: (Seq<char>, Option<Seq<char>>)) -> Result<
    (Seq<char>, ConflictPolicy),
    ConfigErrorModel,
> {
    match entry.1 {
        None => Err(ConfigErrorModel::PolicyNotAString(entry.0)),
        Some(word) => match policy_named(word) {
            None => Err(ConfigErrorModel::UnknownPolicy { pattern: entry.0, policy: word }),
            Some(policy) => Ok((entry.0, policy)),
        },
    }
}

/// The rules that the table `policies` states, or the refusal of its first entry
/// that states none.
pub open spec fn rules_stated(entries: EntriesModel) -> RulesModel
    decreases entries.len(),
{
    if entries.len() == 0 {
        Ok(Seq::empty())
    } else {
        match rule_of(entries[0]) {
            Err(error) => Err(error),
            Ok(rule) => followed_by(seq![rule], rules_stated(entries.skip(1))),
        }
    }
}

/// The rules that a top-level key states.
pub open spec fn section_rules(section: (Seq<char>, Option<EntriesModel>)) -> RulesModel {
    if section.0 != "policies"@ {
        Err(ConfigErrorModel::UnknownKey(section.0))
    } else {
        match section.1 {
            None => Err(ConfigErrorModel::PoliciesNotATable),
            Some(entries) => rules_stated(entries),
        }
    }
}

/// The rules that a document states, or the refusal of the first key of it that
/// does not belong there.
pub open spec fn configured(document: DocumentModel) -> RulesModel
    decreases document.len(),
{
    if document.len() == 0 {
        Ok(Seq::empty())
    } else {
        match section_rules(document[0]) {
            Err(error) => Err(error),
            Ok(rules) => followed_by(rules, configured(document.skip(1))),
        }
    }
}

/// The rules that a parsed text states, or its refusal.
pub open spec fn loaded(parsed: Result<DocumentModel, Seq<char>>) -> RulesModel {
    match parsed {
        Ok(document) => configured(document),
        Err(message) => Err(ConfigErrorModel::Malformed(message)),
    }
}

/// What the parser makes of a text: the document in it, or its message.
pub uninterp spec fn toml_document(text: Seq<char>) -> Result<
    Seq<(Seq<char>, Option<Seq<(Seq<char>, Option<Seq<char>>)>>)>,
    Seq<char>,
>;

/// Parses a TOML document.
///
/// Not proved: that `toml::Table::from_str` makes of a text what [`toml_document`]
/// names, a table of keys and values or an error with a message. Of the values, the
/// strings and the tables are told apart from the rest. Which texts are documents,
/// and what is in them, is left to the parser.
#[verifier::external_body]
fn parse_toml(text: &str) -> (r: Result<Vec<Section>, String>)
    ensures
        (match r {
            Ok(sections) => Ok(section_models(sections@)),
            Err(message) => Err(message@),
        }) == toml_document(text@),
{
    let text_of = |value| match value {
        toml::Value::String(text) => Some(text),
        _ => None,
    };
    let entry = |(key, value)| SectionEntry { key, text: text_of(value) };
    let entries_of = |value| match value {
        toml::Value::Table(table) => Some(table.into_iter().map(entry).collect()),
        _ => None,
    };
    let section = |(key, value)| Section { key, entries: entries_of(value) };
    let parsed = text.parse::<toml::Table>();
    parsed.map(|table| table.into_iter().map(section).collect()).map_err(|e| e.to_string())
}

/// A document that is accepted holds policies and nothing else: nothing in it is
/// passed over in silence.
pub proof fn accepted_documents_hold_policies_only(document: DocumentModel)
    requires
        configured(document) is Ok,
    ensures
        forall|i: int|
            0 <= i < document.len() ==> (#[trigger] document[i]).0 == "policies"@
                && document[i].1 is Some && rules_stated(document[i].1->0) is Ok,
    decreases document.len(),
{
    if document.len() > 0 {
        let rest = document.skip(1);
        accepted_documents_hold_policies_only(rest);
        assert forall|i: int| 0 <= i < document.len() implies (#[trigger] document[i]).0
            == "policies"@ && document[i].1 is Some && rules_stated(document[i].1->0) is Ok by {
            if i > 0 {
                assert(rest[i - 1] == document[i]);
            }
        }
    }
}

/// A table of policies that is accepted states one rule for each of its entries,
/// in their order.
pub proof fn accepted_entries_become_rules(entries: EntriesModel)
    requires
        rules_stated(entries) is Ok,
    ensures
        rules_stated(entries)->Ok_0.len() == entries.len(),
        forall|i: int|
            0 <= i < entries.len() ==> #[trigger] rule_of(entries[i]) == Ok::<
                (Seq<char>, ConflictPolicy),
                ConfigErrorModel,
            >(rules_stated(entries)->Ok_0[i]),
    decreases entries.len(),
{
    if entries.len() > 0 {
        let rest = entries.skip(1);
        accepted_entries_become_rules(rest);
        assert forall|i: int| 0 <= i < entries.len() implies #[trigger] rule_of(entries[i]) == Ok::<
            (Seq<char>, ConflictPolicy),
            ConfigErrorModel,
        >(rules_stated(entries)->Ok_0[i]) by {
            if i > 0 {
                assert(rule_of(rest[i - 1]) == rule_of(entries[i]));
            }
        }
    }
}

/// The message of a refusal.
pub open spec fn config_error_text(error: ConfigErrorModel) -> Seq<char> {
    match error {
        ConfigErrorModel::Malformed(message) => "malformed sqlmerge.toml: "@ + message,
        ConfigErrorModel::UnknownKey(key) => "sqlmerge.toml: unknown key `"@ + key + "`"@,
        ConfigErrorModel::PoliciesNotATable => "sqlmerge.toml: `policies` is not a table"@,
        ConfigErrorModel::PolicyNotAString(pattern) => "sqlmerge.toml: the policy for `"@ + pattern
            + "` is not a string"@,
        ConfigErrorModel::UnknownPolicy { pattern, policy } => "sqlmerge.toml: unknown policy `"@
            + policy + "` for `"@ + pattern + "`; use abort, ours, theirs or append-only"@,
    }
}

/// A table that no rule matches is left to `Abort`.
pub proof fn unmatched_tables_abort(rules: Seq<(Seq<char>, ConflictPolicy)>, table: Seq<char>)
    requires
        forall|i: int| 0 <= i < rules.len() ==> !matches_name((#[trigger] rules[i]).0, table),
    ensures
        policy_in(rules, table) == ConflictPolicy::Abort,
    decreases rules.len(),
{
    if rules.len() > 0 {
        assert(!matches_name(rules[0].0, table));
        let rest = rules.skip(1);
        assert forall|i: int| 0 <= i < rest.len() implies !matches_name(
            (#[trigger] rest[i]).0,
            table,
        ) by {
            assert(rest[i] == rules[i + 1]);
        }
        unmatched_tables_abort(rest, table);
    }
}

/// A pattern without `*` matches the table of that name and no other.
pub proof fn plain_pattern_matches_its_name_only(pattern: Seq<char>, name: Seq<char>)
    requires
        forall|i: int| 0 <= i < pattern.len() ==> pattern[i] != '*',
    ensures
        matches_name(pattern, name) <==> pattern == name,
    decreases pattern.len(),
{
    if pattern.len() == 0 {
        if name.len() == 0 {
            assert(pattern =~= name);
        }
    } else if name.len() > 0 {
        plain_pattern_matches_its_name_only(pattern.skip(1), name.skip(1));
        assert(pattern =~= seq![pattern[0]] + pattern.skip(1));
        assert(name =~= seq![name[0]] + name.skip(1));
    }
}

/// A prefix followed by `*` matches exactly the names that begin with the prefix.
pub proof fn starred_prefix_matches_names_that_begin_with_it(prefix: Seq<char>, name: Seq<char>)
    requires
        forall|i: int| 0 <= i < prefix.len() ==> prefix[i] != '*',
    ensures
        matches_name(prefix.push('*'), name) <==> prefix.is_prefix_of(name),
    decreases prefix.len() + name.len(),
{
    let pattern = prefix.push('*');
    if prefix.len() == 0 {
        star_matches_everything(name);
        assert(pattern =~= seq!['*']);
    } else if name.len() > 0 {
        assert(pattern.skip(1) =~= prefix.skip(1).push('*'));
        starred_prefix_matches_names_that_begin_with_it(prefix.skip(1), name.skip(1));
        if prefix.is_prefix_of(name) {
            assert(prefix.skip(1) =~= name.skip(1).subrange(0, prefix.len() - 1));
        } else if prefix[0] == name[0] && prefix.skip(1).is_prefix_of(name.skip(1)) {
            assert(prefix =~= seq![prefix[0]] + prefix.skip(1));
            assert(prefix =~= name.subrange(0, prefix.len() as int));
        }
    }
}

proof fn star_matches_everything(name: Seq<char>)
    ensures
        matches_name(seq!['*'], name),
    decreases name.len(),
{
    let star = seq!['*'];
    assert(star.skip(1) == Seq::<char>::empty());
    if name.len() > 0 {
        star_matches_everything(name.skip(1));
    } else {
        assert(matches_name(star.skip(1), name));
    }
}

impl ConfigError {
    /// The message of the refusal.
    pub fn display(&self) -> (text: String)
        ensures
            text@ == config_error_text(self@),
    {
        let mut text = String::new();
        match self {
            ConfigError::Malformed(message) => {
                text.append("malformed sqlmerge.toml: ");
                text.append(message.as_str());
            },
            ConfigError::UnknownKey(key) => {
                text.append("sqlmerge.toml: unknown key `");
                text.append(key.as_str());
                text.append("`");
            },
            ConfigError::PoliciesNotATable => {
                text.append("sqlmerge.toml: `policies` is not a table");
            },
            ConfigError::PolicyNotAString(pattern) => {
                text.append("sqlmerge.toml: the policy for `");
                text.append(pattern.as_str());
                text.append("` is not a string");
            },
            ConfigError::UnknownPolicy { pattern, policy } => {
                text.append("sqlmerge.toml: unknown policy `");
                text.append(policy.as_str());
                text.append("` for `");
                text.append(pattern.as_str());
                text.append("`; use abort, ours, theirs or append-only");
            },
        }
        assert(text@ =~= config_error_text(self@));
        text
    }
}

/// Whether a pattern matches the whole name.
pub fn pattern_matches(pattern: &str, name: &str) -> (r: bool)
    ensures
        r == matches_name(pattern@, name@),
{
    let p = chars_of(pattern);
    let t = chars_of(name);
    // `row[j]` tells whether the pattern from `i` on matches the name from `j` on.
    let mut row: Vec<bool> = Vec::new();
    let mut j: usize = 0;
    while j < t.len()
        invariant
            j <= t.len(),
            row.len() == j,
            forall|k: int| 0 <= k < j ==> row[k] == false,
        decreases t.len() - j,
    {
        row.push(false);
        j = j + 1;
    }
    row.push(true);
    let mut i: usize = p.len();
    proof {
        assert(p@.skip(i as int) == Seq::<char>::empty());
    }
    while i > 0
        invariant
            i <= p.len(),
            row.len() == t.len() + 1,
            forall|k: int|
                0 <= k <= t.len() ==> row[k] == #[trigger] matches_name(
                    p@.skip(i as int),
                    t@.skip(k),
                ),
        decreases i,
    {
        let c = p[i - 1];
        let ghost below = p@.skip(i as int);
        let ghost here = p@.skip(i - 1);
        assert(here.skip(1) == below);
        let ghost old_row = row@;
        let mut j: usize = 0;
        let mut next: Vec<bool> = Vec::new();
        if c == '*' {
            // Filled from the end: entry `j` needs entry `j + 1`.
            let mut k: usize = t.len() + 1;
            next = row;
            while k > 0
                invariant
                    k <= t.len() + 1,
                    next.len() == t.len() + 1,
                    c == '*',
                    here.len() > 0,
                    here[0] == c,
                    here.skip(1) == below,
                    forall|m: int| 0 <= m < k ==> next[m] == old_row[m],
                    forall|m: int|
                        0 <= m <= t.len() ==> old_row[m] == #[trigger] matches_name(
                            below,
                            t@.skip(m),
                        ),
                    forall|m: int|
                        k <= m <= t.len() ==> next[m] == #[trigger] matches_name(here, t@.skip(m)),
                decreases k,
            {
                k = k - 1;
                assert(next[k as int] == matches_name(below, t@.skip(k as int)));
                if k < t.len() {
                    assert(t@.skip(k as int).skip(1) == t@.skip(k + 1));
                    assert(next[k + 1] == matches_name(here, t@.skip(k + 1)));
                    let v: bool = next[k] || next[k + 1];
                    next.set(k, v);
                }
            }
        } else {
            while j <= t.len()
                invariant
                    j <= t.len() + 1,
                    next.len() == j,
                    row.len() == t.len() + 1,
                    c != '*',
                    here.len() > 0,
                    here[0] == c,
                    here.skip(1) == below,
                    forall|m: int|
                        0 <= m <= t.len() ==> row[m] == #[trigger] matches_name(below, t@.skip(m)),
                    forall|m: int|
                        0 <= m < j ==> next[m] == #[trigger] matches_name(here, t@.skip(m)),
                decreases t.len() + 1 - j,
            {
                if j < t.len() {
                    assert(t@.skip(j as int).skip(1) == t@.skip(j + 1));
                    assert(row[j + 1] == matches_name(below, t@.skip(j + 1)));
                }
                let v: bool = j < t.len() && t[j] == c && row[j + 1];
                next.push(v);
                j = j + 1;
            }
        }
        row = next;
        i = i - 1;
    }
    assert(p@.skip(0) == p@);
    assert(t@.skip(0) == t@);
    assert(row[0] == matches_name(p@.skip(0), t@.skip(0)));
    row[0]
}

/// The policy that a word of the configuration names.
pub fn policy_from_word(word: &str) -> (policy: Option<ConflictPolicy>)
    ensures
        policy == policy_named(word@),
{
    if same_text(word, "abort") {
        Some(ConflictPolicy::Abort)
    } else if same_text(word, "ours") {
        Some(ConflictPolicy::Ours)
    } else if same_text(word, "theirs") {
        Some(ConflictPolicy::Theirs)
    } else if same_text(word, "append-only") {
        Some(ConflictPolicy::AppendOnly)
    } else {
        None
    }
}

/// The rules that the entries of the table `policies` state.
fn rules_of(entries: &Vec<SectionEntry>) -> (r: Result<Vec<PolicyRule>, ConfigError>)
    ensures
        (match r {
            Ok(rules) => Ok(rule_models(rules@)),
            Err(error) => Err(error@),
        }) == rules_stated(entry_models(entries@)),
{
    let ghost table = entry_models(entries@);
    let mut rules: Vec<PolicyRule> = Vec::new();
    let mut i: usize = 0;
    assert(table.skip(0) == table);
    assert(followed_by(rule_models(rules@), rules_stated(table)) == rules_stated(table)) by {
        if rules_stated(table) is Ok {
            assert(rule_models(rules@) + rules_stated(table)->Ok_0 == rules_stated(table)->Ok_0);
        }
    }
    while i < entries.len()
        invariant
            i <= entries.len(),
            table == entry_models(entries@),
            rules_stated(table) == followed_by(
                rule_models(rules@),
                rules_stated(table.skip(i as int)),
            ),
        decreases entries.len() - i,
    {
        let entry = &entries[i];
        let ghost here = table.skip(i as int);
        assert(here[0] == entry_model(*entry));
        assert(here.skip(1) == table.skip(i + 1));
        match &entry.text {
            None => {
                return Err(ConfigError::PolicyNotAString(entry.key.clone()));
            },
            Some(word) => match policy_from_word(word.as_str()) {
                None => {
                    return Err(
                        ConfigError::UnknownPolicy {
                            pattern: entry.key.clone(),
                            policy: word.clone(),
                        },
                    );
                },
                Some(policy) => {
                    let ghost before = rule_models(rules@);
                    let ghost rule = (entry.key@, policy);
                    rules.push(PolicyRule { pattern: entry.key.clone(), policy });
                    proof {
                        assert(rule_models(rules@) == before.push(rule));
                        let rest = rules_stated(table.skip(i + 1));
                        if rest is Ok {
                            assert(before + (seq![rule] + rest->Ok_0) == before.push(rule)
                                + rest->Ok_0);
                        }
                    }
                },
            },
        }
        i = i + 1;
    }
    assert(rule_models(rules@) + Seq::<(Seq<char>, ConflictPolicy)>::empty() == rule_models(rules@));
    Ok(rules)
}

impl PolicyConfig {
    /// The configuration under which every conflict aborts.
    pub fn abort_all() -> (config: PolicyConfig)
        ensures
            config@ == Seq::<(Seq<char>, ConflictPolicy)>::empty(),
            forall|table: Seq<char>| #[trigger]
                policy_in(config@, table) == ConflictPolicy::Abort,
    {
        let config = PolicyConfig { rules: Vec::new() };
        assert(config@ =~= Seq::<(Seq<char>, ConflictPolicy)>::empty());
        config
    }

    /// The configuration that a `sqlmerge.toml` states: a table `policies` whose keys
    /// are patterns and whose values are the words for their policies. Without that
    /// table every conflict aborts.
    pub fn load_body(body: &str) -> (r: Result<PolicyConfig, ConfigError>)
        ensures
            outcome(r) == loaded(toml_document(body@)),
    {
        match parse_toml(body) {
            Ok(sections) => PolicyConfig::from_sections(&sections),
            Err(message) => Err(ConfigError::Malformed(message)),
        }
    }

    /// The configuration that the sections of a document state. It is refused at the
    /// first key or entry that does not belong there.
    pub fn from_sections(sections: &Vec<Section>) -> (r: Result<PolicyConfig, ConfigError>)
        ensures
            outcome(r) == configured(section_models(sections@)),
    {
        let ghost document = section_models(sections@);
        let mut rules: Vec<PolicyRule> = Vec::new();
        let mut i: usize = 0;
        assert(document.skip(0) == document);
        assert(followed_by(rule_models(rules@), configured(document)) == configured(document)) by {
            if configured(document) is Ok {
                assert(rule_models(rules@) + configured(document)->Ok_0
                    == configured(document)->Ok_0);
            }
        }
        while i < sections.len()
            invariant
                i <= sections.len(),
                document == section_models(sections@),
                configured(document) == followed_by(
                    rule_models(rules@),
                    configured(document.skip(i as int)),
                ),
            decreases sections.len() - i,
        {
            let section = &sections[i];
            let ghost here = document.skip(i as int);
            assert(here[0] == section_model(*section));
            assert(here.skip(1) == document.skip(i + 1));
            if !same_text(section.key.as_str(), "policies") {
                return Err(ConfigError::UnknownKey(section.key.clone()));
            }
            match &section.entries {
                None => {
                    return Err(ConfigError::PoliciesNotATable);
                },
                Some(entries) => match rules_of(entries) {
                    Err(error) => {
                        return Err(error);
                    },
                    Ok(more) => {
                        let ghost before = rules@;
                        let ghost stated = more@;
                        let mut more = more;
                        rules.append(&mut more);
                        proof {
                            assert(rule_models(rules@) == rule_models(before) + rule_models(stated));
                            let rest = configured(document.skip(i + 1));
                            if rest is Ok {
                                assert(rule_models(before) + (rule_models(stated) + rest->Ok_0)
                                    == rule_models(rules@) + rest->Ok_0);
                            }
                        }
                    },
                },
            }
            i = i + 1;
        }
        assert(rule_models(rules@) + Seq::<(Seq<char>, ConflictPolicy)>::empty() == rule_models(
            rules@,
        ));
        Ok(PolicyConfig { rules })
    }

    /// The policy for a table.
    pub fn policy_for(&self, table: &str) -> (policy: ConflictPolicy)
        ensures
            policy == policy_in(self@, table@),
    {
        let mut i: usize = 0;
        assert(self@.skip(0) == self@);
        while i < self.rules.len()
            invariant
                i <= self.rules.len(),
                policy_in(self@, table@) == policy_in(self@.skip(i as int), table@),
            decreases self.rules.len() - i,
        {
            assert(self@.skip(i as int)[0] == self@[i as int]);
            if pattern_matches(self.rules[i].pattern.as_str(), table) {
                return self.rules[i].policy;
            }
            assert(self@.skip(i as int).skip(1) == self@.skip(i + 1));
            i = i + 1;
        }
        ConflictPolicy::Abort
    }
}

} // verus!
