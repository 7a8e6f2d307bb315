//! What a configuration says: which names a pattern matches, which rule decides, and what
//! becomes of each entry of a document.
use vstd::prelude::*;

use crate::config::{
    config_error_text, configured, entry_models, loaded, matches_name, policy_in, policy_named,
    rule_of, rules_stated, section_models, section_rules, ConfigError, ConfigErrorModel,
    DocumentModel, EntriesModel, PolicyConfig, RulesModel, Section, SectionEntry,
};
use crate::merge::ConflictPolicy;

verus! {

/// A pattern of two parts matches exactly the names that can be cut in two, so that each
/// part of the pattern matches its part of the name.
pub proof fn patterns_match_part_by_part(p: Seq<char>, q: Seq<char>, name: Seq<char>)
    ensures
        matches_name(p + q, name) <==> exists|k: int|
            0 <= k <= name.len() && matches_name(p, #[trigger] name.take(k)) && matches_name(
                q,
                name.skip(k),
            ),
    decreases p.len() + name.len(),
{
    let both = p + q;
    if p.len() == 0 {
        assert(both =~= q);
        assert(name.skip(0) =~= name);
        assert(matches_name(p, name.take(0)));
    } else {
        assert(both.skip(1) =~= p.skip(1) + q);
        if p[0] == '*' {
            patterns_match_part_by_part(p.skip(1), q, name);
        }
        if name.len() > 0 {
            if p[0] == '*' {
                patterns_match_part_by_part(p, q, name.skip(1));
            } else {
                patterns_match_part_by_part(p.skip(1), q, name.skip(1));
            }
        }
        if matches_name(both, name) {
            whole_match_can_be_cut(p, q, name);
        }
        if exists|k: int|
            0 <= k <= name.len() && matches_name(p, #[trigger] name.take(k)) && matches_name(
                q,
                name.skip(k),
            ) {
            let k = choose|k: int|
                0 <= k <= name.len() && matches_name(p, #[trigger] name.take(k)) && matches_name(
                    q,
                    name.skip(k),
                );
            if k > 0 {
                assert(name.take(k).skip(1) =~= name.skip(1).take(k - 1));
                assert(name.skip(k) =~= name.skip(1).skip(k - 1));
                assert(name.take(k)[0] == name[0]);
            }
        }
    }
}

proof fn whole_match_can_be_cut(p: Seq<char>, q: Seq<char>, name: Seq<char>)
    requires
        p.len() > 0,
        matches_name(p + q, name),
        p[0] == '*' && matches_name(p.skip(1) + q, name) ==> exists|k: int|
            0 <= k <= name.len() && matches_name(p.skip(1), #[trigger] name.take(k))
                && matches_name(q, name.skip(k)),
        name.len() > 0 ==> ({
            let rest = name.skip(1);
            let first = if p[0] == '*' {
                p
            } else {
                p.skip(1)
            };
            matches_name(first + q, rest) ==> exists|k: int|
                0 <= k <= rest.len() && matches_name(first, #[trigger] rest.take(k))
                    && matches_name(q, rest.skip(k))
        }),
    ensures
        exists|k: int|
            0 <= k <= name.len() && matches_name(p, #[trigger] name.take(k)) && matches_name(
                q,
                name.skip(k),
            ),
{
    assert((p + q).skip(1) =~= p.skip(1) + q);
    if p[0] == '*' && matches_name(p.skip(1) + q, name) {
        let k = choose|k: int|
            0 <= k <= name.len() && matches_name(p.skip(1), #[trigger] name.take(k))
                && matches_name(q, name.skip(k));
        assert(matches_name(p, name.take(k)));
    } else {
        let rest = name.skip(1);
        let first = if p[0] == '*' {
            p
        } else {
            p.skip(1)
        };
        let k = choose|k: int|
            0 <= k <= rest.len() && matches_name(first, #[trigger] rest.take(k)) && matches_name(
                q,
                rest.skip(k),
            );
        assert(name.take(k + 1).skip(1) =~= rest.take(k));
        assert(name.skip(k + 1) =~= rest.skip(k));
        assert(name.take(k + 1)[0] == name[0]);
        assert(matches_name(p, name.take(k + 1)));
    }
}

/// The empty pattern matches the empty name, a star every name, and any other character
/// the name that is that character.
pub proof fn characters_match_themselves(c: char, name: Seq<char>)
    ensures
        matches_name(Seq::empty(), name) <==> name.len() == 0,
        matches_name(seq!['*'], name),
        c != '*' ==> (matches_name(seq![c], name) <==> name == seq![c]),
    decreases name.len(),
{
    let none = Seq::<char>::empty();
    assert(seq!['*'].skip(1) =~= none);
    assert(seq![c].skip(1) =~= none);
    if name.len() > 0 {
        characters_match_themselves(c, name.skip(1));
        if name.len() == 1 {
            assert(name =~= seq![name[0]]);
        }
    } else {
        assert(matches_name(none, name));
    }
}

/// The first rule that matches a table decides, whatever rules follow it.
pub proof fn first_matching_rule_decides(
    rules: Seq<(Seq<char>, ConflictPolicy)>,
    table: Seq<char>,
    i: int,
)
    requires
        0 <= i < rules.len(),
        matches_name(rules[i].0, table),
        forall|j: int| 0 <= j < i ==> !matches_name((#[trigger] rules[j]).0, table),
    ensures
        policy_in(rules, table) == rules[i].1,
    decreases i,
{
    if i > 0 {
        let rest = rules.skip(1);
        assert(!matches_name(rules[0].0, table));
        assert forall|j: int| 0 <= j < i - 1 implies !matches_name(
            (#[trigger] rest[j]).0,
            table,
        ) by {
            assert(rest[j] == rules[j + 1]);
        }
        first_matching_rule_decides(rest, table, i - 1);
    }
}

/// There are four words for policies, each for one of them, and no other word names one.
pub proof fn each_policy_has_its_word(word: Seq<char>)
    ensures
        policy_named(word) == Some(ConflictPolicy::Abort) <==> word == "abort"@,
        policy_named(word) == Some(ConflictPolicy::Ours) <==> word == "ours"@,
        policy_named(word) == Some(ConflictPolicy::Theirs) <==> word == "theirs"@,
        policy_named(word) == Some(ConflictPolicy::AppendOnly) <==> word == "append-only"@,
{
    reveal_strlit("abort");
    reveal_strlit("ours");
    reveal_strlit("theirs");
    reveal_strlit("append-only");
    assert("abort"@.len() == 5 && "ours"@.len() == 4 && "theirs"@.len() == 6
        && "append-only"@.len() == 11);
}

/// An entry states the rule of its pattern, if it is a string that names a policy. An
/// entry that is no string is refused as such, and a word that names no policy with both
/// the pattern and the word.
pub proof fn entries_state_their_rule(pattern: Seq<char>, word: Seq<char>)
    ensures
        rules_stated(Seq::empty()) == Ok::<Seq<(Seq<char>, ConflictPolicy)>, ConfigErrorModel>(
            Seq::empty(),
        ),
        rules_stated(seq![(pattern, None)]) == Err::<
            Seq<(Seq<char>, ConflictPolicy)>,
            ConfigErrorModel,
        >(ConfigErrorModel::PolicyNotAString(pattern)),
        policy_named(word) matches Some(policy) ==> rules_stated(seq![(pattern, Some(word))])
            == Ok::<Seq<(Seq<char>, ConflictPolicy)>, ConfigErrorModel>(seq![(pattern, policy)]),
        policy_named(word) is None ==> rules_stated(seq![(pattern, Some(word))]) == Err::<
            Seq<(Seq<char>, ConflictPolicy)>,
            ConfigErrorModel,
        >(ConfigErrorModel::UnknownPolicy { pattern, policy: word }),
{
    let none = Seq::<(Seq<char>, Option<Seq<char>>)>::empty();
    assert(seq![(pattern, None::<Seq<char>>)].skip(1) =~= none);
    assert(seq![(pattern, Some(word))].skip(1) =~= none);
    if let Some(policy) = policy_named(word) {
        assert(seq![(pattern, policy)] + Seq::<(Seq<char>, ConflictPolicy)>::empty() =~= seq![
            (pattern, policy),
        ]);
    }
}

/// The outcome of two parts is that of the first where it is refused, else that of the
/// second where it is refused, and else the rules of both, in their order.
pub open spec fn is_both(first: RulesModel, second: RulesModel, both: RulesModel) -> bool {
    &&& first is Err ==> both == first
    &&& first is Ok && second is Err ==> both == second
    &&& first matches Ok(x) ==> (second matches Ok(y) ==> both == Ok::<
        Seq<(Seq<char>, ConflictPolicy)>,
        ConfigErrorModel,
    >(x + y))
}

/// The entries of a table state their rules in their order, and the first that states
/// none refuses them all.
pub proof fn entries_are_read_in_order(a: EntriesModel, b: EntriesModel)
    ensures
        is_both(rules_stated(a), rules_stated(b), rules_stated(a + b)),
    decreases a.len(),
{
    if a.len() == 0 {
        assert(a + b =~= b);
        if let Ok(y) = rules_stated(b) {
            assert(Seq::<(Seq<char>, ConflictPolicy)>::empty() + y =~= y);
        }
    } else {
        assert((a + b).skip(1) =~= a.skip(1) + b);
        assert((a + b)[0] == a[0]);
        entries_are_read_in_order(a.skip(1), b);
        if rules_stated(a) is Ok && rules_stated(b) is Ok {
            let x = rules_stated(a.skip(1))->Ok_0;
            let y = rules_stated(b)->Ok_0;
            let rule = rule_of(a[0])->Ok_0;
            assert(rules_stated(a)->Ok_0 =~= seq![rule] + x);
            assert(seq![rule] + (x + y) =~= (seq![rule] + x) + y);
        }
    }
}

/// A document whose only key is `policies` states what the table under it states. Any
/// other key is refused by its name, and so is a `policies` that is no table. Nothing is
/// stated by an empty document.
pub proof fn sections_state_their_entries(key: Seq<char>, entries: Option<EntriesModel>)
    ensures
        configured(Seq::empty()) == Ok::<Seq<(Seq<char>, ConflictPolicy)>, ConfigErrorModel>(
            Seq::empty(),
        ),
        key == "policies"@ ==> (entries matches Some(table) ==> configured(seq![(key, entries)])
            == rules_stated(table)),
        key == "policies"@ && entries is None ==> configured(seq![(key, entries)]) == Err::<
            Seq<(Seq<char>, ConflictPolicy)>,
            ConfigErrorModel,
        >(ConfigErrorModel::PoliciesNotATable),
        key != "policies"@ ==> configured(seq![(key, entries)]) == Err::<
            Seq<(Seq<char>, ConflictPolicy)>,
            ConfigErrorModel,
        >(ConfigErrorModel::UnknownKey(key)),
{
    let none: DocumentModel = Seq::empty();
    assert(seq![(key, entries)].skip(1) =~= none);
    if let Some(table) = entries {
        if let Ok(rules) = rules_stated(table) {
            assert(rules + Seq::<(Seq<char>, ConflictPolicy)>::empty() =~= rules);
        }
    }
}

/// The keys of a document are read in their order, and the first that does not belong
/// there refuses it.
pub proof fn sections_are_read_in_order(a: DocumentModel, b: DocumentModel)
    ensures
        is_both(configured(a), configured(b), configured(a + b)),
    decreases a.len(),
{
    if a.len() == 0 {
        assert(a + b =~= b);
        if let Ok(y) = configured(b) {
            assert(Seq::<(Seq<char>, ConflictPolicy)>::empty() + y =~= y);
        }
    } else {
        assert((a + b).skip(1) =~= a.skip(1) + b);
        assert((a + b)[0] == a[0]);
        sections_are_read_in_order(a.skip(1), b);
        if configured(a) is Ok && configured(b) is Ok {
            let first = section_rules(a[0])->Ok_0;
            let x = configured(a.skip(1))->Ok_0;
            let y = configured(b)->Ok_0;
            assert(configured(a)->Ok_0 =~= first + x);
            assert(first + (x + y) =~= (first + x) + y);
        }
    }
}

/// A text that is no document is refused in the words of the parser; of a document its
/// keys decide.
pub proof fn texts_are_loaded_as_parsed(document: DocumentModel, message: Seq<char>)
    ensures
        loaded(Ok(document)) == configured(document),
        loaded(Err(message)) == Err::<Seq<(Seq<char>, ConflictPolicy)>, ConfigErrorModel>(
            ConfigErrorModel::Malformed(message),
        ),
{
}

/// The views of rules, entries and sections show every field, one for each and in their
/// order.
pub proof fn configurations_are_viewed_in_full(
    config: PolicyConfig,
    entries: Seq<SectionEntry>,
    sections: Seq<Section>,
)
    ensures
        config@.len() == config.rules@.len(),
        forall|i: int|
            0 <= i < config.rules@.len() ==> #[trigger] config@[i] == (
                config.rules@[i].pattern@,
                config.rules@[i].policy,
            ),
        entry_models(entries).len() == entries.len(),
        forall|i: int|
            0 <= i < entries.len() ==> (#[trigger] entry_models(entries)[i]).0 == entries[i].key@
                && (entries[i].text is None ==> entry_models(entries)[i].1 is None) && (
            entries[i].text matches Some(text) ==> entry_models(entries)[i].1 == Some(text@)),
        section_models(sections).len() == sections.len(),
        forall|i: int|
            0 <= i < sections.len() ==> (#[trigger] section_models(sections)[i]).0
                == sections[i].key@ && (sections[i].entries is None ==> section_models(
                sections,
            )[i].1 is None) && (sections[i].entries matches Some(table) ==> section_models(
                sections,
            )[i].1 == Some(entry_models(table@))),
{
}

/// The message of a refusal names what was refused: the pattern, the word and the key as
/// they stand in the document.
pub proof fn refusals_name_what_they_refuse(error: ConfigError)
    ensures
        error matches ConfigError::Malformed(message) ==> config_error_text(error@)
            == "malformed sqlmerge.toml: "@ + message@,
        error matches ConfigError::UnknownKey(key) ==> config_error_text(error@)
            == "sqlmerge.toml: unknown key `"@ + key@ + "`"@,
        error is PoliciesNotATable ==> config_error_text(error@)
            == "sqlmerge.toml: `policies` is not a table"@,
        error matches ConfigError::PolicyNotAString(pattern) ==> config_error_text(error@)
            == "sqlmerge.toml: the policy for `"@ + pattern@ + "` is not a string"@,
        error matches ConfigError::UnknownPolicy { pattern, policy } ==> config_error_text(error@)
            == "sqlmerge.toml: unknown policy `"@ + policy@ + "` for `"@ + pattern@
            + "`; use abort, ours, theirs or append-only"@,
{
}

} // verus!
