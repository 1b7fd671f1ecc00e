//! Mapping rules, their mathematical model, and configuration assembly.

use crate::keycode::KeyCode;
use crate::keyset::{copy_codes, dedup_first, KeySet};
use vstd::prelude::*;

verus! {

/// A mapping rule: a dual-role key, a chord remap, or a mode switch.
///
/// The `mode` / `scope` attribute gates applicability: absent means the rule
/// applies in any mode; present means it applies only while the active mode
/// equals the attribute.
#[derive(Debug)]
pub enum Mapping {
    DualRole { input: KeyCode, hold: Vec<KeyCode>, tap: Vec<KeyCode>, mode: Option<String> },
    Remap { input: KeySet, output: KeySet, mode: Option<String> },
    ModeSwitch { input: KeySet, mode: String, scope: Option<String> },
}

/// The mathematical model of a rule.
pub ghost enum RuleModel {
    DualRole { input: KeyCode, hold: Seq<KeyCode>, tap: Seq<KeyCode>, mode: Option<Seq<char>> },
    Remap {
        input: Set<KeyCode>,
        output: Set<KeyCode>,
        output_seq: Seq<KeyCode>,
        mode: Option<Seq<char>>,
    },
    ModeSwitch { input: Set<KeyCode>, target: Seq<char>, scope: Option<Seq<char>> },
}

impl View for Mapping {
    type V = RuleModel;

    open spec fn view(&self) -> RuleModel {
        match *self {
            Mapping::DualRole { input, hold, tap, mode } => RuleModel::DualRole {
                input,
                hold: hold@,
                tap: tap@,
                mode: mode.deep_view(),
            },
            Mapping::Remap { input, output, mode } => RuleModel::Remap {
                input: input@,
                output: output@,
                output_seq: output.seq(),
                mode: mode.deep_view(),
            },
            Mapping::ModeSwitch { input, mode, scope } => RuleModel::ModeSwitch {
                input: input@,
                target: mode@,
                scope: scope.deep_view(),
            },
        }
    }
}

/// The models of a rule list, in order.
pub open spec fn rules_view(s: Seq<Mapping>) -> Seq<RuleModel> {
    s.map_values(|m: Mapping| m@)
}

/// The sets stored inside a rule are duplicate-free.
pub open spec fn mapping_wf(m: Mapping) -> bool {
    match m {
        Mapping::DualRole { .. } => true,
        Mapping::Remap { input, output, .. } => input.wf() && output.wf(),
        Mapping::ModeSwitch { input, .. } => input.wf(),
    }
}

/// Whether a rule attribute admits the active mode: an absent attribute
/// admits every mode, a present one only its own mode.
pub open spec fn mode_applicable(attr: Option<Seq<char>>, active: Option<Seq<char>>) -> bool {
    match attr {
        Option::None => true,
        Option::Some(m) => match active {
            Option::None => false,
            Option::Some(a) => m == a,
        },
    }
}

/// Decides `mode_applicable` on the stored attribute strings.
pub fn mode_matches(attr: &Option<String>, active: &Option<String>) -> (r: bool)
    ensures
        r == mode_applicable(attr.deep_view(), active.deep_view()),
{
    match attr {
        None => true,
        Some(m) => match active {
            None => false,
            Some(a) => *m == *a,
        },
    }
}

/// An error raised while turning a configuration into rules.
#[derive(Debug)]
pub enum ConfigError {
    /// The configuration names a key that the key-code table does not know.
    InvalidKey(String),
    /// A key name parsed, but not into a key event code.
    ImpossibleParseKey,
}

/// A dual-role entry of a configuration section.
#[derive(Debug)]
pub struct DualRoleEntry {
    pub input: KeyCode,
    pub hold: Vec<KeyCode>,
    pub tap: Vec<KeyCode>,
}

/// A remap entry of a configuration section.
#[derive(Debug)]
pub struct RemapEntry {
    pub input: Vec<KeyCode>,
    pub output: Vec<KeyCode>,
    pub mode: Option<String>,
}

/// A mode-switch entry of a configuration section.
#[derive(Debug)]
pub struct SwitchEntry {
    pub input: Vec<KeyCode>,
    pub mode: String,
}

/// A named per-mode section of the configuration.
#[derive(Debug)]
pub struct ModeSection {
    pub name: String,
    pub dual_role: Vec<DualRoleEntry>,
    pub remap: Vec<RemapEntry>,
    pub switch: Vec<SwitchEntry>,
}

/// The rule a dual-role entry denotes, under the given mode attribute.
pub open spec fn dual_rule_model(e: DualRoleEntry, mode: Option<Seq<char>>) -> RuleModel {
    RuleModel::DualRole { input: e.input, hold: e.hold@, tap: e.tap@, mode }
}

/// The mode a top-level remap entry carries: its own, or `"default"`.
pub open spec fn remap_entry_mode(e: RemapEntry) -> Seq<char> {
    match e.mode {
        Option::Some(m) => m@,
        Option::None => "default"@,
    }
}

/// The rule a remap entry denotes, under the given mode attribute.
pub open spec fn remap_rule_model(e: RemapEntry, mode: Option<Seq<char>>) -> RuleModel {
    RuleModel::Remap {
        input: e.input@.to_set(),
        output: e.output@.to_set(),
        output_seq: dedup_first(e.output@),
        mode,
    }
}

/// The rule a mode-switch entry denotes, under the given scope attribute.
pub open spec fn switch_rule_model(e: SwitchEntry, scope: Option<Seq<char>>) -> RuleModel {
    RuleModel::ModeSwitch { input: e.input@.to_set(), target: e.mode@, scope }
}

/// The rules of one per-mode section: its dual-role, remap and switch
/// entries, each scoped to the section's name.
pub open spec fn section_rules(s: ModeSection) -> Seq<RuleModel> {
    s.dual_role@.map_values(|e: DualRoleEntry| dual_rule_model(e, Option::Some(s.name@)))
        + s.remap@.map_values(|e: RemapEntry| remap_rule_model(e, Option::Some(s.name@)))
        + s.switch@.map_values(|e: SwitchEntry| switch_rule_model(e, Option::Some(s.name@)))
}

/// The rules of all per-mode sections, in section order.
pub open spec fn sections_rules(ms: Seq<ModeSection>) -> Seq<RuleModel>
    decreases ms.len(),
{
    if ms.len() == 0 {
        Seq::empty()
    } else {
        sections_rules(ms.drop_last()) + section_rules(ms.last())
    }
}

/// The flat rule list a whole configuration denotes: top-level dual-role
/// entries (no mode), top-level remaps (their own mode, or `"default"`),
/// top-level switches (no scope), then each per-mode section.
pub open spec fn config_rules(
    dual: Seq<DualRoleEntry>,
    remap: Seq<RemapEntry>,
    switches: Seq<SwitchEntry>,
    modes: Seq<ModeSection>,
) -> Seq<RuleModel> {
    dual.map_values(|e: DualRoleEntry| dual_rule_model(e, Option::None))
        + remap.map_values(|e: RemapEntry| remap_rule_model(e, Option::Some(remap_entry_mode(e))))
        + switches.map_values(|e: SwitchEntry| switch_rule_model(e, Option::None))
        + sections_rules(modes)
}

/// A copy of an optional mode name.
pub(crate) fn clone_opt_string(o: &Option<String>) -> (r: Option<String>)
    ensures
        r.deep_view() == o.deep_view(),
{
    match o {
        Some(s) => Some(s.clone()),
        None => None,
    }
}

/// A remapper configuration: device selector hints and the flat rule list.
#[derive(Debug)]
pub struct MappingConfig {
    pub device_name: Option<String>,
    pub phys: Option<String>,
    pub mappings: Vec<Mapping>,
}

impl MappingConfig {
    /// Assembles the flat rule list from the logical sections of a parsed
    /// configuration document.
    pub fn from_sections(
        device_name: Option<String>,
        phys: Option<String>,
        dual_role: Vec<DualRoleEntry>,
        remap: Vec<RemapEntry>,
        mode_switch: Vec<SwitchEntry>,
        modes: Vec<ModeSection>,
    ) -> (r: MappingConfig)
        ensures
            r.device_name == device_name,
            r.phys == phys,
            rules_view(r.mappings@) == config_rules(dual_role@, remap@, mode_switch@, modes@),
            forall|i: int| 0 <= i < r.mappings@.len() ==> mapping_wf(#[trigger] r.mappings@[i]),
    {
        let mut mappings: Vec<Mapping> = Vec::new();
        push_dual_rules(&mut mappings, &dual_role, &None);
        push_remap_rules_top(&mut mappings, &remap);
        push_switch_rules(&mut mappings, &mode_switch, &None);
        let mut s: usize = 0;
        while s < modes.len()
            invariant
                s <= modes.len(),
                rules_view(mappings@) == config_rules(
                    dual_role@,
                    remap@,
                    mode_switch@,
                    modes@.subrange(0, s as int),
                ),
                forall|i: int| 0 <= i < mappings@.len() ==> mapping_wf(#[trigger] mappings@[i]),
            decreases modes.len() - s,
        {
            let section = &modes[s];
            let scope = Some(section.name.clone());
            push_dual_rules(&mut mappings, &section.dual_role, &scope);
            push_remap_rules_scoped(&mut mappings, &section.remap, &scope);
            push_switch_rules(&mut mappings, &section.switch, &scope);
            proof {
                let pre = modes@.subrange(0, s as int);
                let cur = modes@.subrange(0, s + 1 as int);
                assert(cur.drop_last() =~= pre);
                assert(cur.last() == modes@[s as int]);
                assert(scope.deep_view() == Option::Some(modes@[s as int].name@));
                assert(sections_rules(cur) == sections_rules(pre) + section_rules(
                    modes@[s as int],
                ));
                assert(rules_view(mappings@) =~= config_rules(
                    dual_role@,
                    remap@,
                    mode_switch@,
                    cur,
                ));
            }
            s += 1;
        }
        proof {
            assert(modes@.subrange(0, modes@.len() as int) =~= modes@);
        }
        MappingConfig { device_name, phys, mappings }
    }
}

/// Appends the rules of a list of dual-role entries under one mode attribute.
fn push_dual_rules(mappings: &mut Vec<Mapping>, entries: &Vec<DualRoleEntry>, mode: &Option<String>)
    requires
        forall|i: int| 0 <= i < old(mappings)@.len() ==> mapping_wf(#[trigger] old(mappings)@[i]),
    ensures
        rules_view(final(mappings)@) == rules_view(old(mappings)@) + entries@.map_values(
            |e: DualRoleEntry| dual_rule_model(e, mode.deep_view()),
        ),
        forall|i: int| 0 <= i < final(mappings)@.len() ==> mapping_wf(
            #[trigger] final(mappings)@[i],
        ),
{
    let ghost base = mappings@;
    let ghost f = |e: DualRoleEntry| dual_rule_model(e, mode.deep_view());
    let mut i: usize = 0;
    while i < entries.len()
        invariant
            i <= entries.len(),
            f == (|e: DualRoleEntry| dual_rule_model(e, mode.deep_view())),
            rules_view(mappings@) == rules_view(base) + entries@.subrange(
                0,
                i as int,
            ).map_values(f),
            forall|j: int| 0 <= j < mappings@.len() ==> mapping_wf(#[trigger] mappings@[j]),
        decreases entries.len() - i,
    {
        let e = &entries[i];
        let m = Mapping::DualRole {
            input: e.input,
            hold: copy_codes(&e.hold),
            tap: copy_codes(&e.tap),
            mode: clone_opt_string(mode),
        };
        proof {
            assert(m@ == f(entries@[i as int]));
        }
        let ghost pre = mappings@;
        mappings.push(m);
        proof {
            assert(rules_view(mappings@) =~= rules_view(pre).push(f(entries@[i as int])));
            assert(entries@.subrange(0, i + 1 as int).map_values(f) =~= entries@.subrange(
                0,
                i as int,
            ).map_values(f).push(f(entries@[i as int])));
            assert(rules_view(mappings@) =~= rules_view(base) + entries@.subrange(
                0,
                i + 1 as int,
            ).map_values(f));
        }
        i += 1;
    }
    proof {
        assert(entries@.subrange(0, entries@.len() as int) =~= entries@);
    }
}

/// Appends the rules of a list of top-level remap entries, defaulting an
/// absent mode attribute to `"default"`.
fn push_remap_rules_top(mappings: &mut Vec<Mapping>, entries: &Vec<RemapEntry>)
    requires
        forall|i: int| 0 <= i < old(mappings)@.len() ==> mapping_wf(#[trigger] old(mappings)@[i]),
    ensures
        rules_view(final(mappings)@) == rules_view(old(mappings)@) + entries@.map_values(
            |e: RemapEntry| remap_rule_model(e, Option::Some(remap_entry_mode(e))),
        ),
        forall|i: int| 0 <= i < final(mappings)@.len() ==> mapping_wf(
            #[trigger] final(mappings)@[i],
        ),
{
    let ghost base = mappings@;
    let ghost f = |e: RemapEntry| remap_rule_model(e, Option::Some(remap_entry_mode(e)));
    let mut i: usize = 0;
    while i < entries.len()
        invariant
            i <= entries.len(),
            f == (|e: RemapEntry| remap_rule_model(e, Option::Some(remap_entry_mode(e)))),
            rules_view(mappings@) == rules_view(base) + entries@.subrange(
                0,
                i as int,
            ).map_values(f),
            forall|j: int| 0 <= j < mappings@.len() ==> mapping_wf(#[trigger] mappings@[j]),
        decreases entries.len() - i,
    {
        let e = &entries[i];
        let resolved: Option<String> = match &e.mode {
            Some(m) => Some(m.clone()),
            None => Some("default".to_owned()),
        };
        proof {
            assert(resolved.deep_view() == Option::Some(remap_entry_mode(entries@[i as int])));
        }
        let m = Mapping::Remap {
            input: KeySet::from_vec(&e.input),
            output: KeySet::from_vec(&e.output),
            mode: resolved,
        };
        proof {
            assert(m@ == f(entries@[i as int]));
        }
        let ghost pre = mappings@;
        mappings.push(m);
        proof {
            assert(rules_view(mappings@) =~= rules_view(pre).push(f(entries@[i as int])));
            assert(entries@.subrange(0, i + 1 as int).map_values(f) =~= entries@.subrange(
                0,
                i as int,
            ).map_values(f).push(f(entries@[i as int])));
            assert(rules_view(mappings@) =~= rules_view(base) + entries@.subrange(
                0,
                i + 1 as int,
            ).map_values(f));
        }
        i += 1;
    }
    proof {
        assert(entries@.subrange(0, entries@.len() as int) =~= entries@);
    }
}

/// Appends the rules of a list of per-mode remap entries, all scoped to the
/// given section name.
fn push_remap_rules_scoped(mappings: &mut Vec<Mapping>, entries: &Vec<RemapEntry>, mode: &Option<
    String,
>)
    requires
        mode.is_some(),
        forall|i: int| 0 <= i < old(mappings)@.len() ==> mapping_wf(#[trigger] old(mappings)@[i]),
    ensures
        rules_view(final(mappings)@) == rules_view(old(mappings)@) + entries@.map_values(
            |e: RemapEntry| remap_rule_model(e, mode.deep_view()),
        ),
        forall|i: int| 0 <= i < final(mappings)@.len() ==> mapping_wf(
            #[trigger] final(mappings)@[i],
        ),
{
    let ghost base = mappings@;
    let ghost f = |e: RemapEntry| remap_rule_model(e, mode.deep_view());
    let mut i: usize = 0;
    while i < entries.len()
        invariant
            i <= entries.len(),
            f == (|e: RemapEntry| remap_rule_model(e, mode.deep_view())),
            rules_view(mappings@) == rules_view(base) + entries@.subrange(
                0,
                i as int,
            ).map_values(f),
            forall|j: int| 0 <= j < mappings@.len() ==> mapping_wf(#[trigger] mappings@[j]),
        decreases entries.len() - i,
    {
        let e = &entries[i];
        let m = Mapping::Remap {
            input: KeySet::from_vec(&e.input),
            output: KeySet::from_vec(&e.output),
            mode: clone_opt_string(mode),
        };
        proof {
            assert(m@ == f(entries@[i as int]));
        }
        let ghost pre = mappings@;
        mappings.push(m);
        proof {
            assert(rules_view(mappings@) =~= rules_view(pre).push(f(entries@[i as int])));
            assert(entries@.subrange(0, i + 1 as int).map_values(f) =~= entries@.subrange(
                0,
                i as int,
            ).map_values(f).push(f(entries@[i as int])));
            assert(rules_view(mappings@) =~= rules_view(base) + entries@.subrange(
                0,
                i + 1 as int,
            ).map_values(f));
        }
        i += 1;
    }
    proof {
        assert(entries@.subrange(0, entries@.len() as int) =~= entries@);
    }
}

/// Appends the rules of a list of mode-switch entries under one scope.
fn push_switch_rules(mappings: &mut Vec<Mapping>, entries: &Vec<SwitchEntry>, scope: &Option<
    String,
>)
    requires
        forall|i: int| 0 <= i < old(mappings)@.len() ==> mapping_wf(#[trigger] old(mappings)@[i]),
    ensures
        rules_view(final(mappings)@) == rules_view(old(mappings)@) + entries@.map_values(
            |e: SwitchEntry| switch_rule_model(e, scope.deep_view()),
        ),
        forall|i: int| 0 <= i < final(mappings)@.len() ==> mapping_wf(
            #[trigger] final(mappings)@[i],
        ),
{
    let ghost base = mappings@;
    let ghost f = |e: SwitchEntry| switch_rule_model(e, scope.deep_view());
    let mut i: usize = 0;
    while i < entries.len()
        invariant
            i <= entries.len(),
            f == (|e: SwitchEntry| switch_rule_model(e, scope.deep_view())),
            rules_view(mappings@) == rules_view(base) + entries@.subrange(
                0,
                i as int,
            ).map_values(f),
            forall|j: int| 0 <= j < mappings@.len() ==> mapping_wf(#[trigger] mappings@[j]),
        decreases entries.len() - i,
    {
        let e = &entries[i];
        let m = Mapping::ModeSwitch {
            input: KeySet::from_vec(&e.input),
            mode: e.mode.clone(),
            scope: clone_opt_string(scope),
        };
        proof {
            assert(m@ == f(entries@[i as int]));
        }
        let ghost pre = mappings@;
        mappings.push(m);
        proof {
            assert(rules_view(mappings@) =~= rules_view(pre).push(f(entries@[i as int])));
            assert(entries@.subrange(0, i + 1 as int).map_values(f) =~= entries@.subrange(
                0,
                i as int,
            ).map_values(f).push(f(entries@[i as int])));
            assert(rules_view(mappings@) =~= rules_view(base) + entries@.subrange(
                0,
                i + 1 as int,
            ).map_values(f));
        }
        i += 1;
    }
    proof {
        assert(entries@.subrange(0, entries@.len() as int) =~= entries@);
    }
}

/// The key codes one rule can produce.
pub open spec fn rule_outputs(r: RuleModel) -> Set<KeyCode> {
    match r {
        RuleModel::DualRole { hold, tap, .. } => hold.to_set().union(tap.to_set()),
        RuleModel::Remap { output, .. } => output,
        RuleModel::ModeSwitch { .. } => Set::empty(),
    }
}

/// Every key code any rule of the list can produce.
pub open spec fn declared_outputs(rules: Seq<RuleModel>) -> Set<KeyCode>
    decreases rules.len(),
{
    if rules.len() == 0 {
        Set::empty()
    } else {
        declared_outputs(rules.drop_last()).union(rule_outputs(rules.last()))
    }
}

/// The key codes the virtual output device must be able to emit: the union
/// of `hold` and `tap` over dual-role rules and `output` over remaps.
pub fn declared_output_keys(mappings: &Vec<Mapping>) -> (r: KeySet)
    ensures
        r.wf(),
        r@ == declared_outputs(rules_view(mappings@)),
{
    let mut r = KeySet::new();
    let mut i: usize = 0;
    while i < mappings.len()
        invariant
            i <= mappings.len(),
            r.wf(),
            r@ == declared_outputs(rules_view(mappings@.subrange(0, i as int))),
        decreases mappings.len() - i,
    {
        match &mappings[i] {
            Mapping::DualRole { hold, tap, .. } => {
                r.insert_vec(hold);
                r.insert_vec(tap);
            },
            Mapping::Remap { output, .. } => {
                r.insert_set(output);
            },
            Mapping::ModeSwitch { .. } => {},
        }
        proof {
            let pre = rules_view(mappings@.subrange(0, i as int));
            let cur = rules_view(mappings@.subrange(0, i + 1 as int));
            assert(cur.drop_last() =~= pre);
            assert(cur.last() == mappings@[i as int]@);
            assert(r@ =~= declared_outputs(pre).union(rule_outputs(mappings@[i as int]@)));
        }
        i += 1;
    }
    proof {
        assert(mappings@.subrange(0, mappings@.len() as int) =~= mappings@);
    }
    r
}

/// A rule model as the rule list produces it: a remap's output set is
/// exactly the set of its output sequence.
pub open spec fn rule_model_wf(r: RuleModel) -> bool {
    match r {
        RuleModel::Remap { output, output_seq, .. } => output == output_seq.to_set(),
        _ => true,
    }
}

/// Every rule model that a rule list denotes is well-formed.
pub proof fn lemma_rules_view_wf(s: Seq<Mapping>)
    ensures
        forall|i: int| 0 <= i < rules_view(s).len() ==> rule_model_wf(#[trigger] rules_view(s)[i]),
{
    assert forall|i: int| 0 <= i < rules_view(s).len() implies rule_model_wf(
        #[trigger] rules_view(s)[i],
    ) by {
        assert(rules_view(s)[i] == s[i]@);
    }
}

} // verus!
