//! The remapping engine: its state, the key-set projection, and rule lookup.

use crate::event::{spec_key_out, time_le, timeval_diff, Emitted, KeyEvent, KeyEventType, TimeVal};
use crate::keycode::{is_modifier, spec_is_modifier, KeyCode};
use crate::keyset::{copy_codes, KeyMap, KeySet};
use crate::mapping::{clone_opt_string, mapping_wf, mode_applicable, mode_matches, rules_view, Mapping, RuleModel};
use vstd::prelude::*;

verus! {

/// The kind of rule an active chord came from.
#[derive(Clone, Copy, Debug, PartialEq, Eq, Structural)]
pub enum ActiveKind {
    Remap,
    ModeSwitch,
    DualRole,
}

/// A chord that has fired and whose trigger keys are still held: a value
/// copy of the rule's input and output sets, its kind, and the mode
/// attribute it carried at activation.
#[derive(Debug)]
pub struct ActiveRemap {
    pub inputs: KeySet,
    pub outputs: KeySet,
    pub outputs_vec: Vec<KeyCode>,
    pub kind: ActiveKind,
    pub mode: Option<String>,
}

/// The mathematical model of an active chord.
pub ghost struct ChordModel {
    pub inputs: Set<KeyCode>,
    pub outputs: Set<KeyCode>,
    pub outputs_seq: Seq<KeyCode>,
    pub kind: ActiveKind,
    pub mode: Option<Seq<char>>,
}

impl View for ActiveRemap {
    type V = ChordModel;

    open spec fn view(&self) -> ChordModel {
        ChordModel {
            inputs: self.inputs@,
            outputs: self.outputs@,
            outputs_seq: self.outputs_vec@,
            kind: self.kind,
            mode: self.mode.deep_view(),
        }
    }
}

/// The models of a chord list, in activation order.
pub open spec fn chords_view(s: Seq<ActiveRemap>) -> Seq<ChordModel> {
    s.map_values(|c: ActiveRemap| c@)
}

/// The sets stored inside a chord are duplicate-free.
pub open spec fn chord_wf(c: ActiveRemap) -> bool {
    c.inputs.wf() && c.outputs.wf()
}

/// The mathematical model of the whole engine state.
pub ghost struct EngineModel {
    pub held: Map<KeyCode, TimeVal>,
    pub virtual_held: Set<KeyCode>,
    pub suppressed: Set<KeyCode>,
    pub chords: Seq<ChordModel>,
    pub tapping: Option<KeyCode>,
    pub mode: Option<Seq<char>>,
    pub rules: Seq<RuleModel>,
}

/// A chord the state may hold: trigger keys all held, at least one trigger
/// key, and the output set matching the output sequence.
pub open spec fn chord_inv(c: ChordModel, held: Set<KeyCode>) -> bool {
    &&& c.inputs.subset_of(held)
    &&& exists|k: KeyCode| c.inputs.contains(k)
    &&& c.outputs == c.outputs_seq.to_set()
}

/// The engine's state invariant over its model: suppressed keys are held,
/// every active chord is intact, and stored timestamps are well-formed.
pub open spec fn model_inv(m: EngineModel) -> bool {
    &&& m.suppressed.subset_of(m.held.dom())
    &&& forall|i: int| 0 <= i < m.chords.len() ==> chord_inv(#[trigger] m.chords[i], m.held.dom())
    &&& forall|k: KeyCode| #[trigger] m.held.dom().contains(k) ==> m.held[k].well_formed()
}

/// The remapping engine.
///
/// It holds the static rule list and the mutable state: the physically held
/// keys with their press timestamps, the keys reported pressed on the
/// virtual sink, the keys suppressed until physical release, the active
/// chords, the pending-tap slot, and the active mode.
pub struct RemapEngine {
    input_state: KeyMap,
    mappings: Vec<Mapping>,
    tapping: Option<KeyCode>,
    output_keys: KeySet,
    suppressed_until_released: KeySet,
    active_remaps: Vec<ActiveRemap>,
    active_mode: Option<String>,
}

impl View for RemapEngine {
    type V = EngineModel;

    closed spec fn view(&self) -> EngineModel {
        EngineModel {
            held: self.input_state@,
            virtual_held: self.output_keys@,
            suppressed: self.suppressed_until_released@,
            chords: chords_view(self.active_remaps@),
            tapping: self.tapping,
            mode: self.active_mode.deep_view(),
            rules: rules_view(self.mappings@),
        }
    }
}

impl RemapEngine {
    /// The representation invariant: duplicate-free stores and the model
    /// invariant.
    pub closed spec fn wf(&self) -> bool {
        &&& self.input_state.wf()
        &&& self.output_keys.wf()
        &&& self.suppressed_until_released.wf()
        &&& forall|i: int| 0 <= i < self.mappings@.len() ==> mapping_wf(
            #[trigger] self.mappings@[i],
        )
        &&& forall|i: int| 0 <= i < self.active_remaps@.len() ==> chord_wf(
            #[trigger] self.active_remaps@[i],
        )
        &&& model_inv(self@)
    }

    /// A fresh engine: empty state, active mode `"default"`.
    pub fn new(mappings: Vec<Mapping>) -> (r: RemapEngine)
        requires
            forall|i: int| 0 <= i < mappings@.len() ==> mapping_wf(#[trigger] mappings@[i]),
        ensures
            r.wf(),
            r@.held == Map::<KeyCode, TimeVal>::empty(),
            r@.virtual_held == Set::<KeyCode>::empty(),
            r@.suppressed == Set::<KeyCode>::empty(),
            r@.chords == Seq::<ChordModel>::empty(),
            r@.tapping == Option::<KeyCode>::None,
            r@.mode == Option::Some("default"@),
            r@.rules == rules_view(mappings@),
    {
        let r = RemapEngine {
            input_state: KeyMap::new(),
            output_keys: KeySet::new(),
            tapping: None,
            suppressed_until_released: KeySet::new(),
            active_remaps: Vec::new(),
            active_mode: Some("default".to_owned()),
            mappings,
        };
        proof {
            assert(chords_view(r.active_remaps@) =~= Seq::<ChordModel>::empty());
        }
        r
    }

    /// A well-formed engine satisfies the model invariant.
    pub proof fn lemma_wf_model_inv(&self)
        requires
            self.wf(),
        ensures
            model_inv(self@),
    {
    }

    /// Drops the pending-tap slot.
    fn cancel_pending_tap(&mut self)
        ensures
            final(self)@ == (EngineModel { tapping: Option::None, ..old(self)@ }),
            old(self).wf() ==> final(self).wf(),
    {
        self.tapping = None;
        proof {
            if old(self).wf() {
                assert(self.wf()) by {
                    assert(self@.held == old(self)@.held);
                    assert(self@.suppressed == old(self)@.suppressed);
                    assert(self@.chords == old(self)@.chords);
                }
            }
        }
    }

    /// Keeps only the suppressed keys that are still physically held.
    fn prune_suppressed_keys(&mut self)
        requires
            old(self).input_state.wf(),
            old(self).suppressed_until_released.wf(),
        ensures
            final(self)@ == (EngineModel {
                suppressed: old(self)@.suppressed.intersect(old(self)@.held.dom()),
                ..old(self)@
            }),
            final(self).input_state == old(self).input_state,
            final(self).output_keys == old(self).output_keys,
            final(self).mappings == old(self).mappings,
            final(self).active_remaps == old(self).active_remaps,
            final(self).suppressed_until_released.wf(),
    {
        let ghost base = self.suppressed_until_released@;
        let mut kept = KeySet::new();
        let n = self.suppressed_until_released.len();
        let mut i: usize = 0;
        while i < n
            invariant
                i <= n,
                n == self.suppressed_until_released.seq().len(),
                self.suppressed_until_released.wf(),
                self.input_state.wf(),
                kept.wf(),
                kept@ == self.suppressed_until_released.seq().subrange(0, i as int).to_set()
                    .intersect(self.input_state@.dom()),
                self == old(self),
            decreases n - i,
        {
            let k = self.suppressed_until_released.get(i);
            let ghost prefix = self.suppressed_until_released.seq().subrange(0, i as int);
            let ghost cur = self.suppressed_until_released.seq().subrange(0, i + 1 as int);
            if self.input_state.contains_key(k) {
                kept.insert(k);
            }
            proof {
                assert(cur.drop_last() =~= prefix);
                assert(cur.last() == self.suppressed_until_released.seq()[i as int]);
                assert forall|x: KeyCode| cur.to_set().contains(x) implies prefix.to_set().insert(
                    cur.last(),
                ).contains(x) by {
                    let j = choose|j: int| 0 <= j < cur.len() && cur[j] == x;
                    if j < i {
                        assert(prefix[j] == x);
                    }
                };
                assert forall|x: KeyCode| prefix.to_set().contains(x) implies cur.to_set()
                    .contains(x) by {
                    let j = choose|j: int| 0 <= j < prefix.len() && prefix[j] == x;
                    assert(cur[j] == x);
                };
                assert(cur.to_set().contains(cur.last()));
                assert(kept@ =~= cur.to_set().intersect(self.input_state@.dom()));
            }
            i += 1;
        }
        proof {
            let s = self.suppressed_until_released.seq();
            assert(s.subrange(0, s.len() as int) =~= s);
        }
        self.suppressed_until_released = kept;
        proof {
            assert(self@ =~= EngineModel {
                suppressed: base.intersect(old(self)@.held.dom()),
                ..old(self)@
            });
        }
    }
}

/// One dual-role projection step: an applicable dual-role rule whose trigger
/// is present replaces that trigger with its hold keys.
pub open spec fn dual_role_step(
    keys: Set<KeyCode>,
    r: RuleModel,
    active: Option<Seq<char>>,
) -> Set<KeyCode> {
    match r {
        RuleModel::DualRole { input, hold, mode, .. } => {
            if mode_applicable(mode, active) && keys.contains(input) {
                keys.remove(input).union(hold.to_set())
            } else {
                keys
            }
        },
        _ => keys,
    }
}

/// The dual-role projection steps folded over the rule list in order.
pub open spec fn dual_role_fold(
    rules: Seq<RuleModel>,
    keys: Set<KeyCode>,
    active: Option<Seq<char>>,
) -> Set<KeyCode>
    decreases rules.len(),
{
    if rules.len() == 0 {
        keys
    } else {
        dual_role_step(dual_role_fold(rules.drop_last(), keys, active), rules.last(), active)
    }
}

/// One chord projection step: an applicable active remap chord replaces its
/// trigger keys with its outputs.
pub open spec fn chord_step(
    keys: Set<KeyCode>,
    c: ChordModel,
    active: Option<Seq<char>>,
) -> Set<KeyCode> {
    if c.kind == ActiveKind::Remap && mode_applicable(c.mode, active) {
        keys.difference(c.inputs).union(c.outputs)
    } else {
        keys
    }
}

/// The chord projection steps folded over the active chords in order.
pub open spec fn chord_fold(
    chords: Seq<ChordModel>,
    keys: Set<KeyCode>,
    active: Option<Seq<char>>,
) -> Set<KeyCode>
    decreases chords.len(),
{
    if chords.len() == 0 {
        keys
    } else {
        chord_step(chord_fold(chords.drop_last(), keys, active), chords.last(), active)
    }
}

/// The set of keys the virtual device should report as held: the held keys
/// minus the suppressed ones, with applicable dual-role rules folded in,
/// then the active remap chords folded in.
pub open spec fn desired_set(m: EngineModel) -> Set<KeyCode> {
    chord_fold(
        m.chords,
        dual_role_fold(m.rules, m.held.dom().difference(m.suppressed), m.mode),
        m.mode,
    )
}

impl RemapEngine {
    /// Computes the desired virtual key set from the current state.
    ///
    /// The projection is a function of the state alone: it has no side
    /// effects, and two calls without an intervening state change return
    /// the same set.
    pub fn compute_keys(&self) -> (r: KeySet)
        requires
            self.wf(),
        ensures
            r.wf(),
            r@ == desired_set(self@),
    {
        let mut keys = self.input_state.key_set();
        keys.remove_set(&self.suppressed_until_released);
        let ghost base = self@.held.dom().difference(self@.suppressed);
        let mut i: usize = 0;
        while i < self.mappings.len()
            invariant
                i <= self.mappings.len(),
                self.wf(),
                keys.wf(),
                base == self@.held.dom().difference(self@.suppressed),
                keys@ == dual_role_fold(self@.rules.subrange(0, i as int), base, self@.mode),
            decreases self.mappings.len() - i,
        {
            let ghost pre = keys@;
            match &self.mappings[i] {
                Mapping::DualRole { input, hold, mode, .. } => {
                    if mode_matches(mode, &self.active_mode) && keys.contains(*input) {
                        keys.remove(*input);
                        keys.insert_vec(hold);
                    }
                },
                Mapping::Remap { .. } => {},
                Mapping::ModeSwitch { .. } => {},
            }
            proof {
                let rules = self@.rules;
                assert(rules.subrange(0, i + 1 as int).drop_last() =~= rules.subrange(0, i as int));
                assert(rules.subrange(0, i + 1 as int).last() == rules[i as int]);
                assert(rules[i as int] == self.mappings@[i as int]@);
                assert(keys@ == dual_role_step(pre, rules[i as int], self@.mode));
            }
            i += 1;
        }
        proof {
            assert(self@.rules.subrange(0, self@.rules.len() as int) =~= self@.rules);
        }
        let mut j: usize = 0;
        while j < self.active_remaps.len()
            invariant
                j <= self.active_remaps.len(),
                self.wf(),
                keys.wf(),
                keys@ == chord_fold(
                    self@.chords.subrange(0, j as int),
                    dual_role_fold(self@.rules, self@.held.dom().difference(self@.suppressed), self@.mode),
                    self@.mode,
                ),
            decreases self.active_remaps.len() - j,
        {
            let ghost pre = keys@;
            let ar = &self.active_remaps[j];
            if matches!(ar.kind, ActiveKind::Remap) && mode_matches(&ar.mode, &self.active_mode) {
                keys.remove_set(&ar.inputs);
                keys.insert_set(&ar.outputs);
            }
            proof {
                let chords = self@.chords;
                assert(chords.subrange(0, j + 1 as int).drop_last() =~= chords.subrange(
                    0,
                    j as int,
                ));
                assert(chords.subrange(0, j + 1 as int).last() == chords[j as int]);
                assert(chords[j as int] == self.active_remaps@[j as int]@);
                assert(keys@ == chord_step(pre, chords[j as int], self@.mode));
            }
            j += 1;
        }
        proof {
            assert(self@.chords.subrange(0, self@.chords.len() as int) =~= self@.chords);
        }
        keys
    }
}

/// Whether a rule is an applicable dual-role rule for the incoming code.
pub open spec fn dual_candidate(r: RuleModel, code: KeyCode, active: Option<Seq<char>>) -> bool {
    match r {
        RuleModel::DualRole { input, mode, .. } => mode_applicable(mode, active) && input == code,
        _ => false,
    }
}

/// Whether a rule is a candidate chord for the incoming code: the code is
/// one of its trigger keys, every other trigger key is held, and its mode
/// or scope attribute admits the active mode.
pub open spec fn chord_candidate(
    r: RuleModel,
    code: KeyCode,
    held: Set<KeyCode>,
    active: Option<Seq<char>>,
) -> bool {
    match r {
        RuleModel::Remap { input, mode, .. } => {
            &&& input.contains(code)
            &&& mode_applicable(mode, active)
            &&& forall|k: KeyCode| #[trigger] input.contains(k) ==> k == code || held.contains(k)
        },
        RuleModel::ModeSwitch { input, scope, .. } => {
            &&& input.contains(code)
            &&& mode_applicable(scope, active)
            &&& forall|k: KeyCode| #[trigger] input.contains(k) ==> k == code || held.contains(k)
        },
        _ => false,
    }
}

/// The chord length a candidate competes with: the size of its trigger set.
pub open spec fn cand_len(r: RuleModel) -> nat {
    match r {
        RuleModel::Remap { input, .. } => input.len(),
        RuleModel::ModeSwitch { input, .. } => input.len(),
        RuleModel::DualRole { .. } => 0,
    }
}

/// The tie-break priority: a mode switch beats a remap of the same length.
pub open spec fn cand_pri(r: RuleModel) -> int {
    match r {
        RuleModel::ModeSwitch { .. } => 1,
        _ => 0,
    }
}

/// Whether candidate `a` strictly beats candidate `b` under the precedence
/// order: longer chord first, then mode switch over remap.
pub open spec fn chord_better(a: RuleModel, b: RuleModel) -> bool {
    cand_len(a) > cand_len(b) || (cand_len(a) == cand_len(b) && cand_pri(a) > cand_pri(b))
}

/// The first applicable dual-role rule at or after position `i`.
pub open spec fn first_dual_from(
    rules: Seq<RuleModel>,
    code: KeyCode,
    active: Option<Seq<char>>,
    i: int,
) -> Option<int>
    decreases rules.len() - i,
{
    if i < 0 || i >= rules.len() {
        Option::None
    } else if dual_candidate(rules[i], code, active) {
        Option::Some(i)
    } else {
        first_dual_from(rules, code, active, i + 1)
    }
}

/// The best candidate chord among the first `n` rules: the largest trigger
/// set wins, a mode switch beats a remap on a size tie, and remaining ties
/// go to the earlier rule.
pub open spec fn best_chord_upto(
    rules: Seq<RuleModel>,
    code: KeyCode,
    held: Set<KeyCode>,
    active: Option<Seq<char>>,
    n: int,
) -> Option<int>
    decreases n,
{
    if n <= 0 {
        Option::None
    } else {
        let prev = best_chord_upto(rules, code, held, active, n - 1);
        if !chord_candidate(rules[n - 1], code, held, active) {
            prev
        } else {
            match prev {
                Option::None => Option::Some(n - 1),
                Option::Some(j) => if chord_better(rules[n - 1], rules[j]) {
                    Option::Some(n - 1)
                } else {
                    Option::Some(j)
                },
            }
        }
    }
}

/// The rule selected for an incoming press or repeat of `code`: an
/// applicable dual-role rule takes absolute precedence; otherwise the best
/// candidate chord.
pub open spec fn lookup_rule(
    rules: Seq<RuleModel>,
    code: KeyCode,
    held: Set<KeyCode>,
    active: Option<Seq<char>>,
) -> Option<int> {
    match first_dual_from(rules, code, active, 0) {
        Option::Some(d) => Option::Some(d),
        Option::None => best_chord_upto(rules, code, held, active, rules.len() as int),
    }
}

/// Scanning from the start equals scanning from `i` when no prefix rule is
/// an applicable dual-role rule.
proof fn lemma_first_dual_skip(
    rules: Seq<RuleModel>,
    code: KeyCode,
    active: Option<Seq<char>>,
    i: int,
)
    requires
        0 <= i <= rules.len(),
        forall|j: int| 0 <= j < i ==> !dual_candidate(#[trigger] rules[j], code, active),
    ensures
        first_dual_from(rules, code, active, 0) == first_dual_from(rules, code, active, i),
    decreases i,
{
    if i > 0 {
        lemma_first_dual_skip(rules, code, active, i - 1);
    }
}

/// The best candidate among the first `n` rules is a candidate, none
/// before it beats it, and none before it matches it: it is the earliest
/// maximal candidate of the prefix.
proof fn lemma_best_chord_props(
    rules: Seq<RuleModel>,
    code: KeyCode,
    held: Set<KeyCode>,
    active: Option<Seq<char>>,
    n: int,
)
    requires
        0 <= n <= rules.len(),
    ensures
        match best_chord_upto(rules, code, held, active, n) {
            Option::Some(b) => {
                &&& 0 <= b < n
                &&& chord_candidate(rules[b], code, held, active)
                &&& forall|j: int|
                    0 <= j < n && chord_candidate(#[trigger] rules[j], code, held, active)
                        ==> !chord_better(rules[j], rules[b])
                &&& forall|j: int|
                    0 <= j < b && chord_candidate(#[trigger] rules[j], code, held, active)
                        ==> chord_better(rules[b], rules[j])
            },
            Option::None => forall|j: int|
                0 <= j < n ==> !chord_candidate(#[trigger] rules[j], code, held, active),
        },
    decreases n,
{
    if n > 0 {
        lemma_best_chord_props(rules, code, held, active, n - 1);
    }
}

impl RemapEngine {
    /// The first applicable dual-role rule whose trigger is `code`.
    pub fn lookup_dual_role_index(&self, code: KeyCode) -> (r: Option<usize>)
        requires
            self.wf(),
        ensures
            match r {
                Option::Some(idx) => idx < self@.rules.len() && first_dual_from(
                    self@.rules,
                    code,
                    self@.mode,
                    0,
                ) == Option::Some(idx as int),
                Option::None => first_dual_from(self@.rules, code, self@.mode, 0)
                    is None,
            },
    {
        let ghost rules = self@.rules;
        let mut i: usize = 0;
        while i < self.mappings.len()
            invariant
                i <= self.mappings.len(),
                self.wf(),
                rules == self@.rules,
                forall|j: int| 0 <= j < i ==> !dual_candidate(#[trigger] rules[j], code, self@.mode),
            decreases self.mappings.len() - i,
        {
            match &self.mappings[i] {
                Mapping::DualRole { input, mode, .. } => {
                    if mode_matches(mode, &self.active_mode) && *input == code {
                        proof {
                            assert(rules[i as int] == self.mappings@[i as int]@);
                            assert(dual_candidate(rules[i as int], code, self@.mode));
                            lemma_first_dual_skip(rules, code, self@.mode, i as int);
                        }
                        return Some(i);
                    }
                },
                Mapping::Remap { .. } => {},
                Mapping::ModeSwitch { .. } => {},
            }
            proof {
                assert(rules[i as int] == self.mappings@[i as int]@);
                assert(!dual_candidate(rules[i as int], code, self@.mode));
            }
            i += 1;
        }
        proof {
            lemma_first_dual_skip(rules, code, self@.mode, rules.len() as int);
        }
        None
    }
}

/// Whether `code` is in the trigger set and every other trigger key is in
/// the held map.
fn input_satisfied(held: &KeyMap, input: &KeySet, code: KeyCode) -> (r: bool)
    requires
        held.wf(),
        input.wf(),
    ensures
        r == (input@.contains(code) && forall|k: KeyCode| #[trigger] input@.contains(k) ==> k
            == code || held@.dom().contains(k)),
{
    let n = input.len();
    let mut code_matched = false;
    let mut i: usize = 0;
    while i < n
        invariant
            i <= n,
            n == input.seq().len(),
            held.wf(),
            input.wf(),
            code_matched == input.seq().subrange(0, i as int).contains(code),
            forall|j: int| 0 <= j < i && input.seq()[j] != code ==> held@.dom().contains(
                #[trigger] input.seq()[j],
            ),
        decreases n - i,
    {
        let k = input.get(i);
        let ghost prefix = input.seq().subrange(0, i as int);
        let ghost cur = input.seq().subrange(0, i + 1 as int);
        if k == code {
            code_matched = true;
        } else if !held.contains_key(k) {
            proof {
                assert(input.seq().contains(k));
                assert(input@.contains(k));
            }
            return false;
        }
        proof {
            assert(cur.drop_last() =~= prefix);
            if code_matched {
                if k == code {
                    assert(cur[i as int] == code);
                    assert(cur.contains(code));
                } else {
                    let j = choose|j: int| 0 <= j < prefix.len() && prefix[j] == code;
                    assert(cur[j] == code);
                    assert(cur.contains(code));
                }
            } else {
                assert forall|j: int| 0 <= j < cur.len() implies cur[j] != code by {
                    if j < i {
                        assert(prefix[j] != code);
                    }
                }
            }
        }
        i += 1;
    }
    proof {
        let s = input.seq();
        assert(s.subrange(0, s.len() as int) =~= s);
        if code_matched {
            assert(input@.contains(code));
        } else {
            assert(!input@.contains(code)) by {
                if input@.contains(code) {
                    let j = choose|j: int| 0 <= j < s.len() && s[j] == code;
                    assert(s.subrange(0, s.len() as int)[j] == code);
                }
            }
        }
        assert forall|k: KeyCode| #[trigger] input@.contains(k) && k != code implies held@.dom()
            .contains(k) by {
            let j = choose|j: int| 0 <= j < s.len() && s[j] == k;
        };
    }
    code_matched
}

impl RemapEngine {
    /// Selects the rule for an incoming `code` under the precedence order:
    /// an applicable dual-role rule for `code` wins outright; otherwise the
    /// candidate chord with the largest trigger set, a mode switch beating
    /// a remap on a size tie, and remaining ties going to the earlier rule.
    pub fn lookup_mapping_index(&self, code: KeyCode) -> (r: Option<usize>)
        requires
            self.wf(),
        ensures
            ({
                let s = lookup_rule(self@.rules, code, self@.held.dom(), self@.mode);
                match r {
                    Option::Some(idx) => idx < self@.rules.len() && s == Option::Some(idx as int),
                    Option::None => s is None,
                }
            }),
    {
        let ghost rules = self@.rules;
        let ghost held = self@.held.dom();
        let ghost active = self@.mode;
        let mut best_idx: Option<usize> = None;
        let mut best_len: usize = 0;
        let mut best_pri: u8 = 0;
        let mut i: usize = 0;
        while i < self.mappings.len()
            invariant
                i <= self.mappings.len(),
                self.wf(),
                rules == self@.rules,
                held == self@.held.dom(),
                active == self@.mode,
                forall|j: int| 0 <= j < i ==> !dual_candidate(#[trigger] rules[j], code, active),
                match best_idx {
                    Option::Some(b) => {
                        &&& b < i
                        &&& best_chord_upto(rules, code, held, active, i as int) == Option::Some(
                            b as int,
                        )
                        &&& best_len == cand_len(rules[b as int])
                        &&& best_pri == cand_pri(rules[b as int])
                    },
                    Option::None => best_chord_upto(rules, code, held, active, i as int)
                        is None,
                },
            decreases self.mappings.len() - i,
        {
            let ghost pre_best = best_chord_upto(rules, code, held, active, i as int);
            match &self.mappings[i] {
                Mapping::DualRole { input, mode, .. } => {
                    if mode_matches(mode, &self.active_mode) && *input == code {
                        proof {
                            assert(rules[i as int] == self.mappings@[i as int]@);
                            assert(dual_candidate(rules[i as int], code, active));
                            lemma_first_dual_skip(rules, code, active, i as int);
                        }
                        return Some(i);
                    }
                    proof {
                        assert(rules[i as int] == self.mappings@[i as int]@);
                        assert(!chord_candidate(rules[i as int], code, held, active));
                        assert(best_chord_upto(rules, code, held, active, i + 1 as int)
                            == pre_best);
                    }
                },
                Mapping::Remap { input, mode, .. } => {
                    let cond = input_satisfied(&self.input_state, input, code) && mode_matches(
                        mode,
                        &self.active_mode,
                    );
                    proof {
                        assert(rules[i as int] == self.mappings@[i as int]@);
                        assert(cond == chord_candidate(rules[i as int], code, held, active));
                        assert(!dual_candidate(rules[i as int], code, active));
                    }
                    if cond {
                        let cand_size = input.len();
                        proof {
                            assert(cand_size == cand_len(rules[i as int]));
                            assert(0 == cand_pri(rules[i as int]));
                        }
                        if best_idx.is_none() || cand_size > best_len || (cand_size == best_len
                            && 0 > best_pri) {
                            best_idx = Some(i);
                            best_len = cand_size;
                            best_pri = 0;
                        }
                        proof {
                            assert(best_chord_upto(rules, code, held, active, i + 1 as int)
                                == Option::Some(best_idx.unwrap() as int));
                        }
                    }
                },
                Mapping::ModeSwitch { input, scope, .. } => {
                    let cond = input_satisfied(&self.input_state, input, code) && mode_matches(
                        scope,
                        &self.active_mode,
                    );
                    proof {
                        assert(rules[i as int] == self.mappings@[i as int]@);
                        assert(cond == chord_candidate(rules[i as int], code, held, active));
                        assert(!dual_candidate(rules[i as int], code, active));
                    }
                    if cond {
                        let cand_size = input.len();
                        proof {
                            assert(cand_size == cand_len(rules[i as int]));
                            assert(1 == cand_pri(rules[i as int]));
                        }
                        if best_idx.is_none() || cand_size > best_len || (cand_size == best_len
                            && 1 > best_pri) {
                            best_idx = Some(i);
                            best_len = cand_size;
                            best_pri = 1;
                        }
                        proof {
                            assert(best_chord_upto(rules, code, held, active, i + 1 as int)
                                == Option::Some(best_idx.unwrap() as int));
                        }
                    }
                },
            }
            i += 1;
        }
        proof {
            lemma_first_dual_skip(rules, code, active, rules.len() as int);
        }
        best_idx
    }
}

/// The events one emission writes: one key event per code, in order, with
/// one phase and one timestamp, closed by a single sync.
pub open spec fn keys_emission(keys: Seq<KeyCode>, phase: KeyEventType, t: TimeVal) -> Seq<
    Emitted,
> {
    keys.map_values(|k: KeyCode| spec_key_out(k, phase, t)).push(Emitted::Sync(t))
}

/// How one written event changes the virtual-held set: a press or repeat
/// adds its code, a release removes it, anything else leaves it unchanged.
pub open spec fn emit_step(v: Set<KeyCode>, e: Emitted) -> Set<KeyCode> {
    match e {
        Emitted::Key(ev) => match KeyEventType::spec_from_value(ev.value) {
            KeyEventType::Press => v.insert(ev.code),
            KeyEventType::Repeat => v.insert(ev.code),
            KeyEventType::Release => v.remove(ev.code),
            KeyEventType::Unknown(_) => v,
        },
        Emitted::Sync(_) => v,
    }
}

/// The virtual-held set after writing a sequence of events, in order.
pub open spec fn apply_emitted(v: Set<KeyCode>, out: Seq<Emitted>) -> Set<KeyCode>
    decreases out.len(),
{
    if out.len() == 0 {
        v
    } else {
        emit_step(apply_emitted(v, out.drop_last()), out.last())
    }
}

/// Writing a concatenation is writing the two parts in turn.
pub proof fn lemma_apply_emitted_append(v: Set<KeyCode>, a: Seq<Emitted>, b: Seq<Emitted>)
    ensures
        apply_emitted(v, a + b) == apply_emitted(apply_emitted(v, a), b),
    decreases b.len(),
{
    if b.len() == 0 {
        assert(a + b =~= a);
    } else {
        lemma_apply_emitted_append(v, a, b.drop_last());
        assert((a + b).drop_last() =~= a + b.drop_last());
        assert((a + b).last() == b.last());
    }
}

/// What one whole emission does to the virtual-held set: presses and
/// repeats add the emitted codes, releases remove them.
pub proof fn lemma_apply_keys_emission(
    v: Set<KeyCode>,
    keys: Seq<KeyCode>,
    phase: KeyEventType,
    t: TimeVal,
)
    requires
        phase == KeyEventType::Press || phase == KeyEventType::Release || phase
            == KeyEventType::Repeat,
    ensures
        apply_emitted(v, keys_emission(keys, phase, t)) == (if phase == KeyEventType::Release {
            v.difference(keys.to_set())
        } else {
            v.union(keys.to_set())
        }),
    decreases keys.len(),
{
    let out = keys_emission(keys, phase, t);
    assert(out.last() == Emitted::Sync(t));
    assert(out.drop_last() =~= keys.map_values(|k: KeyCode| spec_key_out(k, phase, t)));
    if keys.len() == 0 {
        assert(out.drop_last().len() == 0);
        assert(apply_emitted(v, out.drop_last()) == v);
        assert(apply_emitted(v, out) == v);
        if phase == KeyEventType::Release {
            assert(v.difference(keys.to_set()) =~= v) by {
                assert(forall|x: KeyCode| !keys.contains(x));
            }
        } else {
            assert(v.union(keys.to_set()) =~= v) by {
                assert(forall|x: KeyCode| !keys.contains(x));
            }
        }
    } else {
        lemma_apply_keys_emission(v, keys.drop_last(), phase, t);
        let body = keys.map_values(|k: KeyCode| spec_key_out(k, phase, t));
        let prev_body = keys.drop_last().map_values(|k: KeyCode| spec_key_out(k, phase, t));
        assert(body.drop_last() =~= prev_body);
        assert(body.last() == spec_key_out(keys.last(), phase, t));
        let prev_out = keys_emission(keys.drop_last(), phase, t);
        assert(prev_out.last() == Emitted::Sync(t));
        assert(prev_out.drop_last() =~= prev_body);
        assert(apply_emitted(v, prev_out) == apply_emitted(v, prev_body));
        assert(apply_emitted(v, out) == apply_emitted(v, body));
        assert(apply_emitted(v, body) == emit_step(apply_emitted(v, prev_body), body.last()));
        assert(KeyEventType::spec_from_value(phase.spec_value()) == phase);
        if phase == KeyEventType::Release {
            assert(apply_emitted(v, out) == apply_emitted(v, prev_out).remove(keys.last()));
            assert(v.difference(keys.drop_last().to_set()).remove(keys.last()) =~= v.difference(
                keys.to_set(),
            )) by {
                assert forall|x: KeyCode|
                    keys.to_set().contains(x) implies keys.drop_last().to_set().insert(
                    keys.last(),
                ).contains(x) by {
                    let j = choose|j: int| 0 <= j < keys.len() && keys[j] == x;
                    if j < keys.len() - 1 {
                        assert(keys.drop_last()[j] == x);
                    }
                };
                assert forall|x: KeyCode|
                    keys.drop_last().to_set().contains(x) implies keys.to_set().contains(x) by {
                    let j = choose|j: int|
                        0 <= j < keys.drop_last().len() && keys.drop_last()[j] == x;
                    assert(keys[j] == x);
                };
                assert(keys.to_set().contains(keys.last()));
            }
        } else {
            assert(apply_emitted(v, out) == apply_emitted(v, prev_out).insert(keys.last()));
            assert(v.union(keys.drop_last().to_set()).insert(keys.last()) =~= v.union(
                keys.to_set(),
            )) by {
                assert forall|x: KeyCode|
                    keys.to_set().contains(x) implies keys.drop_last().to_set().insert(
                    keys.last(),
                ).contains(x) by {
                    let j = choose|j: int| 0 <= j < keys.len() && keys[j] == x;
                    if j < keys.len() - 1 {
                        assert(keys.drop_last()[j] == x);
                    }
                };
                assert forall|x: KeyCode|
                    keys.drop_last().to_set().contains(x) implies keys.to_set().contains(x) by {
                    let j = choose|j: int|
                        0 <= j < keys.drop_last().len() && keys.drop_last()[j] == x;
                    assert(keys[j] == x);
                };
                assert(keys.to_set().contains(keys.last()));
            }
        }
    }
}

/// No modifier stands before a non-modifier.
pub open spec fn mods_last_sorted(s: Seq<KeyCode>) -> bool {
    forall|i: int, j: int|
        0 <= i < j < s.len() ==> !(spec_is_modifier(#[trigger] s[i]) && !spec_is_modifier(
            #[trigger] s[j],
        ))
}

/// No non-modifier stands before a modifier.
pub open spec fn mods_first_sorted(s: Seq<KeyCode>) -> bool {
    forall|i: int, j: int|
        0 <= i < j < s.len() ==> !(!spec_is_modifier(#[trigger] s[i]) && spec_is_modifier(
            #[trigger] s[j],
        ))
}

/// The emitted events of one reconciliation, named by its two orderings:
/// the releases (the keys no longer desired, modifiers last), then the
/// presses (the newly desired keys, modifiers first), each group closed by
/// one sync, and either group absent when empty.
pub open spec fn diff_emission_parts(
    out: Seq<Emitted>,
    before: Set<KeyCode>,
    desired: Set<KeyCode>,
    t: TimeVal,
    rel: Seq<KeyCode>,
    prs: Seq<KeyCode>,
) -> bool {
    &&& rel.no_duplicates()
    &&& rel.to_set() == before.difference(desired)
    &&& mods_last_sorted(rel)
    &&& prs.no_duplicates()
    &&& prs.to_set() == desired.difference(before)
    &&& mods_first_sorted(prs)
    &&& out == (if rel.len() > 0 {
        keys_emission(rel, KeyEventType::Release, t)
    } else {
        Seq::<Emitted>::empty()
    }) + (if prs.len() > 0 {
        keys_emission(prs, KeyEventType::Press, t)
    } else {
        Seq::<Emitted>::empty()
    })
}

/// Whether `out` is a reconciliation of `before` toward `desired`.
pub open spec fn is_diff_emission(
    out: Seq<Emitted>,
    before: Set<KeyCode>,
    desired: Set<KeyCode>,
    t: TimeVal,
) -> bool {
    exists|rel: Seq<KeyCode>, prs: Seq<KeyCode>|
        #[trigger] diff_emission_parts(out, before, desired, t, rel, prs)
}

/// Appends the elements of `a` that are not in `b` and whose modifier
/// class matches `want_mod`, in stored order.
fn collect_diff(a: &KeySet, b: &KeySet, want_mod: bool, r: &mut Vec<KeyCode>)
    requires
        a.wf(),
        old(r)@.no_duplicates(),
        forall|l: int| 0 <= l < old(r)@.len() ==> spec_is_modifier(#[trigger] old(r)@[l])
            != want_mod,
    ensures
        final(r)@.subrange(0, old(r)@.len() as int) == old(r)@,
        final(r)@.len() >= old(r)@.len(),
        final(r)@.no_duplicates(),
        forall|l: int| old(r)@.len() <= l < final(r)@.len() ==> {
            &&& a@.contains(#[trigger] final(r)@[l])
            &&& !b@.contains(final(r)@[l])
            &&& spec_is_modifier(final(r)@[l]) == want_mod
        },
        forall|k: KeyCode| a@.contains(k) && !b@.contains(k) && spec_is_modifier(k) == want_mod
            ==> final(r)@.contains(k),
{
    let ghost base = r@;
    let n = a.len();
    let mut i: usize = 0;
    while i < n
        invariant
            i <= n,
            n == a.seq().len(),
            a.wf(),
            base.no_duplicates(),
            forall|l: int| 0 <= l < base.len() ==> spec_is_modifier(#[trigger] base[l])
                != want_mod,
            r@.len() >= base.len(),
            r@.subrange(0, base.len() as int) == base,
            r@.no_duplicates(),
            forall|l: int| base.len() <= l < r@.len() ==> {
                &&& a@.contains(#[trigger] r@[l])
                &&& !b@.contains(r@[l])
                &&& spec_is_modifier(r@[l]) == want_mod
                &&& a.seq().subrange(0, i as int).contains(r@[l])
            },
            forall|j: int| 0 <= j < i && !b@.contains(#[trigger] a.seq()[j]) && spec_is_modifier(
                a.seq()[j],
            ) == want_mod ==> r@.contains(a.seq()[j]),
        decreases n - i,
    {
        let k = a.get(i);
        let matches_class = if want_mod {
            is_modifier(&k)
        } else {
            !is_modifier(&k)
        };
        let ghost pre = r@;
        if matches_class && !b.contains(k) {
            proof {
                assert(!pre.contains(k)) by {
                    if pre.contains(k) {
                        let l = choose|l: int| 0 <= l < pre.len() && pre[l] == k;
                        if l < base.len() {
                            assert(base[l] == k);
                        } else {
                            let s = a.seq().subrange(0, i as int);
                            assert(s.contains(k));
                            let j = choose|j: int| 0 <= j < s.len() && s[j] == k;
                            assert(a.seq()[j] == a.seq()[i as int]);
                        }
                    }
                }
            }
            r.push(k);
            proof {
                assert(r@.subrange(0, base.len() as int) =~= base);
                assert forall|l: int, l2: int|
                    0 <= l < r@.len() && 0 <= l2 < r@.len() && l != l2 implies r@[l] != r@[l2] by {
                    if l < pre.len() && l2 < pre.len() {
                        assert(pre[l] != pre[l2]);
                    } else if l < pre.len() {
                        assert(!pre.contains(k));
                        if pre[l] == k {
                            assert(pre.contains(k));
                        }
                    } else if l2 < pre.len() {
                        if pre[l2] == k {
                            assert(pre.contains(k));
                        }
                    }
                }
                assert(a.seq().contains(k));
            }
        }
        proof {
            let sp = a.seq().subrange(0, i as int);
            let sc = a.seq().subrange(0, i + 1 as int);
            assert(sc.drop_last() =~= sp);
            assert(sc.last() == a.seq()[i as int]);
            assert forall|l: int| base.len() <= l < r@.len() implies sc.contains(
                #[trigger] r@[l],
            ) by {
                if l < pre.len() {
                    assert(sp.contains(pre[l]));
                    let j = choose|j: int| 0 <= j < sp.len() && sp[j] == pre[l];
                    assert(sc[j] == r@[l]);
                } else {
                    assert(r@[l] == a.seq()[i as int]);
                    assert(sc[i as int] == a.seq()[i as int]);
                }
            }
            assert forall|j: int|
                0 <= j < i + 1 && !b@.contains(#[trigger] a.seq()[j]) && spec_is_modifier(
                    a.seq()[j],
                ) == want_mod implies r@.contains(a.seq()[j]) by {
                if j < i {
                    assert(pre.contains(a.seq()[j]));
                    let l = choose|l: int| 0 <= l < pre.len() && pre[l] == a.seq()[j];
                    assert(r@[l] == a.seq()[j]);
                } else {
                    assert(r@[r@.len() - 1] == a.seq()[i as int]);
                }
            }
        }
        i += 1;
    }
    proof {
        assert forall|k: KeyCode|
            a@.contains(k) && !b@.contains(k) && spec_is_modifier(k) == want_mod implies r@
            .contains(k) by {
            let j = choose|j: int| 0 <= j < a.seq().len() && a.seq()[j] == k;
        };
    }
}

/// The elements of `a` not in `b`, one modifier class before the other:
/// modifiers first when `mods_first` is set, else modifiers last.
fn partitioned_diff(a: &KeySet, b: &KeySet, mods_first: bool) -> (r: Vec<KeyCode>)
    requires
        a.wf(),
    ensures
        r@.no_duplicates(),
        r@.to_set() == a@.difference(b@),
        mods_first ==> mods_first_sorted(r@),
        !mods_first ==> mods_last_sorted(r@),
{
    let mut r: Vec<KeyCode> = Vec::new();
    collect_diff(a, b, mods_first, &mut r);
    let ghost mid = r@;
    collect_diff(a, b, !mods_first, &mut r);
    proof {
        assert(r@.subrange(0, mid.len() as int) == mid);
        assert forall|l: int| 0 <= l < mid.len() implies {
            &&& a@.contains(#[trigger] r@[l])
            &&& !b@.contains(r@[l])
            &&& spec_is_modifier(r@[l]) == mods_first
        } by {
            assert(r@[l] == mid[l]);
            assert(mid.subrange(0, 0) == Seq::<KeyCode>::empty());
        }
        assert(r@.to_set() =~= a@.difference(b@)) by {
            assert forall|k: KeyCode| r@.to_set().contains(k) implies a@.difference(b@).contains(
                k,
            ) by {
                let l = choose|l: int| 0 <= l < r@.len() && r@[l] == k;
            };
            assert forall|k: KeyCode| a@.difference(b@).contains(k) implies r@.to_set().contains(
                k,
            ) by {
                if spec_is_modifier(k) == mods_first {
                    assert(mid.contains(k));
                    let l = choose|l: int| 0 <= l < mid.len() && mid[l] == k;
                    assert(r@[l] == k);
                } else {
                    assert(r@.contains(k));
                }
            };
        }
        if mods_first {
            assert(mods_first_sorted(r@)) by {
                assert forall|i: int, j: int| 0 <= i < j < r@.len() implies !(!spec_is_modifier(
                    r@[i],
                ) && spec_is_modifier(r@[j])) by {
                    if i < mid.len() {
                        assert(spec_is_modifier(r@[i]));
                    } else {
                        assert(!spec_is_modifier(r@[j]));
                    }
                }
            }
        } else {
            assert(mods_last_sorted(r@)) by {
                assert forall|i: int, j: int| 0 <= i < j < r@.len() implies !(spec_is_modifier(
                    r@[i],
                ) && !spec_is_modifier(r@[j])) by {
                    if i < mid.len() {
                        assert(!spec_is_modifier(r@[i]));
                    } else {
                        assert(spec_is_modifier(r@[j]));
                    }
                }
            }
        }
    }
    r
}

impl RemapEngine {
    /// Writes one key event per code with the given phase, in order, then
    /// one sync; each write updates the virtual-held set.
    fn emit_keys(
        &mut self,
        out: &mut Vec<Emitted>,
        keys: &Vec<KeyCode>,
        time: &TimeVal,
        event_type: KeyEventType,
    )
        requires
            old(self).output_keys.wf(),
            event_type == KeyEventType::Press || event_type == KeyEventType::Release || event_type
                == KeyEventType::Repeat,
        ensures
            final(out)@ == old(out)@ + keys_emission(keys@, event_type, *time),
            final(self)@ == (EngineModel {
                virtual_held: if event_type == KeyEventType::Release {
                    old(self)@.virtual_held.difference(keys@.to_set())
                } else {
                    old(self)@.virtual_held.union(keys@.to_set())
                },
                ..old(self)@
            }),
            final(self).output_keys.wf(),
            final(self).input_state == old(self).input_state,
            final(self).mappings == old(self).mappings,
            final(self).active_remaps == old(self).active_remaps,
            final(self).suppressed_until_released == old(self).suppressed_until_released,
            final(self).tapping == old(self).tapping,
            final(self).active_mode == old(self).active_mode,
    {
        let ghost out_base = out@;
        let ghost v_base = self.output_keys@;
        let value = event_type.value();
        let mut i: usize = 0;
        while i < keys.len()
            invariant
                i <= keys.len(),
                self.output_keys.wf(),
                value == event_type.spec_value(),
                event_type == KeyEventType::Press || event_type == KeyEventType::Release
                    || event_type == KeyEventType::Repeat,
                out@ == out_base + keys@.subrange(0, i as int).map_values(
                    |k: KeyCode| spec_key_out(k, event_type, *time),
                ),
                self.output_keys@ == (if event_type == KeyEventType::Release {
                    v_base.difference(keys@.subrange(0, i as int).to_set())
                } else {
                    v_base.union(keys@.subrange(0, i as int).to_set())
                }),
                self.input_state == old(self).input_state,
                self.mappings == old(self).mappings,
                self.active_remaps == old(self).active_remaps,
                self.suppressed_until_released == old(self).suppressed_until_released,
                self.tapping == old(self).tapping,
                self.active_mode == old(self).active_mode,
            decreases keys.len() - i,
        {
            let k = keys[i];
            let ghost out_pre = out@;
            out.push(Emitted::Key(KeyEvent { code: k, value, time: *time }));
            match event_type {
                KeyEventType::Release => {
                    self.output_keys.remove(k);
                },
                _ => {
                    self.output_keys.insert(k);
                },
            }
            proof {
                let f = |k: KeyCode| spec_key_out(k, event_type, *time);
                let sp = keys@.subrange(0, i as int);
                let sc = keys@.subrange(0, i + 1 as int);
                assert(sc.drop_last() =~= sp);
                assert(sc.last() == keys@[i as int]);
                assert(Emitted::Key(KeyEvent { code: k, value, time: *time }) == f(
                    keys@[i as int],
                ));
                assert(out@ =~= out_base + sc.map_values(f)) by {
                    assert(sc.map_values(f) =~= sp.map_values(f).push(f(keys@[i as int])));
                }
                assert forall|x: KeyCode| sc.to_set().contains(x) implies sp.to_set().insert(
                    keys@[i as int],
                ).contains(x) by {
                    let j = choose|j: int| 0 <= j < sc.len() && sc[j] == x;
                    if j < i {
                        assert(sp[j] == x);
                    }
                };
                assert forall|x: KeyCode| sp.to_set().contains(x) implies sc.to_set().contains(
                    x,
                ) by {
                    let j = choose|j: int| 0 <= j < sp.len() && sp[j] == x;
                    assert(sc[j] == x);
                };
                assert(sc.to_set().contains(keys@[i as int]));
                if event_type == KeyEventType::Release {
                    assert(self.output_keys@ =~= v_base.difference(sc.to_set()));
                } else {
                    assert(self.output_keys@ =~= v_base.union(sc.to_set()));
                }
            }
            i += 1;
        }
        out.push(Emitted::Sync(*time));
        proof {
            assert(keys@.subrange(0, keys@.len() as int) =~= keys@);
            assert(out@ =~= out_base + keys_emission(keys@, event_type, *time));
        }
    }

    /// Forwards one event to the sink verbatim, followed by one sync; the
    /// write updates the virtual-held set by the event's own phase.
    fn write_event_and_sync(&mut self, out: &mut Vec<Emitted>, event: &KeyEvent)
        requires
            old(self).output_keys.wf(),
        ensures
            final(out)@ == old(out)@ + seq![Emitted::Key(*event), Emitted::Sync(event.time)],
            final(self)@ == (EngineModel {
                virtual_held: emit_step(old(self)@.virtual_held, Emitted::Key(*event)),
                ..old(self)@
            }),
            final(self).output_keys.wf(),
            final(self).input_state == old(self).input_state,
            final(self).mappings == old(self).mappings,
            final(self).active_remaps == old(self).active_remaps,
            final(self).suppressed_until_released == old(self).suppressed_until_released,
            final(self).tapping == old(self).tapping,
            final(self).active_mode == old(self).active_mode,
    {
        out.push(Emitted::Key(*event));
        match KeyEventType::from_value(event.value) {
            KeyEventType::Press => self.output_keys.insert(event.code),
            KeyEventType::Repeat => self.output_keys.insert(event.code),
            KeyEventType::Release => self.output_keys.remove(event.code),
            KeyEventType::Unknown(_) => {},
        }
        out.push(Emitted::Sync(event.time));
        proof {
            assert(out@ =~= old(out)@ + seq![Emitted::Key(*event), Emitted::Sync(event.time)]);
        }
    }

    /// Reconciles the virtual-held set with the desired set: releases what
    /// is no longer desired (modifiers last), then presses what is newly
    /// desired (modifiers first), each group closed by one sync; an empty
    /// group emits nothing.
    fn compute_and_apply_keys(&mut self, out: &mut Vec<Emitted>, time: &TimeVal)
        requires
            old(self).wf(),
        ensures
            final(self).wf(),
            final(self)@ == (EngineModel {
                virtual_held: desired_set(old(self)@),
                ..old(self)@
            }),
            old(out)@.is_prefix_of(final(out)@),
            is_diff_emission(
                final(out)@.skip(old(out)@.len() as int),
                old(self)@.virtual_held,
                desired_set(old(self)@),
                *time,
            ),
            final(self).input_state == old(self).input_state,
            final(self).mappings == old(self).mappings,
            final(self).active_remaps == old(self).active_remaps,
            final(self).suppressed_until_released == old(self).suppressed_until_released,
            final(self).tapping == old(self).tapping,
            final(self).active_mode == old(self).active_mode,
    {
        let ghost out_base = out@;
        let ghost v0 = self.output_keys@;
        let ghost des = desired_set(self@);
        let desired = self.compute_keys();
        let to_release = partitioned_diff(&self.output_keys, &desired, false);
        let to_press = partitioned_diff(&desired, &self.output_keys, true);
        if to_release.len() > 0 {
            self.emit_keys(out, &to_release, time, KeyEventType::Release);
        }
        if to_press.len() > 0 {
            self.emit_keys(out, &to_press, time, KeyEventType::Press);
        }
        proof {
            let rel = to_release@;
            let prs = to_press@;
            let rel_out: Seq<Emitted> = if rel.len() > 0 {
                keys_emission(rel, KeyEventType::Release, *time)
            } else {
                Seq::<Emitted>::empty()
            };
            let prs_out: Seq<Emitted> = if prs.len() > 0 {
                keys_emission(prs, KeyEventType::Press, *time)
            } else {
                Seq::<Emitted>::empty()
            };
            assert(out@ =~= out_base + (rel_out + prs_out));
            assert(out@.skip(out_base.len() as int) =~= rel_out + prs_out);
            assert(diff_emission_parts(
                out@.skip(out_base.len() as int),
                v0,
                des,
                *time,
                rel,
                prs,
            ));
            let v1 = self.output_keys@;
            assert(v1 =~= des) by {
                if rel.len() > 0 {
                    if prs.len() > 0 {
                        assert(v1 == v0.difference(rel.to_set()).union(prs.to_set()));
                    } else {
                        assert(v1 == v0.difference(rel.to_set()));
                        assert forall|k: KeyCode| des.contains(k) implies v1.contains(k) by {
                            assert(!prs.to_set().contains(k));
                        }
                    }
                } else {
                    if prs.len() > 0 {
                        assert(v1 == v0.union(prs.to_set()));
                        assert forall|k: KeyCode| v1.contains(k) implies des.contains(k) by {
                            if v0.contains(k) {
                                assert(!rel.to_set().contains(k));
                            }
                        }
                    } else {
                        assert(v1 == v0);
                        assert forall|k: KeyCode| v1.contains(k) implies des.contains(k) by {
                            assert(!rel.to_set().contains(k));
                        }
                        assert forall|k: KeyCode| des.contains(k) implies v1.contains(k) by {
                            assert(!prs.to_set().contains(k));
                        }
                    }
                }
            }
            assert(out_base.is_prefix_of(out@));
        }
    }
}

/// Whether an active chord routes a repeat of `code` as a dual-role chord.
pub open spec fn dual_rep_match(c: ChordModel, code: KeyCode, active: Option<Seq<char>>) -> bool {
    c.kind == ActiveKind::DualRole && mode_applicable(c.mode, active) && c.inputs.contains(code)
}

/// Whether an active chord routes a repeat of `code` as a remap chord.
pub open spec fn remap_rep_match(c: ChordModel, code: KeyCode, active: Option<Seq<char>>) -> bool {
    c.kind == ActiveKind::Remap && mode_applicable(c.mode, active) && c.inputs.contains(code)
}

/// The first dual-role chord match at or after position `i`.
pub open spec fn first_dual_chord_from(
    chords: Seq<ChordModel>,
    code: KeyCode,
    active: Option<Seq<char>>,
    i: int,
) -> Option<int>
    decreases chords.len() - i,
{
    if i < 0 || i >= chords.len() {
        Option::None
    } else if dual_rep_match(chords[i], code, active) {
        Option::Some(i)
    } else {
        first_dual_chord_from(chords, code, active, i + 1)
    }
}

/// The best remap chord match among the first `n` chords: the largest
/// trigger set wins, ties go to the earlier chord.
pub open spec fn best_remap_chord_upto(
    chords: Seq<ChordModel>,
    code: KeyCode,
    active: Option<Seq<char>>,
    n: int,
) -> Option<int>
    decreases n,
{
    if n <= 0 {
        Option::None
    } else {
        let prev = best_remap_chord_upto(chords, code, active, n - 1);
        if !remap_rep_match(chords[n - 1], code, active) {
            prev
        } else {
            match prev {
                Option::None => Option::Some(n - 1),
                Option::Some(j) => if chords[n - 1].inputs.len() > chords[j].inputs.len() {
                    Option::Some(n - 1)
                } else {
                    Option::Some(j)
                },
            }
        }
    }
}

/// The active chord a repeat of `code` is routed to: a dual-role chord
/// match short-circuits; otherwise the remap chord match with the largest
/// trigger set.
pub open spec fn repeat_chord_sel(
    chords: Seq<ChordModel>,
    code: KeyCode,
    active: Option<Seq<char>>,
) -> Option<int> {
    match first_dual_chord_from(chords, code, active, 0) {
        Option::Some(d) => Option::Some(d),
        Option::None => best_remap_chord_upto(chords, code, active, chords.len() as int),
    }
}

/// Scanning chords from the start equals scanning from `i` when no prefix
/// chord is a dual-role match.
proof fn lemma_first_dual_chord_skip(
    chords: Seq<ChordModel>,
    code: KeyCode,
    active: Option<Seq<char>>,
    i: int,
)
    requires
        0 <= i <= chords.len(),
        forall|j: int| 0 <= j < i ==> !dual_rep_match(#[trigger] chords[j], code, active),
    ensures
        first_dual_chord_from(chords, code, active, 0) == first_dual_chord_from(
            chords,
            code,
            active,
            i,
        ),
    decreases i,
{
    if i > 0 {
        lemma_first_dual_chord_skip(chords, code, active, i - 1);
    }
}

impl RemapEngine {
    /// Routes a repeat of `code` to the best matching active chord, if any:
    /// emits a repeat for each of its output codes in order, then one sync.
    /// Returns whether a chord took the repeat.
    fn emit_repeat_for_active_remap(
        &mut self,
        out: &mut Vec<Emitted>,
        code: KeyCode,
        time: &TimeVal,
    ) -> (handled: bool)
        requires
            old(self).wf(),
        ensures
            final(self).wf(),
            match repeat_chord_sel(old(self)@.chords, code, old(self)@.mode) {
                Option::Some(ci) => {
                    &&& handled
                    &&& final(out)@ == old(out)@ + keys_emission(
                        old(self)@.chords[ci].outputs_seq,
                        KeyEventType::Repeat,
                        *time,
                    )
                    &&& final(self)@ == (EngineModel {
                        virtual_held: old(self)@.virtual_held.union(
                            old(self)@.chords[ci].outputs_seq.to_set(),
                        ),
                        ..old(self)@
                    })
                },
                Option::None => {
                    &&& !handled
                    &&& final(out)@ == old(out)@
                    &&& *final(self) == *old(self)
                },
            },
    {
        let ghost chords = self@.chords;
        let ghost active = self@.mode;
        let mut dual_idx: Option<usize> = None;
        let mut best_remap_idx: Option<usize> = None;
        let mut best_len: usize = 0;
        let mut i: usize = 0;
        while i < self.active_remaps.len() && dual_idx.is_none()
            invariant
                i <= self.active_remaps.len(),
                self.wf(),
                chords == self@.chords,
                active == self@.mode,
                match dual_idx {
                    Option::Some(d) => {
                        &&& d < self.active_remaps@.len()
                        &&& first_dual_chord_from(chords, code, active, 0) == Option::Some(d as int)
                    },
                    Option::None => forall|j: int|
                        0 <= j < i ==> !dual_rep_match(#[trigger] chords[j], code, active),
                },
                match best_remap_idx {
                    Option::Some(b) => {
                        &&& b < i
                        &&& best_remap_chord_upto(chords, code, active, i as int) == Option::Some(
                            b as int,
                        )
                        &&& best_len == chords[b as int].inputs.len()
                    },
                    Option::None => best_remap_chord_upto(chords, code, active, i as int)
                        is None,
                },
            decreases self.active_remaps.len() - i,
        {
            let ar = &self.active_remaps[i];
            proof {
                assert(chords[i as int] == self.active_remaps@[i as int]@);
            }
            if matches!(ar.kind, ActiveKind::ModeSwitch) {
                proof {
                    assert(!dual_rep_match(chords[i as int], code, active));
                    assert(!remap_rep_match(chords[i as int], code, active));
                }
            } else {
                let mode_ok = mode_matches(&ar.mode, &self.active_mode);
                let has_code = ar.inputs.contains(code);
                if mode_ok && has_code {
                    match ar.kind {
                        ActiveKind::DualRole => {
                            proof {
                                assert(dual_rep_match(chords[i as int], code, active));
                                lemma_first_dual_chord_skip(chords, code, active, i as int);
                            }
                            dual_idx = Some(i);
                        },
                        ActiveKind::Remap => {
                            proof {
                                assert(remap_rep_match(chords[i as int], code, active));
                                assert(!dual_rep_match(chords[i as int], code, active));
                            }
                            let cand_size = ar.inputs.len();
                            proof {
                                assert(cand_size == chords[i as int].inputs.len());
                            }
                            if best_remap_idx.is_none() || cand_size > best_len {
                                best_remap_idx = Some(i);
                                best_len = cand_size;
                            }
                        },
                        ActiveKind::ModeSwitch => {},
                    }
                } else {
                    proof {
                        assert(!dual_rep_match(chords[i as int], code, active));
                        assert(!remap_rep_match(chords[i as int], code, active));
                    }
                }
            }
            i += 1;
        }
        let sel: Option<usize> = match dual_idx {
            Some(d) => Some(d),
            None => best_remap_idx,
        };
        proof {
            if dual_idx is None {
                lemma_first_dual_chord_skip(chords, code, active, chords.len() as int);
            }
            match sel {
                Option::Some(s) => {
                    assert(repeat_chord_sel(chords, code, active) == Option::Some(s as int));
                },
                Option::None => {
                    assert(repeat_chord_sel(chords, code, active) is None);
                },
            }
        }
        match sel {
            Some(idx) => {
                let keys = copy_codes(&self.active_remaps[idx].outputs_vec);
                proof {
                    assert(keys@ == chords[idx as int].outputs_seq);
                }
                self.emit_keys(out, &keys, time, KeyEventType::Repeat);
                proof {
                    assert(self.wf()) by {
                        assert(self@.held == old(self)@.held);
                        assert(self@.suppressed == old(self)@.suppressed);
                        assert(self@.chords == old(self)@.chords);
                    }
                }
                true
            },
            None => {
                false
            },
        }
    }
}

/// Whether the release of `code` comes within the tap window of the press
/// at `older`: at most 200 milliseconds later.
fn tap_within(newer: &TimeVal, older: &TimeVal) -> (r: bool)
    requires
        newer.well_formed(),
        older.well_formed(),
        time_le(*older, *newer),
    ensures
        r == (newer.spec_micros() - older.spec_micros() <= 200_000),
{
    let dsec = newer.tv_sec - older.tv_sec;
    if dsec >= 2 {
        proof {
            assert(newer.spec_micros() - older.spec_micros() >= 1_000_001);
        }
        false
    } else {
        timeval_diff(newer, older) <= 200_000
    }
}

/// The keys a broken chord must go on hiding: the still-held non-modifier
/// members, other than the released key itself, of every active chord the
/// released key was part of.
pub open spec fn in_broken_chord(chords: Seq<ChordModel>, code: KeyCode, m: KeyCode) -> bool {
    exists|i: int|
        0 <= i < chords.len() && (#[trigger] chords[i]).inputs.contains(code)
            && chords[i].inputs.contains(m)
}

/// The suppression set a release of `code` adds.
pub open spec fn broken_suppress(
    chords: Seq<ChordModel>,
    code: KeyCode,
    held: Set<KeyCode>,
) -> Set<KeyCode> {
    Set::new(
        |m: KeyCode|
            m != code && held.contains(m) && !spec_is_modifier(m) && in_broken_chord(
                chords,
                code,
                m,
            ),
    )
}

/// The tap sequence of a rule; empty for non-dual-role rules.
pub open spec fn rule_tap(r: RuleModel) -> Seq<KeyCode> {
    match r {
        RuleModel::DualRole { tap, .. } => tap,
        _ => Seq::empty(),
    }
}

/// The state after the bookkeeping of a release of a held `code`, before
/// reconciliation: the key leaves the held map, the suppression set is
/// pruned and extended by the broken chords' members, and every chord the
/// key was part of is dropped.
pub open spec fn release_mid_model(pre: EngineModel, code: KeyCode) -> EngineModel {
    let held1 = pre.held.remove(code);
    let supp1 = pre.suppressed.intersect(held1.dom());
    let supp2 = supp1.union(broken_suppress(pre.chords, code, held1.dom()));
    let chords1 = pre.chords.filter(|c: ChordModel| !c.inputs.contains(code));
    EngineModel { held: held1, suppressed: supp2, chords: chords1, ..pre }
}

/// How one release event changes the state and what it emits.
pub open spec fn release_transition(
    pre: EngineModel,
    post: EngineModel,
    e: KeyEvent,
    out: Seq<Emitted>,
) -> bool {
    if !pre.held.dom().contains(e.code) {
        &&& post == (EngineModel {
            virtual_held: emit_step(pre.virtual_held, Emitted::Key(e)),
            ..pre
        })
        &&& out == seq![Emitted::Key(e), Emitted::Sync(e.time)]
    } else {
        let t0 = pre.held[e.code];
        let mid = release_mid_model(pre, e.code);
        let desired = desired_set(mid);
        match first_dual_from(pre.rules, e.code, pre.mode, 0) {
            Option::None => {
                &&& post == (EngineModel { virtual_held: desired, ..mid })
                &&& is_diff_emission(out, pre.virtual_held, desired, e.time)
            },
            Option::Some(d) => {
                let tap = rule_tap(pre.rules[d]);
                if pre.tapping == Option::Some(e.code) && e.time.spec_micros() - t0.spec_micros()
                    <= 200_000 {
                    &&& post == (EngineModel {
                        virtual_held: desired.difference(tap.to_set()),
                        tapping: Option::None,
                        ..mid
                    })
                    &&& exists|diff: Seq<Emitted>|
                        {
                            &&& #[trigger] is_diff_emission(diff, pre.virtual_held, desired, e.time)
                            &&& out == diff + keys_emission(tap, KeyEventType::Press, e.time)
                                + keys_emission(tap, KeyEventType::Release, e.time)
                        }
                } else {
                    &&& post == (EngineModel {
                        virtual_held: desired,
                        tapping: Option::None,
                        ..mid
                    })
                    &&& is_diff_emission(out, pre.virtual_held, desired, e.time)
                }
            },
        }
    }
}

/// The chord a firing dual-role rule records.
pub open spec fn chord_from_dual(code: KeyCode, r: RuleModel) -> ChordModel {
    match r {
        RuleModel::DualRole { hold, mode, .. } => ChordModel {
            inputs: Set::empty().insert(code),
            outputs: hold.to_set(),
            outputs_seq: hold,
            kind: ActiveKind::DualRole,
            mode,
        },
        _ => ChordModel {
            inputs: Set::empty(),
            outputs: Set::empty(),
            outputs_seq: Seq::empty(),
            kind: ActiveKind::DualRole,
            mode: Option::None,
        },
    }
}

/// The chord a firing remap rule records.
pub open spec fn chord_from_remap(r: RuleModel) -> ChordModel {
    match r {
        RuleModel::Remap { input, output, output_seq, mode } => ChordModel {
            inputs: input,
            outputs: output,
            outputs_seq: output_seq,
            kind: ActiveKind::Remap,
            mode,
        },
        _ => ChordModel {
            inputs: Set::empty(),
            outputs: Set::empty(),
            outputs_seq: Seq::empty(),
            kind: ActiveKind::Remap,
            mode: Option::None,
        },
    }
}

/// The chord a firing mode-switch rule records: empty outputs, no mode
/// attribute.
pub open spec fn chord_from_switch(r: RuleModel) -> ChordModel {
    match r {
        RuleModel::ModeSwitch { input, .. } => ChordModel {
            inputs: input,
            outputs: Set::empty(),
            outputs_seq: Seq::empty(),
            kind: ActiveKind::ModeSwitch,
            mode: Option::None,
        },
        _ => ChordModel {
            inputs: Set::empty(),
            outputs: Set::empty(),
            outputs_seq: Seq::empty(),
            kind: ActiveKind::ModeSwitch,
            mode: Option::None,
        },
    }
}

/// Appends a chord unless one with the same trigger set is already active.
pub open spec fn add_chord_if_absent(chords: Seq<ChordModel>, c: ChordModel) -> Seq<ChordModel> {
    if exists|j: int| 0 <= j < chords.len() && (#[trigger] chords[j]).inputs == c.inputs {
        chords
    } else {
        chords.push(c)
    }
}

/// How one press event changes the state and what it emits.
pub open spec fn press_transition(
    pre: EngineModel,
    post: EngineModel,
    e: KeyEvent,
    out: Seq<Emitted>,
) -> bool {
    let held1 = pre.held.insert(e.code, e.time);
    let supp1 = pre.suppressed.intersect(held1.dom());
    match lookup_rule(pre.rules, e.code, held1.dom(), pre.mode) {
        Option::None => {
            let mid = EngineModel {
                held: held1,
                suppressed: supp1,
                tapping: Option::None,
                ..pre
            };
            &&& post == (EngineModel { virtual_held: desired_set(mid), ..mid })
            &&& is_diff_emission(out, pre.virtual_held, desired_set(mid), e.time)
        },
        Option::Some(ri) => {
            let r = pre.rules[ri];
            match r {
                RuleModel::DualRole { .. } => {
                    let mid = EngineModel {
                        held: held1,
                        suppressed: supp1,
                        chords: add_chord_if_absent(pre.chords, chord_from_dual(e.code, r)),
                        tapping: Option::Some(e.code),
                        ..pre
                    };
                    &&& post == (EngineModel { virtual_held: desired_set(mid), ..mid })
                    &&& is_diff_emission(out, pre.virtual_held, desired_set(mid), e.time)
                },
                RuleModel::Remap { .. } => {
                    let mid = EngineModel {
                        held: held1,
                        suppressed: supp1,
                        chords: add_chord_if_absent(pre.chords, chord_from_remap(r)),
                        tapping: Option::Some(e.code),
                        ..pre
                    };
                    &&& post == (EngineModel { virtual_held: desired_set(mid), ..mid })
                    &&& is_diff_emission(out, pre.virtual_held, desired_set(mid), e.time)
                },
                RuleModel::ModeSwitch { input, target, .. } => {
                    let mid = EngineModel {
                        held: held1,
                        suppressed: supp1.union(input),
                        mode: Option::Some(target),
                        chords: add_chord_if_absent(pre.chords, chord_from_switch(r)),
                        tapping: Option::None,
                        ..pre
                    };
                    &&& post == (EngineModel { virtual_held: desired_set(mid), ..mid })
                    &&& is_diff_emission(out, pre.virtual_held, desired_set(mid), e.time)
                },
            }
        },
    }
}

/// How one repeat event changes the state and what it emits.
pub open spec fn repeat_transition(
    pre: EngineModel,
    post: EngineModel,
    e: KeyEvent,
    out: Seq<Emitted>,
) -> bool {
    match repeat_chord_sel(pre.chords, e.code, pre.mode) {
        Option::Some(ci) => {
            let ks = pre.chords[ci].outputs_seq;
            &&& out == keys_emission(ks, KeyEventType::Repeat, e.time)
            &&& post == (EngineModel {
                virtual_held: pre.virtual_held.union(ks.to_set()),
                ..pre
            })
        },
        Option::None => match lookup_rule(pre.rules, e.code, pre.held.dom(), pre.mode) {
            Option::Some(ri) => match pre.rules[ri] {
                RuleModel::DualRole { hold, .. } => {
                    &&& out == keys_emission(hold, KeyEventType::Repeat, e.time)
                    &&& post == (EngineModel {
                        virtual_held: pre.virtual_held.union(hold.to_set()),
                        ..pre
                    })
                },
                RuleModel::Remap { output, output_seq, .. } => {
                    &&& out == keys_emission(output_seq, KeyEventType::Repeat, e.time)
                    &&& post == (EngineModel {
                        virtual_held: pre.virtual_held.union(output),
                        ..pre
                    })
                },
                RuleModel::ModeSwitch { .. } => {
                    &&& out == Seq::<Emitted>::empty()
                    &&& post == pre
                },
            },
            Option::None => {
                if pre.suppressed.contains(e.code) {
                    &&& out == Seq::<Emitted>::empty()
                    &&& post == pre
                } else {
                    &&& out == seq![Emitted::Key(e), Emitted::Sync(e.time)]
                    &&& post == (EngineModel {
                        tapping: Option::None,
                        virtual_held: pre.virtual_held.insert(e.code),
                        ..pre
                    })
                }
            },
        },
    }
}

/// How one incoming event changes the state and what it emits, by phase.
/// An unknown phase is forwarded verbatim and changes nothing.
pub open spec fn step_transition(
    pre: EngineModel,
    post: EngineModel,
    e: KeyEvent,
    out: Seq<Emitted>,
) -> bool {
    match KeyEventType::spec_from_value(e.value) {
        KeyEventType::Release => release_transition(pre, post, e, out),
        KeyEventType::Press => press_transition(pre, post, e, out),
        KeyEventType::Repeat => repeat_transition(pre, post, e, out),
        KeyEventType::Unknown(_) => {
            &&& post == pre
            &&& out == seq![Emitted::Key(e), Emitted::Sync(e.time)]
        },
    }
}

/// The members of one broken chord that must be suppressed: the still-held
/// non-modifier members other than the released key.
pub open spec fn broken_members(
    members: Set<KeyCode>,
    code: KeyCode,
    held: Set<KeyCode>,
) -> Set<KeyCode> {
    Set::new(
        |m: KeyCode|
            members.contains(m) && m != code && held.contains(m) && !spec_is_modifier(m),
    )
}

impl RemapEngine {
    /// Suppresses every still-held non-modifier member of `members`, other
    /// than the released `code` itself.
    fn suppress_broken_members(&mut self, members: &Vec<KeyCode>, code: KeyCode)
        requires
            old(self).input_state.wf(),
            old(self).suppressed_until_released.wf(),
        ensures
            final(self)@ == (EngineModel {
                suppressed: old(self)@.suppressed.union(
                    broken_members(members@.to_set(), code, old(self)@.held.dom()),
                ),
                ..old(self)@
            }),
            final(self).input_state == old(self).input_state,
            final(self).output_keys == old(self).output_keys,
            final(self).mappings == old(self).mappings,
            final(self).active_remaps == old(self).active_remaps,
            final(self).tapping == old(self).tapping,
            final(self).active_mode == old(self).active_mode,
            final(self).suppressed_until_released.wf(),
    {
        let ghost sb = self.suppressed_until_released@;
        let ghost held = self.input_state@.dom();
        let mut l: usize = 0;
        while l < members.len()
            invariant
                l <= members.len(),
                self.input_state.wf(),
                self.suppressed_until_released.wf(),
                self.input_state == old(self).input_state,
                self.output_keys == old(self).output_keys,
                self.mappings == old(self).mappings,
                self.active_remaps == old(self).active_remaps,
                self.tapping == old(self).tapping,
                self.active_mode == old(self).active_mode,
                held == self.input_state@.dom(),
                self.suppressed_until_released@ == sb.union(
                    broken_members(members@.subrange(0, l as int).to_set(), code, held),
                ),
            decreases members.len() - l,
        {
            let m = members[l];
            let ghost prefix = members@.subrange(0, l as int);
            let ghost cur = members@.subrange(0, l + 1 as int);
            let qualifies = m != code && self.input_state.contains_key(m) && !is_modifier(&m);
            if qualifies {
                self.suppressed_until_released.insert(m);
            }
            proof {
                assert(cur.drop_last() =~= prefix);
                assert(cur.last() == members@[l as int]);
                assert(sb.union(broken_members(cur.to_set(), code, held)) =~= (if qualifies {
                    sb.union(broken_members(prefix.to_set(), code, held)).insert(m)
                } else {
                    sb.union(broken_members(prefix.to_set(), code, held))
                })) by {
                    assert forall|x: KeyCode|
                        broken_members(cur.to_set(), code, held).contains(x) implies (x == m
                        || broken_members(prefix.to_set(), code, held).contains(x)) by {
                        let j = choose|j: int| 0 <= j < cur.len() && cur[j] == x;
                        if j < l {
                            assert(prefix[j] == x);
                        }
                    };
                    assert forall|x: KeyCode|
                        broken_members(prefix.to_set(), code, held).contains(
                            x,
                        ) implies broken_members(cur.to_set(), code, held).contains(x) by {
                        let j = choose|j: int| 0 <= j < prefix.len() && prefix[j] == x;
                        assert(cur[j] == x);
                    };
                    if qualifies {
                        assert(cur[l as int] == m);
                        assert(cur.to_set().contains(m));
                        assert(broken_members(cur.to_set(), code, held).contains(m));
                    }
                }
            }
            l += 1;
        }
        proof {
            assert(members@.subrange(0, members@.len() as int) =~= members@);
            assert(self@ =~= (EngineModel {
                suppressed: sb.union(broken_members(members@.to_set(), code, held)),
                ..old(self)@
            }));
        }
    }

    /// Drops every active chord the released `code` was part of, and
    /// suppresses each such chord's still-held non-modifier members other
    /// than `code` itself.
    fn break_chords_for_release(&mut self, code: KeyCode)
        requires
            old(self).input_state.wf(),
            old(self).suppressed_until_released.wf(),
            forall|l: int| 0 <= l < old(self).active_remaps@.len() ==> chord_wf(
                #[trigger] old(self).active_remaps@[l],
            ),
        ensures
            final(self)@ == (EngineModel {
                suppressed: old(self)@.suppressed.union(
                    broken_suppress(old(self)@.chords, code, old(self)@.held.dom()),
                ),
                chords: old(self)@.chords.filter(|c: ChordModel| !c.inputs.contains(code)),
                ..old(self)@
            }),
            final(self).input_state == old(self).input_state,
            final(self).output_keys == old(self).output_keys,
            final(self).mappings == old(self).mappings,
            final(self).tapping == old(self).tapping,
            final(self).active_mode == old(self).active_mode,
            final(self).suppressed_until_released.wf(),
            forall|l: int| 0 <= l < final(self).active_remaps@.len() ==> chord_wf(
                #[trigger] final(self).active_remaps@[l],
            ),
    {
        let ghost all = self@.chords;
        let ghost held = self.input_state@.dom();
        let ghost supp0 = self.suppressed_until_released@;
        let ghost fpred = |c: ChordModel| !c.inputs.contains(code);
        let mut kept: Vec<ActiveRemap> = Vec::new();
        let n = self.active_remaps.len();
        let mut i: usize = 0;
        while i < n
            invariant
                i <= n,
                n == self.active_remaps@.len(),
                fpred == (|c: ChordModel| !c.inputs.contains(code)),
                all == chords_view(self.active_remaps@),
                held == self.input_state@.dom(),
                supp0 == old(self)@.suppressed,
                self.input_state.wf(),
                self.suppressed_until_released.wf(),
                self.input_state == old(self).input_state,
                self.output_keys == old(self).output_keys,
                self.mappings == old(self).mappings,
                self.active_remaps == old(self).active_remaps,
                self.tapping == old(self).tapping,
                self.active_mode == old(self).active_mode,
                forall|l: int| 0 <= l < self.active_remaps@.len() ==> chord_wf(
                    #[trigger] self.active_remaps@[l],
                ),
                forall|l: int| 0 <= l < kept@.len() ==> chord_wf(#[trigger] kept@[l]),
                chords_view(kept@) == all.subrange(0, i as int).filter(fpred),
                self.suppressed_until_released@ == supp0.union(
                    broken_suppress(all.subrange(0, i as int), code, held),
                ),
            decreases n - i,
        {
            let ghost prefix = all.subrange(0, i as int);
            let ghost cur = all.subrange(0, i + 1 as int);
            proof {
                assert(cur.drop_last() =~= prefix);
                assert(cur.last() == all[i as int]);
                assert(all[i as int] == self.active_remaps@[i as int]@);
                assert(cur =~= prefix.push(all[i as int]));
                prefix.lemma_filter_push(all[i as int], fpred);
            }
            let contains_code = self.active_remaps[i].inputs.contains(code);
            if !contains_code {
                let ar = &self.active_remaps[i];
                let copied = ActiveRemap {
                    inputs: ar.inputs.duplicate(),
                    outputs: ar.outputs.duplicate(),
                    outputs_vec: copy_codes(&ar.outputs_vec),
                    kind: ar.kind,
                    mode: clone_opt_string(&ar.mode),
                };
                proof {
                    assert(copied@ =~= all[i as int]);
                }
                let ghost kept_pre = kept@;
                kept.push(copied);
                proof {
                    assert(chords_view(kept@) =~= chords_view(kept_pre).push(all[i as int]));
                    assert(supp0.union(broken_suppress(prefix, code, held)) =~= supp0.union(
                        broken_suppress(cur, code, held),
                    )) by {
                        assert forall|m: KeyCode|
                            broken_suppress(cur, code, held).contains(m) implies broken_suppress(
                            prefix,
                            code,
                            held,
                        ).contains(m) by {
                            let j = choose|j: int|
                                0 <= j < cur.len() && (#[trigger] cur[j]).inputs.contains(code)
                                    && cur[j].inputs.contains(m);
                            assert(j < i);
                            assert(prefix[j] == cur[j]);
                            assert(in_broken_chord(prefix, code, m));
                        };
                        assert forall|m: KeyCode|
                            broken_suppress(prefix, code, held).contains(m) implies broken_suppress(
                            cur,
                            code,
                            held,
                        ).contains(m) by {
                            let j = choose|j: int|
                                0 <= j < prefix.len() && (#[trigger] prefix[j]).inputs.contains(
                                    code,
                                ) && prefix[j].inputs.contains(m);
                            assert(cur[j] == prefix[j]);
                            assert(in_broken_chord(cur, code, m));
                        };
                    }
                }
            } else {
                let members = self.active_remaps[i].inputs.to_vec();
                proof {
                    assert(members@.to_set() =~= all[i as int].inputs);
                }
                self.suppress_broken_members(&members, code);
                proof {
                    let added = broken_members(all[i as int].inputs, code, held);
                    assert(self.suppressed_until_released@ == supp0.union(
                        broken_suppress(prefix, code, held),
                    ).union(added));
                    assert(supp0.union(broken_suppress(prefix, code, held)).union(added)
                        =~= supp0.union(broken_suppress(cur, code, held))) by {
                        assert forall|m: KeyCode|
                            broken_suppress(cur, code, held).contains(m) implies (broken_suppress(
                            prefix,
                            code,
                            held,
                        ).contains(m) || added.contains(m)) by {
                            let j = choose|j: int|
                                0 <= j < cur.len() && (#[trigger] cur[j]).inputs.contains(code)
                                    && cur[j].inputs.contains(m);
                            if j < i {
                                assert(prefix[j] == cur[j]);
                                assert(in_broken_chord(prefix, code, m));
                            } else {
                                assert(cur[j] == all[i as int]);
                            }
                        };
                        assert forall|m: KeyCode|
                            broken_suppress(prefix, code, held).contains(
                                m,
                            ) implies broken_suppress(cur, code, held).contains(m) by {
                            let j = choose|j: int|
                                0 <= j < prefix.len() && (#[trigger] prefix[j]).inputs.contains(
                                    code,
                                ) && prefix[j].inputs.contains(m);
                            assert(cur[j] == prefix[j]);
                            assert(in_broken_chord(cur, code, m));
                        };
                        assert forall|m: KeyCode|
                            added.contains(m) implies broken_suppress(cur, code, held).contains(
                            m,
                        ) by {
                            assert(cur[i as int] == all[i as int]);
                            assert(in_broken_chord(cur, code, m));
                        };
                    }
                }
            }
            i += 1;
        }
        self.active_remaps = kept;
        proof {
            assert(all.subrange(0, all.len() as int) =~= all);
            assert(self@ =~= (EngineModel {
                suppressed: old(self)@.suppressed.union(
                    broken_suppress(old(self)@.chords, code, old(self)@.held.dom()),
                ),
                chords: old(self)@.chords.filter(|c: ChordModel| !c.inputs.contains(code)),
                ..old(self)@
            })) by {
                assert(all.filter(fpred) == all.filter(
                    |c: ChordModel| !c.inputs.contains(code),
                ));
            }
        }
    }
}

/// A hit of the dual-role scan is an applicable dual-role rule at or after
/// the scan's start.
proof fn lemma_first_dual_props(
    rules: Seq<RuleModel>,
    code: KeyCode,
    active: Option<Seq<char>>,
    i: int,
)
    requires
        first_dual_from(rules, code, active, i) is Some,
    ensures
        ({
            let d = first_dual_from(rules, code, active, i)->0;
            &&& i <= d < rules.len()
            &&& dual_candidate(rules[d], code, active)
        }),
    decreases rules.len() - i,
{
    if !(i < 0 || i >= rules.len()) && !dual_candidate(rules[i], code, active) {
        lemma_first_dual_props(rules, code, active, i + 1);
    }
}

impl RemapEngine {
    /// Records an activated chord unless one with the same trigger set is
    /// already active.
    fn push_chord_if_absent(&mut self, c: ActiveRemap)
        requires
            forall|l: int| 0 <= l < old(self).active_remaps@.len() ==> chord_wf(
                #[trigger] old(self).active_remaps@[l],
            ),
            chord_wf(c),
        ensures
            final(self)@ == (EngineModel {
                chords: add_chord_if_absent(old(self)@.chords, c@),
                ..old(self)@
            }),
            final(self).input_state == old(self).input_state,
            final(self).output_keys == old(self).output_keys,
            final(self).mappings == old(self).mappings,
            final(self).suppressed_until_released == old(self).suppressed_until_released,
            final(self).tapping == old(self).tapping,
            final(self).active_mode == old(self).active_mode,
            forall|l: int| 0 <= l < final(self).active_remaps@.len() ==> chord_wf(
                #[trigger] final(self).active_remaps@[l],
            ),
    {
        let ghost chords = self@.chords;
        let mut exists_same = false;
        let n = self.active_remaps.len();
        let mut j: usize = 0;
        while j < n
            invariant
                j <= n,
                n == self.active_remaps@.len(),
                chords == chords_view(self.active_remaps@),
                self == old(self),
                exists_same == exists|l: int|
                    0 <= l < j && (#[trigger] chords[l]).inputs == c@.inputs,
            decreases n - j,
        {
            proof {
                assert(chords[j as int] == self.active_remaps@[j as int]@);
            }
            if self.active_remaps[j].inputs.set_eq(&c.inputs) {
                exists_same = true;
            }
            j += 1;
        }
        if !exists_same {
            let ghost pre_chords = chords_view(self.active_remaps@);
            self.active_remaps.push(c);
            proof {
                assert(chords_view(self.active_remaps@) =~= pre_chords.push(c@));
                assert(self@ =~= (EngineModel {
                    chords: add_chord_if_absent(old(self)@.chords, c@),
                    ..old(self)@
                }));
            }
        } else {
            proof {
                assert(self@ =~= (EngineModel {
                    chords: add_chord_if_absent(old(self)@.chords, c@),
                    ..old(self)@
                }));
            }
        }
    }

    /// Feeds one incoming key event through the engine: updates the state
    /// by the event's phase as `step_transition` describes, and returns the
    /// events to write to the virtual sink, in order.
    ///
    /// The event stream must be monotonic in time: the event's timestamp is
    /// well-formed and not older than any stored press timestamp.
    pub fn update_with_event(&mut self, event: &KeyEvent) -> (out: Vec<Emitted>)
        requires
            old(self).wf(),
            event.time.well_formed(),
            forall|k: KeyCode| #[trigger] old(self)@.held.dom().contains(k) ==> time_le(
                old(self)@.held[k],
                event.time,
            ),
        ensures
            final(self).wf(),
            step_transition(old(self)@, final(self)@, *event, out@),
            final(self)@.rules == old(self)@.rules,
    {
        let ghost pre = self@;
        let mut out: Vec<Emitted> = Vec::new();
        let event_type = KeyEventType::from_value(event.value);
        match event_type {
            KeyEventType::Release => {
                let pressed_at: TimeVal = match self.input_state.remove(event.code) {
                    None => {
                        self.write_event_and_sync(&mut out, event);
                        proof {
                            assert(!pre.held.dom().contains(event.code));
                            assert(self@.held =~= pre.held);
                            assert(self@ =~= (EngineModel {
                                virtual_held: emit_step(pre.virtual_held, Emitted::Key(*event)),
                                ..pre
                            }));
                            assert(self.wf()) by {
                                assert(self@.held == pre.held);
                                assert(self@.suppressed == pre.suppressed);
                                assert(self@.chords == pre.chords);
                            }
                            assert(out@ =~= seq![
                                Emitted::Key(*event),
                                Emitted::Sync(event.time),
                            ]);
                        }
                        return out;
                    },
                    Some(p) => p,
                };
                self.prune_suppressed_keys();
                self.break_chords_for_release(event.code);
                let ghost mid = release_mid_model(pre, event.code);
                proof {
                    assert(self@ =~= mid);
                    assert(self.wf()) by {
                        assert(model_inv(self@)) by {
                            assert(self@.suppressed.subset_of(self@.held.dom())) by {
                                assert forall|m: KeyCode| self@.suppressed.contains(
                                    m,
                                ) implies self@.held.dom().contains(m) by {}
                            }
                            assert forall|l: int| 0 <= l < self@.chords.len() implies chord_inv(
                                #[trigger] self@.chords[l],
                                self@.held.dom(),
                            ) by {
                                let fpred = |c: ChordModel| !c.inputs.contains(event.code);
                                pre.chords.lemma_filter_pred(fpred, l);
                                let c = self@.chords[l];
                                assert(pre.chords.filter(fpred).contains(c)) by {
                                    assert(pre.chords.filter(fpred)[l] == c);
                                }
                                pre.chords.lemma_filter_contains_rev(fpred, c);
                                let j = choose|j: int|
                                    0 <= j < pre.chords.len() && #[trigger] pre.chords[j] == c;
                                assert(chord_inv(pre.chords[j], pre.held.dom()));
                                assert forall|m: KeyCode| c.inputs.contains(
                                    m,
                                ) implies self@.held.dom().contains(m) by {
                                    assert(m != event.code);
                                    assert(pre.held.dom().contains(m));
                                }
                            }
                        }
                    }
                }
                let ghost des = desired_set(mid);
                self.compute_and_apply_keys(&mut out, &event.time);
                let ghost diff_out = out@;
                proof {
                    assert(diff_out.skip(0) =~= diff_out);
                    assert(is_diff_emission(diff_out, pre.virtual_held, des, event.time));
                }
                let tap_keys: Option<Vec<KeyCode>> = match self.lookup_dual_role_index(
                    event.code,
                ) {
                    Some(idx) => match &self.mappings[idx] {
                        Mapping::DualRole { tap, .. } => Some(copy_codes(tap)),
                        Mapping::Remap { .. } => {
                            proof {
                                lemma_first_dual_props(self@.rules, event.code, self@.mode, 0);
                                assert(false);
                            }
                            None
                        },
                        Mapping::ModeSwitch { .. } => {
                            proof {
                                lemma_first_dual_props(self@.rules, event.code, self@.mode, 0);
                                assert(false);
                            }
                            None
                        },
                    },
                    None => None,
                };
                match tap_keys {
                    Some(tap_vec) => {
                        proof {
                            lemma_first_dual_props(pre.rules, event.code, pre.mode, 0);
                            assert(tap_vec@ == rule_tap(
                                pre.rules[first_dual_from(pre.rules, event.code, pre.mode, 0)->0],
                            ));
                        }
                        let was = self.tapping;
                        self.tapping = None;
                        let fire = match was {
                            Some(t) => t == event.code,
                            None => false,
                        };
                        proof {
                            assert(fire == (pre.tapping == Option::Some(event.code)));
                            assert(pressed_at == pre.held[event.code]);
                            assert(pressed_at.well_formed());
                            assert(time_le(pressed_at, event.time));
                        }
                        if fire && tap_within(&event.time, &pressed_at) {
                            self.emit_keys(&mut out, &tap_vec, &event.time, KeyEventType::Press);
                            self.emit_keys(&mut out, &tap_vec, &event.time, KeyEventType::Release);
                            proof {
                                assert(self@.virtual_held =~= des.difference(tap_vec@.to_set()));
                                assert(self@ =~= (EngineModel {
                                    virtual_held: des.difference(tap_vec@.to_set()),
                                    tapping: Option::None,
                                    ..mid
                                }));
                                assert(out@ =~= diff_out + keys_emission(
                                    tap_vec@,
                                    KeyEventType::Press,
                                    event.time,
                                ) + keys_emission(tap_vec@, KeyEventType::Release, event.time));
                                assert(self.wf()) by {
                                    assert(self@.held == mid.held);
                                    assert(self@.suppressed == mid.suppressed);
                                    assert(self@.chords == mid.chords);
                                }
                                assert(release_transition(pre, self@, *event, out@));
                            }
                        } else {
                            proof {
                                assert(self@ =~= (EngineModel {
                                    virtual_held: des,
                                    tapping: Option::None,
                                    ..mid
                                }));
                                assert(self.wf()) by {
                                    assert(self@.held == mid.held);
                                    assert(self@.suppressed == mid.suppressed);
                                    assert(self@.chords == mid.chords);
                                }
                                assert(release_transition(pre, self@, *event, out@));
                            }
                        }
                    },
                    None => {
                        proof {
                            assert(self@ =~= (EngineModel { virtual_held: des, ..mid }));
                            assert(release_transition(pre, self@, *event, out@));
                        }
                    },
                }
            },
            KeyEventType::Press => {
                self.input_state.insert(event.code, event.time);
                self.prune_suppressed_keys();
                let ghost held1 = pre.held.insert(event.code, event.time);
                let ghost supp1 = pre.suppressed.intersect(held1.dom());
                proof {
                    assert(self@.held == held1);
                    assert(self@.suppressed == supp1);
                    assert(self.wf()) by {
                        assert(model_inv(self@)) by {
                            assert forall|l: int| 0 <= l < self@.chords.len() implies chord_inv(
                                #[trigger] self@.chords[l],
                                self@.held.dom(),
                            ) by {
                                assert(chord_inv(pre.chords[l], pre.held.dom()));
                                assert forall|m: KeyCode| self@.chords[l].inputs.contains(
                                    m,
                                ) implies self@.held.dom().contains(m) by {
                                    assert(pre.held.dom().contains(m));
                                }
                            }
                        }
                    }
                }
                let sel = self.lookup_mapping_index(event.code);
                match sel {
                    Some(idx) => {
                        proof {
                            assert(lookup_rule(pre.rules, event.code, held1.dom(), pre.mode)
                                == Option::Some(idx as int));
                        }
                        match &self.mappings[idx] {
                            Mapping::DualRole { hold, mode, .. } => {
                                let mut inputs = KeySet::new();
                                inputs.insert(event.code);
                                let new_chord = ActiveRemap {
                                    inputs,
                                    outputs: KeySet::from_vec(hold),
                                    outputs_vec: copy_codes(hold),
                                    kind: ActiveKind::DualRole,
                                    mode: clone_opt_string(mode),
                                };
                                proof {
                                    assert(new_chord@ =~= chord_from_dual(
                                        event.code,
                                        pre.rules[idx as int],
                                    ));
                                    assert(chord_wf(new_chord));
                                }
                                self.push_chord_if_absent(new_chord);
                                self.tapping = Some(event.code);
                                let ghost midp = EngineModel {
                                    held: held1,
                                    suppressed: supp1,
                                    chords: add_chord_if_absent(
                                        pre.chords,
                                        chord_from_dual(event.code, pre.rules[idx as int]),
                                    ),
                                    tapping: Option::Some(event.code),
                                    ..pre
                                };
                                proof {
                                    assert(self@ =~= midp);
                                    assert(self.wf()) by {
                                        assert(model_inv(self@)) by {
                                            let c = chord_from_dual(
                                                event.code,
                                                pre.rules[idx as int],
                                            );
                                            assert(c.inputs.contains(event.code));
                                            assert(c.inputs.subset_of(held1.dom())) by {
                                                assert forall|m: KeyCode| c.inputs.contains(
                                                    m,
                                                ) implies held1.dom().contains(m) by {
                                                    assert(m == event.code);
                                                }
                                            }
                                            assert forall|l: int|
                                                0 <= l < self@.chords.len() implies chord_inv(
                                                #[trigger] self@.chords[l],
                                                self@.held.dom(),
                                            ) by {
                                                if l < pre.chords.len() {
                                                    assert(chord_inv(
                                                        pre.chords[l],
                                                        pre.held.dom(),
                                                    ));
                                                    assert forall|m: KeyCode|
                                                        self@.chords[l].inputs.contains(
                                                            m,
                                                        ) implies self@.held.dom().contains(m) by {
                                                        assert(pre.held.dom().contains(m));
                                                    }
                                                } else {
                                                    assert(self@.chords[l] == c);
                                                }
                                            }
                                        }
                                    }
                                }
                                self.compute_and_apply_keys(&mut out, &event.time);
                                proof {
                                    assert(out@.skip(0) =~= out@);
                                    assert(press_transition(pre, self@, *event, out@));
                                }
                            },
                            Mapping::Remap { input, output, mode } => {
                                let new_chord = ActiveRemap {
                                    inputs: input.duplicate(),
                                    outputs: output.duplicate(),
                                    outputs_vec: output.to_vec(),
                                    kind: ActiveKind::Remap,
                                    mode: clone_opt_string(mode),
                                };
                                proof {
                                    assert(new_chord@ =~= chord_from_remap(
                                        pre.rules[idx as int],
                                    ));
                                    assert(chord_wf(new_chord));
                                }
                                self.push_chord_if_absent(new_chord);
                                self.tapping = Some(event.code);
                                let ghost midp = EngineModel {
                                    held: held1,
                                    suppressed: supp1,
                                    chords: add_chord_if_absent(
                                        pre.chords,
                                        chord_from_remap(pre.rules[idx as int]),
                                    ),
                                    tapping: Option::Some(event.code),
                                    ..pre
                                };
                                proof {
                                    lemma_lookup_is_candidate(
                                        pre.rules,
                                        event.code,
                                        held1.dom(),
                                        pre.mode,
                                        idx as int,
                                    );
                                    assert(self@ =~= midp);
                                    assert(self.wf()) by {
                                        assert(model_inv(self@)) by {
                                            let c = chord_from_remap(pre.rules[idx as int]);
                                            assert(chord_candidate(
                                                pre.rules[idx as int],
                                                event.code,
                                                held1.dom(),
                                                pre.mode,
                                            ));
                                            assert(c.inputs.contains(event.code));
                                            assert(c.inputs.subset_of(held1.dom())) by {
                                                assert forall|m: KeyCode| c.inputs.contains(
                                                    m,
                                                ) implies held1.dom().contains(m) by {
                                                    if m != event.code {
                                                        assert(held1.dom().contains(m));
                                                    }
                                                }
                                            }
                                            assert forall|l: int|
                                                0 <= l < self@.chords.len() implies chord_inv(
                                                #[trigger] self@.chords[l],
                                                self@.held.dom(),
                                            ) by {
                                                if l < pre.chords.len() {
                                                    assert(chord_inv(
                                                        pre.chords[l],
                                                        pre.held.dom(),
                                                    ));
                                                    assert forall|m: KeyCode|
                                                        self@.chords[l].inputs.contains(
                                                            m,
                                                        ) implies self@.held.dom().contains(m) by {
                                                        assert(pre.held.dom().contains(m));
                                                    }
                                                } else {
                                                    assert(self@.chords[l] == c);
                                                }
                                            }
                                        }
                                    }
                                }
                                self.compute_and_apply_keys(&mut out, &event.time);
                                proof {
                                    assert(out@.skip(0) =~= out@);
                                    assert(press_transition(pre, self@, *event, out@));
                                }
                            },
                            Mapping::ModeSwitch { input, mode, .. } => {
                                let target = mode.clone();
                                let new_chord = ActiveRemap {
                                    inputs: input.duplicate(),
                                    outputs: KeySet::new(),
                                    outputs_vec: Vec::new(),
                                    kind: ActiveKind::ModeSwitch,
                                    mode: None,
                                };
                                proof {
                                    assert(new_chord@ =~= chord_from_switch(
                                        pre.rules[idx as int],
                                    )) by {
                                        assert(new_chord.outputs_vec@ =~= Seq::<KeyCode>::empty());
                                    }
                                    assert(chord_wf(new_chord));
                                }
                                self.suppressed_until_released.insert_set(&new_chord.inputs);
                                self.active_mode = Some(target);
                                self.push_chord_if_absent(new_chord);
                                self.tapping = None;
                                let ghost rl = pre.rules[idx as int];
                                let ghost midp = EngineModel {
                                    held: held1,
                                    suppressed: supp1.union(rl->ModeSwitch_input),
                                    mode: Option::Some(rl->ModeSwitch_target),
                                    chords: add_chord_if_absent(pre.chords, chord_from_switch(rl)),
                                    tapping: Option::None,
                                    ..pre
                                };
                                proof {
                                    lemma_lookup_is_candidate(
                                        pre.rules,
                                        event.code,
                                        held1.dom(),
                                        pre.mode,
                                        idx as int,
                                    );
                                    assert(self@ =~= midp);
                                    assert(self.wf()) by {
                                        assert(model_inv(self@)) by {
                                            let c = chord_from_switch(rl);
                                            assert(chord_candidate(
                                                rl,
                                                event.code,
                                                held1.dom(),
                                                pre.mode,
                                            ));
                                            assert(c.inputs.contains(event.code));
                                            assert(c.inputs.subset_of(held1.dom())) by {
                                                assert forall|m: KeyCode| c.inputs.contains(
                                                    m,
                                                ) implies held1.dom().contains(m) by {
                                                    if m != event.code {
                                                        assert(held1.dom().contains(m));
                                                    }
                                                }
                                            }
                                            assert(self@.suppressed.subset_of(self@.held.dom()))
                                                by {
                                                assert forall|m: KeyCode| self@.suppressed.contains(
                                                    m,
                                                ) implies self@.held.dom().contains(m) by {
                                                    if supp1.contains(m) {
                                                    } else {
                                                        assert(c.inputs.contains(m));
                                                    }
                                                }
                                            }
                                            assert forall|l: int|
                                                0 <= l < self@.chords.len() implies chord_inv(
                                                #[trigger] self@.chords[l],
                                                self@.held.dom(),
                                            ) by {
                                                if l < pre.chords.len() {
                                                    assert(chord_inv(
                                                        pre.chords[l],
                                                        pre.held.dom(),
                                                    ));
                                                    assert forall|m: KeyCode|
                                                        self@.chords[l].inputs.contains(
                                                            m,
                                                        ) implies self@.held.dom().contains(m) by {
                                                        assert(pre.held.dom().contains(m));
                                                    }
                                                } else {
                                                    assert(self@.chords[l] == c);
                                                }
                                            }
                                        }
                                    }
                                }
                                self.compute_and_apply_keys(&mut out, &event.time);
                                proof {
                                    assert(out@.skip(0) =~= out@);
                                    assert(press_transition(pre, self@, *event, out@));
                                }
                            },
                        }
                    },
                    None => {
                        self.cancel_pending_tap();
                        let ghost midp = EngineModel {
                            held: held1,
                            suppressed: supp1,
                            tapping: Option::None,
                            ..pre
                        };
                        proof {
                            assert(self@ =~= midp);
                            assert(self.wf()) by {
                                assert(self@.held == held1);
                                assert(self@.suppressed == supp1);
                                assert(self@.chords == pre.chords);
                            }
                        }
                        self.compute_and_apply_keys(&mut out, &event.time);
                        proof {
                            assert(out@.skip(0) =~= out@);
                            assert(press_transition(pre, self@, *event, out@));
                        }
                    },
                }
            },
            KeyEventType::Repeat => {
                let handled = self.emit_repeat_for_active_remap(&mut out, event.code, &event.time);
                if handled {
                    proof {
                        assert(out@.skip(0) =~= out@);
                        assert(repeat_transition(pre, self@, *event, out@));
                    }
                } else {
                    match self.lookup_mapping_index(event.code) {
                        Some(idx) => {
                            match &self.mappings[idx] {
                                Mapping::DualRole { hold, .. } => {
                                    let v = copy_codes(hold);
                                    self.emit_keys(&mut out, &v, &event.time, KeyEventType::Repeat);
                                    proof {
                                        assert(self.wf()) by {
                                            assert(self@.held == pre.held);
                                            assert(self@.suppressed == pre.suppressed);
                                            assert(self@.chords == pre.chords);
                                        }
                                        assert(repeat_transition(pre, self@, *event, out@));
                                    }
                                },
                                Mapping::Remap { output, .. } => {
                                    let v = output.to_vec();
                                    self.emit_keys(&mut out, &v, &event.time, KeyEventType::Repeat);
                                    proof {
                                        assert(self.wf()) by {
                                            assert(self@.held == pre.held);
                                            assert(self@.suppressed == pre.suppressed);
                                            assert(self@.chords == pre.chords);
                                        }
                                        assert(self@.virtual_held =~= pre.virtual_held.union(
                                            pre.rules[idx as int]->Remap_output,
                                        ));
                                        assert(repeat_transition(pre, self@, *event, out@));
                                    }
                                },
                                Mapping::ModeSwitch { .. } => {
                                    proof {
                                        assert(out@ =~= Seq::<Emitted>::empty());
                                        assert(repeat_transition(pre, self@, *event, out@));
                                    }
                                },
                            }
                        },
                        None => {
                            if self.suppressed_until_released.contains(event.code) {
                                proof {
                                    assert(out@ =~= Seq::<Emitted>::empty());
                                    assert(repeat_transition(pre, self@, *event, out@));
                                }
                            } else {
                                self.cancel_pending_tap();
                                self.write_event_and_sync(&mut out, event);
                                proof {
                                    assert(emit_step(pre.virtual_held, Emitted::Key(*event))
                                        =~= pre.virtual_held.insert(event.code));
                                    assert(self@ =~= (EngineModel {
                                        tapping: Option::None,
                                        virtual_held: pre.virtual_held.insert(event.code),
                                        ..pre
                                    }));
                                    assert(self.wf()) by {
                                        assert(self@.held == pre.held);
                                        assert(self@.suppressed == pre.suppressed);
                                        assert(self@.chords == pre.chords);
                                    }
                                    assert(out@ =~= seq![
                                        Emitted::Key(*event),
                                        Emitted::Sync(event.time),
                                    ]);
                                    assert(repeat_transition(pre, self@, *event, out@));
                                }
                            }
                        },
                    }
                }
            },
            KeyEventType::Unknown(..) => {
                self.write_event_and_sync(&mut out, event);
                proof {
                    assert(self@ =~= pre);
                    assert(self.wf()) by {
                        assert(self@.held == pre.held);
                        assert(self@.suppressed == pre.suppressed);
                        assert(self@.chords == pre.chords);
                    }
                    assert(out@ =~= seq![Emitted::Key(*event), Emitted::Sync(event.time)]);
                }
            },
        }
        out
    }
}

/// A selected rule that is not an applicable dual-role rule is a candidate
/// chord.
proof fn lemma_lookup_is_candidate(
    rules: Seq<RuleModel>,
    code: KeyCode,
    held: Set<KeyCode>,
    active: Option<Seq<char>>,
    idx: int,
)
    requires
        lookup_rule(rules, code, held, active) == Option::Some(idx),
        !(rules[idx] is DualRole),
    ensures
        0 <= idx < rules.len(),
        chord_candidate(rules[idx], code, held, active),
{
    match first_dual_from(rules, code, active, 0) {
        Option::Some(d) => {
            lemma_first_dual_props(rules, code, active, 0);
            assert(dual_candidate(rules[d], code, active));
            assert(false);
        },
        Option::None => {
            lemma_best_chord_props(rules, code, held, active, rules.len() as int);
        },
    }
}

/// A selected rule index lies within the rule list.
pub proof fn lemma_lookup_rule_in_range(
    rules: Seq<RuleModel>,
    code: KeyCode,
    held: Set<KeyCode>,
    active: Option<Seq<char>>,
)
    requires
        lookup_rule(rules, code, held, active) is Some,
    ensures
        0 <= lookup_rule(rules, code, held, active)->0 < rules.len(),
{
    match first_dual_from(rules, code, active, 0) {
        Option::Some(d) => {
            lemma_first_dual_props(rules, code, active, 0);
        },
        Option::None => {
            lemma_best_chord_props(rules, code, held, active, rules.len() as int);
        },
    }
}

} // verus!
