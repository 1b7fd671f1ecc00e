//! Laws of the engine: what holds of every event and every emission.

use crate::engine::{
    apply_emitted, broken_suppress, desired_set, dual_role_fold, dual_role_step,
    emit_step, first_dual_from, is_diff_emission, keys_emission, lookup_rule, model_inv,
    release_mid_model, repeat_chord_sel, rule_tap, step_transition, ChordModel, EngineModel,
    RemapEngine,
};
use crate::event::{spec_key_out, Emitted, KeyEvent, KeyEventType, TimeVal};
use crate::keycode::{spec_is_modifier, KeyCode};
use vstd::prelude::*;

verus! {

/// Writing two events applies their two steps in order.
pub proof fn lemma_apply_two(v: Set<KeyCode>, a: Emitted, b: Emitted)
    ensures
        apply_emitted(v, seq![a, b]) == emit_step(emit_step(v, a), b),
{
    let s = seq![a, b];
    assert(s.drop_last() =~= seq![a]);
    assert(seq![a].drop_last() =~= Seq::<Emitted>::empty());
    assert(apply_emitted(v, Seq::<Emitted>::empty()) == v);
    assert(apply_emitted(v, seq![a]) == emit_step(v, a));
}

/// A reconciliation leaves the virtual-held set at exactly the desired set.
pub proof fn lemma_diff_emission_applies(
    out: Seq<Emitted>,
    before: Set<KeyCode>,
    desired: Set<KeyCode>,
    t: TimeVal,
)
    requires
        is_diff_emission(out, before, desired, t),
    ensures
        apply_emitted(before, out) == desired,
{
    let (rel, prs) = choose|rel: Seq<KeyCode>, prs: Seq<KeyCode>|
        crate::engine::diff_emission_parts(out, before, desired, t, rel, prs);
    let rel_out: Seq<Emitted> = if rel.len() > 0 {
        keys_emission(rel, KeyEventType::Release, t)
    } else {
        Seq::<Emitted>::empty()
    };
    let prs_out: Seq<Emitted> = if prs.len() > 0 {
        keys_emission(prs, KeyEventType::Press, t)
    } else {
        Seq::<Emitted>::empty()
    };
    crate::engine::lemma_apply_emitted_append(before, rel_out, prs_out);
    crate::engine::lemma_apply_keys_emission(before, rel, KeyEventType::Release, t);
    let v1 = apply_emitted(before, rel_out);
    if rel.len() == 0 {
        assert(apply_emitted(before, rel_out) == before);
    }
    crate::engine::lemma_apply_keys_emission(v1, prs, KeyEventType::Press, t);
    let v2 = apply_emitted(v1, prs_out);
    if prs.len() == 0 {
        assert(apply_emitted(v1, prs_out) == v1);
    }
    assert(v2 =~= desired) by {
        if rel.len() > 0 {
            if prs.len() > 0 {
                assert(v2 == before.difference(rel.to_set()).union(prs.to_set()));
            } else {
                assert(v2 == before.difference(rel.to_set()));
                assert forall|k: KeyCode| desired.contains(k) implies v2.contains(k) by {
                    assert(!prs.to_set().contains(k));
                }
            }
        } else {
            if prs.len() > 0 {
                assert(v2 == before.union(prs.to_set()));
                assert forall|k: KeyCode| v2.contains(k) implies desired.contains(k) by {
                    if before.contains(k) {
                        assert(!rel.to_set().contains(k));
                    }
                }
            } else {
                assert(v2 == before);
                assert forall|k: KeyCode| v2.contains(k) implies desired.contains(k) by {
                    assert(!rel.to_set().contains(k));
                }
                assert forall|k: KeyCode| desired.contains(k) implies v2.contains(k) by {
                    assert(!prs.to_set().contains(k));
                }
            }
        }
    }
}

/// After each event, the virtual-held set equals the fold of the emitted
/// writes over its previous value: the engine's model of what it has
/// emitted is exactly what it reports as held.
pub proof fn lemma_virtual_tracks_emissions(
    pre: EngineModel,
    post: EngineModel,
    e: KeyEvent,
    out: Seq<Emitted>,
)
    requires
        step_transition(pre, post, e, out),
        forall|i: int| 0 <= i < pre.rules.len() ==> crate::mapping::rule_model_wf(
            #[trigger] pre.rules[i],
        ),
    ensures
        post.virtual_held == apply_emitted(pre.virtual_held, out),
{
    let v = pre.virtual_held;
    match KeyEventType::spec_from_value(e.value) {
        KeyEventType::Release => {
            if !pre.held.dom().contains(e.code) {
                lemma_apply_two(v, Emitted::Key(e), Emitted::Sync(e.time));
            } else {
                let mid = release_mid_model(pre, e.code);
                let desired = desired_set(mid);
                match first_dual_from(pre.rules, e.code, pre.mode, 0) {
                    Option::None => {
                        lemma_diff_emission_applies(out, v, desired, e.time);
                    },
                    Option::Some(d) => {
                        let t0 = pre.held[e.code];
                        let tap = rule_tap(pre.rules[d]);
                        if pre.tapping == Option::Some(e.code) && e.time.spec_micros()
                            - t0.spec_micros() <= 200_000 {
                            let diff = choose|diff: Seq<Emitted>|
                                {
                                    &&& #[trigger] is_diff_emission(diff, v, desired, e.time)
                                    &&& out == diff + keys_emission(
                                        tap,
                                        KeyEventType::Press,
                                        e.time,
                                    ) + keys_emission(tap, KeyEventType::Release, e.time)
                                };
                            let tap_p = keys_emission(tap, KeyEventType::Press, e.time);
                            let tap_r = keys_emission(tap, KeyEventType::Release, e.time);
                            lemma_diff_emission_applies(diff, v, desired, e.time);
                            crate::engine::lemma_apply_emitted_append(v, diff + tap_p, tap_r);
                            crate::engine::lemma_apply_emitted_append(v, diff, tap_p);
                            crate::engine::lemma_apply_keys_emission(
                                desired,
                                tap,
                                KeyEventType::Press,
                                e.time,
                            );
                            crate::engine::lemma_apply_keys_emission(
                                desired.union(tap.to_set()),
                                tap,
                                KeyEventType::Release,
                                e.time,
                            );
                            assert(desired.union(tap.to_set()).difference(tap.to_set())
                                =~= desired.difference(tap.to_set()));
                        } else {
                            lemma_diff_emission_applies(out, v, desired, e.time);
                        }
                    },
                }
            }
        },
        KeyEventType::Press => {
            let held1 = pre.held.insert(e.code, e.time);
            match lookup_rule(pre.rules, e.code, held1.dom(), pre.mode) {
                Option::None => {
                    lemma_diff_emission_applies(out, v, post.virtual_held, e.time);
                },
                Option::Some(ri) => match pre.rules[ri] {
                    crate::mapping::RuleModel::DualRole { .. } => {
                        lemma_diff_emission_applies(out, v, post.virtual_held, e.time);
                    },
                    crate::mapping::RuleModel::Remap { .. } => {
                        lemma_diff_emission_applies(out, v, post.virtual_held, e.time);
                    },
                    crate::mapping::RuleModel::ModeSwitch { .. } => {
                        lemma_diff_emission_applies(out, v, post.virtual_held, e.time);
                    },
                },
            }
        },
        KeyEventType::Repeat => {
            match repeat_chord_sel(pre.chords, e.code, pre.mode) {
                Option::Some(ci) => {
                    crate::engine::lemma_apply_keys_emission(
                        v,
                        pre.chords[ci].outputs_seq,
                        KeyEventType::Repeat,
                        e.time,
                    );
                },
                Option::None => match lookup_rule(pre.rules, e.code, pre.held.dom(), pre.mode) {
                    Option::Some(ri) => match pre.rules[ri] {
                        crate::mapping::RuleModel::DualRole { hold, .. } => {
                            crate::engine::lemma_apply_keys_emission(
                                v,
                                hold,
                                KeyEventType::Repeat,
                                e.time,
                            );
                        },
                        crate::mapping::RuleModel::Remap { output, output_seq, .. } => {
                            crate::engine::lemma_apply_keys_emission(
                                v,
                                output_seq,
                                KeyEventType::Repeat,
                                e.time,
                            );
                            crate::engine::lemma_lookup_rule_in_range(
                                pre.rules,
                                e.code,
                                pre.held.dom(),
                                pre.mode,
                            );
                            assert(crate::mapping::rule_model_wf(pre.rules[ri]));
                            assert(output == output_seq.to_set());
                        },
                        crate::mapping::RuleModel::ModeSwitch { .. } => {
                        },
                    },
                    Option::None => {
                        if pre.suppressed.contains(e.code) {
                        } else {
                            lemma_apply_two(v, Emitted::Key(e), Emitted::Sync(e.time));
                        }
                    },
                },
            }
        },
        KeyEventType::Unknown(..) => {
            lemma_apply_two(v, Emitted::Key(e), Emitted::Sync(e.time));
        },
    }
}

/// After each event, every suppressed key is still physically held.
pub proof fn lemma_suppressed_are_held(e: &RemapEngine)
    requires
        e.wf(),
    ensures
        e@.suppressed.subset_of(e@.held.dom()),
{
    e.lemma_wf_model_inv();
}

/// After each event, every active chord's trigger keys are all held.
pub proof fn lemma_chord_inputs_held(e: &RemapEngine, i: int)
    requires
        e.wf(),
        0 <= i < e@.chords.len(),
    ensures
        e@.chords[i].inputs.subset_of(e@.held.dom()),
{
    e.lemma_wf_model_inv();
}

/// The projection is a function of the state alone: with no intervening
/// state change, a second projection returns the same set. (`compute_keys`
/// ensures its result equals `desired_set` of the state, so two calls on
/// one state return equal sets.)
pub proof fn lemma_projection_deterministic(m1: EngineModel, m2: EngineModel)
    requires
        m1 == m2,
    ensures
        desired_set(m1) == desired_set(m2),
{
}

/// Folding the dual-role rules over an empty key set leaves it empty.
proof fn lemma_dual_fold_empty(
    rules: Seq<crate::mapping::RuleModel>,
    base: Set<KeyCode>,
    active: Option<Seq<char>>,
)
    requires
        forall|k: KeyCode| !(#[trigger] base.contains(k)),
    ensures
        dual_role_fold(rules, base, active) == base,
    decreases rules.len(),
{
    if rules.len() > 0 {
        lemma_dual_fold_empty(rules.drop_last(), base, active);
        assert(dual_role_step(base, rules.last(), active) == base);
    }
}

/// A release that leaves no key physically held leaves no key virtually
/// held either.
pub proof fn lemma_release_to_empty_clears_virtual(
    pre: EngineModel,
    post: EngineModel,
    e: KeyEvent,
    out: Seq<Emitted>,
)
    requires
        model_inv(pre),
        step_transition(pre, post, e, out),
        KeyEventType::spec_from_value(e.value) == KeyEventType::Release,
        pre.held.dom().contains(e.code),
        forall|k: KeyCode| !(#[trigger] post.held.dom().contains(k)),
    ensures
        forall|k: KeyCode| !(#[trigger] post.virtual_held.contains(k)),
{
    let mid = release_mid_model(pre, e.code);
    let held1 = pre.held.remove(e.code);
    let fpred = |c: ChordModel| !c.inputs.contains(e.code);
    assert(mid.chords.len() == 0) by {
        if mid.chords.len() > 0 {
            pre.chords.lemma_filter_pred(fpred, 0);
            let c = mid.chords[0];
            assert(pre.chords.filter(fpred).contains(c)) by {
                assert(pre.chords.filter(fpred)[0] == c);
            }
            pre.chords.lemma_filter_contains_rev(fpred, c);
            let j = choose|j: int| 0 <= j < pre.chords.len() && #[trigger] pre.chords[j] == c;
            assert(crate::engine::chord_inv(pre.chords[j], pre.held.dom()));
            let m = choose|m: KeyCode| c.inputs.contains(m);
            assert(m != e.code);
            assert(pre.held.dom().contains(m));
            assert(post.held.dom().contains(m));
        }
    }
    let base = mid.held.dom().difference(mid.suppressed);
    assert(forall|k: KeyCode| !(#[trigger] base.contains(k))) by {
        assert(mid.held == post.held);
    }
    lemma_dual_fold_empty(mid.rules, base, mid.mode);
    assert(desired_set(mid) == base);
    match first_dual_from(pre.rules, e.code, pre.mode, 0) {
        Option::None => {
            assert(post.virtual_held == base);
        },
        Option::Some(d) => {
            let tap = rule_tap(pre.rules[d]);
            let t0 = pre.held[e.code];
            if pre.tapping == Option::Some(e.code) && e.time.spec_micros() - t0.spec_micros()
                <= 200_000 {
                assert(post.virtual_held == base.difference(tap.to_set()));
            } else {
                assert(post.virtual_held == base);
            }
        },
    }
}

/// Whether an emitted event is a key press.
pub open spec fn is_key_press(x: Emitted) -> bool {
    match x {
        Emitted::Key(ev) => KeyEventType::spec_from_value(ev.value) == KeyEventType::Press,
        Emitted::Sync(_) => false,
    }
}

/// Whether an emitted event is a key release.
pub open spec fn is_key_release(x: Emitted) -> bool {
    match x {
        Emitted::Key(ev) => KeyEventType::spec_from_value(ev.value) == KeyEventType::Release,
        Emitted::Sync(_) => false,
    }
}

/// The key code an emitted key event carries.
pub open spec fn emitted_code(x: Emitted) -> KeyCode {
    match x {
        Emitted::Key(ev) => ev.code,
        Emitted::Sync(_) => 0,
    }
}

/// In a reconciliation, no non-modifier press precedes a modifier press,
/// and no modifier release precedes a non-modifier release.
pub proof fn lemma_modifier_order(
    out: Seq<Emitted>,
    before: Set<KeyCode>,
    desired: Set<KeyCode>,
    t: TimeVal,
)
    requires
        is_diff_emission(out, before, desired, t),
    ensures
        forall|i: int, j: int|
            0 <= i < j < out.len() && is_key_press(#[trigger] out[i]) && is_key_press(
                #[trigger] out[j],
            ) && !spec_is_modifier(emitted_code(out[i])) ==> !spec_is_modifier(
                emitted_code(out[j]),
            ),
        forall|i: int, j: int|
            0 <= i < j < out.len() && is_key_release(#[trigger] out[i]) && is_key_release(
                #[trigger] out[j],
            ) && spec_is_modifier(emitted_code(out[i])) ==> spec_is_modifier(
                emitted_code(out[j]),
            ),
{
    let (rel, prs) = choose|rel: Seq<KeyCode>, prs: Seq<KeyCode>|
        crate::engine::diff_emission_parts(out, before, desired, t, rel, prs);
    let rel_out: Seq<Emitted> = if rel.len() > 0 {
        keys_emission(rel, KeyEventType::Release, t)
    } else {
        Seq::<Emitted>::empty()
    };
    let prs_out: Seq<Emitted> = if prs.len() > 0 {
        keys_emission(prs, KeyEventType::Press, t)
    } else {
        Seq::<Emitted>::empty()
    };
    assert forall|i: int| 0 <= i < out.len() && is_key_press(#[trigger] out[i]) implies {
        &&& i >= rel_out.len()
        &&& i - rel_out.len() < prs.len()
        &&& emitted_code(out[i]) == prs[i - rel_out.len()]
    } by {
        if i < rel_out.len() {
            if i < rel.len() {
                assert(out[i] == spec_key_out(rel[i], KeyEventType::Release, t));
            } else {
                assert(out[i] == Emitted::Sync(t));
            }
        } else {
            let p = i - rel_out.len();
            if p < prs.len() {
                assert(out[i] == spec_key_out(prs[p], KeyEventType::Press, t));
            } else {
                assert(out[i] == Emitted::Sync(t));
            }
        }
    }
    assert forall|i: int| 0 <= i < out.len() && is_key_release(#[trigger] out[i]) implies {
        &&& i < rel.len()
        &&& emitted_code(out[i]) == rel[i]
    } by {
        if i < rel_out.len() {
            if i < rel.len() {
                assert(out[i] == spec_key_out(rel[i], KeyEventType::Release, t));
            } else {
                assert(out[i] == Emitted::Sync(t));
            }
        } else {
            let p = i - rel_out.len();
            if p < prs.len() {
                assert(out[i] == spec_key_out(prs[p], KeyEventType::Press, t));
            } else {
                assert(out[i] == Emitted::Sync(t));
            }
        }
    }
}

/// The reconciliation that releases exactly one key emits that release and
/// one sync, and nothing else.
proof fn lemma_diff_only_release_of(
    out: Seq<Emitted>,
    before: Set<KeyCode>,
    desired: Set<KeyCode>,
    t: TimeVal,
    k: KeyCode,
)
    requires
        is_diff_emission(out, before, desired, t),
        before.difference(desired) == Set::<KeyCode>::empty().insert(k),
        desired.difference(before) == Set::<KeyCode>::empty(),
    ensures
        out == seq![spec_key_out(k, KeyEventType::Release, t), Emitted::Sync(t)],
{
    let (rel, prs) = choose|rel: Seq<KeyCode>, prs: Seq<KeyCode>|
        crate::engine::diff_emission_parts(out, before, desired, t, rel, prs);
    prs.unique_seq_to_set();
    rel.unique_seq_to_set();
    assert(Set::<KeyCode>::empty().insert(k).len() == 1);
    assert(rel.len() == 1);
    assert(prs.len() == 0);
    assert(rel.to_set().contains(rel[0]));
    assert(rel[0] == k);
    assert(rel =~= seq![k]);
    assert(out =~= keys_emission(seq![k], KeyEventType::Release, t));
    assert(keys_emission(seq![k], KeyEventType::Release, t) =~= seq![
        spec_key_out(k, KeyEventType::Release, t),
        Emitted::Sync(t),
    ]);
}

/// The reconciliation that presses exactly one key emits that press and
/// one sync, and nothing else.
proof fn lemma_diff_only_press_of(
    out: Seq<Emitted>,
    before: Set<KeyCode>,
    desired: Set<KeyCode>,
    t: TimeVal,
    k: KeyCode,
)
    requires
        is_diff_emission(out, before, desired, t),
        before.difference(desired) == Set::<KeyCode>::empty(),
        desired.difference(before) == Set::<KeyCode>::empty().insert(k),
    ensures
        out == seq![spec_key_out(k, KeyEventType::Press, t), Emitted::Sync(t)],
{
    let (rel, prs) = choose|rel: Seq<KeyCode>, prs: Seq<KeyCode>|
        crate::engine::diff_emission_parts(out, before, desired, t, rel, prs);
    prs.unique_seq_to_set();
    rel.unique_seq_to_set();
    assert(Set::<KeyCode>::empty().insert(k).len() == 1);
    assert(prs.len() == 1);
    assert(rel.len() == 0);
    assert(prs.to_set().contains(prs[0]));
    assert(prs[0] == k);
    assert(prs =~= seq![k]);
    assert(out =~= Seq::<Emitted>::empty() + keys_emission(seq![k], KeyEventType::Press, t));
    assert(out =~= keys_emission(seq![k], KeyEventType::Press, t));
    assert(keys_emission(seq![k], KeyEventType::Press, t) =~= seq![
        spec_key_out(k, KeyEventType::Press, t),
        Emitted::Sync(t),
    ]);
}

/// With no rules and a clean engine, each event of a physical stream is
/// forwarded as itself, with one sync after it, and the engine stays clean:
/// no suppression, no chords, and the virtual set mirroring the held set.
/// A physical stream presses only keys not yet held and repeats only keys
/// still held.
pub proof fn lemma_no_rules_passthrough(
    pre: EngineModel,
    post: EngineModel,
    e: KeyEvent,
    out: Seq<Emitted>,
)
    requires
        model_inv(pre),
        step_transition(pre, post, e, out),
        pre.rules.len() == 0,
        pre.chords.len() == 0,
        pre.suppressed == Set::<KeyCode>::empty(),
        pre.virtual_held == pre.held.dom(),
        KeyEventType::spec_from_value(e.value) == KeyEventType::Press ==> !pre.held.dom()
            .contains(e.code),
        KeyEventType::spec_from_value(e.value) == KeyEventType::Repeat ==> pre.held.dom().contains(
            e.code,
        ),
    ensures
        out == seq![Emitted::Key(e), Emitted::Sync(e.time)],
        post.rules.len() == 0,
        post.chords.len() == 0,
        post.suppressed == Set::<KeyCode>::empty(),
        post.virtual_held == post.held.dom(),
{
    let v = pre.virtual_held;
    match KeyEventType::spec_from_value(e.value) {
        KeyEventType::Release => {
            if !pre.held.dom().contains(e.code) {
                assert(post.virtual_held =~= post.held.dom());
            } else {
                let mid = release_mid_model(pre, e.code);
                let held1 = pre.held.remove(e.code);
                assert(mid.chords.len() == 0) by {
                    pre.chords.lemma_filter_len(|c: ChordModel| !c.inputs.contains(e.code));
                }
                assert(mid.suppressed =~= Set::<KeyCode>::empty()) by {
                    assert forall|m: KeyCode|
                        broken_suppress(pre.chords, e.code, held1.dom()).contains(
                            m,
                        ) implies false by {
                        assert(crate::engine::in_broken_chord(pre.chords, e.code, m));
                    }
                }
                let base = mid.held.dom().difference(mid.suppressed);
                assert(base =~= held1.dom());
                lemma_dual_fold_empty_rules(mid.rules, base, mid.mode);
                let desired = desired_set(mid);
                assert(desired == base);
                assert(first_dual_from(pre.rules, e.code, pre.mode, 0) is None);
                assert(v.difference(desired) =~= Set::<KeyCode>::empty().insert(e.code));
                assert(desired.difference(v) =~= Set::<KeyCode>::empty());
                lemma_diff_only_release_of(out, v, desired, e.time, e.code);
                assert(spec_key_out(e.code, KeyEventType::Release, e.time) == Emitted::Key(e));
                assert(out =~= seq![Emitted::Key(e), Emitted::Sync(e.time)]);
                assert(post.virtual_held =~= post.held.dom());
                assert(post.suppressed =~= Set::<KeyCode>::empty());
            }
        },
        KeyEventType::Press => {
            let held1 = pre.held.insert(e.code, e.time);
            assert(first_dual_from(pre.rules, e.code, pre.mode, 0) is None);
            assert(crate::engine::best_chord_upto(
                pre.rules,
                e.code,
                held1.dom(),
                pre.mode,
                pre.rules.len() as int,
            ) is None);
            let supp1 = pre.suppressed.intersect(held1.dom());
            assert(supp1 =~= Set::<KeyCode>::empty());
            let mid = EngineModel {
                held: held1,
                suppressed: supp1,
                tapping: Option::None,
                ..pre
            };
            let base = mid.held.dom().difference(mid.suppressed);
            assert(base =~= held1.dom());
            lemma_dual_fold_empty_rules(mid.rules, base, mid.mode);
            let desired = desired_set(mid);
            assert(desired == base);
            assert(v.difference(desired) =~= Set::<KeyCode>::empty());
            assert(desired.difference(v) =~= Set::<KeyCode>::empty().insert(e.code));
            lemma_diff_only_press_of(out, v, desired, e.time, e.code);
            assert(spec_key_out(e.code, KeyEventType::Press, e.time) == Emitted::Key(e));
            assert(out =~= seq![Emitted::Key(e), Emitted::Sync(e.time)]);
            assert(post.virtual_held =~= post.held.dom());
            assert(post.suppressed =~= Set::<KeyCode>::empty());
        },
        KeyEventType::Repeat => {
            assert(crate::engine::first_dual_chord_from(pre.chords, e.code, pre.mode, 0)
                is None);
            assert(crate::engine::best_remap_chord_upto(
                pre.chords,
                e.code,
                pre.mode,
                pre.chords.len() as int,
            ) is None);
            assert(repeat_chord_sel(pre.chords, e.code, pre.mode) is None);
            assert(first_dual_from(pre.rules, e.code, pre.mode, 0) is None);
            assert(crate::engine::best_chord_upto(
                pre.rules,
                e.code,
                pre.held.dom(),
                pre.mode,
                pre.rules.len() as int,
            ) is None);
            assert(!pre.suppressed.contains(e.code));
            assert(post.virtual_held =~= post.held.dom());
        },
        KeyEventType::Unknown(..) => {
        },
    }
}

/// Folding an empty rule list's dual-role steps changes nothing; stated
/// over any key set for a rule list of length zero.
proof fn lemma_dual_fold_empty_rules(
    rules: Seq<crate::mapping::RuleModel>,
    base: Set<KeyCode>,
    active: Option<Seq<char>>,
)
    requires
        rules.len() == 0,
    ensures
        dual_role_fold(rules, base, active) == base,
{
}

} // verus!
