//! The input dispatcher: turns key events into triggers and kit changes, and
//! decides which events pass through to other applications.

use crate::bank::BankCell;
use crate::config::{ResolvedBinding, ResolvedCyclingKeys};
use crate::level::Level;
use crate::ring::{send_outcome, Trigger, TriggerProducer};
use crate::samples::{KitLibrary, SampleBank};
use std::collections::{HashMap, HashSet};
use std::sync::Arc;
use vstd::prelude::*;
use vstd::std_specs::iter::IteratorSpec;

verus! {

/// Key bindings: key code to sample index and gain.
pub type KeyMap = HashMap<u16, (usize, Level)>;

/// The key codes that are not passed on to other applications: the bound
/// keys and the cycling keys.
pub type SuppressedKeys = HashSet<u16>;

/// Event type of the marker that ends a batch of events.
pub const SYNCHRONIZATION: u16 = 0x00;

/// Event type of key events.
pub const KEY: u16 = 0x01;

/// Value of a key event for a key going down (0 is up, 2 is repeat).
pub const KEY_DOWN: i32 = 1;

/// One event of the keyboard device.
#[derive(Debug, Clone, Copy, PartialEq, Eq)]
pub struct InputEvent {
    /// The class of the event.
    pub event_type: u16,
    /// The code: for a key event, the key.
    pub code: u16,
    /// The value: for a key event, what the key did.
    pub value: i32,
}

impl InputEvent {
    /// An event of the given type, code and value.
    pub fn new(event_type: u16, code: u16, value: i32) -> (event: InputEvent)
        ensures
            event == (InputEvent { event_type, code, value }),
    {
        InputEvent { event_type, code, value }
    }

    /// Whether the event is a key going down.
    pub open spec fn is_key_down(&self) -> bool {
        self.event_type == KEY && self.value == KEY_DOWN
    }
}

/// A position after one step through `count` positions, forward or
/// backward, wrapping around at the ends. Without positions there is no step.
pub open spec fn stepped(index: int, count: int, forward: bool) -> int {
    if count <= 0 {
        index
    } else if forward {
        (index + 1) % count
    } else {
        (index + count - 1) % count
    }
}

/// A position after `steps` steps.
pub open spec fn stepped_by(index: int, count: int, forward: bool, steps: nat) -> int
    decreases steps,
{
    if steps == 0 {
        index
    } else {
        stepped_by(stepped(index, count, forward), count, forward, (steps - 1) as nat)
    }
}

/// A step backward from the first position leads to the last one, and from
/// any other position to the one before it.
pub proof fn lemma_step_back(index: int, count: int)
    requires
        0 <= index < count,
    ensures
        stepped(index, count, false) == if index == 0 {
            count - 1
        } else {
            index - 1
        },
{
    if index == 0 {
        vstd::arithmetic::div_mod::lemma_small_mod((count - 1) as nat, count as nat);
    } else {
        vstd::arithmetic::div_mod::lemma_mod_add_multiples_vanish(index - 1, count);
        vstd::arithmetic::div_mod::lemma_small_mod((index - 1) as nat, count as nat);
    }
}

/// A step forward from the last position leads to the first one, and from
/// any other position to the one after it.
pub proof fn lemma_step_forward(index: int, count: int)
    requires
        0 <= index < count,
    ensures
        stepped(index, count, true) == if index == count - 1 {
            0
        } else {
            index + 1
        },
{
    if index == count - 1 {
        vstd::arithmetic::div_mod::lemma_mod_self_0(count);
    } else {
        vstd::arithmetic::div_mod::lemma_small_mod((index + 1) as nat, count as nat);
    }
}

/// Stepping keeps a position among the `count` positions.
pub proof fn lemma_stepped_by_in_range(index: int, count: int, forward: bool, steps: nat)
    requires
        0 <= index < count,
    ensures
        0 <= stepped_by(index, count, forward, steps) < count,
    decreases steps,
{
    if steps > 0 {
        lemma_step_back(index, count);
        lemma_step_forward(index, count);
        lemma_stepped_by_in_range(
            stepped(index, count, forward),
            count,
            forward,
            (steps - 1) as nat,
        );
    }
}

/// Stepping once more is one more step from where the steps before led.
pub proof fn lemma_stepped_by_last(index: int, count: int, forward: bool, steps: nat)
    ensures
        stepped_by(index, count, forward, steps + 1) == stepped(
            stepped_by(index, count, forward, steps),
            count,
            forward,
        ),
    decreases steps,
{
    reveal_with_fuel(stepped_by, 2);
    if steps > 0 {
        lemma_stepped_by_last(stepped(index, count, forward), count, forward, (steps - 1) as nat);
    }
}

/// Cycling forward and then backward by the same number of steps, or
/// backward and then forward, leads back to where it began.
pub proof fn lemma_cycle_round_trip(index: int, count: int, forward: bool, steps: nat)
    requires
        0 <= index < count,
    ensures
        stepped_by(stepped_by(index, count, forward, steps), count, !forward, steps) == index,
    decreases steps,
{
    if steps > 0 {
        let fewer = (steps - 1) as nat;
        let near = stepped_by(index, count, forward, fewer);
        let far = stepped_by(index, count, forward, steps);
        lemma_stepped_by_last(index, count, forward, fewer);
        lemma_stepped_by_in_range(index, count, forward, fewer);
        lemma_step_back(near, count);
        lemma_step_forward(near, count);
        assert(far == stepped(near, count, forward));
        lemma_step_back(far, count);
        lemma_step_forward(far, count);
        assert(stepped(far, count, !forward) == near);
        lemma_cycle_round_trip(index, count, forward, fewer);
    }
}

/// The kit and variant that are selected, the library they are selected
/// from, and the cell through which the selected bank is published.
pub struct KitState {
    library: KitLibrary,
    sample_bank: BankCell,
    kit_index: usize,
    variant_index: usize,
}

impl KitState {
    /// The library.
    pub closed spec fn library_view(&self) -> KitLibrary {
        self.library
    }

    /// Index of the selected kit.
    pub closed spec fn kit(&self) -> usize {
        self.kit_index
    }

    /// Index of the selected variant.
    pub closed spec fn variant(&self) -> usize {
        self.variant_index
    }

    /// The bank that is published.
    pub closed spec fn bank(&self) -> SampleBank {
        self.sample_bank.current()
    }

    /// The selection points into the library, as far as the library has
    /// anything to point at.
    pub closed spec fn well_formed(&self) -> bool {
        &&& self.library.kits@.len() == 0 || self.kit_index < self.library.kits@.len()
        &&& self.library.variants_of(self.kit_index as int) == 0 || self.variant_index
            < self.library.variants_of(self.kit_index as int)
    }

    /// The first variant of the first kit selected, with whatever bank the
    /// cell holds.
    pub fn new(library: KitLibrary, sample_bank: BankCell) -> (state: KitState)
        ensures
            state.well_formed(),
            state.library_view() == library,
            state.kit() == 0,
            state.variant() == 0,
            state.bank() == sample_bank.current(),
    {
        KitState { library, sample_bank, kit_index: 0, variant_index: 0 }
    }

    /// Selects the next or the previous kit and its first variant. Returns
    /// whether there is a bank to reload; there is none without kits.
    pub fn cycle_kit(&mut self, forward: bool) -> (reload: bool)
        requires
            old(self).well_formed(),
        ensures
            final(self).well_formed(),
            final(self).library_view() == old(self).library_view(),
            final(self).bank() == old(self).bank(),
            reload == (old(self).library_view().kits@.len() > 0),
            final(self).kit() == stepped(
                old(self).kit() as int,
                old(self).library_view().kits@.len() as int,
                forward,
            ),
            final(self).variant() == if reload {
                0
            } else {
                old(self).variant()
            },
    {
        let count: usize = self.library.kit_count();
        if count == 0 {
            return false;
        }
        self.variant_index = 0;
        if forward {
            self.kit_index = (self.kit_index + 1) % count;
        } else {
            proof {
                lemma_step_back(self.kit_index as int, count as int);
            }
            self.kit_index = if self.kit_index == 0 {
                count - 1
            } else {
                self.kit_index - 1
            };
        }
        true
    }

    /// Selects the next or the previous variant of the selected kit. Returns
    /// whether there is a bank to reload; there is none without variants.
    pub fn cycle_variant(&mut self, forward: bool) -> (reload: bool)
        requires
            old(self).well_formed(),
        ensures
            final(self).well_formed(),
            final(self).library_view() == old(self).library_view(),
            final(self).bank() == old(self).bank(),
            final(self).kit() == old(self).kit(),
            reload == (old(self).library_view().variants_of(old(self).kit() as int) > 0),
            final(self).variant() == stepped(
                old(self).variant() as int,
                old(self).library_view().variants_of(old(self).kit() as int) as int,
                forward,
            ),
    {
        let count: usize = self.library.variant_count(self.kit_index);
        if count == 0 {
            return false;
        }
        if forward {
            self.variant_index = (self.variant_index + 1) % count;
        } else {
            proof {
                lemma_step_back(self.variant_index as int, count as int);
            }
            self.variant_index = if self.variant_index == 0 {
                count - 1
            } else {
                self.variant_index - 1
            };
        }
        true
    }

    /// Ends a reload: publishes the bank that was loaded for the selection,
    /// or keeps the previous one where loading failed.
    pub fn install(&mut self, loaded: Option<SampleBank>)
        ensures
            final(self).well_formed() == old(self).well_formed(),
            final(self).library_view() == old(self).library_view(),
            final(self).kit() == old(self).kit(),
            final(self).variant() == old(self).variant(),
            final(self).bank() == match loaded {
                Some(bank) => bank,
                None => old(self).bank(),
            },
    {
        match loaded {
            Some(bank) => {
                self.sample_bank.store(Arc::new(bank));
            },
            None => {},
        }
    }

    /// The library.
    pub fn library(&self) -> (library: &KitLibrary)
        ensures
            *library == self.library_view(),
    {
        &self.library
    }

    /// Index of the selected kit.
    pub fn kit_index(&self) -> (index: usize)
        ensures
            index == self.kit(),
    {
        self.kit_index
    }

    /// Index of the selected variant.
    pub fn variant_index(&self) -> (index: usize)
        ensures
            index == self.variant(),
    {
        self.variant_index
    }

    /// A share of the bank that is published.
    pub fn current_bank(&self) -> (bank: Arc<SampleBank>)
        ensures
            *bank == self.bank(),
    {
        self.sample_bank.load()
    }
}

/// What a key event asks for.
#[derive(Debug, Clone, Copy)]
pub enum KeyAction {
    /// Nothing: not a key going down, a key that is not bound, or a key
    /// bound to a sample index that is no sample id.
    Nothing,
    /// Play a sample.
    Play(Trigger),
    /// Select the next kit (`true`) or the previous one.
    CycleKit(bool),
    /// Select the next variant (`true`) or the previous one.
    CycleVariant(bool),
}

/// The trigger that a binding to sample `binding.0` with gain `binding.1`
/// sends: the sample index is the sample id and the gain doubles as
/// velocity. A sample index that is no sample id sends nothing.
pub open spec fn bound_trigger(binding: (usize, Level)) -> Option<Trigger> {
    if binding.0 <= u8::MAX {
        Some(Trigger { sample_id: binding.0 as u8, velocity: binding.1 })
    } else {
        None
    }
}

/// The trigger of a binding carries the binding's sample index and gain
/// unchanged.
pub proof fn lemma_sample_id_is_sample_index(binding: (usize, Level))
    ensures
        match bound_trigger(binding) {
            Some(trigger) => trigger.sample_id == binding.0 && trigger.velocity == binding.1,
            None => binding.0 > u8::MAX,
        },
{
}

/// The action for an event. Only a key going down asks for anything; a
/// cycling key comes before a binding of the same key.
pub open spec fn action_for(
    event: InputEvent,
    key_map: Map<u16, (usize, Level)>,
    cycling_keys: ResolvedCyclingKeys,
) -> KeyAction {
    if !event.is_key_down() {
        KeyAction::Nothing
    } else if cycling_keys.next_kit == Some(event.code) {
        KeyAction::CycleKit(true)
    } else if cycling_keys.prev_kit == Some(event.code) {
        KeyAction::CycleKit(false)
    } else if cycling_keys.next_variant == Some(event.code) {
        KeyAction::CycleVariant(true)
    } else if cycling_keys.prev_variant == Some(event.code) {
        KeyAction::CycleVariant(false)
    } else if key_map.contains_key(event.code) {
        match bound_trigger(key_map[event.code]) {
            Some(trigger) => KeyAction::Play(trigger),
            None => KeyAction::Nothing,
        }
    } else {
        KeyAction::Nothing
    }
}

/// Whether an optional key code is `code`.
fn is_code(key: Option<u16>, code: u16) -> (r: bool)
    ensures
        r == (key == Some(code)),
{
    match key {
        Some(k) => k == code,
        None => false,
    }
}

/// Classifies an event.
pub fn key_action(event: &InputEvent, key_map: &KeyMap, cycling_keys: &ResolvedCyclingKeys) -> (action:
    KeyAction)
    ensures
        action == action_for(*event, key_map@, *cycling_keys),
{
    broadcast use vstd::std_specs::hash::group_hash_axioms;

    if event.event_type != KEY || event.value != KEY_DOWN {
        return KeyAction::Nothing;
    }
    let code: u16 = event.code;
    if is_code(cycling_keys.next_kit, code) {
        return KeyAction::CycleKit(true);
    }
    if is_code(cycling_keys.prev_kit, code) {
        return KeyAction::CycleKit(false);
    }
    if is_code(cycling_keys.next_variant, code) {
        return KeyAction::CycleVariant(true);
    }
    if is_code(cycling_keys.prev_variant, code) {
        return KeyAction::CycleVariant(false);
    }
    match key_map.get(&code) {
        Some(binding) => {
            if binding.0 <= 255 {
                KeyAction::Play(Trigger { sample_id: binding.0 as u8, velocity: binding.1 })
            } else {
                KeyAction::Nothing
            }
        },
        None => KeyAction::Nothing,
    }
}

/// What acting on an event came to.
#[derive(Debug, Clone, Copy, PartialEq, Eq)]
pub enum EventOutcome {
    /// The event asked for nothing.
    Ignored,
    /// A trigger was sent, or dropped because the channel was full.
    Triggered { sent: bool },
    /// A cycling key was pressed. With `reload` the selection has moved and
    /// its bank is to be loaded and handed to [`KitState::install`]; without,
    /// there is nothing to select from.
    Cycled { reload: bool },
}

/// Acts on one event: a key going down on a bound key sends a trigger, on a
/// cycling key it moves the kit selection; every other event does nothing.
pub fn handle_event(
    event: &InputEvent,
    key_map: &KeyMap,
    producer: &mut TriggerProducer,
    cycling_keys: &ResolvedCyclingKeys,
    kit_state: &mut KitState,
) -> (outcome: EventOutcome)
    requires
        old(kit_state).well_formed(),
    ensures
        final(kit_state).well_formed(),
        final(kit_state).library_view() == old(kit_state).library_view(),
        final(kit_state).bank() == old(kit_state).bank(),
        !event.is_key_down() ==> outcome == EventOutcome::Ignored && *final(kit_state) == *old(kit_state) && *final(producer) == *old(producer),
        match action_for(*event, key_map@, *cycling_keys) {
            KeyAction::Nothing => {
                &&& outcome == EventOutcome::Ignored
                &&& *final(kit_state) == *old(kit_state)
                &&& *final(producer) == *old(producer)
            },
            KeyAction::Play(trigger) => {
                &&& outcome is Triggered
                &&& *final(kit_state) == *old(kit_state)
                &&& final(producer).capacity() == old(producer).capacity()
                &&& send_outcome(
                    old(producer).pending(),
                    old(producer).capacity(),
                    trigger,
                    final(producer).pending(),
                    outcome->sent,
                )
            },
            KeyAction::CycleKit(forward) => {
                let kits = old(kit_state).library_view().kits@.len();
                &&& *final(producer) == *old(producer)
                &&& outcome == EventOutcome::Cycled { reload: kits > 0 }
                &&& final(kit_state).kit() == stepped(
                    old(kit_state).kit() as int,
                    kits as int,
                    forward,
                )
                &&& final(kit_state).variant() == if kits > 0 {
                    0
                } else {
                    old(kit_state).variant()
                }
            },
            KeyAction::CycleVariant(forward) => {
                let variants = old(kit_state).library_view().variants_of(
                    old(kit_state).kit() as int,
                );
                &&& *final(producer) == *old(producer)
                &&& outcome == EventOutcome::Cycled { reload: variants > 0 }
                &&& final(kit_state).kit() == old(kit_state).kit()
                &&& final(kit_state).variant() == stepped(
                    old(kit_state).variant() as int,
                    variants as int,
                    forward,
                )
            },
        },
{
    match key_action(event, key_map, cycling_keys) {
        KeyAction::Nothing => EventOutcome::Ignored,
        KeyAction::Play(trigger) => {
            let sent = producer.send(trigger);
            EventOutcome::Triggered { sent }
        },
        KeyAction::CycleKit(forward) => {
            let reload = kit_state.cycle_kit(forward);
            EventOutcome::Cycled { reload }
        },
        KeyAction::CycleVariant(forward) => {
            let reload = kit_state.cycle_variant(forward);
            EventOutcome::Cycled { reload }
        },
    }
}

/// Whether an event is a key event on a suppressed key.
pub open spec fn is_suppressed(event: InputEvent, suppressed_keys: Set<u16>) -> bool {
    event.event_type == KEY && suppressed_keys.contains(event.code)
}

/// Whether there is a key event among `events`.
pub open spec fn has_key_event(events: Seq<InputEvent>) -> bool {
    exists|i: int| 0 <= i < events.len() && (#[trigger] events[i]).event_type == KEY
}

/// The events of a batch without the key events on suppressed keys.
pub open spec fn unsuppressed(batch: Seq<InputEvent>, suppressed_keys: Set<u16>) -> Seq<InputEvent> {
    batch.filter(|event: InputEvent| !is_suppressed(event, suppressed_keys))
}

/// What is passed on of a batch: its events without the key events on
/// suppressed keys, unless that leaves a batch that had key events without
/// any. Such a batch is dropped whole, so that no companion of a suppressed
/// key event is passed on alone.
pub open spec fn forwarded(batch: Seq<InputEvent>, suppressed_keys: Set<u16>) -> Seq<InputEvent> {
    let kept = unsuppressed(batch, suppressed_keys);
    if has_key_event(batch) && !has_key_event(kept) {
        Seq::empty()
    } else {
        kept
    }
}

/// Filters one batch of events, given without its synchronization marker.
/// Returns the events to emit, in order; nothing is to be emitted where it
/// returns none.
pub fn forward_batch(batch: &Vec<InputEvent>, suppressed_keys: &SuppressedKeys) -> (forward: Vec<
    InputEvent,
>)
    ensures
        forward@ == forwarded(batch@, suppressed_keys@),
{
    broadcast use vstd::std_specs::hash::group_hash_axioms;

    let ghost keep = |event: InputEvent| !is_suppressed(event, suppressed_keys@);
    let mut forward: Vec<InputEvent> = Vec::new();
    let mut batch_had_key: bool = false;
    let mut has_key: bool = false;
    let mut i: usize = 0;
    proof {
        assert(batch@.take(0).filter(keep) =~= Seq::<InputEvent>::empty()) by {
            reveal(Seq::filter);
        }
    }
    while i < batch.len()
        invariant
            i <= batch@.len(),
            keep == (|event: InputEvent| !is_suppressed(event, suppressed_keys@)),
            forward@ == batch@.take(i as int).filter(keep),
            batch_had_key == has_key_event(batch@.take(i as int)),
            has_key == has_key_event(forward@),
        decreases batch@.len() - i,
    {
        let event: InputEvent = batch[i];
        let ghost head = batch@.take(i as int);
        let ghost kept = forward@;
        proof {
            assert(batch@.take(i + 1) =~= head.push(event));
            assert(head.push(event) =~= head + seq![event]);
            Seq::filter_distributes_over_add(head, seq![event], keep);
            assert(seq![event].filter(keep) =~= if keep(event) {
                seq![event]
            } else {
                Seq::empty()
            }) by {
                reveal_with_fuel(Seq::filter, 2);
                assert(seq![event].drop_last() =~= Seq::<InputEvent>::empty());
            }
            lemma_has_key_event_push(head, event);
            lemma_has_key_event_push(kept, event);
        }
        let is_key: bool = event.event_type == KEY;
        if is_key {
            batch_had_key = true;
        }
        if !(is_key && suppressed_keys.contains(&event.code)) {
            forward.push(event);
            if is_key {
                has_key = true;
            }
            assert(forward@ =~= kept + seq![event]);
        }
        i += 1;
    }
    assert(batch@.take(batch@.len() as int) =~= batch@);
    if batch_had_key && !has_key {
        Vec::new()
    } else {
        forward
    }
}

/// A sequence with one more event has a key event if it had one or the new
/// event is one.
proof fn lemma_has_key_event_push(events: Seq<InputEvent>, event: InputEvent)
    ensures
        has_key_event(events.push(event)) == (has_key_event(events) || event.event_type == KEY),
{
    let longer = events.push(event);
    if has_key_event(events) {
        let i = choose|i: int| 0 <= i < events.len() && (#[trigger] events[i]).event_type == KEY;
        assert(longer[i].event_type == KEY);
    }
    if event.event_type == KEY {
        assert(longer[events.len() as int].event_type == KEY);
    }
    if has_key_event(longer) {
        let i = choose|i: int| 0 <= i < longer.len() && (#[trigger] longer[i]).event_type == KEY;
        if i < events.len() {
            assert(events[i].event_type == KEY);
        }
    }
}

/// Of a batch whose key events are all on suppressed keys, nothing is
/// passed on: neither the key events nor their companions.
pub proof fn lemma_suppressed_batch_is_dropped(batch: Seq<InputEvent>, suppressed_keys: Set<u16>)
    requires
        has_key_event(batch),
        forall|i: int|
            0 <= i < batch.len() && (#[trigger] batch[i]).event_type == KEY
                ==> suppressed_keys.contains(batch[i].code),
    ensures
        forwarded(batch, suppressed_keys) == Seq::<InputEvent>::empty(),
{
    let keep = |event: InputEvent| !is_suppressed(event, suppressed_keys);
    let kept = batch.filter(keep);
    if has_key_event(kept) {
        let i = choose|i: int| 0 <= i < kept.len() && (#[trigger] kept[i]).event_type == KEY;
        batch.lemma_filter_pred(keep, i);
        lemma_filter_subset(batch, keep, i);
    }
}

/// What a filter keeps was there before.
proof fn lemma_filter_subset(events: Seq<InputEvent>, keep: spec_fn(InputEvent) -> bool, i: int)
    requires
        0 <= i < events.filter(keep).len(),
    ensures
        events.contains(events.filter(keep)[i]),
    decreases events.len(),
{
    reveal(Seq::filter);
    if events.len() > 0 {
        let rest = events.drop_last();
        let kept = rest.filter(keep);
        if i < kept.len() {
            lemma_filter_subset(rest, keep, i);
            let j = choose|j: int| 0 <= j < rest.len() && rest[j] == kept[i];
            assert(events[j] == kept[i]);
        } else {
            assert(events[events.len() - 1] == events.last());
        }
    }
}

/// No key event on a suppressed key is ever passed on, and no companion of
/// one alone: what is passed on of a batch with key events has a key event
/// that is not suppressed.
pub proof fn lemma_forwarded_is_clean(batch: Seq<InputEvent>, suppressed_keys: Set<u16>)
    ensures
        forall|i: int|
            0 <= i < forwarded(batch, suppressed_keys).len() ==> !is_suppressed(
                #[trigger] forwarded(batch, suppressed_keys)[i],
                suppressed_keys,
            ),
        has_key_event(batch) && forwarded(batch, suppressed_keys).len() > 0 ==> has_key_event(
            forwarded(batch, suppressed_keys),
        ),
{
    let keep = |event: InputEvent| !is_suppressed(event, suppressed_keys);
    let kept = batch.filter(keep);
    assert forall|i: int| 0 <= i < kept.len() implies keep(#[trigger] kept[i]) by {
        batch.lemma_filter_pred(keep, i);
    }
}

/// A batch without key events on suppressed keys is passed on as it is.
pub proof fn lemma_clean_batch_passes(batch: Seq<InputEvent>, suppressed_keys: Set<u16>)
    requires
        forall|i: int| 0 <= i < batch.len() ==> !is_suppressed(#[trigger] batch[i], suppressed_keys),
    ensures
        forwarded(batch, suppressed_keys) == batch,
{
    let keep = |event: InputEvent| !is_suppressed(event, suppressed_keys);
    lemma_filter_keeps_all(batch, keep);
}

/// A filter that every event passes keeps them all.
proof fn lemma_filter_keeps_all(events: Seq<InputEvent>, keep: spec_fn(InputEvent) -> bool)
    requires
        forall|i: int| 0 <= i < events.len() ==> keep(#[trigger] events[i]),
    ensures
        events.filter(keep) == events,
    decreases events.len(),
{
    reveal(Seq::filter);
    if events.len() > 0 {
        lemma_filter_keeps_all(events.drop_last(), keep);
        assert(events.drop_last().push(events.last()) =~= events);
    }
}

/// Takes one event into the batch that is being gathered. A synchronization
/// marker ends the batch: what is to be passed on of it is returned and the
/// batch starts anew. Any other event joins the batch and nothing is
/// returned.
pub fn collect_event(
    batch: &mut Vec<InputEvent>,
    event: &InputEvent,
    suppressed_keys: &SuppressedKeys,
) -> (forward: Vec<InputEvent>)
    ensures
        event.event_type == SYNCHRONIZATION ==> forward@ == forwarded(
            old(batch)@,
            suppressed_keys@,
        ) && final(batch)@ == Seq::<InputEvent>::empty(),
        event.event_type != SYNCHRONIZATION ==> forward@ == Seq::<InputEvent>::empty() && final(batch)@
            == old(batch)@.push(*event),
{
    if event.event_type == SYNCHRONIZATION {
        let forward = forward_batch(batch, suppressed_keys);
        batch.clear();
        forward
    } else {
        batch.push(*event);
        Vec::new()
    }
}

/// Ends the gathering after the last event that was fetched: what is to be
/// passed on of an unfinished batch is returned and the batch starts anew.
pub fn flush_batch(batch: &mut Vec<InputEvent>, suppressed_keys: &SuppressedKeys) -> (forward: Vec<
    InputEvent,
>)
    ensures
        forward@ == forwarded(old(batch)@, suppressed_keys@),
        final(batch)@ == Seq::<InputEvent>::empty(),
{
    let forward = forward_batch(batch, suppressed_keys);
    batch.clear();
    forward
}

/// What the reader does after a failed fetch.
#[derive(Debug, Clone, Copy, PartialEq, Eq)]
pub enum FetchFailure {
    /// Leave the loop without an error.
    Stop,
    /// Fetch again.
    Retry,
    /// Leave the loop with the error.
    Fail,
}

/// Decides what follows a failed fetch: with shutdown requested the reader
/// stops, an interrupted read is tried again, any other error ends the
/// reader.
pub fn after_fetch_error(shutdown: bool, interrupted: bool) -> (next: FetchFailure)
    ensures
        next == if shutdown {
            FetchFailure::Stop
        } else if interrupted {
            FetchFailure::Retry
        } else {
            FetchFailure::Fail
        },
{
    if shutdown {
        FetchFailure::Stop
    } else if interrupted {
        FetchFailure::Retry
    } else {
        FetchFailure::Fail
    }
}

/// Builds the key map of the dispatcher from the bindings of the
/// configuration: the same keys, each with the sample index and the gain of
/// its binding.
pub fn build_key_map(key_map: &HashMap<u16, ResolvedBinding>) -> (built: KeyMap)
    ensures
        built@.dom() == key_map@.dom(),
        forall|code: u16| #[trigger]
            key_map@.contains_key(code) ==> built@[code] == (
                key_map@[code].sample_index,
                key_map@[code].gain,
            ),
{
    broadcast use vstd::std_specs::hash::group_hash_axioms;

    let mut built: KeyMap = HashMap::new();
    for entry in iter: key_map.iter()
        invariant
            iter.seq() == key_map.iter().remaining(),
            forall|code: u16| #[trigger]
                built@.contains_key(code) <==> exists|j: int|
                    0 <= j < iter.index() && *(#[trigger] iter.seq()[j]).0 == code,
            forall|code: u16| #[trigger]
                built@.contains_key(code) ==> key_map@.contains_key(code) && built@[code] == (
                    key_map@[code].sample_index,
                    key_map@[code].gain,
                ),
    {
        let ghost before = built@;
        let ghost at = iter.index();
        built.insert(*entry.0, (entry.1.sample_index, entry.1.gain));
        proof {
            assert(iter.seq()[at] == entry);
            assert forall|code: u16| #[trigger] built@.contains_key(code) implies exists|j: int|
                0 <= j < at + 1 && *(#[trigger] iter.seq()[j]).0 == code by {
                if code == *entry.0 {
                    assert(*iter.seq()[at].0 == code);
                } else {
                    assert(before.contains_key(code));
                    let j = choose|j: int| 0 <= j < at && *(#[trigger] iter.seq()[j]).0 == code;
                    assert(*iter.seq()[j].0 == code);
                }
            }
        }
    }
    proof {
        let pairs = key_map.iter().remaining();
        assert(built@.dom() =~= key_map@.dom()) by {
            assert forall|code: u16| key_map@.contains_key(code) implies built@.contains_key(
                code,
            ) by {
                assert(pairs.contains((&code, &key_map@[code])));
                let j = choose|j: int| 0 <= j < pairs.len() && pairs[j] == (&code, &key_map@[code]);
                assert(*pairs[j].0 == code);
            }
        }
    }
    built
}

/// Adds a cycling key, where one is configured, to the suppressed keys.
fn suppress(suppressed: &mut SuppressedKeys, key: Option<u16>)
    ensures
        final(suppressed)@ == match key {
            Some(code) => old(suppressed)@.insert(code),
            None => old(suppressed)@,
        },
{
    broadcast use vstd::std_specs::hash::group_hash_axioms;

    match key {
        Some(code) => {
            suppressed.insert(code);
        },
        None => {},
    }
}

/// Builds the set of suppressed key codes: every bound key and every
/// cycling key that is configured, and no other.
pub fn build_suppressed_keys(key_map: &KeyMap, cycling_keys: &ResolvedCyclingKeys) -> (suppressed:
    SuppressedKeys)
    ensures
        forall|code: u16|
            suppressed@.contains(code) <==> key_map@.contains_key(code) || cycling_keys.contains(
                code,
            ),
{
    broadcast use vstd::std_specs::hash::group_hash_axioms;

    let mut suppressed: SuppressedKeys = HashSet::new();
    for code in iter: key_map.keys()
        invariant
            iter.seq() == key_map.keys().remaining(),
            forall|k: u16|
                suppressed@.contains(k) <==> exists|j: int|
                    0 <= j < iter.index() && *(#[trigger] iter.seq()[j]) == k,
    {
        let ghost before = suppressed@;
        let ghost at = iter.index();
        suppressed.insert(*code);
        proof {
            assert(*iter.seq()[at] == *code);
            assert forall|k: u16| suppressed@.contains(k) implies exists|j: int|
                0 <= j < at + 1 && *(#[trigger] iter.seq()[j]) == k by {
                if k == *code {
                    assert(*iter.seq()[at] == k);
                } else {
                    assert(before.contains(k));
                    let j = choose|j: int| 0 <= j < at && *(#[trigger] iter.seq()[j]) == k;
                    assert(*iter.seq()[j] == k);
                }
            }
        }
    }
    proof {
        let keys = key_map.keys().remaining();
        assert(keys.unref().to_set() == key_map@.dom());
        assert forall|k: u16| suppressed@.contains(k) <==> key_map@.contains_key(k) by {
            if suppressed@.contains(k) {
                let j = choose|j: int| 0 <= j < keys.len() && *(#[trigger] keys[j]) == k;
                assert(keys.unref()[j] == k);
                assert(keys.unref().to_set().contains(k));
            }
            if key_map@.contains_key(k) {
                assert(keys.unref().to_set().contains(k));
                let j = choose|j: int| 0 <= j < keys.unref().len() && keys.unref()[j] == k;
                assert(*keys[j] == k);
            }
        }
    }
    suppress(&mut suppressed, cycling_keys.next_kit);
    suppress(&mut suppressed, cycling_keys.prev_kit);
    suppress(&mut suppressed, cycling_keys.next_variant);
    suppress(&mut suppressed, cycling_keys.prev_variant);
    suppressed
}

} // verus!
